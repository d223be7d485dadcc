use np_feasibility::bounds::constraints::strengthen_bounds_using_constraints;
use np_feasibility::problem::{Constraint, ConstraintType, Job, Problem};
use np_feasibility::simulator::Simulator;

#[test]
fn small_simple_problem_with_one_core() {
	let problem = Problem {
		jobs: vec![
			Job::release_to_deadline(0, 0, 20, 50),
			Job::release_to_deadline(1, 10, 30, 50)
		],
		constraints: vec![],
		num_cores: 1
	};
	assert!(problem.validate());

	let mut good_simulator = Simulator::new(&problem);
	assert_eq!(0, good_simulator.num_dispatched_jobs());
	good_simulator.schedule(problem.jobs[0]);
	assert_eq!(1, good_simulator.num_dispatched_jobs());
	good_simulator.schedule(problem.jobs[1]);
	assert_eq!(2, good_simulator.num_dispatched_jobs());
	assert!(!good_simulator.has_missed_deadline());

	let mut bad_simulator = Simulator::new(&problem);
	assert_eq!(0, bad_simulator.num_dispatched_jobs());
	bad_simulator.schedule(problem.jobs[1]);
	assert_eq!(1, bad_simulator.num_dispatched_jobs());
	bad_simulator.schedule(problem.jobs[0]);
	assert_eq!(2, bad_simulator.num_dispatched_jobs());
	assert!(bad_simulator.has_missed_deadline());
}

#[test]
fn test_larger_problem_with_one_core() {
	let problem = Problem {
		jobs: vec![
			Job::release_to_deadline(0, 0, 2, 10),
			Job::release_to_deadline(1, 10, 2, 20),
			Job::release_to_deadline(2, 20, 2, 30),
			Job::release_to_deadline(3, 30, 2, 40),
			Job::release_to_deadline(4, 40, 2, 50),
			Job::release_to_deadline(5, 50, 2, 60),

			Job::release_to_deadline(6, 0, 8, 30),
			Job::release_to_deadline(7, 30, 8, 60),

			Job::release_to_deadline(8, 0, 13, 60),
		],
		constraints: vec![],
		num_cores: 1
	};
	assert!(problem.validate());

	let mut good_simulator = Simulator::new(&problem);
	good_simulator.schedule(problem.jobs[0]);
	good_simulator.schedule(problem.jobs[6]);
	good_simulator.schedule(problem.jobs[1]);
	good_simulator.schedule(problem.jobs[8]);
	good_simulator.schedule(problem.jobs[2]);
	good_simulator.schedule(problem.jobs[3]);
	good_simulator.schedule(problem.jobs[7]);
	good_simulator.schedule(problem.jobs[4]);
	good_simulator.schedule(problem.jobs[5]);
	assert_eq!(9, good_simulator.num_dispatched_jobs());
	assert!(!good_simulator.has_missed_deadline());

	let mut bad_simulator = Simulator::new(&problem);
	bad_simulator.schedule(problem.jobs[0]);
	bad_simulator.schedule(problem.jobs[6]);
	bad_simulator.schedule(problem.jobs[8]);
	bad_simulator.schedule(problem.jobs[1]);
	assert!(bad_simulator.has_missed_deadline());
	assert_eq!(4, bad_simulator.num_dispatched_jobs());
}

#[test]
fn test_predict_start_time_with_one_core() {
	let problem = Problem {
		jobs: vec![
			Job::release_to_deadline(0, 0, 20, 50),
			Job::release_to_deadline(1, 10, 30, 50)
		],
		constraints: vec![],
		num_cores: 1
	};
	assert!(problem.validate());

	let mut simulator = Simulator::new(&problem);
	assert_eq!(0, simulator.predict_start_time(problem.jobs[0]));
	assert_eq!(20, simulator.predict_next_start_time(problem.jobs[0]));
	assert_eq!(10, simulator.predict_start_time(problem.jobs[1]));
	assert_eq!(40, simulator.predict_next_start_time(problem.jobs[1]));

	simulator.schedule(problem.jobs[0]);
	assert_eq!(20, simulator.predict_start_time(problem.jobs[1]));
	assert_eq!(50, simulator.predict_next_start_time(problem.jobs[1]));
}

#[test]
fn test_predict_start_time_with_two_cores() {
	let problem = Problem {
		jobs: vec![
			Job::release_to_deadline(0, 0, 20, 50),
			Job::release_to_deadline(1, 10, 30, 50)
		],
		constraints: vec![],
		num_cores: 2
	};
	assert!(problem.validate());

	let mut simulator = Simulator::new(&problem);
	assert_eq!(0, simulator.predict_start_time(problem.jobs[0]));
	assert_eq!(0, simulator.predict_next_start_time(problem.jobs[0]));
	assert_eq!(10, simulator.predict_start_time(problem.jobs[1]));
	assert_eq!(10, simulator.predict_next_start_time(problem.jobs[1]));

	simulator.schedule(problem.jobs[0]);
	assert_eq!(10, simulator.predict_start_time(problem.jobs[1]));
	assert_eq!(20, simulator.predict_next_start_time(problem.jobs[1]));

	simulator = Simulator::new(&problem);
	simulator.schedule(problem.jobs[1]);
	assert_eq!(10, simulator.predict_start_time(problem.jobs[0]));
	assert_eq!(30, simulator.predict_next_start_time(problem.jobs[0]));
}

#[test]
fn test_simulation_with_finish_to_start_constraint() {
	let mut problem = Problem {
		jobs: vec![
			Job::release_to_deadline(0, 0, 20, 100),
			Job::release_to_deadline(1, 0, 30, 52),
			Job::release_to_deadline(2, 0, 30, 100)
		],
		constraints: vec![
			Constraint::new(0, 1, 2, ConstraintType::FinishToStart)
		],
		num_cores: 1
	};
	assert!(problem.validate());
	strengthen_bounds_using_constraints(&mut problem);

	let mut bad_simulator = Simulator::new(&problem);
	bad_simulator.schedule(problem.jobs[2]);
	bad_simulator.schedule(problem.jobs[0]);
	assert!(bad_simulator.has_missed_deadline());
	assert_eq!(2, bad_simulator.num_dispatched_jobs());

	let mut good_simulator = Simulator::new(&problem);
	good_simulator.schedule(problem.jobs[0]);
	assert_eq!(22, good_simulator.predict_start_time(problem.jobs[1]));
	good_simulator.schedule(problem.jobs[1]);
	good_simulator.schedule(problem.jobs[2]);
	assert!(!good_simulator.has_missed_deadline());
	assert_eq!(3, good_simulator.num_dispatched_jobs());
	assert_eq!(82, good_simulator.next_core_available());
}

#[test]
fn test_simulation_with_mixed_constraints_and_two_cores() {
	let mut problem = Problem {
		jobs: vec![
			Job::release_to_deadline(0, 0, 20, 20),
			Job::release_to_deadline(1, 0, 30, 32),
			Job::release_to_deadline(2, 0, 30, 100)
		],
		constraints: vec![
			Constraint::new(0, 1, 2, ConstraintType::StartToStart),
			Constraint::new(0, 2, 10, ConstraintType::FinishToStart)
		],
		num_cores: 2
	};
	assert!(problem.validate());
	strengthen_bounds_using_constraints(&mut problem);

	let mut bad_simulator = Simulator::new(&problem);
	bad_simulator.schedule(problem.jobs[0]);
	bad_simulator.schedule(problem.jobs[2]);
	bad_simulator.schedule(problem.jobs[1]);
	assert!(bad_simulator.has_missed_deadline());
	assert_eq!(3, bad_simulator.num_dispatched_jobs());

	let mut good_simulator = Simulator::new(&problem);
	good_simulator.schedule(problem.jobs[0]);
	good_simulator.schedule(problem.jobs[1]);
	good_simulator.schedule(problem.jobs[2]);
	assert!(!good_simulator.has_missed_deadline());
	assert_eq!(3, good_simulator.num_dispatched_jobs());
}
