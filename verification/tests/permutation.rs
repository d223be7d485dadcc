use np_feasibility::permutation::ProblemPermutation;
use np_feasibility::problem::{Constraint, ConstraintType, Job, Problem};

fn simple_chain() -> Problem {
	Problem {
		jobs: vec![
			Job::release_to_deadline(0, 4, 2, 10),
			Job::release_to_deadline(1, 0, 3, 30),
			Job::release_to_deadline(2, 0, 9, 100),
		],
		constraints: vec![
			Constraint::new(0, 2, 5, ConstraintType::FinishToStart),
			Constraint::new(2, 1, 2, ConstraintType::FinishToStart),
		],
		num_cores: 1,
	}
}

fn simple_mixed_chain() -> Problem {
	Problem {
		jobs: vec![
			Job::release_to_deadline(0, 5, 2, 100),
			Job::release_to_deadline(1, 0, 6, 16),
			Job::release_to_deadline(2, 0, 7, 17),
		],
		constraints: vec![
			Constraint::new(0, 2, 4, ConstraintType::StartToStart),
			Constraint::new(0, 1, 3, ConstraintType::FinishToStart),
		],
		num_cores: 123,
	}
}

#[test]
fn permutation_sanity_check_without_precedence_constraints() {
	let mut problem = Problem {
		jobs: vec![
			Job::release_to_deadline(0, 40, 10, 100),
			Job::release_to_deadline(1, 0, 20, 100),
			Job::release_to_deadline(2, 75, 30, 100),
		],
		constraints: vec![],
		num_cores: 1,
	};
	assert!(ProblemPermutation::possible(&mut problem).is_some());
	assert_eq!(problem.jobs.len(), 3);
}

#[test]
fn test_simple_chain() {
	let mut problem = simple_chain();
	let permutation = ProblemPermutation::possible(&mut problem).unwrap();
	assert!(problem.validate());
	assert_eq!(*permutation.get_jobs(), vec![0, 2, 1]);
	assert_eq!(problem.jobs[0].get_execution_time(), 2);
	assert_eq!(problem.jobs[1].get_execution_time(), 9);
	assert_eq!(problem.jobs[2].get_execution_time(), 3);
	assert_eq!(problem.constraints[0].get_before(), 0);
	assert_eq!(problem.constraints[0].get_after(), 1);
	assert_eq!(problem.constraints[0].get_delay(), 5);
	assert_eq!(problem.constraints[1].get_before(), 1);
	assert_eq!(problem.constraints[1].get_after(), 2);
	assert_eq!(problem.constraints[1].get_delay(), 2);

	permutation.transform_back(&mut problem);
	assert_eq!(problem, simple_chain());
}

#[test]
fn test_simple_mixed_chain() {
	let mut problem = simple_mixed_chain();
	let permutation = ProblemPermutation::possible(&mut problem).unwrap();
	assert!(problem.validate());
	assert_eq!(permutation.get_jobs().len(), 3);
	assert_eq!(permutation.get_jobs()[0], 0);

	permutation.transform_back(&mut problem);
	assert_eq!(problem, simple_mixed_chain());
}

#[test]
fn test_cyclic_constraints_have_no_permutation() {
	let mut problem = simple_chain();
	problem.constraints.push(Constraint::new(1, 0, 0, ConstraintType::StartToStart));
	let before = problem.clone();
	assert!(ProblemPermutation::possible(&mut problem).is_none());
	assert_eq!(before, problem);

	let mut own_successor = simple_chain();
	own_successor.constraints = vec![Constraint::new(1, 1, 0, ConstraintType::FinishToStart)];
	assert!(ProblemPermutation::possible(&mut own_successor).is_none());
}

#[test]
fn test_permutation_that_is_not_its_own_inverse() {
	let original = Problem {
		jobs: vec![
			Job::release_to_deadline(0, 1, 2, 30),
			Job::release_to_deadline(1, 3, 4, 50),
			Job::release_to_deadline(2, 5, 6, 70),
		],
		constraints: vec![
			Constraint::new(2, 0, 7, ConstraintType::FinishToStart),
			Constraint::new(0, 1, 8, ConstraintType::StartToStart),
		],
		num_cores: 2,
	};
	let mut problem = original.clone();
	let permutation = ProblemPermutation::possible(&mut problem).unwrap();
	assert_eq!(*permutation.get_jobs(), vec![2, 0, 1]);
	assert!(problem.validate());
	assert!(problem.is_job_order_possible());
	assert_eq!(problem.jobs[0], Job::release_to_deadline(0, 5, 6, 70));
	assert_eq!(problem.jobs[1], Job::release_to_deadline(1, 1, 2, 30));
	assert_eq!(problem.jobs[2], Job::release_to_deadline(2, 3, 4, 50));
	assert_eq!(problem.constraints[0], Constraint::new(0, 1, 7, ConstraintType::FinishToStart));
	assert_eq!(problem.constraints[1], Constraint::new(1, 2, 8, ConstraintType::StartToStart));

	permutation.transform_back(&mut problem);
	assert_eq!(problem, original);
}
