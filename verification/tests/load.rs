use np_feasibility::bounds::occupation::{
	strengthen_bounds_using_core_occupation, OccupationStrengthenResult,
};
use np_feasibility::necessary::load::{run_feasibility_load_test, LoadResult, LoadTest};
use np_feasibility::problem::{Job, Problem};

#[test]
fn test_feasibility_load_with_1_job_variant1() {
	let problem = Problem {
		jobs: vec![Job::release_to_deadline(0, 0, 1000, 1000)],
		constraints: vec![],
		num_cores: 1,
	};
	let mut load_test = LoadTest::new(&problem);
	assert_eq!(load_test.next(), LoadResult::Finished);
	assert_eq!(load_test.get_current_time(), 1000);
	assert_eq!(load_test.get_minimum_executed_load(), 1000);
	assert_eq!(load_test.get_maximum_executed_load(), 1000);

	assert!(!run_feasibility_load_test(&problem));
}

#[test]
fn test_feasibility_load_with_1_job_variant2() {
	let problem = Problem {
		jobs: vec![Job::release_to_deadline(0, 0, 999, 1000)],
		constraints: vec![],
		num_cores: 1,
	};
	let mut load_test = LoadTest::new(&problem);
	assert_eq!(load_test.next(), LoadResult::Running);
	assert_eq!(load_test.get_current_time(), 1);
	assert_eq!(load_test.get_minimum_executed_load(), 0);
	assert_eq!(load_test.get_maximum_executed_load(), 1);

	assert_eq!(load_test.next(), LoadResult::Finished);
	assert_eq!(load_test.get_current_time(), 1000);
	assert_eq!(load_test.get_minimum_executed_load(), 999);
	assert_eq!(load_test.get_maximum_executed_load(), 999);

	assert!(!run_feasibility_load_test(&problem));
}

#[test]
fn test_feasibility_load_with_1_job_variant3() {
	let problem = Problem {
		jobs: vec![Job::release_to_deadline(0, 0, 1001, 1000)],
		constraints: vec![],
		num_cores: 1,
	};
	assert!(run_feasibility_load_test(&problem));
}

#[test]
fn test_tight_feasible_case_arriving_at0() {
	let problem = Problem {
		jobs: vec![
			Job::release_to_deadline(0, 0, 5, 16),
			Job::release_to_deadline(1, 0, 3, 10),
			Job::release_to_deadline(2, 0, 8, 11),
		],
		constraints: vec![],
		num_cores: 1,
	};

	let mut load_test = LoadTest::new(&problem);
	assert_eq!(load_test.next(), LoadResult::Running);
	assert_eq!(load_test.get_current_time(), 3);
	assert_eq!(load_test.get_minimum_executed_load(), 0);
	assert_eq!(load_test.get_maximum_executed_load(), 3);

	assert_eq!(load_test.next(), LoadResult::Running);
	assert_eq!(load_test.get_current_time(), 7);
	assert_eq!(load_test.get_minimum_executed_load(), 7);
	assert_eq!(load_test.get_maximum_executed_load(), 7);

	assert_eq!(load_test.next(), LoadResult::Running);
	assert_eq!(load_test.get_current_time(), 10);
	assert_eq!(load_test.get_minimum_executed_load(), 10);
	assert_eq!(load_test.get_maximum_executed_load(), 10);

	assert_eq!(load_test.next(), LoadResult::Running);
	assert_eq!(load_test.get_current_time(), 11);
	assert_eq!(load_test.get_minimum_executed_load(), 11);
	assert_eq!(load_test.get_maximum_executed_load(), 11);

	assert_eq!(load_test.next(), LoadResult::Finished);
	assert_eq!(load_test.get_current_time(), 16);
	assert_eq!(load_test.get_minimum_executed_load(), 16);
	assert_eq!(load_test.get_maximum_executed_load(), 16);

	assert!(!run_feasibility_load_test(&problem));
}

#[test]
fn test_tight_infeasible_case_arriving_at0() {
	let problem = Problem {
		jobs: vec![
			Job::release_to_deadline(0, 0, 5, 16),
			Job::release_to_deadline(1, 0, 3, 10),
			Job::release_to_deadline(2, 0, 8, 10),
		],
		constraints: vec![],
		num_cores: 1,
	};

	let mut load_test = LoadTest::new(&problem);
	assert_eq!(load_test.next(), LoadResult::Running);
	assert_eq!(load_test.get_current_time(), 2);
	assert_eq!(load_test.get_minimum_executed_load(), 0);
	assert_eq!(load_test.get_maximum_executed_load(), 2);

	assert_eq!(load_test.next(), LoadResult::CertainlyInfeasible);
	assert_eq!(load_test.get_current_time(), 7);
	assert_eq!(load_test.get_minimum_executed_load(), 8);
	assert_eq!(load_test.get_maximum_executed_load(), 7);

	assert!(run_feasibility_load_test(&problem));
}

#[test]
fn test_feasible_when_longest_job_first() {
	let problem = Problem {
		jobs: vec![
			Job::release_to_deadline(0, 3, 6, 18),
			Job::release_to_deadline(1, 4, 5, 19)
		],
		constraints: vec![],
		num_cores: 1
	};

	let mut load_test = LoadTest::new(&problem);
	assert_eq!(load_test.next(), LoadResult::Running);
	assert_eq!(load_test.get_current_time(), 12);
	assert_eq!(load_test.get_minimum_executed_load(), 0);
	assert_eq!(load_test.get_maximum_executed_load(), 9);

	assert_eq!(load_test.next(), LoadResult::Running);
	assert_eq!(load_test.get_current_time(), 14);
	assert_eq!(load_test.get_minimum_executed_load(), 6);
	assert_eq!(load_test.get_maximum_executed_load(), 11);

	assert_eq!(load_test.next(), LoadResult::Running);
	assert_eq!(load_test.get_current_time(), 18);
	assert_eq!(load_test.get_minimum_executed_load(), 10);
	assert_eq!(load_test.get_maximum_executed_load(), 11);

	assert_eq!(load_test.next(), LoadResult::Finished);
	assert_eq!(load_test.get_current_time(), 19);
	assert_eq!(load_test.get_minimum_executed_load(), 11);
	assert_eq!(load_test.get_maximum_executed_load(), 11);

	assert!(!run_feasibility_load_test(&problem));
}

#[test]
fn test_feasible_when_shortest_job_first() {
	let problem = Problem {
		jobs: vec![
			Job::release_to_deadline(0, 3, 6, 18),
			Job::release_to_deadline(1, 4, 7, 20)
		],
		constraints: vec![],
		num_cores: 1
	};

	let mut load_test = LoadTest::new(&problem);
	assert_eq!(load_test.next(), LoadResult::Running);
	assert_eq!(load_test.get_current_time(), 12);
	assert_eq!(load_test.get_minimum_executed_load(), 0);
	assert_eq!(load_test.get_maximum_executed_load(), 9);

	assert_eq!(load_test.next(), LoadResult::Running);
	assert_eq!(load_test.get_current_time(), 13);
	assert_eq!(load_test.get_minimum_executed_load(), 6);
	assert_eq!(load_test.get_maximum_executed_load(), 10);

	assert_eq!(load_test.next(), LoadResult::Running);
	assert_eq!(load_test.get_current_time(), 18);
	assert_eq!(load_test.get_minimum_executed_load(), 11);
	assert_eq!(load_test.get_maximum_executed_load(), 13);

	assert_eq!(load_test.next(), LoadResult::Finished);
	assert_eq!(load_test.get_current_time(), 20);
	assert_eq!(load_test.get_minimum_executed_load(), 13);
	assert_eq!(load_test.get_maximum_executed_load(), 13);
}

#[test]
fn test_tight_feasible_with_2_cores_and_more_jobs() {
	let problem = Problem {
		jobs: vec![
			Job::release_to_deadline(0, 2, 5, 10),
			Job::release_to_deadline(1, 0, 13, 30),
			Job::release_to_deadline(2, 0, 3, 25),
			Job::release_to_deadline(3, 10, 2, 25),
			Job::release_to_deadline(4, 0, 7, 20),

			Job::release_to_deadline(5, 2, 5, 10),
			Job::release_to_deadline(6, 0, 8, 25),
			Job::release_to_deadline(7, 0, 3, 30),
			Job::release_to_deadline(8, 10, 8, 30),
			Job::release_to_deadline(9, 0, 6, 20)
		],
		constraints: vec![],
		num_cores: 2
	};

	let mut load_test = LoadTest::new(&problem);
	loop {
		let next = load_test.next();
		if next == LoadResult::Finished {
			break;
		}
		assert_eq!(next, LoadResult::Running);
	}
	assert_eq!(load_test.get_current_time(), 30);
	assert_eq!(load_test.get_minimum_executed_load(), 60);
	assert_eq!(load_test.get_maximum_executed_load(), 60);
}

#[test]
fn test_tight_infeasible_with_2_cores_and_more_jobs() {
	let problem = Problem {
		jobs: vec![
			Job::release_to_deadline(0, 2, 5, 10),
			Job::release_to_deadline(1, 0, 13, 30),
			Job::release_to_deadline(2, 0, 3, 25),
			Job::release_to_deadline(3, 10, 2, 25),
			Job::release_to_deadline(4, 0, 7, 20),

			Job::release_to_deadline(5, 2, 5, 10),

			// Job 6 takes 1 time unit longer than in the previous test
			Job::release_to_deadline(6, 0, 9, 25),
			Job::release_to_deadline(7, 0, 3, 30),
			Job::release_to_deadline(8, 10, 8, 30),
			Job::release_to_deadline(9, 0, 6, 20)
		],
		constraints: vec![],
		num_cores: 2
	};

	assert!(run_feasibility_load_test(&problem));
}

#[test]
fn test_almost_infeasible_early_load() {
	let mut problem = Problem {
		jobs: vec![
			Job::release_to_deadline(0, 1, 3, 10),
			Job::release_to_deadline(1, 1, 3, 10),
			Job::release_to_deadline(2, 1, 3, 10),

			Job::release_to_deadline(3, 8, 5, 20),

			Job::release_to_deadline(4, 30, 5, 40),
		],
		constraints: vec![],
		num_cores: 1
	};

	assert!(!run_feasibility_load_test(&problem));
	assert_ne!(OccupationStrengthenResult::Infeasible, strengthen_bounds_using_core_occupation(&mut problem));
}

#[test]
fn test_infeasible_early_overload() {
	let problem = Problem {
		jobs: vec![
			Job::release_to_deadline(0, 1, 3, 10),
			Job::release_to_deadline(1, 1, 4, 10),

			// Job 2 takes 1 time unit longer than in the previous test
			Job::release_to_deadline(2, 1, 3, 10),

			Job::release_to_deadline(3, 8, 5, 20),

			Job::release_to_deadline(4, 30, 5, 40),
		],
		constraints: vec![],
		num_cores: 1
	};

	assert!(run_feasibility_load_test(&problem));
}

#[test]
fn test_infeasible_early_overload_with_irrelevant_background_job() {
	let problem = Problem {
		jobs: vec![
			Job::release_to_deadline(0, 1, 3, 10),
			Job::release_to_deadline(1, 1, 4, 10),

			// Job 2 takes 1 time unit longer than in the previous test
			Job::release_to_deadline(2, 1, 3, 10),

			Job::release_to_deadline(3, 8, 5, 20),

			Job::release_to_deadline(4, 30, 5, 40),

			Job::release_to_deadline(5, 0, 50, 100),
		],
		constraints: vec![],
		num_cores: 1
	};

	// TODO For the feasibility interval test
}

#[test]
fn test_almost_infeasible_middle_load() {
	let mut problem = Problem {
		jobs: vec![
			Job::release_to_deadline(0, 1, 3, 10),
			Job::release_to_deadline(1, 1, 3, 10),

			Job::release_to_deadline(2, 12, 3, 20),
			Job::release_to_deadline(3, 12, 5, 20),

			Job::release_to_deadline(4, 30, 5, 40),
		],
		constraints: vec![],
		num_cores: 1
	};
	assert!(!run_feasibility_load_test(&problem));
	assert_ne!(OccupationStrengthenResult::Infeasible, strengthen_bounds_using_core_occupation(&mut problem));
}

fn middle_overload_jobs() -> Vec<Job> {
	vec![
		Job::release_to_deadline(0, 1, 3, 10),
		Job::release_to_deadline(1, 1, 3, 10),

		// Job 2 takes 1 time unit longer than in the previous test
		Job::release_to_deadline(2, 12, 4, 20),
		Job::release_to_deadline(3, 12, 5, 20),

		Job::release_to_deadline(4, 30, 5, 40),
	]
}

#[test]
fn test_infeasible_middle_overload() {
	let problem = Problem {
		jobs: middle_overload_jobs(),
		constraints: vec![],
		num_cores: 1
	};
	assert!(run_feasibility_load_test(&problem));
}

#[test]
fn test_infeasible_middle_overload_with_irrelevant_background_job() {
	let mut problem = Problem {
		jobs: middle_overload_jobs(),
		constraints: vec![],
		num_cores: 1
	};
	problem.jobs.push(Job::release_to_deadline(4, 30, 5, 40));
	assert_eq!(OccupationStrengthenResult::Infeasible, strengthen_bounds_using_core_occupation(&mut problem));
	// TODO Solve with feasibility interval test
}

#[test]
fn test_almost_infeasible_late_load() {
	let mut problem = Problem {
		jobs: vec![
			Job::release_to_deadline(0, 1, 3, 10),
			Job::release_to_deadline(1, 1, 3, 10),

			Job::release_to_deadline(2, 12, 6, 20),

			Job::release_to_deadline(3, 30, 5, 40),
			Job::release_to_deadline(4, 30, 5, 40),
		],
		constraints: vec![],
		num_cores: 1
	};
	assert!(!run_feasibility_load_test(&problem));
	assert_ne!(OccupationStrengthenResult::Infeasible, strengthen_bounds_using_core_occupation(&mut problem));
}

#[test]
fn test_infeasible_late_overload() {
	let problem = Problem {
		jobs: vec![
			Job::release_to_deadline(0, 1, 3, 10),
			Job::release_to_deadline(1, 1, 3, 10),

			Job::release_to_deadline(2, 12, 6, 20),

			// Job 3 takes 1 time unit longer than in the previous test
			Job::release_to_deadline(3, 30, 6, 40),
			Job::release_to_deadline(4, 30, 5, 40),
		],
		constraints: vec![],
		num_cores: 1
	};
	assert!(run_feasibility_load_test(&problem));
}

#[test]
fn test_infeasible_late_overload_with_irrelevant_background_job() {
	let mut problem = Problem {
		jobs: vec![
			Job::release_to_deadline(0, 1, 3, 10),
			Job::release_to_deadline(1, 1, 3, 10),

			Job::release_to_deadline(2, 12, 6, 20),

			// Job 3 takes 1 time unit longer than in the previous test
			Job::release_to_deadline(3, 30, 6, 40),
			Job::release_to_deadline(4, 30, 5, 40),

			Job::release_to_deadline(5, 0, 50, 100),
		],
		constraints: vec![],
		num_cores: 1
	};
	assert_eq!(OccupationStrengthenResult::Infeasible, strengthen_bounds_using_core_occupation(&mut problem));
	// TODO Use feasibility interval test
}

#[test]
fn feasibility_interval_regression_test() {
	let mut problem = Problem {
		jobs: vec![
			Job::release_to_deadline(0, 0, 98, 100),
			Job::release_to_deadline(1, 38, 16, 88),
			Job::release_to_deadline(2, 0, 48, 65),
			Job::release_to_deadline(3, 60, 34, 100),
		],
		constraints: vec![],
		num_cores: 2
	};

	assert!(!run_feasibility_load_test(&problem));
	assert_ne!(OccupationStrengthenResult::Infeasible, strengthen_bounds_using_core_occupation(&mut problem));
	assert!(!run_feasibility_load_test(&problem));
	// TODO run interval test
}

#[test]
fn feasibility_interval_regression_suboptimal() {
	let mut problem = Problem {
		jobs: vec![
			Job::release_to_deadline(0, 23, 68, 100),
			Job::release_to_deadline(1, 10, 78, 100),
			Job::release_to_deadline(2, 0, 18, 20),
			Job::release_to_deadline(3, 0, 34, 38),
		],
		constraints: vec![],
		num_cores: 2
	};

	assert!(!run_feasibility_load_test(&problem));
	// TODO Interval test should detect this!
	assert_eq!(OccupationStrengthenResult::Infeasible, strengthen_bounds_using_core_occupation(&mut problem));
}
