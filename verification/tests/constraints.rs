use np_feasibility::bounds::constraints::{
	strengthen_bounds_using_constraints, PrecedenceStrengthenResult,
};
use np_feasibility::permutation::ProblemPermutation;
use np_feasibility::problem::{Constraint, ConstraintType, Job, Problem};

fn three_jobs_without_constraints() -> Problem {
	Problem {
		jobs: vec![
			Job::release_to_deadline(0, 40, 10, 100),
			Job::release_to_deadline(1, 0, 20, 100),
			Job::release_to_deadline(2, 75, 30, 100),
		],
		constraints: vec![],
		num_cores: 1,
	}
}

/// The chain job 0 -> job 2 -> job 1, where job 1 has to finish by `last_deadline`
fn chain(last_deadline: i64) -> Problem {
	Problem {
		jobs: vec![
			Job::release_to_deadline(0, 4, 2, 10),
			Job::release_to_deadline(1, 0, 3, last_deadline),
			Job::release_to_deadline(2, 0, 9, 100),
		],
		constraints: vec![
			Constraint::new(0, 2, 5, ConstraintType::FinishToStart),
			Constraint::new(2, 1, 2, ConstraintType::FinishToStart),
		],
		num_cores: 1,
	}
}

/// Job 0 comes before job 2 (start to start) and before job 1 (finish to start, with `delay`)
fn mixed_chain(delay: i64) -> Problem {
	Problem {
		jobs: vec![
			Job::release_to_deadline(0, 5, 2, 100),
			Job::release_to_deadline(1, 0, 6, 16),
			Job::release_to_deadline(2, 0, 7, 17),
		],
		constraints: vec![
			Constraint::new(0, 2, 4, ConstraintType::StartToStart),
			Constraint::new(0, 1, delay, ConstraintType::FinishToStart),
		],
		num_cores: 123,
	}
}

#[test]
fn constraints_sanity_check_without_precedence_constraints() {
	let mut problem = three_jobs_without_constraints();
	let permutation = ProblemPermutation::possible(&mut problem).unwrap();
	assert_eq!(PrecedenceStrengthenResult::Nothing, strengthen_bounds_using_constraints(&mut problem));
	permutation.transform_back(&mut problem);
	assert_eq!(Job::release_to_deadline(0, 40, 10, 100), problem.jobs[0]);
	assert_eq!(Job::release_to_deadline(1, 0, 20, 100), problem.jobs[1]);
	assert_eq!(Job::release_to_deadline(2, 75, 30, 100), problem.jobs[2]);
}

#[test]
fn test_simple_feasible_chain() {
	let mut problem = chain(30);
	let permutation = ProblemPermutation::possible(&mut problem).unwrap();
	assert_eq!(PrecedenceStrengthenResult::Modified, strengthen_bounds_using_constraints(&mut problem));
	permutation.transform_back(&mut problem);
	assert_eq!(8, problem.jobs[0].latest_start);
	assert_eq!(16, problem.jobs[2].latest_start);
	assert_eq!(27, problem.jobs[1].latest_start);

	assert_eq!(4, problem.jobs[0].earliest_start);
	assert_eq!(11, problem.jobs[2].earliest_start); // 4 + 2 + 5
	assert_eq!(22, problem.jobs[1].earliest_start); // 11 + 9 + 2

	assert!(!problem.is_certainly_infeasible());
}

#[test]
fn test_simple_infeasible_chain() {
	let mut problem = chain(21);
	let permutation = ProblemPermutation::possible(&mut problem).unwrap();
	assert_eq!(PrecedenceStrengthenResult::Modified, strengthen_bounds_using_constraints(&mut problem));
	permutation.transform_back(&mut problem);
	assert_eq!(0, problem.jobs[0].latest_start);
	assert_eq!(7, problem.jobs[2].latest_start);
	assert_eq!(18, problem.jobs[1].latest_start);

	assert_eq!(4, problem.jobs[0].earliest_start);
	assert_eq!(11, problem.jobs[2].earliest_start); // 4 + 2 + 5
	assert_eq!(22, problem.jobs[1].earliest_start); // 11 + 9 + 2

	assert!(problem.is_certainly_infeasible());
}

#[test]
fn test_simple_mixed_feasible_chain() {
	let mut problem = mixed_chain(3);
	let permutation = ProblemPermutation::possible(&mut problem).unwrap();
	assert_eq!(PrecedenceStrengthenResult::Modified, strengthen_bounds_using_constraints(&mut problem));
	permutation.transform_back(&mut problem);
	assert_eq!(5, problem.jobs[0].latest_start);
	assert_eq!(10, problem.jobs[1].latest_start);
	assert_eq!(10, problem.jobs[2].latest_start);

	assert_eq!(5, problem.jobs[0].earliest_start);
	assert_eq!(10, problem.jobs[1].earliest_start);
	assert_eq!(9, problem.jobs[2].earliest_start);

	assert!(!problem.is_certainly_infeasible());
}

#[test]
fn test_simple_mixed_infeasible_chain() {
	let mut problem = mixed_chain(5);
	let permutation = ProblemPermutation::possible(&mut problem).unwrap();
	assert_eq!(PrecedenceStrengthenResult::Modified, strengthen_bounds_using_constraints(&mut problem));
	permutation.transform_back(&mut problem);
	assert_eq!(3, problem.jobs[0].latest_start);
	assert_eq!(10, problem.jobs[1].latest_start);
	assert_eq!(10, problem.jobs[2].latest_start);

	assert_eq!(5, problem.jobs[0].earliest_start);
	assert_eq!(12, problem.jobs[1].earliest_start);
	assert_eq!(9, problem.jobs[2].earliest_start);

	assert!(problem.is_certainly_infeasible());
}

#[test]
fn test_constraints_against_the_order() {
	let mut problem = chain(30);
	let before = problem.clone();
	assert_eq!(PrecedenceStrengthenResult::Cyclic, strengthen_bounds_using_constraints(&mut problem));
	assert_eq!(before, problem);
}

#[test]
fn test_strengthened_bounds_respect_every_constraint() {
	let mut problem = chain(30);
	ProblemPermutation::possible(&mut problem).unwrap();
	assert_eq!(PrecedenceStrengthenResult::Modified, strengthen_bounds_using_constraints(&mut problem));
	for constraint in &problem.constraints {
		let before = problem.jobs[constraint.get_before()];
		let after = problem.jobs[constraint.get_after()];
		let gap = constraint.get_delay() + before.get_execution_time();
		assert!(after.earliest_start >= before.earliest_start + gap);
		assert!(before.latest_start <= after.latest_start - gap);
	}
	assert_eq!(PrecedenceStrengthenResult::Nothing, strengthen_bounds_using_constraints(&mut problem));
}

#[test]
fn test_constraints_in_any_order_are_respected() {
	let mut problem = Problem {
		jobs: (0 .. 3).map(|index| Job::release_to_deadline(index, 0, 1, 101)).collect(),
		constraints: vec![
			Constraint::new(1, 2, 0, ConstraintType::FinishToStart),
			Constraint::new(0, 1, 0, ConstraintType::FinishToStart),
		],
		num_cores: 1,
	};
	assert_eq!(PrecedenceStrengthenResult::Modified, strengthen_bounds_using_constraints(&mut problem));
	assert_eq!(
		vec![(0, 98), (1, 99), (2, 100)],
		problem.jobs.iter().map(|job| (job.earliest_start, job.latest_start)).collect::<Vec<_>>()
	);
	let strengthened = problem.clone();
	assert_eq!(PrecedenceStrengthenResult::Nothing, strengthen_bounds_using_constraints(&mut problem));
	assert_eq!(strengthened, problem);
}

#[test]
fn test_long_chain_that_is_stored_backwards() {
	let count = 50;
	let mut problem = Problem {
		jobs: (0 .. count).map(|index| Job::release_to_deadline(index, 0, 2, 1000)).collect(),
		constraints: (1 .. count).rev().map(
			|after| Constraint::new(after - 1, after, 3, ConstraintType::FinishToStart)
		).collect(),
		num_cores: 1,
	};
	assert_eq!(PrecedenceStrengthenResult::Modified, strengthen_bounds_using_constraints(&mut problem));
	for (index, job) in problem.jobs.iter().enumerate() {
		assert_eq!(5 * index as i64, job.earliest_start);
		assert_eq!(998 - 5 * (count - 1 - index) as i64, job.latest_start);
	}
	assert_eq!(PrecedenceStrengthenResult::Nothing, strengthen_bounds_using_constraints(&mut problem));
}
