use np_feasibility::analysis::{analyze, is_fit_for_analysis, Verdict};
use np_feasibility::necessary::load::{LoadResult, LoadTest};
use np_feasibility::problem::{
	Constraint, ConstraintType, Job, Problem, MAX_COUNT, MAX_DURATION, MAX_TIME,
};

fn problem_of(num_cores: u32, jobs: &[(i64, i64, i64)], constraints: Vec<Constraint>) -> Problem {
	Problem {
		jobs: jobs.iter().enumerate().map(
			|(index, (release, execution, deadline))| Job::release_to_deadline(index, *release, *execution, *deadline)
		).collect(),
		constraints,
		num_cores,
	}
}

fn verdict_of(problem: &mut Problem) -> Verdict {
	assert!(is_fit_for_analysis(problem));
	analyze(problem)
}

#[test]
fn test_single_job_that_just_fits() {
	let mut problem = problem_of(1, &[(0, 1000, 1000)], vec![]);
	let before = problem.clone();
	assert_eq!(Verdict::Unknown, verdict_of(&mut problem));
	assert_eq!(before, problem);

	let mut load_test = LoadTest::new(&problem);
	assert_eq!(LoadResult::Finished, load_test.next());
	assert_eq!(1000, load_test.get_current_time());
	assert_eq!(1000, load_test.get_minimum_executed_load());
	assert_eq!(1000, load_test.get_maximum_executed_load());
}

#[test]
fn test_single_job_that_is_too_long() {
	let mut problem = problem_of(1, &[(0, 1001, 1000)], vec![]);
	assert_eq!(Verdict::Infeasible, verdict_of(&mut problem));
	assert!(problem.is_certainly_infeasible());
}

#[test]
fn test_chain_with_slack() {
	let mut problem = problem_of(1, &[(4, 2, 10), (0, 3, 30), (0, 9, 100)], vec![
		Constraint::new(0, 2, 5, ConstraintType::FinishToStart),
		Constraint::new(2, 1, 2, ConstraintType::FinishToStart),
	]);
	let constraints = problem.constraints.clone();
	assert_eq!(Verdict::Unknown, verdict_of(&mut problem));
	assert_eq!(constraints, problem.constraints);
	assert_eq!(8, problem.jobs[0].latest_start);
	assert_eq!(16, problem.jobs[2].latest_start);
	assert_eq!(27, problem.jobs[1].latest_start);
	assert_eq!(4, problem.jobs[0].earliest_start);
	assert_eq!(11, problem.jobs[2].earliest_start);
	assert_eq!(22, problem.jobs[1].earliest_start);
	for (index, job) in problem.jobs.iter().enumerate() {
		assert_eq!(index, job.get_index());
	}
}

#[test]
fn test_chain_without_slack() {
	let mut problem = problem_of(1, &[(4, 2, 10), (0, 3, 21), (0, 9, 100)], vec![
		Constraint::new(0, 2, 5, ConstraintType::FinishToStart),
		Constraint::new(2, 1, 2, ConstraintType::FinishToStart),
	]);
	assert_eq!(Verdict::Infeasible, verdict_of(&mut problem));
	assert_eq!(0, problem.jobs[0].latest_start);
	assert_eq!(4, problem.jobs[0].earliest_start);
}

#[test]
fn test_periodic_jobs_in_the_way() {
	let mut problem = problem_of(1, &[(0, 11, 45), (10, 1, 11), (20, 1, 21), (30, 1, 31), (40, 1, 41)], vec![]);
	assert_eq!(Verdict::Infeasible, verdict_of(&mut problem));

	let mut shorter = problem_of(1, &[(0, 9, 45), (10, 1, 11), (20, 1, 21), (30, 1, 31), (40, 1, 41)], vec![]);
	assert_eq!(Verdict::Unknown, verdict_of(&mut shorter));
	assert_eq!(0, shorter.jobs[0].earliest_start);
	assert_eq!(31, shorter.jobs[0].latest_start);
}

#[test]
fn test_tight_load_that_does_not_fit() {
	let mut problem = problem_of(1, &[(0, 5, 16), (0, 3, 10), (0, 8, 10)], vec![]);
	assert_eq!(Verdict::Infeasible, verdict_of(&mut problem));

	let mut fitting = problem_of(1, &[(0, 5, 16), (0, 3, 10), (0, 8, 11)], vec![]);
	assert_eq!(Verdict::Unknown, verdict_of(&mut fitting));
}

#[test]
fn test_window_that_cannot_be_packed() {
	let mut problem = problem_of(2, &[(23, 68, 100), (10, 78, 100), (0, 18, 20), (0, 34, 38)], vec![]);
	assert_eq!(Verdict::Infeasible, verdict_of(&mut problem));
}

#[test]
fn test_cyclic_constraints() {
	let jobs = [(0, 1, 100), (0, 1, 100), (0, 1, 100)];
	let mut problem = problem_of(3, &jobs, vec![
		Constraint::new(0, 1, 0, ConstraintType::StartToStart),
		Constraint::new(1, 2, 0, ConstraintType::StartToStart),
		Constraint::new(2, 0, 0, ConstraintType::StartToStart),
	]);
	let before = problem.clone();
	assert_eq!(Verdict::Cyclic, verdict_of(&mut problem));
	assert_eq!(before, problem);

	let mut own_successor = problem_of(1, &jobs, vec![Constraint::new(1, 1, 5, ConstraintType::FinishToStart)]);
	assert_eq!(Verdict::Cyclic, verdict_of(&mut own_successor));
}

#[test]
fn test_analysis_of_the_same_problem_twice() {
	let problems = vec![
		problem_of(1, &[(4, 2, 10), (0, 3, 30), (0, 9, 100)], vec![
			Constraint::new(0, 2, 5, ConstraintType::FinishToStart),
			Constraint::new(2, 1, 2, ConstraintType::FinishToStart),
		]),
		problem_of(1, &[(5, 10, 20), (0, 5, 20), (5, 6, 21)], vec![]),
		problem_of(2, &[(23, 68, 100), (10, 78, 100), (0, 18, 20), (0, 34, 38)], vec![]),
		problem_of(2, &[(0, 98, 100), (38, 16, 88), (0, 48, 65), (60, 34, 100)], vec![
			Constraint::new(2, 3, 1, ConstraintType::StartToStart),
		]),
	];
	for problem in problems {
		let mut first = problem.clone();
		let mut second = problem.clone();
		assert_eq!(verdict_of(&mut first), verdict_of(&mut second));
		assert_eq!(first, second);
	}
}

#[test]
fn test_schedule_is_never_called_infeasible() {
	// Start times 0, 5, 10, 16 on one core, and 0, 20 on the other
	let starts = [0, 5, 10, 16, 0, 20];
	let mut problem = problem_of(2, &[(0, 5, 10), (0, 5, 12), (3, 6, 20), (10, 4, 20), (0, 20, 25), (12, 10, 30)], vec![
		Constraint::new(0, 2, 5, ConstraintType::FinishToStart),
		Constraint::new(1, 3, 11, ConstraintType::StartToStart),
		Constraint::new(4, 5, 0, ConstraintType::FinishToStart),
	]);
	assert_eq!(Verdict::Unknown, verdict_of(&mut problem));
	for (job, start) in problem.jobs.iter().zip(starts) {
		assert!(job.earliest_start <= start);
		assert!(start <= job.latest_start);
	}
}

#[test]
fn test_problems_that_are_not_fit_for_the_analysis() {
	assert!(is_fit_for_analysis(&problem_of(1, &[], vec![])));
	assert!(is_fit_for_analysis(&problem_of(1, &[(0, MAX_DURATION, 2 * MAX_DURATION)], vec![])));
	assert!(is_fit_for_analysis(&problem_of(1, &[(MAX_TIME, 1, MAX_TIME + 1)], vec![])));
	assert!(is_fit_for_analysis(&problem_of(1, &[(0, 1, 1 - MAX_TIME)], vec![])));
	assert!(!is_fit_for_analysis(&problem_of(0, &[(0, 1, 2)], vec![])));
	assert!(!is_fit_for_analysis(&problem_of(1, &[(-1, 1, 2)], vec![])));
	assert!(!is_fit_for_analysis(&problem_of(1, &[(0, MAX_DURATION + 1, 2 * MAX_DURATION)], vec![])));
	assert!(!is_fit_for_analysis(&problem_of(1, &[(0, 1, MAX_TIME + 2)], vec![])));
	assert!(!is_fit_for_analysis(&problem_of(1, &[(MAX_TIME + 1, 1, MAX_TIME + 2)], vec![])));
	assert!(!is_fit_for_analysis(&problem_of(1, &[(0, 1, -MAX_TIME)], vec![])));
	assert!(!is_fit_for_analysis(&problem_of(1, &[(0, 1, 2)], vec![Constraint::new(0, 1, 0, ConstraintType::StartToStart)])));
	assert!(!is_fit_for_analysis(&problem_of(1, &[(0, 1, 2)], vec![Constraint::new(0, 0, -1, ConstraintType::StartToStart)])));
	assert!(!is_fit_for_analysis(&problem_of(1, &[(0, 1, 2)], vec![Constraint::new(0, 0, MAX_DURATION + 1, ConstraintType::StartToStart)])));
	let mut wrong_index = problem_of(1, &[(0, 1, 2), (0, 1, 2)], vec![]);
	wrong_index.jobs.swap(0, 1);
	assert!(!is_fit_for_analysis(&wrong_index));
	assert!(1 << 20 == MAX_COUNT);
}

#[test]
fn test_analysis_of_no_jobs() {
	let mut problem = problem_of(3, &[], vec![]);
	assert_eq!(Verdict::Unknown, verdict_of(&mut problem));
}
