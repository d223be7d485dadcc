use np_feasibility::necessary::interval::{run_feasibility_interval_test, IntervalResult, IntervalTest};
use np_feasibility::necessary::interval_tree::{IntervalTree, JobInterval};
use np_feasibility::problem::{Job, Problem};

fn problem_of(num_cores: u32, jobs: &[(i64, i64, i64)]) -> Problem {
	Problem {
		jobs: jobs.iter().enumerate().map(
			|(index, (release, execution, deadline))| Job::release_to_deadline(index, *release, *execution, *deadline)
		).collect(),
		constraints: vec![],
		num_cores,
	}
}

#[test]
fn test_interval_test_on_window_that_cannot_be_packed() {
	let problem = problem_of(2, &[(23, 68, 100), (10, 78, 100), (0, 18, 20), (0, 34, 38)]);
	assert!(run_feasibility_interval_test(&problem));

	// Between time 23 and time 100, the jobs must execute for 68, 65 and 11 time units, which may
	// fit. Between time 10 and time 100, they must execute for 68, 78, 8 and 24 time units: the
	// two long jobs leave space for nothing but the shortest one, so 18 time units go to waste.
	let mut test = IntervalTest::new(&problem);
	assert_eq!(IntervalResult::Running, test.next());
	assert_eq!(IntervalResult::CertainlyInfeasible, test.next());
	assert_eq!(IntervalResult::Running, test.next());
	assert_eq!(IntervalResult::CertainlyInfeasible, test.next());
}

#[test]
fn test_interval_test_on_windows_that_can_be_packed() {
	assert!(!run_feasibility_interval_test(&problem_of(2, &[(23, 68, 100), (10, 78, 100), (0, 18, 20), (0, 32, 38)])));
	assert!(!run_feasibility_interval_test(&problem_of(3, &[(23, 68, 100), (10, 78, 100), (0, 18, 20), (0, 34, 38)])));
	assert!(!run_feasibility_interval_test(&problem_of(1, &[(0, 1000, 1000)])));
	assert!(!run_feasibility_interval_test(&problem_of(1, &[])));

	let problem = problem_of(1, &[(0, 5, 10), (10, 5, 20)]);
	let mut test = IntervalTest::new(&problem);
	assert_eq!(IntervalResult::Running, test.next());
	assert_eq!(IntervalResult::Finished, test.next());
}

#[test]
fn test_interval_test_on_job_that_is_too_long() {
	// Of a job that is longer than its window, the test asks no more than the window
	assert!(!run_feasibility_interval_test(&problem_of(4, &[(0, 1001, 1000)])));
	// Two jobs that fill the same window do not fit on one core
	assert!(run_feasibility_interval_test(&problem_of(1, &[(0, 10, 10), (0, 10, 10)])));
	assert!(!run_feasibility_interval_test(&problem_of(2, &[(0, 10, 10), (0, 10, 10)])));
}

#[test]
fn test_interval_test_with_many_jobs() {
	// 200 jobs of 10 time units, of which 2 are released every 10 time units
	let mut jobs: Vec<(i64, i64, i64)> = (0..200).map(|index| ((index / 2) * 10, 10, (index / 2) * 10 + 15)).collect();
	assert!(!run_feasibility_interval_test(&problem_of(2, &jobs)));
	assert!(run_feasibility_interval_test(&problem_of(1, &jobs)));

	// Three jobs that have to run between time 500 and time 512 do not fit on two cores
	jobs.push((500, 10, 512));
	assert!(run_feasibility_interval_test(&problem_of(2, &jobs)));
	assert!(!run_feasibility_interval_test(&problem_of(3, &jobs)));
}

fn overlapping(intervals: &[JobInterval], query: JobInterval) -> Vec<usize> {
	let mut jobs: Vec<usize> = intervals.iter().filter(
		|candidate| candidate.start < query.end && candidate.end > query.start
	).map(|candidate| candidate.job).collect();
	jobs.sort();
	jobs
}

fn found(tree: &IntervalTree, query: JobInterval) -> Vec<usize> {
	let mut output = vec![JobInterval { job: 12345, start: 1, end: 2 }];
	tree.query(query, &mut output);
	assert_eq!(12345, output[0].job);
	let mut jobs: Vec<usize> = output[1..].iter().map(|interval| interval.job).collect();
	jobs.sort();
	jobs
}

#[test]
fn test_interval_tree_finds_what_overlaps() {
	let mut intervals = Vec::new();
	for job in 0..500usize {
		let start = ((job * 37) % 211) as i64 - 50;
		let length = ((job * 11) % 23) as i64;
		intervals.push(JobInterval { job, start, end: start + length });
	}
	let mut tree = IntervalTree::new();
	for interval in &intervals {
		tree.insert(*interval);
	}
	let queries: Vec<JobInterval> = (-60..170).step_by(7).flat_map(
		|start| [0, 1, 5, 60].map(|length| JobInterval { job: 0, start, end: start + length })
	).collect();
	for query in &queries {
		assert_eq!(overlapping(&intervals, *query), found(&tree, *query));
	}
	tree.split();
	for query in &queries {
		assert_eq!(overlapping(&intervals, *query), found(&tree, *query));
	}
}

#[test]
fn test_interval_tree_of_equal_intervals() {
	let mut tree = IntervalTree::new();
	for job in 0..120 {
		tree.insert(JobInterval { job, start: 5, end: 6 });
	}
	tree.split();
	assert_eq!(120, found(&tree, JobInterval { job: 0, start: 5, end: 6 }).len());
	assert_eq!(0, found(&tree, JobInterval { job: 0, start: 6, end: 7 }).len());
	assert_eq!(0, found(&tree, JobInterval { job: 0, start: 0, end: 5 }).len());

	let mut empty = IntervalTree::new();
	for job in 0..120 {
		empty.insert(JobInterval { job, start: -3, end: -3 });
	}
	empty.split();
	assert_eq!(120, found(&empty, JobInterval { job: 0, start: -4, end: -2 }).len());
	assert_eq!(0, found(&empty, JobInterval { job: 0, start: -3, end: -3 }).len());
}
