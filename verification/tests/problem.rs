use np_feasibility::problem::{Job, Problem};

#[test]
fn test_job() {
	let mut job = Job::release_to_deadline(5, 2, 10, 15);
	assert_eq!(job.get_index(), 5);
	assert_eq!(job.get_execution_time(), 10);
	assert_eq!(job.earliest_start, 2);
	assert_eq!(job.latest_start, 5);
	assert_eq!(job.get_earliest_finish(), 12);
	assert_eq!(job.get_latest_finish(), 15);
	assert!(!job.is_certainly_infeasible());

	job.set_earliest_finish(11);
	assert_eq!(job.get_earliest_finish(), 11);
	assert_eq!(job.earliest_start, 1);
	assert!(!job.is_certainly_infeasible());

	job.set_latest_finish(10);
	assert_eq!(job.get_latest_finish(), 10);
	assert_eq!(job.latest_start, 0);
	assert!(job.is_certainly_infeasible());
}

#[test]
fn test_problem() {
	let mut problem = Problem {
		jobs: vec![Job::release_to_deadline(0, 0, 10, 15)],
		constraints: vec![],
		num_cores: 2,
	};
	assert!(!problem.is_certainly_infeasible());
	assert!(problem.validate());

	problem.jobs.push(Job::release_to_deadline(1, 10, 10, 15));
	assert!(problem.is_certainly_infeasible());
	assert!(problem.validate());
}
