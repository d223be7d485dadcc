use np_feasibility::problem::Job;
use np_feasibility::sorted_job_iterator::SortedJobIterator;

#[test]
fn test_sorted_job_iterator() {
	let jobs = vec![
		Job::release_to_deadline(0, 10, 15, 50),
		Job::release_to_deadline(1, 5, 15, 50),
		Job::release_to_deadline(2, 5, 15, 50),
		Job::release_to_deadline(3, 15, 150, 50),
	];

	let mut iterator = SortedJobIterator::new(&jobs, |job| job.earliest_start);
	assert_eq!(None, iterator.next(|time| time < 5));
	let first = iterator.next(|time| time <= 5).unwrap();
	let second = iterator.next(|time| time <= 6).unwrap();
	assert_eq!(None, iterator.next(|time| time <= 6));

	if first == 1 {
		assert_eq!(2, second);
	} else {
		assert_eq!(2, first);
		assert_eq!(1, second);
	}

	assert_eq!(Some(0), iterator.next(|time| time <= 15));
	assert_eq!(Some(3), iterator.next(|time| time <= 15));
	assert_eq!(None, iterator.next(|time| time <= 15));
}
