use np_feasibility::necessary::pack::is_certainly_unpackable;

#[test]
fn test_without_jobs() {
	assert!(!is_certainly_unpackable(1, 10, &mut vec![]));
	assert!(!is_certainly_unpackable(2, 10, &mut vec![]));
	assert!(!is_certainly_unpackable(5, 10, &mut vec![]));

	assert!(!is_certainly_unpackable(1, 0, &mut vec![]));
	assert!(!is_certainly_unpackable(2, 0, &mut vec![]));
	assert!(!is_certainly_unpackable(5, 0, &mut vec![]));
}

#[test]
fn test_with_1_job() {
	let job = &mut vec![100];
	assert!(is_certainly_unpackable(1, 99, job));
	assert!(is_certainly_unpackable(5, 99, job));

	assert!(!is_certainly_unpackable(1, 100, job));
	assert!(!is_certainly_unpackable(5, 100, job));
}

#[test]
fn test_with_2_equally_long_jobs() {
	let mut jobs = vec![100, 100];
	assert!(is_certainly_unpackable(1, 99, &mut jobs));
	assert!(is_certainly_unpackable(2, 99, &mut jobs));
	assert!(is_certainly_unpackable(5, 99, &mut jobs));

	assert!(is_certainly_unpackable(1, 100, &mut jobs));
	assert!(!is_certainly_unpackable(2, 100, &mut jobs));
	assert!(!is_certainly_unpackable(5, 100, &mut jobs));

	assert!(is_certainly_unpackable(1, 197, &mut jobs));
	assert!(!is_certainly_unpackable(1, 200, &mut jobs));
	assert!(!is_certainly_unpackable(1, 300, &mut jobs));
}

#[test]
fn test_with_2_jobs_of_different_length() {
	let mut jobs = vec![100, 50];
	assert!(is_certainly_unpackable(1, 99, &mut jobs));
	assert!(is_certainly_unpackable(2, 99, &mut jobs));
	assert!(is_certainly_unpackable(5, 99, &mut jobs));

	assert!(is_certainly_unpackable(1, 100, &mut jobs));
	assert!(!is_certainly_unpackable(2, 100, &mut jobs));
	assert!(!is_certainly_unpackable(5, 100, &mut jobs));

	assert!(is_certainly_unpackable(1, 149, &mut jobs));
	assert!(!is_certainly_unpackable(1, 150, &mut jobs));
	assert!(!is_certainly_unpackable(1, 197, &mut jobs));
}

#[test]
fn test_with_3_equally_long_jobs() {
	let mut jobs = vec![100, 100, 100];
	assert!(is_certainly_unpackable(1, 99, &mut jobs));
	assert!(is_certainly_unpackable(3, 99, &mut jobs));
	assert!(is_certainly_unpackable(100, 99, &mut jobs));

	assert!(is_certainly_unpackable(1, 100, &mut jobs));
	assert!(is_certainly_unpackable(2, 100, &mut jobs));
	assert!(!is_certainly_unpackable(3, 100, &mut jobs));
	assert!(!is_certainly_unpackable(4, 100, &mut jobs));

	assert!(is_certainly_unpackable(1, 299, &mut jobs));
	assert!(!is_certainly_unpackable(1, 300, &mut jobs));
	assert!(!is_certainly_unpackable(1, 301, &mut jobs));

	assert!(is_certainly_unpackable(2, 199, &mut jobs));
	assert!(!is_certainly_unpackable(2, 200, &mut jobs));
	assert!(!is_certainly_unpackable(2, 299, &mut jobs));
}

#[test]
fn test_with_3_jobs_of_different_length() {
	let mut jobs = vec![100, 50, 60];
	assert!(is_certainly_unpackable(1, 209, &mut jobs));
	assert!(is_certainly_unpackable(2, 109, &mut jobs));
	assert!(is_certainly_unpackable(5, 99, &mut jobs));

	assert!(is_certainly_unpackable(1, 110, &mut jobs));
	assert!(!is_certainly_unpackable(2, 110, &mut jobs));
	assert!(!is_certainly_unpackable(5, 110, &mut jobs));

	assert!(!is_certainly_unpackable(1, 210, &mut jobs));
	assert!(!is_certainly_unpackable(2, 210, &mut jobs));
	assert!(!is_certainly_unpackable(3, 100, &mut jobs));
}

#[test]
fn test_with_4_equally_long_jobs() {
	let mut jobs = vec![100, 100, 100, 100];
	assert!(is_certainly_unpackable(1, 99, &mut jobs));
	assert!(is_certainly_unpackable(4, 99, &mut jobs));
	assert!(is_certainly_unpackable(100, 99, &mut jobs));

	assert!(is_certainly_unpackable(1, 100, &mut jobs));
	assert!(is_certainly_unpackable(3, 100, &mut jobs));
	assert!(!is_certainly_unpackable(4, 100, &mut jobs));
	assert!(!is_certainly_unpackable(123, 100, &mut jobs));

	assert!(is_certainly_unpackable(1, 399, &mut jobs));
	assert!(!is_certainly_unpackable(1, 400, &mut jobs));
	assert!(!is_certainly_unpackable(1, 401, &mut jobs));

	assert!(is_certainly_unpackable(2, 199, &mut jobs));
	assert!(!is_certainly_unpackable(2, 200, &mut jobs));
	assert!(!is_certainly_unpackable(2, 399, &mut jobs));
}

#[test]
fn test_with_4_jobs_of_different_length() {
	let mut jobs = vec![100, 50, 80, 20];
	assert!(is_certainly_unpackable(1, 249, &mut jobs));
	assert!(is_certainly_unpackable(2, 129, &mut jobs));
	assert!(is_certainly_unpackable(4, 99, &mut jobs));
	assert!(is_certainly_unpackable(9, 99, &mut jobs));

	assert!(!is_certainly_unpackable(1, 250, &mut jobs));
	assert!(!is_certainly_unpackable(2, 130, &mut jobs));
	assert!(!is_certainly_unpackable(5, 130, &mut jobs));

	assert!(!is_certainly_unpackable(3, 100, &mut jobs));
}

#[test]
fn test_sum_is_looked_at_before_the_number_of_sizes() {
	// One size in two bins: the size is not larger than a bin, but the sum -1 is larger
	// than the space -2 of both bins.
	assert!(is_certainly_unpackable(2, -1, &mut vec![-1]));
	assert!(is_certainly_unpackable(3, -1, &mut vec![]));
	assert!(!is_certainly_unpackable(2, 0, &mut vec![0]));
	assert!(!is_certainly_unpackable(3, 0, &mut vec![]));
}
