use np_feasibility::analysis::{analyze, is_fit_for_analysis, Verdict};
use np_feasibility::bounds::occupation::{
	strengthen_bounds_using_core_occupation, OccupationStrengthenResult, OccupationTimeline, RefineResult,
};
use np_feasibility::necessary::interval::run_feasibility_interval_test;
use np_feasibility::necessary::load::run_feasibility_load_test;
use np_feasibility::necessary::pack::is_certainly_unpackable;
use np_feasibility::permutation::ProblemPermutation;
use np_feasibility::problem::{Constraint, ConstraintType, Job, Problem};

fn assert_well_formed(timeline: &OccupationTimeline, num_cores: u32) {
	let intervals = timeline.get_intervals();
	assert_eq!(0, intervals[0].start);
	assert_eq!(0, intervals[intervals.len() - 1].num_cores);
	for index in 0 .. intervals.len() {
		assert!(intervals[index].num_cores <= num_cores);
		if index > 0 {
			assert!(intervals[index - 1].start < intervals[index].start);
			assert!(intervals[index - 1].num_cores != intervals[index].num_cores);
		}
	}
	assert_eq!(num_cores, timeline.get_max_num_cores());
}

fn certain_occupation(jobs: &[Job], time: i64) -> u32 {
	jobs.iter().filter(|job| job.latest_start <= time && time < job.get_earliest_finish()).count() as u32
}

#[test]
fn test_timeline_stays_well_formed() {
	let mut timeline = OccupationTimeline::new(2);
	assert_well_formed(&timeline, 2);
	let mut inserted = Vec::new();
	for index in 0 .. 40usize {
		let release = ((index * 13) % 29) as i64;
		let execution = 1 + ((index * 7) % 11) as i64;
		let job = Job::release_to_deadline(index, release, execution, release + execution + (index % 5) as i64);
		let before = timeline.get_intervals().clone();
		if timeline.insert(job) {
			assert_eq!(before, *timeline.get_intervals());
			assert!((0 .. 60).any(|time| certain_occupation(&[job], time) == 1 && certain_occupation(&inserted, time) == 2));
		} else {
			inserted.push(job);
		}
		assert_well_formed(&timeline, 2);
		for time in 0 .. 60 {
			let intervals = timeline.get_intervals();
			let step = intervals.iter().rev().find(|interval| interval.start <= time).unwrap();
			assert_eq!(certain_occupation(&inserted, time), step.num_cores);
		}
	}
	assert!(inserted.len() > 5);
	assert!(inserted.len() < 40);
}

#[test]
fn test_no_job_starts_into_occupied_cores() {
	let mut problem = Problem {
		jobs: vec![
			Job::release_to_deadline(0, 5, 10, 20),
			Job::release_to_deadline(1, 0, 5, 20),
			Job::release_to_deadline(2, 5, 6, 40),
			Job::release_to_deadline(3, 22, 8, 31),
			Job::release_to_deadline(4, 0, 3, 50),
			Job::release_to_deadline(5, 28, 9, 60),
		],
		constraints: vec![],
		num_cores: 1,
	};
	let before = problem.clone();
	assert_eq!(OccupationStrengthenResult::Modified, strengthen_bounds_using_core_occupation(&mut problem));
	for (job, old_job) in problem.jobs.iter().zip(&before.jobs) {
		assert_eq!(old_job.get_index(), job.get_index());
		assert_eq!(old_job.get_execution_time(), job.get_execution_time());
		assert!(old_job.earliest_start <= job.earliest_start);
		assert!(job.earliest_start <= job.latest_start);
		assert!(job.latest_start <= old_job.latest_start);
		for time in job.earliest_start .. i64::min(job.get_earliest_finish(), job.latest_start) {
			assert_eq!(0, certain_occupation(&problem.jobs, time));
		}
	}
	for time in 0 .. 70 {
		assert!(certain_occupation(&problem.jobs, time) <= 1);
	}
	let strengthened = problem.clone();
	assert_eq!(OccupationStrengthenResult::Unchanged, strengthen_bounds_using_core_occupation(&mut problem));
	assert_eq!(strengthened, problem);
}

#[test]
fn test_refinement_that_finds_too_many_jobs_at_once() {
	// The job has to start at time 4 or 5, and then executes while another job certainly does
	let mut timeline = OccupationTimeline::new(1);
	let mut job = Job::release_to_deadline(0, 0, 10, 15);
	assert!(!timeline.insert(job));
	assert!(!timeline.insert(Job::release_to_deadline(1, 1, 3, 5)));
	assert!(!timeline.insert(Job::release_to_deadline(2, 10, 3, 14)));
	assert_eq!(RefineResult::Infeasible, timeline.refine(&mut job));
	assert_well_formed(&timeline, 1);
}

#[test]
fn test_interruption_of_times_that_are_none() {
	let mut timeline = OccupationTimeline::new(1);
	assert!(!timeline.insert(Job::release_to_deadline(0, 10, 15, 30)));
	assert_eq!(Some(1), timeline.find_interruption(20, 20));
	assert_eq!(Some(1), timeline.find_interruption(20, 16));
	assert_eq!(None, timeline.find_interruption(20, 15));
	assert_eq!(None, timeline.find_interruption(15, 15));
	assert_eq!(None, timeline.find_interruption(30, 20));
}

#[test]
fn test_fewer_bins_hold_no_more() {
	let cases: Vec<(i64, Vec<i64>)> = vec![
		(100, vec![100, 50, 80, 20]),
		(20, vec![5, 5, 10, 11, 11, 11, 11, 11]),
		(81, vec![5, 10, 15, 70, 70, 70, 70, 70, 70, 70, 70, 70, 70, 70]),
		(10, vec![6, 6, 6]),
		(10, vec![0, 0, 0, 0, 10, 10, 3]),
		(7, vec![8]),
		(0, vec![]),
	];
	for (bin_size, sizes) in cases {
		for num_bins in 2 .. 16 {
			if is_certainly_unpackable(num_bins, bin_size, &mut sizes.clone()) {
				assert!(is_certainly_unpackable(num_bins - 1, bin_size, &mut sizes.clone()));
			}
		}
	}
}

#[test]
fn test_smaller_bins_hold_no_more_unless_many_sizes_waste_space() {
	for bin_size in 1 .. 140 {
		for num_bins in 1 .. 5 {
			let mut sizes = vec![100, 50, 80, 20];
			if is_certainly_unpackable(num_bins, bin_size, &mut sizes) {
				assert!(is_certainly_unpackable(num_bins, bin_size - 1, &mut sizes));
			}
			let mut three = vec![60, 50, 100];
			if is_certainly_unpackable(num_bins, bin_size, &mut three) {
				assert!(is_certainly_unpackable(num_bins, bin_size - 1, &mut three));
			}
		}
	}

	// Eleven sizes of 70 leave space for nothing but the size 10 in bins of 81, but fit
	// together with the size 10 exactly into bins of 80
	let mut sizes = vec![5, 10, 15, 70, 70, 70, 70, 70, 70, 70, 70, 70, 70, 70];
	assert!(is_certainly_unpackable(10, 81, &mut sizes));
	assert!(!is_certainly_unpackable(10, 80, &mut sizes));
	assert!(is_certainly_unpackable(10, 79, &mut sizes));
}

#[test]
fn test_sizes_are_put_in_order_only_where_needed() {
	let mut sizes = vec![100, 50, 80, 20];
	assert!(!is_certainly_unpackable(4, 100, &mut sizes));
	assert_eq!(vec![100, 50, 80, 20], sizes);
	assert!(is_certainly_unpackable(2, 129, &mut sizes));
	assert_eq!(vec![20, 50, 80, 100], sizes);
}

#[test]
fn test_permutation_and_back_changes_nothing() {
	let original = Problem {
		jobs: (0 .. 7).map(|index| Job::release_to_deadline(index, index as i64, 1 + index as i64, 100)).collect(),
		constraints: vec![
			Constraint::new(6, 0, 1, ConstraintType::FinishToStart),
			Constraint::new(5, 6, 2, ConstraintType::StartToStart),
			Constraint::new(0, 3, 3, ConstraintType::FinishToStart),
			Constraint::new(5, 3, 4, ConstraintType::FinishToStart),
			Constraint::new(4, 2, 5, ConstraintType::StartToStart),
			Constraint::new(6, 2, 6, ConstraintType::FinishToStart),
		],
		num_cores: 3,
	};
	let mut problem = original.clone();
	let permutation = ProblemPermutation::possible(&mut problem).unwrap();
	assert!(problem.validate());
	assert!(problem.is_job_order_possible());
	for index in 1 .. problem.constraints.len() {
		assert!(problem.constraints[index - 1].get_before() <= problem.constraints[index].get_before());
	}
	for (new_index, original_index) in permutation.get_jobs().iter().enumerate() {
		assert_eq!(original.jobs[*original_index].get_execution_time(), problem.jobs[new_index].get_execution_time());
	}
	for (new_index, original_index) in permutation.get_constraints().iter().enumerate() {
		assert_eq!(original.constraints[*original_index].get_delay(), problem.constraints[new_index].get_delay());
	}
	permutation.transform_back(&mut problem);
	assert_eq!(original, problem);
}

fn assert_schedule(problem: &Problem, starts: &[i64], cores: &[u32]) {
	for (index, job) in problem.jobs.iter().enumerate() {
		assert!(job.earliest_start <= starts[index] && starts[index] <= job.latest_start);
		assert!(cores[index] < problem.num_cores);
		for (other_index, other) in problem.jobs.iter().enumerate().skip(index + 1) {
			if cores[index] == cores[other_index] {
				assert!(
					starts[index] + job.get_execution_time() <= starts[other_index]
						|| starts[other_index] + other.get_execution_time() <= starts[index]
				);
			}
		}
	}
}

#[test]
fn test_jobs_with_a_schedule_pass_both_tests() {
	// Both cores are busy from time 0 to time 10, and no job can be moved.
	let tight = Problem {
		jobs: (0 .. 4).map(|index| Job::release_to_deadline(index, 0, 5, 10)).collect(),
		constraints: vec![],
		num_cores: 2,
	};
	assert_schedule(&tight, &[0, 0, 5, 5], &[0, 1, 0, 1]);
	assert!(!run_feasibility_load_test(&tight));
	assert!(!run_feasibility_interval_test(&tight));

	// One job more does not fit.
	let mut crowded = tight.clone();
	crowded.jobs.push(Job::release_to_deadline(4, 0, 1, 10));
	assert!(run_feasibility_load_test(&crowded));

	// Three long jobs and two short ones fill three cores but for one time unit.
	let mixed = Problem {
		jobs: vec![
			Job::release_to_deadline(0, 0, 30, 31),
			Job::release_to_deadline(1, 1, 30, 31),
			Job::release_to_deadline(2, 0, 12, 40),
			Job::release_to_deadline(3, 10, 19, 31),
			Job::release_to_deadline(4, 20, 9, 40),
		],
		constraints: vec![],
		num_cores: 3,
	};
	assert_schedule(&mixed, &[0, 1, 0, 12, 31], &[0, 1, 2, 2, 0]);
	assert!(!run_feasibility_load_test(&mixed));
	assert!(!run_feasibility_interval_test(&mixed));
}

fn analysed_in_both_orders(num_cores: u32, jobs: &[(i64, i64, i64)], constraints: &[(usize, usize, i64)]) -> Verdict {
	let count = jobs.len();
	let mut forward = Problem {
		jobs: jobs.iter().enumerate().map(
			|(index, (release, execution, deadline))| Job::release_to_deadline(index, *release, *execution, *deadline)
		).collect(),
		constraints: constraints.iter().map(
			|(before, after, delay)| Constraint::new(*before, *after, *delay, ConstraintType::FinishToStart)
		).collect(),
		num_cores,
	};
	let mut backward = Problem {
		jobs: jobs.iter().rev().enumerate().map(
			|(index, (release, execution, deadline))| Job::release_to_deadline(index, *release, *execution, *deadline)
		).collect(),
		constraints: constraints.iter().rev().map(
			|(before, after, delay)| Constraint::new(
				count - 1 - *before, count - 1 - *after, *delay, ConstraintType::FinishToStart
			)
		).collect(),
		num_cores,
	};
	assert!(is_fit_for_analysis(&forward));
	assert!(is_fit_for_analysis(&backward));
	let verdict = analyze(&mut forward);
	assert_eq!(verdict, analyze(&mut backward));
	if verdict == Verdict::Unknown {
		for index in 0 .. count {
			assert_eq!(forward.jobs[index].earliest_start, backward.jobs[count - 1 - index].earliest_start);
			assert_eq!(forward.jobs[index].latest_start, backward.jobs[count - 1 - index].latest_start);
		}
	}
	verdict
}

#[test]
fn test_order_of_the_jobs_does_not_matter() {
	assert_eq!(Verdict::Unknown, analysed_in_both_orders(
		2, &[(0, 5, 10), (0, 5, 12), (3, 6, 20), (10, 4, 20), (0, 20, 25), (12, 10, 30)],
		&[(0, 2, 5), (1, 3, 1), (4, 5, 0)]
	));
	assert_eq!(Verdict::Unknown, analysed_in_both_orders(
		1, &[(0, 10, 10), (0, 5, 100), (0, 5, 100), (0, 5, 40)], &[(1, 2, 0), (2, 3, 0)]
	));
	assert_eq!(Verdict::Infeasible, analysed_in_both_orders(
		1, &[(0, 11, 45), (10, 1, 11), (20, 1, 21), (30, 1, 31), (40, 1, 41)], &[]
	));
	assert_eq!(Verdict::Infeasible, analysed_in_both_orders(1, &[(0, 5, 16), (0, 3, 10), (0, 8, 10)], &[]));
	assert_eq!(Verdict::Infeasible, analysed_in_both_orders(
		2, &[(23, 68, 100), (10, 78, 100), (0, 18, 20), (0, 34, 38)], &[]
	));
	assert_eq!(Verdict::Cyclic, analysed_in_both_orders(1, &[(0, 1, 10), (0, 1, 10)], &[(0, 1, 0), (1, 0, 0)]));
}
