use np_feasibility::bounds::occupation::{
	strengthen_bounds_using_core_occupation, OccupationInterval, OccupationStrengthenResult,
	OccupationTimeline, RefineResult,
};
use np_feasibility::problem::{Job, Problem};

#[test]
fn test_interval_starts_at_zero() {
	let mut timeline = OccupationTimeline::new(1);
	assert!(!timeline.insert(Job::release_to_deadline(0, 0, 15, 15)));
	assert_eq!(vec![OccupationInterval {
		start: 0, num_cores: 1
	}, OccupationInterval {
		start: 15, num_cores: 0
	}], *timeline.get_intervals());

	assert_eq!(Some(0), timeline.find_interruption(0, 100));
	assert_eq!(Some(0), timeline.find_interruption(14, 100));
	assert_eq!(None, timeline.find_interruption(15, 100));
	assert_eq!(None, timeline.find_interruption(50, 100));
}

#[test]
fn test_intervals_with_overlap() {
	let mut timeline = OccupationTimeline::new(6);

	// Certainly occupies time 15 to 25
	assert!(!timeline.insert(Job::release_to_deadline(0, 10, 15, 30)));
	assert_eq!(vec![OccupationInterval {
		start: 0, num_cores: 0
	}, OccupationInterval {
		start: 15, num_cores: 1
	}, OccupationInterval {
		start: 25, num_cores: 0
	}], *timeline.get_intervals());

	// Certainly occupies time 20 to 42
	assert!(!timeline.insert(Job::release_to_deadline(10, 12, 30, 50)));
	assert_eq!(vec![OccupationInterval {
		start: 0, num_cores: 0
	}, OccupationInterval {
		start: 15, num_cores: 1
	}, OccupationInterval {
		start: 20, num_cores: 2
	}, OccupationInterval {
		start: 25, num_cores: 1
	}, OccupationInterval {
		start: 42, num_cores: 0
	}], *timeline.get_intervals());

	// Also certainly occupies time 20 to 42
	assert!(!timeline.insert(Job::release_to_deadline(8, 20, 22, 42)));
	assert_eq!(vec![OccupationInterval {
		start: 0, num_cores: 0
	}, OccupationInterval {
		start: 15, num_cores: 1
	}, OccupationInterval {
		start: 20, num_cores: 3
	}, OccupationInterval {
		start: 25, num_cores: 2
	}, OccupationInterval {
		start: 42, num_cores: 0
	}], *timeline.get_intervals());

	// Certainly occupies time 21 to 24
	assert!(!timeline.insert(Job::release_to_deadline(2, 21, 3, 24)));
	assert_eq!(vec![OccupationInterval {
		start: 0, num_cores: 0
	}, OccupationInterval {
		start: 15, num_cores: 1
	}, OccupationInterval {
		start: 20, num_cores: 3
	}, OccupationInterval {
		start: 21, num_cores: 4
	}, OccupationInterval {
		start: 24, num_cores: 3
	}, OccupationInterval {
		start: 25, num_cores: 2
	}, OccupationInterval {
		start: 42, num_cores: 0
	}], *timeline.get_intervals());

	// Certainly occupies time 21 to 23
	assert!(!timeline.insert(Job::release_to_deadline(2, 21, 2, 23)));
	assert_eq!(vec![OccupationInterval {
		start: 0, num_cores: 0
	}, OccupationInterval {
		start: 15, num_cores: 1
	}, OccupationInterval {
		start: 20, num_cores: 3
	}, OccupationInterval {
		start: 21, num_cores: 5
	}, OccupationInterval {
		start: 23, num_cores: 4
	}, OccupationInterval {
		start: 24, num_cores: 3
	}, OccupationInterval {
		start: 25, num_cores: 2
	}, OccupationInterval {
		start: 42, num_cores: 0
	}], *timeline.get_intervals());

	// Also certainly occupies time 21 to 23
	assert!(!timeline.insert(Job::release_to_deadline(3, 20, 3, 24)));
	assert_eq!(vec![OccupationInterval {
		start: 0, num_cores: 0
	}, OccupationInterval {
		start: 15, num_cores: 1
	}, OccupationInterval {
		start: 20, num_cores: 3
	}, OccupationInterval {
		start: 21, num_cores: 6
	}, OccupationInterval {
		start: 23, num_cores: 4
	}, OccupationInterval {
		start: 24, num_cores: 3
	}, OccupationInterval {
		start: 25, num_cores: 2
	}, OccupationInterval {
		start: 42, num_cores: 0
	}], *timeline.get_intervals());

	assert_eq!(None, timeline.find_interruption(0, 21));
	assert_eq!(Some(3), timeline.find_interruption(0, 22));
	assert_eq!(Some(3), timeline.find_interruption(0, 100));
	assert_eq!(Some(3), timeline.find_interruption(22, 100));
	assert_eq!(None, timeline.find_interruption(23, 100));
}

#[test]
fn test_intervals_without_overlap() {
	let mut timeline = OccupationTimeline::new(1);
	assert!(!timeline.insert(Job::release_to_deadline(0, 10, 15, 30)));
	assert!(!timeline.insert(Job::release_to_deadline(0, 30, 15, 50)));
	assert!(!timeline.insert(Job::release_to_deadline(0, 50, 15, 70)));

	assert_eq!(vec![OccupationInterval {
		start: 0, num_cores: 0
	}, OccupationInterval {
		start: 15, num_cores: 1
	}, OccupationInterval {
		start: 25, num_cores: 0
	}, OccupationInterval {
		start: 35, num_cores: 1
	}, OccupationInterval {
		start: 45, num_cores: 0
	}, OccupationInterval {
		start: 55, num_cores: 1
	}, OccupationInterval {
		start: 65, num_cores: 0
	}], *timeline.get_intervals());

	assert_eq!(None, timeline.find_interruption(0, 15));
	assert_eq!(Some(1), timeline.find_interruption(0, 16));
	for start in vec![10, 15, 20] {
		assert_eq!(Some(1), timeline.find_interruption(start, 20));
	}
	assert_eq!(Some(1), timeline.find_interruption(24, 35));
	assert_eq!(None, timeline.find_interruption(25, 35));
	assert_eq!(Some(3), timeline.find_interruption(25, 36));
	assert_eq!(Some(3), timeline.find_interruption(25, 100));
	assert_eq!(Some(3), timeline.find_interruption(44, 100));
	assert_eq!(Some(5), timeline.find_interruption(45, 100));
}

#[test]
fn test_jobs_without_certain_execution() {
	let mut timeline = OccupationTimeline::new(1);
	assert!(!timeline.insert(Job::release_to_deadline(0, 0, 10, 30)));
	assert!(!timeline.insert(Job::release_to_deadline(0, 0, 15, 30)));
	assert!(!timeline.insert(Job::release_to_deadline(0, 50, 20, 90)));

	assert_eq!(vec![OccupationInterval { start: 0, num_cores: 0 }], *timeline.get_intervals());
	assert_eq!(None, timeline.find_interruption(0, 12345));
}

#[test]
fn test_stacking_intervals() {
	let mut timeline = OccupationTimeline::new(100);

	let job = Job::release_to_deadline(0, 30, 20, 50);
	for _ in 0..100 {
		assert!(!timeline.insert(job));
	}

	assert_eq!(vec![OccupationInterval {
		start: 0, num_cores: 0
	}, OccupationInterval {
		start: 30, num_cores: 100
	}, OccupationInterval {
		start: 50, num_cores: 0
	}], *timeline.get_intervals());

	// Next insertion causes deadline miss since there are 'only' 100 cores
	assert!(timeline.insert(job));

	assert_eq!(None, timeline.find_interruption(0, 30));
	assert_eq!(Some(1), timeline.find_interruption(0, 31));
	assert_eq!(Some(1), timeline.find_interruption(49, 100));
	assert_eq!(None, timeline.find_interruption(50, 100));
}

#[test]
fn test_overwriting_insert() {
	let mut timeline = OccupationTimeline::new(2);
	assert!(!timeline.insert(Job::release_to_deadline(0, 0, 60, 100)));
	assert!(!timeline.insert(Job::release_to_deadline(1, 10, 10, 20)));
	assert_eq!(vec![OccupationInterval {
		start: 0, num_cores: 0
	}, OccupationInterval {
		start: 10, num_cores: 1
	}, OccupationInterval {
		start: 20, num_cores: 0
	}, OccupationInterval {
		start: 40, num_cores: 1
	}, OccupationInterval {
		start: 60, num_cores: 0
	}], *timeline.get_intervals());
	assert!(!timeline.insert(Job::release_to_deadline(2, 15, 85, 100)));
	assert_eq!(vec![OccupationInterval {
		start: 0, num_cores: 0
	}, OccupationInterval {
		start: 10, num_cores: 1
	}, OccupationInterval {
		start: 15, num_cores: 2
	}, OccupationInterval {
		start: 20, num_cores: 1
	}, OccupationInterval {
		start: 40, num_cores: 2
	}, OccupationInterval {
		start: 60, num_cores: 1
	}, OccupationInterval {
		start: 100, num_cores: 0
	}], *timeline.get_intervals());
}

#[test]
fn overwriting_regression_test() {
	let mut timeline = OccupationTimeline::new(2);
	timeline.insert(Job::release_to_deadline(0, 5, 10, 20));
	timeline.insert(Job::release_to_deadline(1, 15, 6, 21));
	assert_eq!(vec![OccupationInterval {
		start: 0, num_cores: 0
	}, OccupationInterval {
		start: 10, num_cores: 1
	}, OccupationInterval {
		start: 21, num_cores: 0
	}], *timeline.get_intervals());

	let mut timeline2 = timeline.clone();
	let mut timeline3 = timeline.clone();
	timeline.insert(Job::release_to_deadline(0, 5, 5, 10));
	assert_eq!(vec![OccupationInterval {
		start: 0, num_cores: 0
	}, OccupationInterval {
		start: 5, num_cores: 1
	}, OccupationInterval {
		start: 21, num_cores: 0
	}], *timeline.get_intervals());

	timeline2.insert(Job::release_to_deadline(0, 4, 5, 10));
	assert_eq!(vec![OccupationInterval {
		start: 0, num_cores: 0
	}, OccupationInterval {
		start: 5, num_cores: 1
	}, OccupationInterval {
		start: 9, num_cores: 0
	}, OccupationInterval {
		start: 10, num_cores: 1
	}, OccupationInterval {
		start: 21, num_cores: 0
	}], *timeline2.get_intervals());

	timeline3.insert(Job::release_to_deadline(0, 10, 12, 33));
	assert_eq!(vec![OccupationInterval {
		start: 0, num_cores: 0
	}, OccupationInterval {
		start: 10, num_cores: 1
	}, OccupationInterval {
		start: 22, num_cores: 0
	}], *timeline3.get_intervals());
}

#[test]
fn test_insert_fill_gap() {
	let mut timeline = OccupationTimeline::new(1);
	timeline.insert(Job::release_to_deadline(0, 5, 10, 15));
	timeline.insert(Job::release_to_deadline(0, 20, 10, 30));

	assert_eq!(vec![OccupationInterval {
		start: 0, num_cores: 0
	}, OccupationInterval {
		start: 5, num_cores: 1
	}, OccupationInterval {
		start: 15, num_cores: 0
	}, OccupationInterval {
		start: 20, num_cores: 1
	}, OccupationInterval {
		start: 30, num_cores: 0
	}], *timeline.get_intervals());

	timeline.insert(Job::release_to_deadline(0, 15, 5, 20));
	assert_eq!(vec![OccupationInterval {
		start: 0, num_cores: 0
	}, OccupationInterval {
		start: 5, num_cores: 1
	}, OccupationInterval {
		start: 30, num_cores: 0
	}], *timeline.get_intervals());
}

#[test]
fn test_simple_feasible_refinement() {
	let mut timeline = OccupationTimeline::new(1);
	let mut long_job = Job::release_to_deadline(0, 5, 10, 20);
	let mut early_job = Job::release_to_deadline(1, 0, 5, 20);
	let mut late_job = Job::release_to_deadline(2, 5, 6, 21);
	timeline.insert(long_job);
	timeline.insert(early_job);
	timeline.insert(late_job);

	assert_eq!(vec![OccupationInterval {
		start: 0, num_cores: 0
	}, OccupationInterval {
		start: 10, num_cores: 1
	}, OccupationInterval {
		start: 15, num_cores: 0
	}], *timeline.get_intervals());

	assert_eq!(RefineResult::Unchanged, timeline.refine(&mut long_job));
	assert_eq!(RefineResult::Unchanged, timeline.refine(&mut early_job));

	assert_eq!(RefineResult::ModifiedJobAndIntervals, timeline.refine(&mut late_job));
	assert_eq!(15, late_job.earliest_start);
	assert_eq!(vec![OccupationInterval {
		start: 0, num_cores: 0
	}, OccupationInterval {
		start: 10, num_cores: 1
	}, OccupationInterval {
		start: 21, num_cores: 0
	}], *timeline.get_intervals());
	assert_eq!(RefineResult::Unchanged, timeline.refine(&mut late_job));

	assert_eq!(RefineResult::ModifiedJob, timeline.refine(&mut early_job));
	assert_eq!(5, early_job.latest_start);
	assert_eq!(vec![OccupationInterval {
		start: 0, num_cores: 0
	}, OccupationInterval {
		start: 10, num_cores: 1
	}, OccupationInterval {
		start: 21, num_cores: 0
	}], *timeline.get_intervals());
	assert_eq!(RefineResult::Unchanged, timeline.refine(&mut early_job));

	assert_eq!(RefineResult::ModifiedJobAndIntervals, timeline.refine(&mut long_job));
	assert_eq!(5, long_job.earliest_start);
	assert_eq!(vec![OccupationInterval {
		start: 0, num_cores: 0
	}, OccupationInterval {
		start: 5, num_cores: 1
	}, OccupationInterval {
		start: 21, num_cores: 0
	}], *timeline.get_intervals());
	assert_eq!(RefineResult::Unchanged, timeline.refine(&mut long_job));

	assert_eq!(RefineResult::ModifiedJobAndIntervals, timeline.refine(&mut early_job));
	assert_eq!(0, early_job.latest_start);
	assert_eq!(vec![OccupationInterval {
		start: 0, num_cores: 1
	}, OccupationInterval {
		start: 21, num_cores: 0
	}], *timeline.get_intervals());
	assert_eq!(RefineResult::Unchanged, timeline.refine(&mut early_job));
	assert_eq!(RefineResult::Unchanged, timeline.refine(&mut long_job));
	assert_eq!(RefineResult::Unchanged, timeline.refine(&mut late_job));
}

#[test]
fn test_refinement_shift_to_right1() {
	let mut timeline = OccupationTimeline::new(1);
	let mut long_job = Job::release_to_deadline(0, 5, 10, 20);
	let mut early_job = Job::release_to_deadline(1, 4, 6, 20);
	timeline.insert(long_job);
	timeline.insert(early_job);

	assert_eq!(vec![OccupationInterval {
		start: 0, num_cores: 0
	}, OccupationInterval {
		start: 10, num_cores: 1
	}, OccupationInterval {
		start: 15, num_cores: 0
	}], *timeline.get_intervals());

	assert_eq!(RefineResult::Unchanged, timeline.refine(&mut long_job));
	assert_eq!(RefineResult::ModifiedJobAndIntervals, timeline.refine(&mut early_job));
	assert_eq!(4, early_job.latest_start);
	assert_eq!(vec![OccupationInterval {
		start: 0, num_cores: 0
	}, OccupationInterval {
		start: 4, num_cores: 1
	}, OccupationInterval {
		start: 15, num_cores: 0
	}], *timeline.get_intervals());
	assert_eq!(RefineResult::Unchanged, timeline.refine(&mut early_job));

	assert_eq!(RefineResult::ModifiedJobAndIntervals, timeline.refine(&mut long_job));
	assert_eq!(10, long_job.earliest_start);
	assert_eq!(vec![OccupationInterval {
		start: 0, num_cores: 0
	}, OccupationInterval {
		start: 4, num_cores: 1
	}, OccupationInterval {
		start: 20, num_cores: 0
	}], *timeline.get_intervals());
}

#[test]
fn test_refinement_shift_to_right2() {
	let mut timeline = OccupationTimeline::new(1);
	let mut long_job = Job::release_to_deadline(0, 5, 10, 20);
	let mut early_job = Job::release_to_deadline(1, 3, 6, 20);
	timeline.insert(long_job);
	timeline.insert(early_job);

	assert_eq!(vec![OccupationInterval {
		start: 0, num_cores: 0
	}, OccupationInterval {
		start: 10, num_cores: 1
	}, OccupationInterval {
		start: 15, num_cores: 0
	}], *timeline.get_intervals());

	assert_eq!(RefineResult::Unchanged, timeline.refine(&mut long_job));
	assert_eq!(RefineResult::ModifiedJobAndIntervals, timeline.refine(&mut early_job));
	assert_eq!(4, early_job.latest_start);
	assert_eq!(vec![OccupationInterval {
		start: 0, num_cores: 0
	}, OccupationInterval {
		start: 4, num_cores: 1
	}, OccupationInterval {
		start: 9, num_cores: 0
	}, OccupationInterval {
		start: 10, num_cores: 1
	}, OccupationInterval {
		start: 15, num_cores: 0
	}], *timeline.get_intervals());
	assert_eq!(RefineResult::Unchanged, timeline.refine(&mut early_job));

	assert_eq!(RefineResult::ModifiedJobAndIntervals, timeline.refine(&mut long_job));
	assert_eq!(9, long_job.earliest_start);
	assert_eq!(vec![OccupationInterval {
		start: 0, num_cores: 0
	}, OccupationInterval {
		start: 4, num_cores: 1
	}, OccupationInterval {
		start: 9, num_cores: 0
	}, OccupationInterval {
		start: 10, num_cores: 1
	}, OccupationInterval {
		start: 19, num_cores: 0
	}], *timeline.get_intervals());
}

#[test]
fn test_refinement_shift_to_left2() {
	let mut timeline = OccupationTimeline::new(1);
	let mut long_job = Job::release_to_deadline(0, 5, 10, 20);
	let mut late_job = Job::release_to_deadline(1, 5, 6, 22);
	timeline.insert(long_job);
	timeline.insert(late_job);

	assert_eq!(vec![OccupationInterval {
		start: 0, num_cores: 0
	}, OccupationInterval {
		start: 10, num_cores: 1
	}, OccupationInterval {
		start: 15, num_cores: 0
	}], *timeline.get_intervals());

	assert_eq!(RefineResult::Unchanged, timeline.refine(&mut long_job));
	assert_eq!(RefineResult::ModifiedJobAndIntervals, timeline.refine(&mut late_job));
	assert_eq!(15, late_job.earliest_start);
	assert_eq!(vec![OccupationInterval {
		start: 0, num_cores: 0
	}, OccupationInterval {
		start: 10, num_cores: 1
	}, OccupationInterval {
		start: 15, num_cores: 0
	}, OccupationInterval {
		start: 16, num_cores: 1
	}, OccupationInterval {
		start: 21, num_cores: 0
	}], *timeline.get_intervals());
	assert_eq!(RefineResult::Unchanged, timeline.refine(&mut late_job));

	assert_eq!(RefineResult::ModifiedJobAndIntervals, timeline.refine(&mut long_job));
	assert_eq!(6, long_job.latest_start);
	assert_eq!(vec![OccupationInterval {
		start: 0, num_cores: 0
	}, OccupationInterval {
		start: 6, num_cores: 1
	}, OccupationInterval {
		start: 15, num_cores: 0
	}, OccupationInterval {
		start: 16, num_cores: 1
	}, OccupationInterval {
		start: 21, num_cores: 0
	}], *timeline.get_intervals());
}

#[test]
fn test_simple_feasible_strengthening() {
	let mut problem = Problem {
		jobs: vec![
			Job::release_to_deadline(0, 5, 10, 20),
			Job::release_to_deadline(1, 0, 5, 20),
			Job::release_to_deadline(2, 5, 6, 21)
		],
		constraints: vec![],
		num_cores: 1
	};
	assert_eq!(OccupationStrengthenResult::Modified, strengthen_bounds_using_core_occupation(&mut problem));
	assert_eq!(0, problem.jobs[1].earliest_start);
	assert_eq!(0, problem.jobs[1].latest_start);
	assert_eq!(5, problem.jobs[0].earliest_start);
	assert_eq!(5, problem.jobs[0].latest_start);
	assert_eq!(15, problem.jobs[2].earliest_start);
	assert_eq!(15, problem.jobs[2].latest_start);
}

#[test]
fn test_simple_infeasible_strengthening() {
	let mut problem = Problem {
		jobs: vec![
			Job::release_to_deadline(0, 0, 8, 15),
			Job::release_to_deadline(1, 7, 1, 8),
		],
		constraints: vec![],
		num_cores: 1
	};
	assert_eq!(OccupationStrengthenResult::Infeasible, strengthen_bounds_using_core_occupation(&mut problem));
}

fn periodic_infeasible_problem() -> Problem {
	Problem {
		jobs: vec![
			Job::release_to_deadline(0, 0, 11, 45),
			Job::release_to_deadline(1, 10, 1, 11),
			Job::release_to_deadline(2, 20, 1, 21),
			Job::release_to_deadline(3, 30, 1, 31),
			Job::release_to_deadline(4, 40, 1, 41),
		],
		constraints: vec![],
		num_cores: 1
	}
}

#[test]
fn test_periodic_infeasible_strengthening() {
	let mut problem1 = periodic_infeasible_problem();
	let mut problem2 = problem1.clone();
	let mut problem3 = problem1.clone();
	assert_eq!(OccupationStrengthenResult::Infeasible, strengthen_bounds_using_core_occupation(&mut problem1));

	problem2.jobs[0] = Job::release_to_deadline(0, 0, 10, 45);
	assert_eq!(OccupationStrengthenResult::Modified, strengthen_bounds_using_core_occupation(&mut problem2));
	assert_eq!(0, problem2.jobs[0].earliest_start);
	assert_eq!(0, problem2.jobs[0].latest_start);

	problem3.jobs[0] = Job::release_to_deadline(0, 0, 9, 45);
	assert_eq!(OccupationStrengthenResult::Modified, strengthen_bounds_using_core_occupation(&mut problem3));
	assert_eq!(0, problem3.jobs[0].earliest_start);
	assert_eq!(31, problem3.jobs[0].latest_start);
}

#[test]
fn periodic_regression_test() {
	let mut problem = periodic_infeasible_problem();

	let mut timeline = OccupationTimeline::new(problem.num_cores);
	for job in &problem.jobs {
		timeline.insert(*job);
	}

	assert_eq!(RefineResult::Infeasible, timeline.refine(&mut problem.jobs[0]));
}
