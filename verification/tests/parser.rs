use np_feasibility::parser::{
	mark_characters, parse_constraints, parse_jobs, parse_marked_constraints, parse_marked_jobs,
	parse_problem, Glyph, ParseError, ParseErrorKind,
};
use np_feasibility::problem::{Constraint, ConstraintType, Job, Problem};

const CLASSIC_JOBS: &str = "Task ID, Job ID, Arrival min, Arrival max, Cost min, Cost max, Deadline, Priority
1, 1, 40, 40, 10, 10, 100, 1
1, 2, 0, 0, 20, 20, 100, 2
1, 3, 75, 75, 30, 30, 100, 3
";

const SHORT_JOBS: &str = "500, 209, 2000\n";

const SELF_CLASSIC_JOBS: &str = "Task ID, Job ID, Arrival min, Arrival max, Cost min, Cost max, Deadline, Priority
1, 1, 500, 500, 209, 209, 2000, 1
";

const SELF_CLASSIC4: &str = "Predecessor TID, Predecessor JID, Successor TID, Successor JID
1, 1, 1, 1
";

const SELF_CLASSIC6: &str = "Predecessor TID, Predecessor JID, Successor TID, Successor JID, Sus Min, Sus Max
1, 1, 1, 1, 5, 5
";

const SELF_CLASSIC7: &str = "Predecessor TID, Predecessor JID, Successor TID, Successor JID, Sus Min, Sus Max, Signal At
1, 1, 1, 1, 5, 5, s-s
";

const SELF_SHORT2: &str = "0, 0\n";
const SELF_SHORT3: &str = "0, 0, 123\n";
const SELF_SHORT4: &str = "0, 0, 123, s-s\n";

#[test]
fn test_parse_jobs_classic() {
	let (jobs, id_map) = parse_jobs(CLASSIC_JOBS).unwrap();
	assert_eq!(jobs.len(), 3);
	assert_eq!(id_map.len(), 3);

	assert_eq!(id_map.get(1, 1), Some(0));
	assert_eq!(id_map.get(1, 2), Some(1));
	assert_eq!(id_map.get(1, 3), Some(2));

	assert_eq!(Job::release_to_deadline(0, 40, 10, 100), jobs[0]);
	assert_eq!(Job::release_to_deadline(1, 0, 20, 100), jobs[1]);
	assert_eq!(Job::release_to_deadline(2, 75, 30, 100), jobs[2]);
}

#[test]
fn test_parse_jobs_short() {
	let (jobs, id_map) = parse_jobs(SHORT_JOBS).unwrap();
	assert_eq!(jobs, vec![Job::release_to_deadline(0, 500, 209, 2000)]);
	assert_eq!(id_map.len(), 0);
}

#[test]
fn test_parse_constraints_classic4() {
	let (_jobs, id_map) = parse_jobs(SELF_CLASSIC_JOBS).unwrap();
	let constraints = parse_constraints(SELF_CLASSIC4, &id_map).unwrap();
	assert_eq!(vec![Constraint::new(0, 0, 0, ConstraintType::FinishToStart)], constraints);
}

#[test]
fn test_parse_constraints_classic6() {
	let (_jobs, id_map) = parse_jobs(SELF_CLASSIC_JOBS).unwrap();
	let constraints = parse_constraints(SELF_CLASSIC6, &id_map).unwrap();
	assert_eq!(vec![Constraint::new(0, 0, 5, ConstraintType::FinishToStart)], constraints);
}

#[test]
fn test_parse_constraints_classic7() {
	let (_jobs, id_map) = parse_jobs(SELF_CLASSIC_JOBS).unwrap();
	let constraints = parse_constraints(SELF_CLASSIC7, &id_map).unwrap();
	assert_eq!(vec![Constraint::new(0, 0, 5, ConstraintType::StartToStart)], constraints);
}

#[test]
fn test_parse_constraints_short2() {
	let (_jobs, id_map) = parse_jobs(SELF_CLASSIC_JOBS).unwrap();
	let constraints = parse_constraints(SELF_SHORT2, &id_map).unwrap();
	assert_eq!(vec![Constraint::new(0, 0, 0, ConstraintType::FinishToStart)], constraints);
}

#[test]
fn test_parse_constraints_short3() {
	let (_jobs, id_map) = parse_jobs(SELF_CLASSIC_JOBS).unwrap();
	let constraints = parse_constraints(SELF_SHORT3, &id_map).unwrap();
	assert_eq!(vec![Constraint::new(0, 0, 123, ConstraintType::FinishToStart)], constraints);
}

#[test]
fn test_parse_constraints_short4() {
	let (_jobs, id_map) = parse_jobs(SELF_CLASSIC_JOBS).unwrap();
	let constraints = parse_constraints(SELF_SHORT4, &id_map).unwrap();
	assert_eq!(vec![Constraint::new(0, 0, 123, ConstraintType::StartToStart)], constraints);
}

#[test]
fn test_parse_problem_without_constraints() {
	let problem = parse_problem(CLASSIC_JOBS, None, 1).unwrap();
	assert_eq!(Problem { jobs: parse_jobs(CLASSIC_JOBS).unwrap().0, constraints: Vec::new(), num_cores: 1 }, problem);
}

#[test]
fn test_parse_classic_problem() {
	let problem = parse_problem(SELF_CLASSIC_JOBS, Some(SELF_CLASSIC6), 12).unwrap();
	assert_eq!(Problem {
		jobs: parse_jobs(SELF_CLASSIC_JOBS).unwrap().0,
		constraints: vec![Constraint::new(0, 0, 5, ConstraintType::FinishToStart)],
		num_cores: 12
	}, problem);
}

#[test]
fn test_parse_short_problem() {
	let problem = parse_problem(SHORT_JOBS, Some(SELF_SHORT3), 3).unwrap();
	assert_eq!(Problem {
		jobs: parse_jobs(SHORT_JOBS).unwrap().0,
		constraints: vec![Constraint::new(0, 0, 123, ConstraintType::FinishToStart)],
		num_cores: 3
	}, problem);
}

fn jobs_error(text: &str) -> ParseError {
	match parse_jobs(text) {
		Ok(_) => panic!("the text was accepted"),
		Err(error) => error,
	}
}

fn constraints_error(text: &str) -> ParseError {
	let (_jobs, id_map) = parse_jobs(CLASSIC_JOBS).unwrap();
	match parse_constraints(text, &id_map) {
		Ok(_) => panic!("the text was accepted"),
		Err(error) => error,
	}
}

#[test]
fn test_jobs_that_are_not_accepted() {
	assert_eq!(ParseError { kind: ParseErrorKind::UnexpectedFieldCount, line: 1 }, jobs_error("1, 2, 3\n1, 2\n"));
	assert_eq!(ParseError { kind: ParseErrorKind::InvalidNumber, line: 1 }, jobs_error("1, 2, 3\n1, 2, 3x\n"));
	assert_eq!(ParseError { kind: ParseErrorKind::InvalidNumber, line: 2 }, jobs_error("a, b, c\n\n1, , 3\n"));
	assert_eq!(ParseError { kind: ParseErrorKind::InvalidNumber, line: 0 }, jobs_error("1, 2, 9223372036854775808"));
	assert_eq!(ParseError { kind: ParseErrorKind::InvalidNumber, line: 0 }, jobs_error("-1, 1, 0, 0, 1, 1, 10, 0"));
	assert_eq!(ParseError { kind: ParseErrorKind::InvalidNumber, line: 0 }, jobs_error("+, 1, 2"));
	assert_eq!(ParseError { kind: ParseErrorKind::InvalidJob, line: 0 }, jobs_error("1, 0, 3"));
	assert_eq!(ParseError { kind: ParseErrorKind::InvalidJob, line: 0 }, jobs_error("1, 5, -9223372036854775808"));
	// Only the first line that is not blank can be a header
	assert_eq!(ParseError { kind: ParseErrorKind::InvalidNumber, line: 1 }, jobs_error("1, 2, 3\nr, e, d\n"));
	// A line with a letter at the start of the text is a header, whatever else it holds
	assert!(parse_jobs("1, 2, 3x\n").unwrap().0.is_empty());
}

#[test]
fn test_jobs_with_signs_and_blank_lines() {
	let (jobs, id_map) = parse_jobs("\n  \n+5,  7 ,\t-3\r\n\n-9223372036854775808, 1, 9223372036854775807\n4294967295, 0, 0, 1, 0, 2, 3, 0").unwrap();
	assert_eq!(3, jobs.len());
	assert_eq!(Job::release_to_deadline(0, 5, 7, -3), jobs[0]);
	assert_eq!(1, jobs[1].get_index());
	assert_eq!(i64::MIN, jobs[1].earliest_start);
	assert_eq!(i64::MAX - 1, jobs[1].latest_start);
	assert_eq!(Job::release_to_deadline(2, 1, 2, 3), jobs[2]);
	assert_eq!(1, id_map.len());
	assert_eq!(Some(2), id_map.get(u32::MAX, 0));
	assert_eq!(None, id_map.get(0, u32::MAX));

	let (no_jobs, no_ids) = parse_jobs("").unwrap();
	assert!(no_jobs.is_empty());
	assert_eq!(0, no_ids.len());
}

#[test]
fn test_constraints_that_are_not_accepted() {
	assert_eq!(ParseError { kind: ParseErrorKind::UnexpectedFieldCount, line: 0 }, constraints_error("1"));
	assert_eq!(ParseError { kind: ParseErrorKind::UnexpectedFieldCount, line: 0 }, constraints_error("1, 1, 1, 2, 0"));
	assert_eq!(ParseError { kind: ParseErrorKind::UnexpectedFieldCount, line: 1 }, constraints_error("0, 1\n1, 1, 1, 2, 0, 0, f-s, 0"));
	assert_eq!(ParseError { kind: ParseErrorKind::InvalidNumber, line: 0 }, constraints_error("0, -1"));
	assert_eq!(ParseError { kind: ParseErrorKind::InvalidNumber, line: 0 }, constraints_error("0, 1, 1.5"));
	assert_eq!(ParseError { kind: ParseErrorKind::UnknownConstraintType, line: 0 }, constraints_error("0, 1, 2, f-f"));
	assert_eq!(ParseError { kind: ParseErrorKind::UnknownConstraintType, line: 0 }, constraints_error("1, 1, 1, 2, 0, 0, 7"));
	assert_eq!(ParseError { kind: ParseErrorKind::UnknownJob, line: 0 }, constraints_error("1, 1, 1, 4"));
	assert_eq!(ParseError { kind: ParseErrorKind::UnknownJob, line: 1 }, constraints_error("0, 1\n2, 1, x, 1"));
	assert_eq!(ParseError { kind: ParseErrorKind::InvalidNumber, line: 1 }, constraints_error("0, 1\n1, 1, x, 1"));
	// A line of four numbers names the jobs by task and job number
	assert_eq!(ParseError { kind: ParseErrorKind::UnknownJob, line: 0 }, constraints_error("0, 1, 2, 3"));
}

#[test]
fn test_constraints_of_every_shape() {
	let (_jobs, id_map) = parse_jobs(CLASSIC_JOBS).unwrap();
	let constraints = parse_constraints(
		"0, 1\n0, 2, 7\n1, 2, 8, f-s\n1, 2, 9, s-s\n1, 1, 1, 3\n1, 2, 1, 3, 0, 4\n1, 3, 1, 1, 0, -4, s-s", &id_map
	).unwrap();
	assert_eq!(vec![
		Constraint::new(0, 1, 0, ConstraintType::FinishToStart),
		Constraint::new(0, 2, 7, ConstraintType::FinishToStart),
		Constraint::new(1, 2, 8, ConstraintType::FinishToStart),
		Constraint::new(1, 2, 9, ConstraintType::StartToStart),
		Constraint::new(0, 2, 0, ConstraintType::FinishToStart),
		Constraint::new(1, 2, 4, ConstraintType::FinishToStart),
		Constraint::new(2, 0, -4, ConstraintType::StartToStart),
	], constraints);

	// The letters s and f alone do not make a header
	assert_eq!(
		ParseError { kind: ParseErrorKind::UnexpectedFieldCount, line: 0 },
		match parse_constraints("s-f", &id_map) { Ok(_) => panic!("accepted"), Err(error) => error }
	);
}

#[test]
fn test_problem_with_texts_that_are_not_accepted() {
	assert_eq!(Err(ParseError { kind: ParseErrorKind::InvalidJob, line: 1 }), parse_problem("1, 2, 3\n1, -2, 3", None, 1));
	assert_eq!(
		Err(ParseError { kind: ParseErrorKind::UnknownJob, line: 1 }),
		parse_problem(CLASSIC_JOBS, Some("header\n1, 1, 2, 1"), 1)
	);
}

fn glyphs_of(text: &str) -> Vec<Glyph> {
	text.chars().map(|c| (c, c.is_ascii_alphabetic(), c == ' ' || c == '\t' || c == '\r')).collect()
}

#[test]
fn test_characters_are_marked() {
	assert_eq!(
		vec![('a', true, false), (' ', false, true), ('1', false, false), ('\u{e9}', true, false), ('\u{3000}', false, true)],
		mark_characters("a 1\u{e9}\u{3000}")
	);
	assert_eq!(Vec::<Glyph>::new(), mark_characters(""));
	for space in ['\t', '\n', '\u{b}', '\u{c}', '\r', ' ', '\u{85}', '\u{a0}', '\u{1680}', '\u{2000}', '\u{200a}', '\u{2028}', '\u{2029}', '\u{202f}', '\u{205f}', '\u{3000}'] {
		assert_eq!(vec![(space, false, true)], mark_characters(&space.to_string()));
	}
	for other in ['\u{8}', '\u{e}', '\u{1f}', '!', '\u{84}', '\u{86}', '\u{200b}', '\u{180e}', '\u{feff}', '0', ','] {
		assert_eq!(vec![(other, false, false)], mark_characters(&other.to_string()));
	}
}

#[test]
fn test_jobs_of_marked_characters() {
	let (jobs, ids) = parse_marked_jobs(&glyphs_of("release, cost, deadline\n 1, 2 ,\t30\r\n\n7, 3, 1, 4, 1, 5, 9, 2")).ok().unwrap();
	assert_eq!(vec![Job::release_to_deadline(0, 1, 2, 30), Job::release_to_deadline(1, 4, 5, 9)], jobs);
	assert_eq!(1, ids.len());
	assert_eq!(Some(1), ids.get(7, 3));

	// A character counts as a letter or as white space only where it is marked as one
	let mut text = glyphs_of("x, y, z\n1, 2, 3");
	assert_eq!(1, parse_marked_jobs(&text).ok().unwrap().0.len());
	text[0].1 = false;
	text[3].1 = false;
	text[6].1 = false;
	assert_eq!(Some(ParseError { kind: ParseErrorKind::InvalidNumber, line: 0 }), parse_marked_jobs(&text).err());
	let mut spaced = glyphs_of("1,_2,3");
	assert_eq!(Some(ParseErrorKind::InvalidNumber), parse_marked_jobs(&spaced).err().map(|error| error.kind));
	spaced[2].2 = true;
	assert_eq!(vec![Job::release_to_deadline(0, 1, 2, 3)], parse_marked_jobs(&spaced).ok().unwrap().0);
}

#[test]
fn test_constraints_of_marked_characters() {
	let (_, ids) = parse_marked_jobs(&glyphs_of("1, 1, 0, 0, 1, 1, 10, 0\n1, 2, 0, 0, 1, 1, 10, 0")).ok().unwrap();
	assert_eq!(
		vec![
			Constraint::new(0, 1, 0, ConstraintType::FinishToStart),
			Constraint::new(0, 1, 4, ConstraintType::StartToStart),
			Constraint::new(0, 1, 0, ConstraintType::FinishToStart),
		],
		parse_marked_constraints(&glyphs_of("before, after\n0, 1\n 0,1 , 4, s-s\n1, 1, 1, 2"), &ids).unwrap()
	);
	assert_eq!(
		ParseError { kind: ParseErrorKind::UnknownJob, line: 1 },
		parse_marked_constraints(&glyphs_of("0, 1\n1, 1, 1, 4"), &ids).unwrap_err()
	);
}

#[test]
fn test_white_space_of_every_character() {
	let text: String = (0 ..= 0x10ffff).filter_map(char::from_u32).collect();
	let glyphs = mark_characters(&text);
	assert_eq!(text.chars().count(), glyphs.len());
	let mut count = 0;
	for (c, glyph) in text.chars().zip(glyphs) {
		let code = c as u32;
		let expected = (0x09 ..= 0x0d).contains(&code) || [0x20, 0x85, 0xa0, 0x1680].contains(&code)
			|| (0x2000 ..= 0x200a).contains(&code)
			|| [0x2028, 0x2029, 0x202f, 0x205f, 0x3000].contains(&code);
		assert_eq!((c, expected), (glyph.0, glyph.2));
		if expected {
			count += 1;
		}
	}
	assert_eq!(25, count);
}
