use brain::{Error, Program};

#[test]
fn opcode_count_matches_source() {
    // Eight recognized characters, two comment characters.
    let p = Program::new("++[-]>x<y.", "").unwrap();
    assert_eq!(p.code_len(), 8);

    // Comment characters alone compile to nothing.
    let p = Program::new("hello world", "").unwrap();
    assert_eq!(p.code_len(), 0);
}

#[test]
fn nested_loops_resolve_targets() {
    // Two outer passes each add three to the middle cell, whose loop in
    // turn adds to the rightmost cell: 2 * 3 = 6 lands there.
    let mut p = Program::new("++[>+++[>+<-]<-]>>.", "").unwrap();
    assert_eq!(p.run().unwrap(), vec![6]);
}

#[test]
fn cell_increment_round_trips() {
    let source = format!("{}.", "+".repeat(256));
    let mut p = Program::new(&source, "").unwrap();
    assert_eq!(p.run().unwrap(), vec![0]);
}

#[test]
fn cell_decrement_wraps_to_255() {
    let mut p = Program::new("-.", "").unwrap();
    assert_eq!(p.run().unwrap(), vec![255]);
}

#[test]
fn pointer_increment_round_trips() {
    // Mark the starting cell, walk the full tape, and read the mark back.
    let source = format!("+{}.", ">".repeat(32000));
    let mut p = Program::new(&source, "").unwrap();
    assert_eq!(p.run().unwrap(), vec![1]);
}

#[test]
fn pointer_decrement_round_trips() {
    let source = format!("+{}.", "<".repeat(32000));
    let mut p = Program::new(&source, "").unwrap();
    assert_eq!(p.run().unwrap(), vec![1]);
}

#[test]
fn echo_pairs_copy_input() {
    let mut p = Program::new(",.,.", "ab").unwrap();
    assert_eq!(p.run().unwrap(), b"ab".to_vec());
}

#[test]
fn cat_loop_stops_at_null() {
    let mut p = Program::new(",[.,]", "hi\0").unwrap();
    assert_eq!(p.run().unwrap(), b"hi".to_vec());
}

#[test]
fn zero_cell_skips_loop_body() {
    // The cell is zero when the loop starts, so the body's write never
    // runs and nothing is printed.
    let mut p = Program::new("[.]", "").unwrap();
    assert_eq!(p.run().unwrap(), Vec::<u8>::new());
}

#[test]
fn drained_loop_exits_then_wraps() {
    // One increment, a loop that drains the cell to zero, one trailing
    // decrement: the cell ends at 255.
    let mut p = Program::new("+[-]-.", "").unwrap();
    assert_eq!(p.run().unwrap(), vec![255]);
}

#[test]
fn unmatched_closing_bracket_fails() {
    assert!(matches!(Program::new("]", ""), Err(Error::UnmatchedClosingBracket)));
    assert!(matches!(Program::new("+[-]]", ""), Err(Error::UnmatchedClosingBracket)));
}

#[test]
fn unmatched_opening_bracket_fails() {
    assert!(matches!(Program::new("[", ""), Err(Error::UnmatchedOpeningBracket)));
    assert!(matches!(Program::new("+[[-]", ""), Err(Error::UnmatchedOpeningBracket)));
}

#[test]
fn non_ascii_source_fails() {
    assert!(matches!(Program::new("héllo", ""), Err(Error::NonAsciiSource)));
}

#[test]
fn non_ascii_input_fails() {
    assert!(matches!(Program::new("+", "é"), Err(Error::NonAsciiInput)));
}

#[test]
fn reading_past_input_fails() {
    let mut p = Program::new(",", "").unwrap();
    assert!(matches!(p.run(), Err(Error::InputExhausted)));

    let mut p = Program::new(",.,.", "a").unwrap();
    assert!(matches!(p.run(), Err(Error::InputExhausted)));
}

#[test]
fn comments_do_not_change_behavior() {
    let mut plain = Program::new("++.", "").unwrap();
    let mut commented = Program::new("+ two up + then print .", "").unwrap();
    assert_eq!(plain.run().unwrap(), commented.run().unwrap());
}
