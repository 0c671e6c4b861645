use tapevm::instruction::Instruction;
use tapevm::parser::ParseError;
use tapevm::state::Programme;

#[test]
fn parse_maps_each_symbol() {
    let p = Programme::parse(b"+-><.,").unwrap();
    assert_eq!(
        p.instructions,
        vec![
            Instruction::Increment,
            Instruction::Decrement,
            Instruction::Right,
            Instruction::Left,
            Instruction::Output,
            Instruction::Input,
            Instruction::End,
        ]
    );
    assert_eq!(p.index, 0);
}

#[test]
fn parse_counts_one_slot_per_symbol_plus_end() {
    let p = Programme::parse(b"comment + comment - [.]").unwrap();
    assert_eq!(p.instructions.len(), 5 + 1);
}

#[test]
fn parse_empty_source_is_just_end() {
    let p = Programme::parse(b"").unwrap();
    assert_eq!(p.instructions, vec![Instruction::End]);
}

#[test]
fn parse_discards_comments() {
    let p = Programme::parse(b"a+b").unwrap();
    assert_eq!(p.instructions, vec![Instruction::Increment, Instruction::End]);
}

#[test]
fn parse_backpatches_matching_offsets() {
    let p = Programme::parse(b"[->+<]").unwrap();
    assert_eq!(
        p.instructions,
        vec![
            Instruction::JumpOpen(5),
            Instruction::Decrement,
            Instruction::Right,
            Instruction::Increment,
            Instruction::Left,
            Instruction::JumpClose(5),
            Instruction::End,
        ]
    );
}

#[test]
fn parse_nested_brackets_pair_inside_out() {
    let p = Programme::parse(b"[[]]").unwrap();
    assert_eq!(
        p.instructions,
        vec![
            Instruction::JumpOpen(3),
            Instruction::JumpOpen(1),
            Instruction::JumpClose(1),
            Instruction::JumpClose(3),
            Instruction::End,
        ]
    );
}

#[test]
fn parse_twice_yields_identical_programmes() {
    let source: &[u8] = b"++[>+<-]>. deadbeef [[-]]";
    let a = Programme::parse(source).unwrap();
    let b = Programme::parse(source).unwrap();
    assert_eq!(a.instructions, b.instructions);
    assert_eq!(a.index, b.index);
}

#[test]
fn parse_unmatched_open_fails() {
    assert_eq!(Programme::parse(b"["), Err(ParseError::UnmatchedOpen));
    assert_eq!(Programme::parse(b"+[+"), Err(ParseError::UnmatchedOpen));
}

#[test]
fn parse_unmatched_close_fails() {
    assert_eq!(Programme::parse(b"]"), Err(ParseError::UnmatchedClose));
    assert_eq!(Programme::parse(b"+]+["), Err(ParseError::UnmatchedClose));
}

#[test]
fn symbol_table_maps_characters() {
    assert_eq!(Instruction::from('>'), Instruction::Right);
    assert_eq!(Instruction::from('<'), Instruction::Left);
    assert_eq!(Instruction::from('+'), Instruction::Increment);
    assert_eq!(Instruction::from('-'), Instruction::Decrement);
    assert_eq!(Instruction::from('.'), Instruction::Output);
    assert_eq!(Instruction::from(','), Instruction::Input);
    assert_eq!(Instruction::from('['), Instruction::JumpOpen(0));
    assert_eq!(Instruction::from(']'), Instruction::JumpClose(0));
    assert_eq!(Instruction::from('x'), Instruction::Comment('x'));
}
