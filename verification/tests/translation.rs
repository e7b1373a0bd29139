use brainfuck::translator::{translate, Instruction, LexError};

#[test]
fn translates_well_formed_source_one_instruction_per_byte() {
    let prog = translate(b"+[->+<]").unwrap();
    assert_eq!(prog.len(), 7);
    assert_eq!(
        prog,
        vec![
            Instruction::Increment,
            Instruction::OpenLoop { close_position: 6 },
            Instruction::Decrement,
            Instruction::MoveRight,
            Instruction::Increment,
            Instruction::MoveLeft,
            Instruction::CloseLoop { open_position: 1 },
        ]
    );
}

#[test]
fn translates_empty_source() {
    let prog = translate(b"").unwrap();
    assert_eq!(prog.len(), 0);
}

#[test]
fn translates_nested_loops() {
    let prog = translate(b"[[]]").unwrap();
    assert_eq!(
        prog,
        vec![
            Instruction::OpenLoop { close_position: 3 },
            Instruction::OpenLoop { close_position: 2 },
            Instruction::CloseLoop { open_position: 1 },
            Instruction::CloseLoop { open_position: 0 },
        ]
    );
}

#[test]
fn translates_sibling_loops() {
    let prog = translate(b"[][]").unwrap();
    assert_eq!(
        prog,
        vec![
            Instruction::OpenLoop { close_position: 1 },
            Instruction::CloseLoop { open_position: 0 },
            Instruction::OpenLoop { close_position: 3 },
            Instruction::CloseLoop { open_position: 2 },
        ]
    );
}

#[test]
fn rejects_invalid_byte() {
    assert_eq!(translate(b"+a+"), Err(LexError::InvalidInstruction(b'a')));
}

#[test]
fn rejects_invalid_byte_at_first_occurrence() {
    assert_eq!(translate(b"++x[y"), Err(LexError::InvalidInstruction(b'x')));
}

#[test]
fn rejects_unmatched_close_at_its_position() {
    assert_eq!(
        translate(b"]"),
        Err(LexError::UnmatchedCloseLoop { position: 0 })
    );
    assert_eq!(
        translate(b"+]+"),
        Err(LexError::UnmatchedCloseLoop { position: 1 })
    );
    assert_eq!(
        translate(b"[]]"),
        Err(LexError::UnmatchedCloseLoop { position: 2 })
    );
}

#[test]
fn close_before_invalid_byte_wins() {
    assert_eq!(
        translate(b"]x"),
        Err(LexError::UnmatchedCloseLoop { position: 0 })
    );
}

#[test]
fn rejects_unmatched_open() {
    assert_eq!(
        translate(b"++["),
        Err(LexError::UnmatchedOpenLoop { position: 2 })
    );
}

#[test]
fn reports_first_of_several_unmatched_opens() {
    assert_eq!(
        translate(b"[["),
        Err(LexError::UnmatchedOpenLoop { position: 0 })
    );
    assert_eq!(
        translate(b"[[]["),
        Err(LexError::UnmatchedOpenLoop { position: 0 })
    );
}

#[test]
fn rejects_truncated_example_program() {
    assert_eq!(
        translate(b"+[-->-[>>+>-----<<]<--<---]>-.>>>+.>>..+++[.>"),
        Err(LexError::UnmatchedOpenLoop { position: 42 })
    );
}
