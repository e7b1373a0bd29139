use brainfuck::machine::{Brainfuck, RunError};

const FUEL: usize = 10_000_000;

#[test]
fn empty_program_halts_immediately() {
    let mut m = Brainfuck::try_from(b"").unwrap();
    assert_eq!(m.step(), Ok(false));
    assert_eq!(m.instruction_head, 0);
    assert_eq!(m.run(FUEL), Ok(true));
    assert!(m.output.is_empty());
}

#[test]
fn increment_wraps_255_to_0() {
    let mut m = Brainfuck::try_from(b"+").unwrap();
    m.data = vec![255];
    assert_eq!(m.run(FUEL), Ok(true));
    assert_eq!(m.data, vec![0]);
}

#[test]
fn decrement_wraps_0_to_255() {
    let mut m = Brainfuck::try_from(b"-").unwrap();
    assert_eq!(m.run(FUEL), Ok(true));
    assert_eq!(m.data, vec![255]);
}

#[test]
fn move_left_from_zero_underflows_and_preserves_machine() {
    let mut m = Brainfuck::try_from(b"<").unwrap();
    m.data = vec![9, 8];
    assert_eq!(
        m.run(FUEL),
        Err(RunError::PointerUnderflow { position: 0 })
    );
    assert_eq!(m.data_head, 0);
    assert_eq!(m.instruction_head, 0);
    assert_eq!(m.data, vec![9, 8]);
}

#[test]
fn move_right_at_index_limit_overflows() {
    let mut m = Brainfuck::try_from(b">").unwrap();
    m.data_head = usize::MAX;
    assert_eq!(
        m.step(),
        Err(RunError::PointerOverflow { position: 0 })
    );
    assert_eq!(m.data_head, usize::MAX);
    assert_eq!(m.instruction_head, 0);
}

#[test]
fn cell_access_at_index_limit_overflows() {
    let mut m = Brainfuck::try_from(b"+").unwrap();
    m.data_head = usize::MAX;
    assert_eq!(
        m.step(),
        Err(RunError::PointerOverflow { position: 0 })
    );
    assert!(m.data.is_empty());
}

#[test]
fn reading_beyond_tape_returns_zero_and_preserves_cells() {
    let mut m = Brainfuck::try_from(b"").unwrap();
    m.data = vec![7];
    m.data_head = 5;
    let v = m.get_or_reserve();
    assert_eq!(v, 0);
    assert_eq!(m.data, vec![7, 0, 0, 0, 0, 0]);
    let again = m.get_or_reserve();
    assert_eq!(again, 0);
    assert_eq!(m.data, vec![7, 0, 0, 0, 0, 0]);
}

#[test]
fn get_or_reserve_reads_existing_cell_without_growing() {
    let mut m = Brainfuck::try_from(b"").unwrap();
    m.data = vec![3, 4, 5];
    m.data_head = 1;
    assert_eq!(m.get_or_reserve(), 4);
    assert_eq!(m.data, vec![3, 4, 5]);
}

#[test]
fn echo_program_copies_stdin_byte_to_stdout() {
    let mut m = Brainfuck::try_from(b",.").unwrap();
    m.input = vec![65];
    assert_eq!(m.run(FUEL), Ok(true));
    assert_eq!(m.output, vec![65]);
}

#[test]
fn read_with_exhausted_input_fails_with_io() {
    let mut m = Brainfuck::try_from(b",").unwrap();
    assert_eq!(m.run(FUEL), Err(RunError::Io));
}

#[test]
fn two_increments_write_two() {
    let mut m = Brainfuck::try_from(b"++.").unwrap();
    assert_eq!(m.run(FUEL), Ok(true));
    assert_eq!(m.output, vec![2]);
}

#[test]
fn loop_is_skipped_when_cell_is_zero() {
    let mut m = Brainfuck::try_from(b"[+++].").unwrap();
    assert_eq!(m.run(FUEL), Ok(true));
    assert_eq!(m.output, vec![0]);
}

#[test]
fn loop_counts_down_to_zero() {
    let mut m = Brainfuck::try_from(b"+++[-].").unwrap();
    assert_eq!(m.run(FUEL), Ok(true));
    assert_eq!(m.output, vec![0]);
}

#[test]
fn run_budget_exhausts_and_resumes() {
    let mut m = Brainfuck::try_from(b"+++").unwrap();
    assert_eq!(m.run(2), Ok(false));
    assert_eq!(m.run(FUEL), Ok(true));
    assert_eq!(m.data, vec![3]);
}

#[test]
fn known_underflowing_program_fails_at_instruction_22() {
    let mut m = Brainfuck::try_from(b"+[-->-[>>+>-----<<]<--<---]>-.>>>+.").unwrap();
    assert_eq!(
        m.run(FUEL),
        Err(RunError::PointerUnderflow { position: 22 })
    );
    assert!(m.output.is_empty());
}

#[test]
fn hello_world_program_prints_hello_world() {
    let source =
        b"++++++++[>++++[>++>+++>+++>+<<<<-]>+>+>->>+[<]<-]>>.>---.+++++++..+++.>>.<-.<.+++.------.--------.>>+.>++.";
    let mut m = Brainfuck::try_from(source).unwrap();
    assert_eq!(m.run(FUEL), Ok(true));
    assert_eq!(m.output, b"Hello World!\n".to_vec());
}

#[test]
fn try_from_str_matches_byte_translation() {
    let mut m = brainfuck::machine::Brainfuck::try_from_str("++.").unwrap();
    assert_eq!(m.run(FUEL), Ok(true));
    assert_eq!(m.output, vec![2]);
    assert!(brainfuck::machine::Brainfuck::try_from_str("][").is_err());
}
