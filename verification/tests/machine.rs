use svm::codegen::generate;
use svm::lexer::Lexer;
use svm::vm::{words_to_bytes, OutputItem, RunStatus, VM, VMError};

fn chars(s: &str) -> Vec<char> {
    s.chars().collect()
}

fn assemble(src: &str) -> Vec<i32> {
    generate(&Lexer::new(chars(src)).tokenize().unwrap()).unwrap()
}

fn run_words(words: &[i32], inputs: Vec<i32>) -> (RunStatus, Vec<OutputItem>, Vec<i32>) {
    let mut vm = VM::new();
    let bytes = words_to_bytes(&words.to_vec());
    vm.load(&bytes).unwrap();
    let mut ins = inputs;
    let mut outs = Vec::new();
    let status = vm.run(&mut ins, &mut outs, 1_000_000);
    (status, outs, ins)
}

fn run_src(src: &str, inputs: Vec<i32>) -> (RunStatus, Vec<OutputItem>) {
    let code = assemble(src);
    let (status, outs, _) = run_words(&code, inputs);
    (status, outs)
}

#[test]
fn push_and_add() {
    let (status, outs) = run_src("3 4 ADD OUT HALT", vec![]);
    assert_eq!(status, RunStatus::Finished);
    assert_eq!(outs, vec![OutputItem::Number(7)]);
}

#[test]
fn negative_literal() {
    let (status, outs) = run_src("-5 OUT HALT", vec![]);
    assert_eq!(status, RunStatus::Finished);
    assert_eq!(outs, vec![OutputItem::Number(-5)]);
}

#[test]
fn memory_round_trip() {
    let (status, outs) = run_src("42 7 STOR 7 LOAD OUT HALT", vec![]);
    assert_eq!(status, RunStatus::Finished);
    assert_eq!(outs, vec![OutputItem::Number(42)]);
}

#[test]
fn conditional_skip() {
    let (status, outs) = run_src("1 2 @END JE\n99 OUT HALT\n:END\nHALT", vec![]);
    assert_eq!(status, RunStatus::Finished);
    assert_eq!(outs, vec![OutputItem::Number(99)]);
}

#[test]
fn conditional_taken() {
    let (status, outs) = run_src("2 2 @END JE\n99 OUT HALT\n:END\nHALT", vec![]);
    assert_eq!(status, RunStatus::Finished);
    assert_eq!(outs, vec![]);
}

#[test]
fn string_print() {
    let (status, outs) = run_src("\"Hi\" PRINT HALT", vec![]);
    assert_eq!(status, RunStatus::Finished);
    assert_eq!(outs, vec![OutputItem::Byte(b'H'), OutputItem::Byte(b'i')]);
}

#[test]
fn stack_underflow() {
    let (status, outs) = run_src("POP HALT", vec![]);
    assert_eq!(status, RunStatus::Failed(VMError::CorruptStack));
    assert_eq!(outs, vec![]);
}

#[test]
fn input_is_consumed_in_order() {
    let (status, outs) = run_src("IN IN SUB OUT HALT", vec![10, 4]);
    // 10 is read first, 4 second; SUB pops 4 then 10 and pushes 10 - 4.
    assert_eq!(status, RunStatus::Finished);
    assert_eq!(outs, vec![OutputItem::Number(6)]);
}

#[test]
fn input_awaited_when_queue_empty() {
    let (status, outs) = run_src("IN OUT HALT", vec![]);
    assert_eq!(status, RunStatus::AwaitingInput);
    assert_eq!(outs, vec![]);
}

#[test]
fn raw_mode_input_unsupported() {
    let (status, _) = run_src("RF IN HALT", vec![1]);
    assert_eq!(status, RunStatus::Failed(VMError::Unsupported));
}

#[test]
fn raw_mode_out_prints_low_byte() {
    let (status, outs) = run_src("-5 RF OUT HALT", vec![]);
    assert_eq!(status, RunStatus::Finished);
    assert_eq!(outs, vec![OutputItem::Byte(251)]);
}

#[test]
fn division_truncates_toward_zero() {
    let (_, outs) = run_src("7 2 DIV OUT HALT", vec![]);
    assert_eq!(outs, vec![OutputItem::Number(3)]);
    let (_, outs) = run_src("-7 2 DIV OUT HALT", vec![]);
    assert_eq!(outs, vec![OutputItem::Number(-3)]);
    let (_, outs) = run_src("7 3 MOD OUT HALT", vec![]);
    assert_eq!(outs, vec![OutputItem::Number(1)]);
}

#[test]
fn division_by_zero_fails() {
    let (status, outs) = run_src("1 0 DIV OUT HALT", vec![]);
    assert_eq!(status, RunStatus::Failed(VMError::IOError));
    assert_eq!(outs, vec![]);
}

#[test]
fn bitwise_and_shifts() {
    let (_, outs) = run_src("1 3 SHL OUT HALT", vec![]);
    assert_eq!(outs, vec![OutputItem::Number(8)]);
    let (_, outs) = run_src("16 2 SHR OUT HALT", vec![]);
    assert_eq!(outs, vec![OutputItem::Number(4)]);
    let (_, outs) = run_src("12 10 AND OUT HALT", vec![]);
    assert_eq!(outs, vec![OutputItem::Number(8)]);
    let (_, outs) = run_src("12 10 OR OUT HALT", vec![]);
    assert_eq!(outs, vec![OutputItem::Number(14)]);
    let (_, outs) = run_src("12 10 XOR OUT HALT", vec![]);
    assert_eq!(outs, vec![OutputItem::Number(6)]);
    let (_, outs) = run_src("0 NOT OUT HALT", vec![]);
    assert_eq!(outs, vec![OutputItem::Number(-1)]);
}

#[test]
fn inc_dec_neg() {
    let (_, outs) = run_src("5 INC OUT HALT", vec![]);
    assert_eq!(outs, vec![OutputItem::Number(6)]);
    let (_, outs) = run_src("5 DEC OUT HALT", vec![]);
    assert_eq!(outs, vec![OutputItem::Number(4)]);
    let (_, outs) = run_src("5 NEG OUT HALT", vec![]);
    assert_eq!(outs, vec![OutputItem::Number(-5)]);
}

#[test]
fn stack_shuffles() {
    let (_, outs) = run_src("1 2 SWP OUT OUT HALT", vec![]);
    assert_eq!(outs, vec![OutputItem::Number(1), OutputItem::Number(2)]);
    let (_, outs) = run_src("7 DUP OUT OUT HALT", vec![]);
    assert_eq!(outs, vec![OutputItem::Number(7), OutputItem::Number(7)]);
    let (_, outs) = run_src("1 2 OVR OUT OUT OUT HALT", vec![]);
    assert_eq!(
        outs,
        vec![OutputItem::Number(1), OutputItem::Number(2), OutputItem::Number(1)]
    );
}

#[test]
fn unknown_instruction() {
    let (status, _, _) = run_words(&[-50], vec![]);
    assert_eq!(status, RunStatus::Failed(VMError::UnknownInstruction(-50)));
}

#[test]
fn invalid_memory_address() {
    let (status, _) = run_src("2000 LOAD HALT", vec![]);
    assert_eq!(status, RunStatus::Failed(VMError::InvalidMemoryAddress));
    let (status, _) = run_src("1 -1 STOR HALT", vec![]);
    assert_eq!(status, RunStatus::Failed(VMError::InvalidMemoryAddress));
}

#[test]
fn stack_overflow() {
    // 1025 pushes cannot fit in the 1024-word stack.
    let words: Vec<i32> = vec![1; 1025];
    let (status, _, _) = run_words(&words, vec![]);
    assert_eq!(status, RunStatus::Failed(VMError::StackOverflow));
}

#[test]
fn infinite_loop_pauses() {
    let code = assemble(":loop @loop JMP");
    let (status, outs, _) = run_words(&code, vec![]);
    assert_eq!(status, RunStatus::Paused);
    assert_eq!(outs, vec![]);
}

#[test]
fn falling_off_the_end_finishes() {
    let (status, outs) = run_src("1 2 3", vec![]);
    assert_eq!(status, RunStatus::Finished);
    assert_eq!(outs, vec![]);
}

#[test]
fn load_rejects_partial_word() {
    let mut vm = VM::new();
    assert_eq!(vm.load(&vec![1, 0, 0]), Err(VMError::IOError));
}

#[test]
fn words_encode_little_endian() {
    let bytes = words_to_bytes(&vec![1, -1, 258]);
    assert_eq!(
        bytes,
        vec![1, 0, 0, 0, 255, 255, 255, 255, 2, 1, 0, 0]
    );
}

#[test]
fn load_decodes_what_encode_wrote() {
    // A word list survives the byte round trip: the reloaded program
    // behaves exactly as the word list it was encoded from.
    let words = vec![5, -8, -2, -31, -30];
    let (status, outs, _) = run_words(&words, vec![]);
    assert_eq!(status, RunStatus::Finished);
    assert_eq!(outs, vec![OutputItem::Number(-5)]);
}

#[test]
fn wrapping_arithmetic() {
    let (_, outs) = run_src("2147483647 INC OUT HALT", vec![]);
    assert_eq!(outs, vec![OutputItem::Number(i32::MIN)]);
    let (_, outs) = run_src("2147483647 2 MUL OUT HALT", vec![]);
    assert_eq!(outs, vec![OutputItem::Number(-2)]);
}

#[test]
fn print_longer_string() {
    let (status, outs) = run_src("\"svm ok\" PRINT HALT", vec![]);
    assert_eq!(status, RunStatus::Finished);
    let expected: Vec<OutputItem> = "svm ok".bytes().map(OutputItem::Byte).collect();
    assert_eq!(outs, expected);
}

#[test]
fn paused_run_resumes_where_it_stopped() {
    let code = assemble("3 4 ADD OUT HALT");
    let mut vm = VM::new();
    vm.load(&words_to_bytes(&code)).unwrap();
    let mut ins = Vec::new();
    let mut outs = Vec::new();
    assert_eq!(vm.run(&mut ins, &mut outs, 2), RunStatus::Paused);
    assert_eq!(vm.run(&mut ins, &mut outs, 1_000), RunStatus::Finished);
    assert_eq!(outs, vec![OutputItem::Number(7)]);
}
