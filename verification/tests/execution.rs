//! Tests of the execution engine, end to end through parser, resolver and
//! machine where the scenario has a source spelling, and on instruction
//! vectors where it is about one instruction's semantics.
use whitespace::parser::{try_parse, try_reduce_labels};
use whitespace::symbols::Action;
use whitespace::virtual_machine::{
    parse_number_line, run, Fault, IoEvent, RunOutcome, WhitespaceVM,
};

#[test]
fn scenario_push_add_output_halts() {
    // push 5; push 3; add; output-number; halt -> prints 8
    let source = "   \t \t\n   \t\t\n\t   \t\n \t\n\n\n";
    let parsed = try_parse(source).unwrap();
    let reduced = try_reduce_labels(&parsed).unwrap();
    let mut vm = WhitespaceVM::new(reduced);
    let (trace, outcome) = run(&mut vm, &Vec::new(), 1000);
    assert_eq!(trace, vec![IoEvent::OutputNumber(8)]);
    assert_eq!(outcome, RunOutcome::Halted);
}

#[test]
fn scenario_call_and_return_resumes_after_call() {
    // call L; halt; label L; end-subroutine
    let source = "\n \t \n\n\n\n\n   \n\n\t\n";
    let parsed = try_parse(source).unwrap();
    assert_eq!(
        parsed,
        vec![
            Action::Call(3),
            Action::Halt,
            Action::Label(3),
            Action::EndSubroutine,
        ]
    );
    let reduced = try_reduce_labels(&parsed).unwrap();
    let mut vm = WhitespaceVM::new(reduced);
    let (trace, outcome) = run(&mut vm, &Vec::new(), 1000);
    assert_eq!(trace, Vec::<IoEvent>::new());
    assert_eq!(outcome, RunOutcome::Halted);
    assert!(vm.call_stack.is_empty());
}

#[test]
fn nested_calls_return_in_reverse_order() {
    let program = vec![
        Action::Call(3),        // 0: into outer subroutine
        Action::OutputNumber,   // 1: printed last, after both returns
        Action::Halt,           // 2
        Action::Call(6),        // 3: outer subroutine calls inner
        Action::StackPush(1),   // 4: runs after the inner returned
        Action::EndSubroutine,  // 5
        Action::StackPush(2),   // 6: inner subroutine
        Action::EndSubroutine,  // 7
    ];
    let mut vm = WhitespaceVM::new(program);
    vm.stack.push(9);
    let (trace, outcome) = run(&mut vm, &Vec::new(), 1000);
    assert_eq!(outcome, RunOutcome::Halted);
    // inner pushed 2 first, then outer pushed 1, then 9 underneath was
    // printed: the stack records the LIFO return order
    assert_eq!(trace, vec![IoEvent::OutputNumber(1)]);
    assert_eq!(vm.stack, vec![9, 2]);
    assert!(vm.call_stack.is_empty());
}

#[test]
fn scenario_missing_heap_address_faults_after_output() {
    // push 65; output-char; push 7; heap-retrieve; halt
    let program = vec![
        Action::StackPush(65),
        Action::OutputChar,
        Action::StackPush(7),
        Action::HeapRetrieve,
        Action::Halt,
    ];
    let mut vm = WhitespaceVM::new(program);
    let (trace, outcome) = run(&mut vm, &Vec::new(), 1000);
    assert_eq!(trace, vec![IoEvent::OutputChar(65)]);
    assert_eq!(outcome, RunOutcome::Faulted(Fault::MissingHeapAddress(7)));
}

#[test]
fn scenario_read_number_retries_after_invalid_line() {
    // push 5 (the address); read-number; halt — fed "abc" then "42"
    let program = vec![Action::StackPush(5), Action::ReadNumber, Action::Halt];
    let mut vm = WhitespaceVM::new(program);
    let input: Vec<u8> = b"abc\n42\n".to_vec();
    let (trace, outcome) = run(&mut vm, &input, 1000);
    assert_eq!(trace, vec![IoEvent::NumberRetry, IoEvent::InputNumber(42)]);
    assert_eq!(outcome, RunOutcome::Halted);
    assert_eq!(vm.heap.get(&5), Some(&42));
}

#[test]
fn output_precedes_blocking_read_in_trace() {
    // push 33; output-char; push 7; read-char; halt — the printed character
    // stands in the trace before the read consumes its byte
    let program = vec![
        Action::StackPush(33),
        Action::OutputChar,
        Action::StackPush(7),
        Action::ReadChar,
        Action::Halt,
    ];
    let mut vm = WhitespaceVM::new(program);
    let input: Vec<u8> = b"A".to_vec();
    let (trace, outcome) = run(&mut vm, &input, 1000);
    assert_eq!(trace, vec![IoEvent::OutputChar(33), IoEvent::InputChar(65)]);
    assert_eq!(outcome, RunOutcome::Halted);
    assert_eq!(vm.heap.get(&7), Some(&65));
}

#[test]
fn subtract_pops_right_operand_first() {
    // 10 pushed before 4: subtract yields 10 - 4
    let program = vec![
        Action::StackPush(10),
        Action::StackPush(4),
        Action::Subtract,
        Action::OutputNumber,
        Action::Halt,
    ];
    let mut vm = WhitespaceVM::new(program);
    let (trace, outcome) = run(&mut vm, &Vec::new(), 1000);
    assert_eq!(trace, vec![IoEvent::OutputNumber(6)]);
    assert_eq!(outcome, RunOutcome::Halted);
}

#[test]
fn divide_truncates_and_modulo_keeps_dividend_sign() {
    let program = vec![
        Action::StackPush(-7),
        Action::StackPush(2),
        Action::Divide,
        Action::OutputNumber,
        Action::StackPush(-7),
        Action::StackPush(2),
        Action::Modulo,
        Action::OutputNumber,
        Action::Halt,
    ];
    let mut vm = WhitespaceVM::new(program);
    let (trace, outcome) = run(&mut vm, &Vec::new(), 1000);
    assert_eq!(
        trace,
        vec![IoEvent::OutputNumber(-3), IoEvent::OutputNumber(-1)]
    );
    assert_eq!(outcome, RunOutcome::Halted);
}

#[test]
fn divide_by_zero_faults() {
    let program = vec![Action::StackPush(1), Action::StackPush(0), Action::Divide];
    let mut vm = WhitespaceVM::new(program);
    let (_, outcome) = run(&mut vm, &Vec::new(), 1000);
    assert_eq!(outcome, RunOutcome::Faulted(Fault::DivideByZero));
}

#[test]
fn modulo_by_zero_faults() {
    let program = vec![Action::StackPush(1), Action::StackPush(0), Action::Modulo];
    let mut vm = WhitespaceVM::new(program);
    let (_, outcome) = run(&mut vm, &Vec::new(), 1000);
    assert_eq!(outcome, RunOutcome::Faulted(Fault::DivideByZero));
}

#[test]
fn addition_overflow_faults() {
    let program = vec![
        Action::StackPush(i64::MAX),
        Action::StackPush(1),
        Action::Add,
    ];
    let mut vm = WhitespaceVM::new(program);
    let (_, outcome) = run(&mut vm, &Vec::new(), 1000);
    assert_eq!(outcome, RunOutcome::Faulted(Fault::Overflow));
}

#[test]
fn stack_underflow_faults() {
    let program = vec![Action::Add];
    let mut vm = WhitespaceVM::new(program);
    let (_, outcome) = run(&mut vm, &Vec::new(), 1000);
    assert_eq!(outcome, RunOutcome::Faulted(Fault::StackUnderflow));
}

#[test]
fn return_without_call_faults() {
    let program = vec![Action::EndSubroutine];
    let mut vm = WhitespaceVM::new(program);
    let (_, outcome) = run(&mut vm, &Vec::new(), 1000);
    assert_eq!(outcome, RunOutcome::Faulted(Fault::CallStackUnderflow));
}

#[test]
fn running_off_the_end_faults() {
    let program = vec![Action::StackPush(1)];
    let mut vm = WhitespaceVM::new(program);
    let (_, outcome) = run(&mut vm, &Vec::new(), 1000);
    assert_eq!(outcome, RunOutcome::Faulted(Fault::ProgramCounterOutOfRange));
}

#[test]
fn surviving_label_faults() {
    let program = vec![Action::Label(3)];
    let mut vm = WhitespaceVM::new(program);
    let (_, outcome) = run(&mut vm, &Vec::new(), 1000);
    assert_eq!(outcome, RunOutcome::Faulted(Fault::UnexpectedLabel(3)));
}

#[test]
fn surviving_parse_error_faults() {
    let program = vec![Action::Error("Unexpected Tab")];
    let mut vm = WhitespaceVM::new(program);
    let (_, outcome) = run(&mut vm, &Vec::new(), 1000);
    assert_eq!(outcome, RunOutcome::Faulted(Fault::UnexpectedParseError));
}

#[test]
fn read_char_at_end_of_input_faults() {
    let program = vec![Action::StackPush(1), Action::ReadChar];
    let mut vm = WhitespaceVM::new(program);
    let (_, outcome) = run(&mut vm, &Vec::new(), 1000);
    assert_eq!(outcome, RunOutcome::Faulted(Fault::EndOfInput));
}

#[test]
fn endless_loop_runs_out_of_fuel() {
    let program = vec![Action::Jump(0)];
    let mut vm = WhitespaceVM::new(program);
    let (_, outcome) = run(&mut vm, &Vec::new(), 50);
    assert_eq!(outcome, RunOutcome::OutOfFuel);
}

#[test]
fn swap_duplicate_discard_rearrange_the_stack() {
    let program = vec![
        Action::StackPush(1),
        Action::StackPush(2),
        Action::StackSwap,      // 2, 1
        Action::StackDuplicate, // 2, 1, 1
        Action::StackDiscard,   // 2, 1
        Action::OutputNumber,   // prints 1
        Action::OutputNumber,   // prints 2
        Action::Halt,
    ];
    let mut vm = WhitespaceVM::new(program);
    let (trace, outcome) = run(&mut vm, &Vec::new(), 1000);
    assert_eq!(
        trace,
        vec![IoEvent::OutputNumber(1), IoEvent::OutputNumber(2)]
    );
    assert_eq!(outcome, RunOutcome::Halted);
}

#[test]
fn heap_store_then_retrieve_round_trips() {
    let program = vec![
        Action::StackPush(100),
        Action::StackPush(42),
        Action::HeapStore,
        Action::StackPush(100),
        Action::HeapRetrieve,
        Action::OutputNumber,
        Action::Halt,
    ];
    let mut vm = WhitespaceVM::new(program);
    let (trace, outcome) = run(&mut vm, &Vec::new(), 1000);
    assert_eq!(trace, vec![IoEvent::OutputNumber(42)]);
    assert_eq!(outcome, RunOutcome::Halted);
}

#[test]
fn conditional_jumps_test_the_popped_value() {
    // 0 jumps, 1 does not; -1 jumps on negative, 1 does not
    let program = vec![
        Action::StackPush(0),
        Action::JumpIfZero(3),    // taken
        Action::OutputNumber,     // skipped
        Action::StackPush(-1),    // 3
        Action::JumpIfNegative(6),// taken
        Action::OutputNumber,     // skipped
        Action::StackPush(5),     // 6
        Action::JumpIfZero(0),    // not taken: 5 is popped, no jump
        Action::Halt,
    ];
    let mut vm = WhitespaceVM::new(program);
    let (trace, outcome) = run(&mut vm, &Vec::new(), 1000);
    assert_eq!(trace, Vec::<IoEvent>::new());
    assert_eq!(outcome, RunOutcome::Halted);
    assert!(vm.stack.is_empty());
}

#[test]
fn output_char_keeps_low_eight_bits() {
    let program = vec![Action::StackPush(321), Action::OutputChar, Action::Halt];
    let mut vm = WhitespaceVM::new(program);
    let (trace, _) = run(&mut vm, &Vec::new(), 1000);
    assert_eq!(trace, vec![IoEvent::OutputChar(65)]);
}

#[test]
fn number_lines_parse_like_console_entries() {
    assert_eq!(parse_number_line(&b" 42 ".to_vec()), Some(42));
    assert_eq!(parse_number_line(&b"42\r".to_vec()), Some(42));
    assert_eq!(parse_number_line(&b"+17".to_vec()), Some(17));
    assert_eq!(parse_number_line(&b"-9".to_vec()), Some(-9));
    assert_eq!(parse_number_line(&b"abc".to_vec()), None);
    assert_eq!(parse_number_line(&b"".to_vec()), None);
    assert_eq!(parse_number_line(&b"4 2".to_vec()), None);
    assert_eq!(parse_number_line(&b"+".to_vec()), None);
    assert_eq!(parse_number_line(&b"--4".to_vec()), None);
}

#[test]
fn number_lines_respect_the_signed_range() {
    assert_eq!(
        parse_number_line(&b"9223372036854775807".to_vec()),
        Some(i64::MAX)
    );
    assert_eq!(parse_number_line(&b"9223372036854775808".to_vec()), None);
    assert_eq!(
        parse_number_line(&b"-9223372036854775808".to_vec()),
        Some(i64::MIN)
    );
    assert_eq!(parse_number_line(&b"-9223372036854775809".to_vec()), None);
}
