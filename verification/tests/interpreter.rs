//! End-to-end scenarios: a booted machine fed source text and stepped
//! until the input runs out.
use miniforth::defs::error_name;
use miniforth::vm::VM;

fn run(input: &[u8]) -> VM {
    let mut vm = VM::new();
    vm.init();
    vm.feed(input);
    while vm.running {
        vm.step();
    }
    vm
}

fn run_with_prelude(prelude: &[u8], input: &[u8]) -> VM {
    let mut vm = VM::new();
    vm.init();
    vm.feed_prelude(prelude);
    vm.feed(input);
    while vm.running {
        vm.step();
    }
    vm
}

fn error_names(vm: &VM) -> Vec<String> {
    vm.errors.iter().map(error_name).collect()
}

#[test]
fn adding_one_and_two_leaves_three() {
    let vm = run(b"1 2 +\n");
    assert_eq!(vm.data_stack, vec![3]);
}

#[test]
fn colon_definition_runs_when_called() {
    let vm = run(b": double dup + ; 21 double\n");
    assert_eq!(vm.data_stack, vec![42]);
    assert_eq!(
        error_names(&vm),
        vec!["input terminated"],
        "only the end of input is reported"
    );
}

#[test]
fn division_by_zero_reports_no_illegal_address() {
    let vm = run(b"10 0 /mod\n");
    assert!(
        !error_names(&vm).iter().any(|n| n == "illegal address"),
        "dividing by zero must not report an illegal address"
    );
    assert_eq!(
        vm.data_stack,
        vec![10, 0],
        "a zero divisor leaves the dividend as remainder with quotient 0"
    );
}

#[test]
fn unknown_word_is_reported_and_the_next_line_starts_fresh() {
    let vm = run(b"foo\n1 2 +\n");
    assert!(error_names(&vm).iter().any(|n| n == "unknown word foo"));
    assert_eq!(vm.data_stack, vec![3], "work goes on after the error");
}

#[test]
fn repeated_calls_accumulate() {
    let vm = run(b": inc 1 + ; 5 inc inc inc\n");
    assert_eq!(vm.data_stack, vec![8]);
}

#[test]
fn hex_and_decimal_change_the_base() {
    let vm = run_with_prelude(
        b": hex 16 base ! ;\n: decimal 10 base ! ;\n",
        b"hex 10 decimal\n",
    );
    assert_eq!(vm.data_stack, vec![16], "10 read under base 16 is sixteen");
    assert_eq!(vm.read_u32(4).unwrap(), 10, "BASE is back to ten");
}

#[test]
fn negative_literals_wrap_to_twos_complement() {
    let vm = run(b"-5\n");
    assert_eq!(vm.data_stack, vec![0xFFFF_FFFB]);
}

#[test]
fn lone_minus_is_an_unknown_word() {
    // on an empty dictionary the token reaches the number parser, which
    // consumes nothing of a lone minus sign
    let mut vm = VM::new();
    vm.feed(b"- \n");
    vm.write_u8(48, miniforth::defs::OP_INTERPRET).unwrap();
    match vm.exec(48) {
        Err(miniforth::defs::VMError::UnknownWord(t)) => assert_eq!(t, "-"),
        r => panic!("expected an unknown-word report, got {r:?}"),
    }
    assert!(vm.data_stack.is_empty());
}

#[test]
fn subtraction_wraps_below_zero() {
    let vm = run(b"0 1 -\n");
    assert_eq!(vm.data_stack, vec![0xFFFF_FFFF]);
}

#[test]
fn multiplication_wraps_modulo_two_to_the_thirty_two() {
    let vm = run(b"2147483647 4 *\n");
    assert_eq!(vm.data_stack, vec![0xFFFF_FFFCu32]);
}

#[test]
fn comparisons_are_signed() {
    let vm = run(b"0 1 - 1 <\n");
    assert_eq!(vm.data_stack, vec![1], "minus one is below one");
    let vm = run(b"0 1 - 1 >\n");
    assert_eq!(vm.data_stack, vec![0]);
}

#[test]
fn division_pushes_remainder_then_quotient() {
    let vm = run(b"17 5 /mod\n");
    assert_eq!(vm.data_stack, vec![2, 3]);
}

#[test]
fn stack_words_shuffle_cells() {
    let vm = run(b"1 2 swap\n");
    assert_eq!(vm.data_stack, vec![2, 1]);
    let vm = run(b"7 dup\n");
    assert_eq!(vm.data_stack, vec![7, 7]);
    let vm = run(b"7 8 drop\n");
    assert_eq!(vm.data_stack, vec![7]);
    let vm = run(b"5 6 depth\n");
    assert_eq!(vm.data_stack, vec![5, 6, 2]);
}

#[test]
fn logic_words_operate_bitwise() {
    let vm = run(b"12 10 and\n");
    assert_eq!(vm.data_stack, vec![8]);
    let vm = run(b"12 10 or\n");
    assert_eq!(vm.data_stack, vec![14]);
    let vm = run(b"12 10 xor\n");
    assert_eq!(vm.data_stack, vec![6]);
    let vm = run(b"0 invert\n");
    assert_eq!(vm.data_stack, vec![0xFFFF_FFFF]);
    let vm = run(b"3 3 =\n");
    assert_eq!(vm.data_stack, vec![1]);
}

#[test]
fn return_stack_words_work_inside_a_definition() {
    let vm = run(b": t 5 >r 6 r> + ; t\n");
    assert_eq!(vm.data_stack, vec![11]);
}

#[test]
fn fetch_and_store_round_trip_through_memory() {
    let vm = run(b"123 4 ! 4 @\n");
    assert_eq!(vm.data_stack, vec![123], "a stored cell reads back");
}

#[test]
fn compile_mode_sets_and_clears_state() {
    let vm = run(b"]\n");
    assert_eq!(vm.read_u32(8).unwrap(), 1, "] enters compile mode");
    let vm = run(b": t 1 ;\n");
    assert_eq!(vm.read_u32(8).unwrap(), 0, "; returns to interpret mode");
}

#[test]
fn emit_writes_the_low_byte() {
    let mut vm = VM::new();
    vm.init();
    vm.feed(b"65 emit\n");
    while vm.running {
        vm.step();
    }
    let out = vm.take_output();
    assert_eq!(out, b"A");
}

#[test]
fn prompt_acknowledges_each_finished_line() {
    let mut vm = VM::new();
    vm.init();
    vm.feed(b"1 2 +\r");
    while vm.running {
        vm.step();
    }
    let out = String::from_utf8(vm.take_output()).unwrap();
    assert!(out.contains(" ok\n>"), "got: {out:?}");
}

#[test]
fn prompt_reports_queued_error_names() {
    let mut vm = VM::new();
    vm.init();
    vm.feed(b"foo\r");
    while vm.running {
        vm.step();
    }
    let out = String::from_utf8(vm.take_output()).unwrap();
    assert!(out.contains(" unknown word foo\n>"), "got: {out:?}");
}

#[test]
fn ten_accumulated_errors_abort_the_machine() {
    let mut vm = VM::new();
    vm.init();
    vm.feed(b"q0 q1 q2 q3 q4 q5 q6 q7 q8 q9 q10 1 2 +\n");
    while vm.running {
        vm.step();
    }
    let out = String::from_utf8(vm.take_output()).unwrap();
    assert!(out.contains("too many errors, aborting\n"), "got: {out:?}");
    assert!(
        vm.data_stack.is_empty(),
        "the machine stopped before reaching the arithmetic"
    );
}

#[test]
fn input_end_reports_terminated_and_stops() {
    let vm = run(b"1\n");
    assert!(!vm.running);
    assert!(error_names(&vm).iter().any(|n| n == "input terminated"));
    assert_eq!(vm.data_stack, vec![1]);
}

#[test]
fn error_recovery_preserves_the_data_stack() {
    let vm = run(b"1 2 nosuch 3\n");
    assert_eq!(
        vm.data_stack,
        vec![1, 2, 3],
        "user cells survive an unknown word"
    );
}

#[test]
fn here_never_moves_down_across_ordinary_steps() {
    let mut vm = VM::new();
    vm.init();
    vm.feed(b": double dup + ; 21 double\n");
    let mut here = vm.read_u32(12).unwrap();
    while vm.running {
        vm.step();
        let now = vm.read_u32(12).unwrap();
        assert!(now >= here, "bump pointer moved down: {now} < {here}");
        here = now;
    }
}

#[test]
fn prelude_carriage_returns_become_spaces() {
    let vm = run_with_prelude(b": five 5 ;\r\n", b"five five +\n");
    assert_eq!(vm.data_stack, vec![10]);
}
