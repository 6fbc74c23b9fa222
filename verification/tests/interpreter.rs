use lattice_lib::lex_lines;
use lattice_lib::sim::{simulate, SimResult, SimStatus};
use lattice_lib::ErrorKind;

const FUEL: u64 = 1_000_000;

fn run(src: &str) -> SimResult {
    let lines: Vec<String> = src.lines().map(|l| l.to_string()).collect();
    let prog = lex_lines(lines).expect("program should resolve");
    simulate(&prog, FUEL)
}

fn fault_kind(r: &SimResult) -> Option<ErrorKind> {
    match r.status {
        SimStatus::Fault(e) => Some(e.kind),
        _ => None,
    }
}

#[test]
fn add_and_print() {
    let r = run("2 3 + print");
    assert_eq!(r.output, "5\n");
    // print leaves the value in place, so it is also the exit status
    assert!(matches!(r.status, SimStatus::Exit(5)));
}

#[test]
fn print_leaves_the_value_on_the_stack() {
    let r = run("5 print print");
    assert_eq!(r.output, "5\n5\n");
    assert!(matches!(r.status, SimStatus::Exit(5)));
}

#[test]
fn exit_status_is_final_stack_value() {
    let r = run("2 3 +");
    assert_eq!(r.output, "");
    assert!(matches!(r.status, SimStatus::Exit(5)));
}

#[test]
fn if_selects_true_branch() {
    let r = run("1 if 10 print else 20 print end");
    assert_eq!(r.output, "10\n");
}

#[test]
fn if_selects_false_branch() {
    let r = run("0 if 10 print else 20 print end");
    assert_eq!(r.output, "20\n");
}

#[test]
fn if_without_else_skips_body_on_zero() {
    let r = run("0 if 10 print end 3");
    assert_eq!(r.output, "");
    assert!(matches!(r.status, SimStatus::Exit(3)));
}

#[test]
fn while_loop_counts() {
    let r = run("0 while dup 3 < do dup print 1 + end drop");
    assert_eq!(r.output, "0\n1\n2\n");
}

#[test]
fn while_loop_zero_iterations() {
    let r = run("0 while dup do 7 print end drop 42");
    assert_eq!(r.output, "");
    assert!(matches!(r.status, SimStatus::Exit(42)));
}

#[test]
fn function_call_and_print() {
    let r = run("fn double dup + end 4 double print");
    assert_eq!(r.output, "8\n");
}

#[test]
fn function_calling_function() {
    let r = run("fn inc 1 + end fn inc2 inc inc end 5 inc2 print");
    assert_eq!(r.output, "7\n");
}

#[test]
fn forward_function_reference() {
    let r = run("fn main helper print end fn helper 9 end main");
    assert_eq!(r.output, "9\n");
}

#[test]
fn division_by_zero_faults_without_output() {
    let r = run("1 0 /");
    assert_eq!(r.output, "");
    assert_eq!(fault_kind(&r), Some(ErrorKind::DivisionByZero));
}

#[test]
fn division_truncates() {
    let r = run("7 2 / print");
    assert_eq!(r.output, "3\n");
}

#[test]
fn subtraction_order() {
    let r = run("10 3 - print");
    assert_eq!(r.output, "7\n");
}

#[test]
fn subtraction_wraps_below_zero() {
    let r = run("0 1 - print");
    assert_eq!(r.output, "18446744073709551615\n");
}

#[test]
fn largest_literal_prints() {
    let r = run("18446744073709551615 print");
    assert_eq!(r.output, "18446744073709551615\n");
}

#[test]
fn comparisons() {
    assert_eq!(run("2 3 < print").output, "1\n");
    assert_eq!(run("2 3 > print").output, "0\n");
    assert_eq!(run("2 2 = print").output, "1\n");
    assert_eq!(run("0 not print").output, "1\n");
    assert_eq!(run("5 not print").output, "0\n");
    assert_eq!(run("2 0 and print").output, "0\n");
    assert_eq!(run("2 3 and print").output, "1\n");
    assert_eq!(run("2 0 or print").output, "1\n");
    assert_eq!(run("0 0 or print").output, "0\n");
}

#[test]
fn swap_and_over() {
    // swap: [1, 2] becomes [2, 1], then 2 - 1 = 1
    assert_eq!(run("1 2 swap - print").output, "1\n");
    // over: [1, 2] becomes [1, 2, 1], summing to 4
    assert_eq!(run("1 2 over + + print").output, "4\n");
}

#[test]
fn stack_underflow_faults() {
    assert_eq!(fault_kind(&run("+")), Some(ErrorKind::StackUnderflow));
    assert_eq!(fault_kind(&run("dup")), Some(ErrorKind::StackUnderflow));
    assert_eq!(fault_kind(&run("1 swap")), Some(ErrorKind::StackUnderflow));
    assert_eq!(fault_kind(&run("drop")), Some(ErrorKind::StackUnderflow));
}

#[test]
fn empty_stack_at_exit_is_a_fault() {
    let r = run("1 drop");
    assert_eq!(fault_kind(&r), Some(ErrorKind::EmptyStack));
}

#[test]
fn fault_reports_token_position() {
    let r = run("1\n1 0 /");
    match r.status {
        SimStatus::Fault(e) => {
            assert_eq!(e.kind, ErrorKind::DivisionByZero);
            assert_eq!(e.pos.row, 1);
            assert_eq!(e.pos.col, 2);
        },
        other => panic!("expected a fault, got {:?}", other),
    }
}

#[test]
fn destructive_load_then_copy_reads_zero() {
    let r = run("5 . , print ? print");
    assert_eq!(r.output, "5\n0\n");
}

#[test]
fn copy_is_idempotent() {
    let r = run("7 . ? ? + print");
    assert_eq!(r.output, "14\n");
}

#[test]
fn load_of_untouched_cell_is_zero() {
    let r = run(", print");
    assert_eq!(r.output, "0\n");
}

#[test]
fn write_prints_consecutive_cells() {
    let r = run("1 . 1 r 2 . 1 l 2 write");
    assert_eq!(r.output, "1 2 \n");
}

#[test]
fn write_of_zero_cells_prints_blank_line() {
    let r = run("0 write 3");
    assert_eq!(r.output, "\n");
    assert!(matches!(r.status, SimStatus::Exit(3)));
}

#[test]
fn grid_moves_and_loc() {
    assert_eq!(run("loc print").output, "0\n");
    assert_eq!(run("3 r loc print").output, "3\n");
    // one row down is one stride away in the flat address space
    assert_eq!(run("1 d loc print").output, "4294967296\n");
    assert_eq!(run("2 r 1 l loc print").output, "1\n");
}

#[test]
fn rows_do_not_alias_columns() {
    // a cell stored one row down is invisible one column right
    let r = run("9 1 d . 1 u 1 r ? print");
    assert_eq!(r.output, "0\n");
}

#[test]
fn moving_off_the_grid_faults() {
    assert_eq!(fault_kind(&run("1 u")), Some(ErrorKind::GridOutOfBounds));
    assert_eq!(fault_kind(&run("1 l")), Some(ErrorKind::GridOutOfBounds));
    assert_eq!(fault_kind(&run("4294967296 r")), Some(ErrorKind::GridOutOfBounds));
    assert_eq!(fault_kind(&run("4294967296 d")), Some(ErrorKind::GridOutOfBounds));
}

#[test]
fn fuel_runs_out_on_endless_loop() {
    let lines = vec!["1 while 1 do end".to_string()];
    let prog = lex_lines(lines).unwrap();
    let r = simulate(&prog, 1000);
    assert_eq!(r.output, "");
    assert!(matches!(r.status, SimStatus::OutOfFuel));
}

#[test]
fn zero_fuel_reports_out_of_fuel() {
    let prog = lex_lines(vec!["1".to_string()]).unwrap();
    let r = simulate(&prog, 0);
    assert!(matches!(r.status, SimStatus::OutOfFuel));
}

#[test]
fn empty_program_faults_on_empty_stack() {
    let r = run("");
    assert_eq!(r.output, "");
    assert_eq!(fault_kind(&r), Some(ErrorKind::EmptyStack));
}

#[test]
fn stray_else_acts_as_jump_to_end() {
    let r = run("1 else 2 end");
    assert_eq!(r.output, "");
    assert!(matches!(r.status, SimStatus::Exit(1)));
}

#[test]
fn write_reads_missing_cells_as_zero() {
    let r = run("3 write 1");
    assert_eq!(r.output, "0 0 0 \n");
    assert!(matches!(r.status, SimStatus::Exit(1)));
}

#[test]
fn loop_inside_function_body() {
    let r = run("fn count 0 while dup 3 < do dup print 1 + end drop end count 5");
    assert_eq!(r.output, "0\n1\n2\n");
    assert!(matches!(r.status, SimStatus::Exit(5)));
}

#[test]
fn conditional_inside_function_body() {
    let r = run("fn pick if 10 else 20 end end 0 pick print 1 pick print");
    assert_eq!(r.output, "20\n10\n");
}

#[test]
fn multiplication_and_wrapping() {
    assert_eq!(run("6 7 * print").output, "42\n");
    // the product is taken modulo the machine's integer width
    assert_eq!(run("18446744073709551615 2 * print").output, "18446744073709551614\n");
}
