use lattice_lib::com::compile;
use lattice_lib::{lex_lines, Token};

fn lower(src: &str) -> Vec<String> {
    let prog = lex_lines(src.lines().map(|l| l.to_string()).collect()).unwrap();
    compile(&prog).expect("program should lower")
}

fn has(lines: &[String], wanted: &str) -> bool {
    lines.iter().any(|l| l == wanted)
}

#[test]
fn prologue_and_epilogue_frame_the_program() {
    let lines = lower("1");
    assert_eq!(lines[0], "section .bss");
    assert_eq!(lines[lines.len() - 1], "    syscall");
    assert!(has(&lines, "global _start"));
    assert!(has(&lines, "_start:"));
    assert!(has(&lines, "extern init_table"));
    assert!(has(&lines, "extern free_table"));
    // exit code comes from the top of the data stack
    assert_eq!(lines[lines.len() - 2], "    pop    rdi");
}

#[test]
fn literals_become_pushes() {
    let lines = lower("2 3 +");
    assert!(has(&lines, "    push 2"));
    assert!(has(&lines, "    push 3"));
    assert!(has(&lines, "    add    rax, rcx"));
}

#[test]
fn every_token_gets_its_comment() {
    let lines = lower("2 3 + print");
    assert_eq!(lines.iter().filter(|l| *l == "; -- push --").count(), 2);
    assert_eq!(lines.iter().filter(|l| *l == "; -- add --").count(), 1);
    assert_eq!(lines.iter().filter(|l| *l == "; -- print --").count(), 1);
}

#[test]
fn conditional_lowers_to_labelled_jump() {
    let lines = lower("1 if 2 print end");
    assert!(has(&lines, "    je     addr_0"));
    assert!(has(&lines, "addr_0:"));
}

#[test]
fn if_else_uses_two_labels() {
    let lines = lower("1 if 2 else 3 end");
    assert!(has(&lines, "    je     addr_0"));
    assert!(has(&lines, "    jmp    addr_1"));
    assert!(has(&lines, "addr_0:"));
    assert!(has(&lines, "addr_1:"));
}

#[test]
fn loop_jumps_back_to_its_head() {
    let lines = lower("0 while dup do 1 end drop");
    // the loop's head label, its exit label, and the back jump
    assert!(has(&lines, "addr_0:"));
    assert!(has(&lines, "    je     addr_1"));
    assert!(has(&lines, "    jmp    addr_0"));
    assert!(has(&lines, "addr_1:"));
}

#[test]
fn functions_become_labels_calls_and_returns() {
    let lines = lower("fn double dup + end 4 double print");
    assert!(has(&lines, "double: "));
    assert!(has(&lines, "    call double"));
    assert!(has(&lines, "    ret"));
    // the native return address moves through the dedicated stack
    assert!(has(&lines, "    inc     QWORD [fn_index]"));
    assert!(has(&lines, "    dec     QWORD [fn_index]"));
}

#[test]
fn callee_bodies_precede_the_entry_point() {
    let lines = lower("fn ten 10 end ten");
    let label = lines.iter().position(|l| l == "ten: ").unwrap();
    let start = lines.iter().position(|l| l == "_start:").unwrap();
    let call = lines.iter().position(|l| l == "    call ten").unwrap();
    assert!(label < start);
    assert!(start < call);
}

#[test]
fn memory_tokens_call_the_runtime_primitives() {
    let lines = lower("5 . , ? 1 write");
    assert!(has(&lines, "    call   insert_val"));
    assert!(has(&lines, "    call   pop_element"));
    assert!(has(&lines, "    call   get_val"));
    assert!(has(&lines, "    call   write_cells"));
}

#[test]
fn asm_comments_name_their_tokens() {
    assert_eq!(Token::OpAdd.to_asm_comment(), "; -- add --");
    assert_eq!(Token::Num(7).to_asm_comment(), "; -- push --");
    assert_eq!(Token::FnCall(0).to_asm_comment(), "; -- fn call --");
    assert_eq!(Token::Load.to_asm_comment(), "; -- load --");
}

#[test]
fn deep_nesting_numbers_labels_apart() {
    let lines = lower("1 if 1 if 1 if 2 end end end");
    assert!(has(&lines, "    je     addr_0"));
    assert!(has(&lines, "    je     addr_1"));
    assert!(has(&lines, "    je     addr_2"));
    assert!(has(&lines, "addr_2:"));
}

#[test]
fn print_peeks_at_the_stack_top() {
    let lines = lower("1 print");
    assert!(has(&lines, "    mov    rdi, [rsp]"));
}

#[test]
fn logical_lowerings_test_against_zero() {
    let lines = lower("2 3 and 5 not");
    // `and` pushes 1 only when both operands are nonzero
    assert!(has(&lines, "    cmove  r8, rdx"));
    assert!(has(&lines, "    push   r8"));
    // `not` pushes 0 for any nonzero operand
    assert!(has(&lines, "    mov    rcx, 0"));
    assert!(has(&lines, "    cmove  rcx, rdx"));
}

#[test]
fn comparisons_lower_unsigned() {
    let lines = lower("1 2 > 3 4 <");
    assert!(has(&lines, "    cmova  rax, rdx"));
    assert!(has(&lines, "    cmovb  rax, rdx"));
}

#[test]
fn grid_moves_check_their_bounds() {
    let lines = lower("1 u 1 d 1 l 1 r");
    assert!(has(&lines, "    jne    runtime_fault"));
    assert!(has(&lines, "    ja     runtime_fault"));
    assert!(has(&lines, "    jc     runtime_fault"));
    assert!(has(&lines, "    jae    runtime_fault"));
}

#[test]
fn termination_with_an_empty_stack_faults() {
    let lines = lower("1");
    assert!(has(&lines, "runtime_fault:"));
    assert!(has(&lines, "    cmp    rsp, [stack_base]"));
    assert!(has(&lines, "    je     runtime_fault"));
}
