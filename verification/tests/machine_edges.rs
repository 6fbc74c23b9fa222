//! Faults the resolver can never emit still have defined machine
//! behaviour: these tests drive the interpreter and the code generator
//! with hand-built, deliberately ill-formed programs.
use lattice_lib::com::compile;
use lattice_lib::sim::{simulate, SimStatus};
use lattice_lib::{EndTarget, ErrorKind, FnEntry, LexerOutput, Token, TokenPos};

fn at(ip: usize) -> TokenPos {
    TokenPos { row: 0, col: ip, ip }
}

fn fault_kind(status: SimStatus) -> Option<ErrorKind> {
    match status {
        SimStatus::Fault(e) => Some(e.kind),
        _ => None,
    }
}

#[test]
fn return_sentinel_without_call_faults() {
    let prog = LexerOutput {
        tokens: vec![(Token::End(EndTarget::Return), at(0))],
        fn_tokens: vec![],
        functions: vec![],
    };
    let r = simulate(&prog, 100);
    assert_eq!(fault_kind(r.status), Some(ErrorKind::ReturnWithoutCall));
}

#[test]
fn jump_target_outside_the_stream_faults() {
    let prog = LexerOutput {
        tokens: vec![(Token::Num(0), at(0)), (Token::If(9), at(1))],
        fn_tokens: vec![],
        functions: vec![],
    };
    let r = simulate(&prog, 100);
    assert_eq!(fault_kind(r.status), Some(ErrorKind::InvalidJump));
}

#[test]
fn call_past_the_table_faults() {
    let prog = LexerOutput {
        tokens: vec![(Token::FnCall(7), at(0))],
        fn_tokens: vec![],
        functions: vec![],
    };
    let r = simulate(&prog, 100);
    assert_eq!(fault_kind(r.status), Some(ErrorKind::UnknownWord));
}

#[test]
fn running_off_a_function_stream_faults() {
    // the called body has no return sentinel, so execution runs off it
    let prog = LexerOutput {
        tokens: vec![(Token::FnCall(0), at(0))],
        fn_tokens: vec![(Token::Fn(0, 0), at(0)), (Token::Num(1), at(1))],
        functions: vec![FnEntry { name: "f".to_string(), entry: 0 }],
    };
    let r = simulate(&prog, 100);
    assert_eq!(fault_kind(r.status), Some(ErrorKind::IpOutOfRange));
}

#[test]
fn unbalanced_end_cannot_be_lowered() {
    let prog = LexerOutput {
        tokens: vec![(Token::End(EndTarget::Addr(0)), at(0))],
        fn_tokens: vec![],
        functions: vec![],
    };
    let e = compile(&prog).unwrap_err();
    assert_eq!(e.kind, ErrorKind::MalformedBlocks);
}

#[test]
fn function_marker_past_the_table_cannot_be_lowered() {
    let prog = LexerOutput {
        tokens: vec![],
        fn_tokens: vec![(Token::Fn(3, 1), at(0))],
        functions: vec![],
    };
    let e = compile(&prog).unwrap_err();
    assert_eq!(e.kind, ErrorKind::MalformedBlocks);
}
