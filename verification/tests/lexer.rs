use lattice_lib::{
    byte_slice_to_fixed_len, classify_word, get_block_end, get_if_next_ip, lex_lines, uncons,
    EndTarget, ErrorKind, Token, TokenPos, WordClass,
};
use lattice_lib::text::split_words;

fn lex(src: &str) -> Result<lattice_lib::LexerOutput, lattice_lib::Error> {
    lex_lines(src.lines().map(|l| l.to_string()).collect())
}

fn main_tokens(src: &str) -> Vec<Token> {
    lex(src).unwrap().tokens.into_iter().map(|(t, _)| t).collect()
}

#[test]
fn splits_on_whitespace() {
    let words = split_words("  a  bb\tc ");
    let words: Vec<&str> = words.iter().map(|w| w.as_str()).collect();
    assert_eq!(words, vec!["a", "bb", "c"]);
}

#[test]
fn classifies_words() {
    assert_eq!(classify_word("+"), WordClass::Kw(Token::OpAdd));
    assert_eq!(classify_word("99"), WordClass::Lit(99));
    assert_eq!(classify_word("18446744073709551616"), WordClass::BadNumber);
    assert_eq!(classify_word("while"), WordClass::Kw(Token::While));
    assert_eq!(classify_word("end"), WordClass::KwEnd);
    assert_eq!(classify_word("fn"), WordClass::KwFn);
    assert_eq!(classify_word("zzz"), WordClass::Name);
    assert_eq!(classify_word("12a"), WordClass::Name);
}

#[test]
fn resolves_if_else_end_targets() {
    let toks = main_tokens("1 if 2 else 3 end");
    assert_eq!(
        toks,
        vec![
            Token::Num(1),
            Token::If(3),
            Token::Num(2),
            Token::Else(5),
            Token::Num(3),
            Token::End(EndTarget::Addr(5)),
        ]
    );
}

#[test]
fn resolves_if_without_else_to_end() {
    let toks = main_tokens("1 if 2 end");
    assert_eq!(
        toks,
        vec![Token::Num(1), Token::If(3), Token::Num(2), Token::End(EndTarget::Addr(3))]
    );
}

#[test]
fn resolves_while_loop_targets() {
    let toks = main_tokens("0 while dup do 1 end");
    assert_eq!(
        toks,
        vec![
            Token::Num(0),
            Token::While,
            Token::Dup,
            Token::Do(5),
            Token::Num(1),
            Token::End(EndTarget::Addr(1)),
        ]
    );
}

#[test]
fn nested_blocks_resolve_to_their_own_ends() {
    let toks = main_tokens("1 if 0 if 2 end 3 end");
    assert_eq!(
        toks,
        vec![
            Token::Num(1),
            Token::If(7),
            Token::Num(0),
            Token::If(5),
            Token::Num(2),
            Token::End(EndTarget::Addr(5)),
            Token::Num(3),
            Token::End(EndTarget::Addr(7)),
        ]
    );
}

#[test]
fn positions_carry_row_col_and_ip() {
    let out = lex("1 2\n+ print").unwrap();
    let pos: Vec<TokenPos> = out.tokens.iter().map(|(_, p)| *p).collect();
    assert_eq!(pos.len(), 4);
    assert_eq!((pos[0].row, pos[0].col, pos[0].ip), (0, 0, 0));
    assert_eq!((pos[1].row, pos[1].col, pos[1].ip), (0, 1, 1));
    assert_eq!((pos[2].row, pos[2].col, pos[2].ip), (1, 0, 2));
    assert_eq!((pos[3].row, pos[3].col, pos[3].ip), (1, 1, 3));
}

#[test]
fn function_bodies_are_segregated() {
    let out = lex("fn double dup + end 4 double print").unwrap();
    let main: Vec<Token> = out.tokens.iter().map(|(t, _)| *t).collect();
    let body: Vec<Token> = out.fn_tokens.iter().map(|(t, _)| *t).collect();
    assert_eq!(main, vec![Token::Num(4), Token::FnCall(0), Token::Print]);
    assert_eq!(
        body,
        vec![Token::Fn(0, 3), Token::Dup, Token::OpAdd, Token::End(EndTarget::Return)]
    );
    assert_eq!(out.functions.len(), 1);
    assert_eq!(out.functions[0].name, "double");
    assert_eq!(out.functions[0].entry, 0);
}

#[test]
fn function_stream_addresses_are_contiguous() {
    let out = lex("fn a 1 end fn b 2 end").unwrap();
    let ips: Vec<usize> = out.fn_tokens.iter().map(|(_, p)| p.ip).collect();
    assert_eq!(ips, vec![0, 1, 2, 3, 4, 5]);
    assert_eq!(out.functions[0].entry, 0);
    assert_eq!(out.functions[1].entry, 3);
}

#[test]
fn unknown_word_is_rejected() {
    let e = lex("1 zzz +").unwrap_err();
    assert_eq!(e.kind, ErrorKind::UnknownWord);
    assert_eq!((e.pos.row, e.pos.col), (0, 1));
}

#[test]
fn oversized_number_is_rejected() {
    let e = lex("18446744073709551616").unwrap_err();
    assert_eq!(e.kind, ErrorKind::InvalidNumber);
}

#[test]
fn unterminated_block_is_rejected() {
    assert_eq!(lex("1 if 2").unwrap_err().kind, ErrorKind::UnterminatedBlock);
    assert_eq!(lex("1 while").unwrap_err().kind, ErrorKind::UnterminatedBlock);
    assert_eq!(lex("fn f 1").unwrap_err().kind, ErrorKind::UnterminatedBlock);
}

#[test]
fn do_without_end_is_rejected() {
    assert_eq!(lex("1 do 2").unwrap_err().kind, ErrorKind::UnterminatedBlock);
}

#[test]
fn stray_end_is_rejected() {
    assert_eq!(lex("1 end").unwrap_err().kind, ErrorKind::UnmatchedEnd);
}

#[test]
fn duplicate_function_is_rejected() {
    assert_eq!(lex("fn f 1 end fn f 2 end").unwrap_err().kind, ErrorKind::DuplicateFunction);
}

#[test]
fn nested_function_is_rejected() {
    assert_eq!(lex("fn f fn g 1 end end").unwrap_err().kind, ErrorKind::NestedFunction);
}

#[test]
fn trailing_fn_without_name_is_rejected() {
    assert_eq!(lex("1 fn").unwrap_err().kind, ErrorKind::MissingFunctionName);
}

#[test]
fn function_name_spans_lines() {
    // the name is the next word, even on the following line
    let out = lex("fn\nten 10 end ten print");
    assert!(out.is_ok());
}

#[test]
fn get_block_end_finds_matching_end() {
    let out = lex("1 if 2 if 3 end end").unwrap();
    // scanning from just after the outer `if` skips the inner block
    let j = get_block_end(&out.tokens, out.tokens[1].1).unwrap();
    assert_eq!(j, 6);
    let j = get_block_end(&out.tokens, out.tokens[3].1).unwrap();
    assert_eq!(j, 5);
}

#[test]
fn get_if_next_ip_prefers_else() {
    let out = lex("1 if 2 else 3 end").unwrap();
    let j = get_if_next_ip(&out.tokens, out.tokens[1].1).unwrap();
    assert_eq!(j, 3);
}

#[test]
fn uncons_splits_head_and_tail() {
    let arr = [1, 2, 3];
    let (h, t) = uncons(&arr);
    assert_eq!(*h, 1);
    assert_eq!(t, &[2, 3]);
}

#[test]
fn byte_slice_padding() {
    let a: [u8; 4] = byte_slice_to_fixed_len(b"ab", 0);
    assert_eq!(a, [97, 98, 0, 0]);
}

#[test]
fn scans_from_past_the_stream_report_unterminated() {
    let out = lex("1 if 2 end").unwrap();
    let far = TokenPos { row: 0, col: 9, ip: 9 };
    let e = get_block_end(&out.tokens, far).unwrap_err();
    assert_eq!(e.kind, ErrorKind::UnterminatedBlock);
    let e = get_if_next_ip(&out.tokens, far).unwrap_err();
    assert_eq!(e.kind, ErrorKind::UnterminatedBlock);
}
