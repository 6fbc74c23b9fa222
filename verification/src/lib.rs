//! Lattice: a small stack-based language with two execution paths, a direct
//! interpreter and a native-code generator, sharing one resolved token stream.
//!
//! The crate is organised as the language's pipeline:
//! source lines -> tokenizer / block resolver ([`lex_lines`]) -> resolved
//! [`LexerOutput`] -> interpreter ([`sim::simulate`]) or code generator
//! ([`com::compile`]).
use vstd::prelude::*;

pub mod com;
pub mod sim;
pub mod text;

verus! {

/// A source position: `row` and `col` locate the word in the input
/// (`col` counts words, not characters), and `ip` is the token's linear
/// address inside its owning stream, the unit of all jump targets.
#[derive(Debug, Default, Clone, Copy, PartialEq, Eq, Structural)]
pub struct TokenPos {
    pub row: usize,
    pub col: usize,
    pub ip: usize,
}

/// What went wrong, as a machine-readable kind; positions travel beside it
/// in [`Error`].
#[derive(Debug, Clone, Copy, PartialEq, Eq, Structural)]
pub enum ErrorKind {
    /// A word made of digits that does not fit the machine's integer width.
    InvalidNumber,
    /// An `end` with no open block to terminate.
    UnmatchedEnd,
    /// An `if`, `else`, `while` or `fn` block still open at end of input.
    UnterminatedBlock,
    /// A `fn` keyword at end of input, with no name word after it.
    MissingFunctionName,
    /// A `fn` keyword inside another function's body.
    NestedFunction,
    /// Two functions registered under one name.
    DuplicateFunction,
    /// A word that is neither a literal, an operator, a keyword nor a
    /// registered function name.
    UnknownWord,
    /// A stack operation with too few values on the data stack.
    StackUnderflow,
    /// Division with a zero divisor.
    DivisionByZero,
    /// A grid move that would push the cursor off the grid, or a `write`
    /// span past the end of the address space.
    GridOutOfBounds,
    /// A return sentinel reached with an empty call stack.
    ReturnWithoutCall,
    /// Normal termination with an empty data stack, so no exit value exists.
    EmptyStack,
    /// The instruction pointer ran past the end of a stream.
    IpOutOfRange,
    /// A resolved jump target outside its stream.
    InvalidJump,
    /// Block structure that the code generator cannot lower.
    MalformedBlocks,
}

/// A fatal error: lexing and resolution fail fast with one of these, and a
/// runtime fault aborts the run with the failing token's position.
#[derive(Debug, Clone, Copy, PartialEq, Eq, Structural)]
pub struct Error {
    pub kind: ErrorKind,
    pub pos: TokenPos,
}

/// The payload of an `end` token: either a structural join that falls
/// through (or jumps back to its `while`), or the function-return sentinel.
#[derive(Debug, Clone, Copy, PartialEq, Eq, Structural)]
pub enum EndTarget {
    /// The resolved address this `end` transfers to: its own address for an
    /// `if`/`else` block (fall through), the owning `while`'s address for a
    /// loop (re-test the condition).
    Addr(usize),
    /// The distinguished return sentinel closing a function body.
    Return,
}

/// One token of the intermediate representation. Control-flow tokens carry
/// their resolved absolute jump targets; function tokens carry an index
/// into [`LexerOutput::functions`].
#[derive(Debug, Clone, Copy, PartialEq, Eq, Structural)]
pub enum Token {
    /// Push a literal on the data stack.
    Num(u64),
    OpAdd,
    OpSub,
    OpMul,
    OpDiv,
    /// Print the top of the data stack in decimal, leaving the value in
    /// place: a final printed value is also the process exit status.
    Print,
    Write,
    Dup,
    Drop,
    Swap,
    Over,
    /// Pop a condition; zero jumps to the resolved target (the matching
    /// `else` if present, else the matching `end`).
    If(usize),
    /// Unconditional jump to the matching `end`; reached only by falling
    /// out of the true branch.
    Else(usize),
    /// No-op; exists as the backward jump target of its loop's `end`.
    While,
    /// Pop a condition; zero jumps to the loop's exit (its matching `end`).
    Do(usize),
    End(EndTarget),
    Eq,
    GT,
    LT,
    And,
    Not,
    Or,
    Up,
    Down,
    Left,
    Right,
    Loc,
    Store,
    Load,
    Copy,
    /// A function marker: table index and the address of its closing `end`,
    /// so straight-line flow jumps past the body.
    Fn(usize, usize),
    /// A call to the function at the given table index.
    FnCall(usize),
}

/// One entry of the function table: the registered name and the address of
/// the function's `fn` marker inside the function stream.
#[derive(Debug)]
pub struct FnEntry {
    pub name: String,
    pub entry: usize,
}

/// The resolved program: the main token stream, the segregated function
/// stream (every token lexically between a `fn` and its closing `end`), and
/// the function table that call tokens index into.
#[derive(Debug)]
pub struct LexerOutput {
    pub tokens: Vec<(Token, TokenPos)>,
    pub fn_tokens: Vec<(Token, TokenPos)>,
    pub functions: Vec<FnEntry>,
}

/// The bare token sequence of a position-tagged stream.
pub open spec fn toks(v: Seq<(Token, TokenPos)>) -> Seq<Token> {
    v.map_values(|p: (Token, TokenPos)| p.0)
}

/// The function entry addresses of a function table.
pub open spec fn entries_of(fs: Seq<FnEntry>) -> Seq<int> {
    fs.map_values(|f: FnEntry| f.entry as int)
}

/// Splits a non-empty slice into its head and tail.
pub fn uncons<T>(arr: &[T]) -> (r: (&T, &[T]))
    requires
        arr@.len() >= 1,
    ensures
        *r.0 == arr@[0],
        r.1@ == arr@.subrange(1, arr@.len() as int),
{
    (&arr[0], vstd::slice::slice_subrange(arr, 1, arr.len()))
}

/// Copies a byte slice into a fixed-size array, padding the rest with
/// `fill`.
pub fn byte_slice_to_fixed_len<const N: usize>(s: &[u8], fill: u8) -> (a: [u8; N])
    requires
        s@.len() <= N,
    ensures
        a@ == s@ + Seq::new((N - s@.len()) as nat, |i: int| fill),
{
    let mut a: [u8; N] = [fill; N];
    let mut i: usize = 0;
    while i < s.len()
        invariant
            i <= s@.len() <= N,
            a@.len() == N,
            forall|j: int| 0 <= j < i ==> a@[j] == s@[j],
            forall|j: int| i <= j < N ==> a@[j] == fill,
        decreases s@.len() - i,
    {
        a[i] = s[i];
        i = i + 1;
    }
    proof {
        assert(a@ =~= s@ + Seq::new((N - s@.len()) as nat, |j: int| fill));
    }
    a
}

/// The comment line the code generator writes above each token's lowering.
pub open spec fn asm_comment(t: Token) -> Seq<char> {
    match t {
        Token::Num(_) => "; -- push --"@,
        Token::OpAdd => "; -- add --"@,
        Token::OpSub => "; -- sub --"@,
        Token::OpMul => "; -- mul --"@,
        Token::OpDiv => "; -- div --"@,
        Token::Print => "; -- print --"@,
        Token::Write => "; -- write --"@,
        Token::Dup => "; -- dup --"@,
        Token::Drop => "; -- drop --"@,
        Token::Swap => "; -- swap --"@,
        Token::Over => "; -- over --"@,
        Token::If(_) => "; -- if --"@,
        Token::Else(_) => "; -- else --"@,
        Token::While => "; -- while --"@,
        Token::Do(_) => "; -- do --"@,
        Token::End(_) => "; -- end --"@,
        Token::Eq => "; -- eq --"@,
        Token::GT => "; -- gt --"@,
        Token::LT => "; -- lt --"@,
        Token::And => "; -- and --"@,
        Token::Not => "; -- not --"@,
        Token::Or => "; -- or --"@,
        Token::Up => "; -- up --"@,
        Token::Down => "; -- down --"@,
        Token::Left => "; -- left --"@,
        Token::Right => "; -- right --"@,
        Token::Loc => "; -- loc --"@,
        Token::Store => "; -- store --"@,
        Token::Load => "; -- load --"@,
        Token::Copy => "; -- copy --"@,
        Token::Fn(_, _) => "; -- fn --"@,
        Token::FnCall(_) => "; -- fn call --"@,
    }
}

/// What the fixed lexical table makes of one word.
#[derive(Debug, Clone, Copy, PartialEq, Eq, Structural)]
pub enum WordClass {
    /// A numeric literal that fits the machine's integer width.
    Lit(u64),
    /// All digits, but too large for the machine's integer width.
    BadNumber,
    /// An operator or keyword, as its token (control tokens still carry
    /// their unresolved zero target).
    Kw(Token),
    /// The `end` keyword, resolved against the open-block stack.
    KwEnd,
    /// The `fn` keyword, which consumes the following word as a name.
    KwFn,
    /// Anything else: a function name, or a call to one.
    Name,
}

/// The fixed lexical table: what one word denotes. Digits are read first;
/// an unrecognised word is a name.
pub open spec fn classify_spec(w: Seq<char>) -> WordClass {
    if crate::text::is_digits(w) {
        if crate::text::digits_val(w) <= u64::MAX {
            WordClass::Lit(crate::text::digits_val(w) as u64)
        } else {
            WordClass::BadNumber
        }
    } else if w == "+"@ {
        WordClass::Kw(Token::OpAdd)
    } else if w == "-"@ {
        WordClass::Kw(Token::OpSub)
    } else if w == "*"@ {
        WordClass::Kw(Token::OpMul)
    } else if w == "/"@ {
        WordClass::Kw(Token::OpDiv)
    } else if w == "="@ {
        WordClass::Kw(Token::Eq)
    } else if w == ">"@ {
        WordClass::Kw(Token::GT)
    } else if w == "<"@ {
        WordClass::Kw(Token::LT)
    } else if w == "and"@ {
        WordClass::Kw(Token::And)
    } else if w == "not"@ {
        WordClass::Kw(Token::Not)
    } else if w == "or"@ {
        WordClass::Kw(Token::Or)
    } else if w == "print"@ {
        WordClass::Kw(Token::Print)
    } else if w == "write"@ {
        WordClass::Kw(Token::Write)
    } else if w == "dup"@ {
        WordClass::Kw(Token::Dup)
    } else if w == "drop"@ {
        WordClass::Kw(Token::Drop)
    } else if w == "swap"@ {
        WordClass::Kw(Token::Swap)
    } else if w == "over"@ {
        WordClass::Kw(Token::Over)
    } else if w == "u"@ {
        WordClass::Kw(Token::Up)
    } else if w == "d"@ {
        WordClass::Kw(Token::Down)
    } else if w == "l"@ {
        WordClass::Kw(Token::Left)
    } else if w == "r"@ {
        WordClass::Kw(Token::Right)
    } else if w == "loc"@ {
        WordClass::Kw(Token::Loc)
    } else if w == "."@ {
        WordClass::Kw(Token::Store)
    } else if w == ","@ {
        WordClass::Kw(Token::Load)
    } else if w == "?"@ {
        WordClass::Kw(Token::Copy)
    } else if w == "if"@ {
        WordClass::Kw(Token::If(0))
    } else if w == "else"@ {
        WordClass::Kw(Token::Else(0))
    } else if w == "while"@ {
        WordClass::Kw(Token::While)
    } else if w == "do"@ {
        WordClass::Kw(Token::Do(0))
    } else if w == "end"@ {
        WordClass::KwEnd
    } else if w == "fn"@ {
        WordClass::KwFn
    } else {
        WordClass::Name
    }
}

/// Classifies one word through the fixed lexical table.
pub fn classify_word(w: &str) -> (c: WordClass)
    ensures
        c == classify_spec(w@),
{
    if crate::text::is_digits_exec(w) {
        match crate::text::digits_value(w) {
            Some(v) => WordClass::Lit(v),
            None => WordClass::BadNumber,
        }
    } else if crate::text::str_eqs(w, "+") {
        WordClass::Kw(Token::OpAdd)
    } else if crate::text::str_eqs(w, "-") {
        WordClass::Kw(Token::OpSub)
    } else if crate::text::str_eqs(w, "*") {
        WordClass::Kw(Token::OpMul)
    } else if crate::text::str_eqs(w, "/") {
        WordClass::Kw(Token::OpDiv)
    } else if crate::text::str_eqs(w, "=") {
        WordClass::Kw(Token::Eq)
    } else if crate::text::str_eqs(w, ">") {
        WordClass::Kw(Token::GT)
    } else if crate::text::str_eqs(w, "<") {
        WordClass::Kw(Token::LT)
    } else if crate::text::str_eqs(w, "and") {
        WordClass::Kw(Token::And)
    } else if crate::text::str_eqs(w, "not") {
        WordClass::Kw(Token::Not)
    } else if crate::text::str_eqs(w, "or") {
        WordClass::Kw(Token::Or)
    } else if crate::text::str_eqs(w, "print") {
        WordClass::Kw(Token::Print)
    } else if crate::text::str_eqs(w, "write") {
        WordClass::Kw(Token::Write)
    } else if crate::text::str_eqs(w, "dup") {
        WordClass::Kw(Token::Dup)
    } else if crate::text::str_eqs(w, "drop") {
        WordClass::Kw(Token::Drop)
    } else if crate::text::str_eqs(w, "swap") {
        WordClass::Kw(Token::Swap)
    } else if crate::text::str_eqs(w, "over") {
        WordClass::Kw(Token::Over)
    } else if crate::text::str_eqs(w, "u") {
        WordClass::Kw(Token::Up)
    } else if crate::text::str_eqs(w, "d") {
        WordClass::Kw(Token::Down)
    } else if crate::text::str_eqs(w, "l") {
        WordClass::Kw(Token::Left)
    } else if crate::text::str_eqs(w, "r") {
        WordClass::Kw(Token::Right)
    } else if crate::text::str_eqs(w, "loc") {
        WordClass::Kw(Token::Loc)
    } else if crate::text::str_eqs(w, ".") {
        WordClass::Kw(Token::Store)
    } else if crate::text::str_eqs(w, ",") {
        WordClass::Kw(Token::Load)
    } else if crate::text::str_eqs(w, "?") {
        WordClass::Kw(Token::Copy)
    } else if crate::text::str_eqs(w, "if") {
        WordClass::Kw(Token::If(0))
    } else if crate::text::str_eqs(w, "else") {
        WordClass::Kw(Token::Else(0))
    } else if crate::text::str_eqs(w, "while") {
        WordClass::Kw(Token::While)
    } else if crate::text::str_eqs(w, "do") {
        WordClass::Kw(Token::Do(0))
    } else if crate::text::str_eqs(w, "end") {
        WordClass::KwEnd
    } else if crate::text::str_eqs(w, "fn") {
        WordClass::KwFn
    } else {
        WordClass::Name
    }
}

/// A resolved token is sound at position `i` of a stream of length `len`:
/// every jump target lies inside the stream (forward for openers, at or
/// behind for an `end`'s join), and function indices lie in the table.
pub open spec fn token_ok(t: Token, i: int, len: int, nfns: int) -> bool {
    match t {
        Token::If(tgt) => i < tgt < len,
        Token::Else(tgt) => i < tgt < len,
        Token::Do(tgt) => i < tgt < len,
        Token::End(et) => match et {
            EndTarget::Addr(tgt) => tgt <= i,
            EndTarget::Return => true,
        },
        Token::Fn(f, e) => 0 <= f < nfns && i < e < len,
        Token::FnCall(f) => 0 <= f < nfns,
        _ => true,
    }
}

/// A resolved forward target lands on the closer it names: an `if`'s on
/// its `else` or its `end`, an `else`'s, a `do`'s and a `fn`'s on an
/// `end`.
pub open spec fn target_kind_ok(s: Seq<(Token, TokenPos)>, i: int) -> bool {
    match s[i].0 {
        Token::If(t) => s[t as int].0 is Else || s[t as int].0 is End,
        Token::Else(t) => s[t as int].0 is End,
        Token::Do(t) => s[t as int].0 is End,
        Token::Fn(_, e) => s[e as int].0 is End,
        _ => true,
    }
}

/// A token that may stand in the main stream: function markers and the
/// return sentinel live only in the segregated function stream.
pub open spec fn main_only_token(t: Token) -> bool {
    match t {
        Token::Fn(_, _) => false,
        Token::End(et) => et is Addr,
        _ => true,
    }
}

/// The main stream holds no piece of any function body.
pub open spec fn no_body_tokens(s: Seq<(Token, TokenPos)>) -> bool {
    forall|i: int| 0 <= i < s.len() ==> main_only_token((#[trigger] s[i]).0)
}

/// Every function-table entry points into the function stream, at the
/// `fn` marker bearing its own index: a call through the table enters
/// the function it names.
pub open spec fn entries_mark_functions(fns_s: Seq<(Token, TokenPos)>, fs: Seq<FnEntry>) -> bool {
    forall|k: int|
        0 <= k < fs.len() ==> (#[trigger] fs[k]).entry < fns_s.len() && (fns_s[fs[k].entry as int].0
            matches Token::Fn(ff, _) && ff as int == k)
}

/// A resolved stream is sound: positions carry their own index as `ip`,
/// contiguously, every token is sound ([`token_ok`]), and every forward
/// target lands on a closer of the right kind ([`target_kind_ok`]).
pub open spec fn wf_stream(s: Seq<(Token, TokenPos)>, nfns: int) -> bool {
    forall|i: int|
        0 <= i < s.len() ==> (#[trigger] s[i]).1.ip == i && token_ok(s[i].0, i, s.len() as int, nfns)
            && target_kind_ok(s, i)
}

impl LexerOutput {
    /// Resolution's guarantee: both streams are sound against the function
    /// table, and every table entry points into the function stream. Every
    /// resolved jump target is a valid address of its stream (or the
    /// return sentinel), never out of range.
    pub open spec fn wf(&self) -> bool {
        &&& wf_stream(self.tokens@, self.functions@.len() as int)
        &&& wf_stream(self.fn_tokens@, self.functions@.len() as int)
        &&& no_body_tokens(self.tokens@)
        &&& entries_mark_functions(self.fn_tokens@, self.functions@)
    }
}

/// An unresolved token is sound at position `i`: `end` joins already
/// point at or behind themselves, and table indices are in range; forward
/// targets are still unresolved placeholders.
pub open spec fn raw_entry_ok(
    s: Seq<(Token, TokenPos)>,
    i: int,
    nfns: int,
    ncalls: int,
) -> bool {
    s[i].1.ip == i && (match s[i].0 {
        Token::End(et) => match et {
            EndTarget::Addr(tgt) => tgt <= i,
            EndTarget::Return => true,
        },
        Token::Fn(f, _) => 0 <= f < nfns,
        Token::FnCall(c) => 0 <= c < ncalls,
        _ => true,
    })
}

/// Soundness of a whole unresolved stream.
pub open spec fn wf_raw_stream(s: Seq<(Token, TokenPos)>, nfns: int, ncalls: int) -> bool {
    forall|i: int| 0 <= i < s.len() ==> #[trigger] raw_entry_ok(s, i, nfns, ncalls)
}

proof fn lemma_raw_push(s: Seq<(Token, TokenPos)>, e: (Token, TokenPos), nfns: int, ncalls: int)
    requires
        wf_raw_stream(s, nfns, ncalls),
        e.1.ip == s.len(),
        match e.0 {
            Token::End(et) => match et {
                EndTarget::Addr(tgt) => tgt <= s.len(),
                EndTarget::Return => true,
            },
            Token::Fn(f, _) => 0 <= f < nfns,
            Token::FnCall(c) => 0 <= c < ncalls,
            _ => true,
        },
    ensures
        wf_raw_stream(s.push(e), nfns, ncalls),
{
    assert forall|i: int| 0 <= i < s.push(e).len() implies #[trigger] raw_entry_ok(
        s.push(e),
        i,
        nfns,
        ncalls,
    ) by {
        if i < s.len() {
            assert(raw_entry_ok(s, i, nfns, ncalls));
            assert(s.push(e)[i] == s[i]);
        } else {
            assert(s.push(e)[i] == e);
        }
    }
}

proof fn lemma_raw_grow(
    s: Seq<(Token, TokenPos)>,
    nfns: int,
    ncalls: int,
    nfns2: int,
    ncalls2: int,
)
    requires
        wf_raw_stream(s, nfns, ncalls),
        nfns2 >= nfns,
        ncalls2 >= ncalls,
    ensures
        wf_raw_stream(s, nfns2, ncalls2),
{
    assert forall|i: int| 0 <= i < s.len() implies #[trigger] raw_entry_ok(s, i, nfns2, ncalls2) by {
        assert(raw_entry_ok(s, i, nfns, ncalls));
    }
}

proof fn lemma_main_push(s: Seq<(Token, TokenPos)>, e: (Token, TokenPos))
    requires
        no_body_tokens(s),
        main_only_token(e.0),
    ensures
        no_body_tokens(s.push(e)),
{
    assert forall|i: int| 0 <= i < s.push(e).len() implies main_only_token(
        (#[trigger] s.push(e)[i]).0,
    ) by {
        if i < s.len() {
            assert(main_only_token(s[i].0));
            assert(s.push(e)[i] == s[i]);
        } else {
            assert(s.push(e)[i] == e);
        }
    }
}

proof fn lemma_entries_keep(fns_s: Seq<(Token, TokenPos)>, e: (Token, TokenPos), fs: Seq<FnEntry>)
    requires
        entries_mark_functions(fns_s, fs),
    ensures
        entries_mark_functions(fns_s.push(e), fs),
{
    assert forall|k: int| 0 <= k < fs.len() implies (#[trigger] fs[k]).entry < fns_s.push(e).len()
        && (fns_s.push(e)[fs[k].entry as int].0 matches Token::Fn(ff, _) && ff as int == k) by {
        assert(fs[k].entry < fns_s.len());
        assert(fns_s.push(e)[fs[k].entry as int] == fns_s[fs[k].entry as int]);
    }
}

proof fn lemma_entries_register(
    fns_s: Seq<(Token, TokenPos)>,
    fs: Seq<FnEntry>,
    e: (Token, TokenPos),
    fe: FnEntry,
)
    requires
        entries_mark_functions(fns_s, fs),
        fe.entry == fns_s.len(),
        e.0 matches Token::Fn(ff, _) && ff as int == fs.len(),
    ensures
        entries_mark_functions(fns_s.push(e), fs.push(fe)),
{
    let fns2 = fns_s.push(e);
    let fs2 = fs.push(fe);
    assert forall|k: int| 0 <= k < fs2.len() implies (#[trigger] fs2[k]).entry < fns2.len() && (
    fns2[fs2[k].entry as int].0 matches Token::Fn(ff, _) && ff as int == k) by {
        if k < fs.len() {
            assert(fs2[k] == fs[k]);
            assert(fs[k].entry < fns_s.len());
            assert(fns2[fs[k].entry as int] == fns_s[fs[k].entry as int]);
        } else {
            assert(fs2[k] == fe);
            assert(fns2[fe.entry as int] == e);
        }
    }
}

/// The transient marker stack's entry kinds: the open blocks that demand
/// a terminating `end`.
#[derive(Debug, Clone, Copy, PartialEq, Eq, Structural)]
pub enum MarkKind {
    If,
    Else,
    While,
    Fn,
}

/// One open block on the resolution-time marker stack.
#[derive(Debug, Clone, Copy, PartialEq, Eq, Structural)]
pub struct Mark {
    pub kind: MarkKind,
    /// The opener's address in its stream (the backward jump target for a
    /// `while`).
    pub ip: usize,
    pub pos: TokenPos,
}

/// The tokenizer's output before forward targets are resolved.
struct RawLex {
    tokens: Vec<(Token, TokenPos)>,
    fn_tokens: Vec<(Token, TokenPos)>,
    functions: Vec<FnEntry>,
    call_names: Vec<String>,
}

impl RawLex {
    spec fn wf(&self) -> bool {
        &&& wf_raw_stream(
            self.tokens@,
            self.functions@.len() as int,
            self.call_names@.len() as int,
        )
        &&& wf_raw_stream(
            self.fn_tokens@,
            self.functions@.len() as int,
            self.call_names@.len() as int,
        )
        &&& no_body_tokens(self.tokens@)
        &&& entries_mark_functions(self.fn_tokens@, self.functions@)
    }
}

/// The position, at or after `i`, of the `end` closing the block whose
/// body starts at `i` with `depth` blocks open; `None` when input runs
/// out first.
pub open spec fn block_end_from(tv: Seq<Token>, i: int, depth: int) -> Option<int>
    decreases tv.len() - i,
{
    if i < 0 || i >= tv.len() {
        None
    } else {
        match tv[i] {
            Token::If(_) | Token::Do(_) => block_end_from(tv, i + 1, depth + 1),
            Token::End(_) => if depth == 1 {
                Some(i)
            } else {
                block_end_from(tv, i + 1, depth - 1)
            },
            _ => block_end_from(tv, i + 1, depth),
        }
    }
}

/// Where an `if` opened at depth `depth` sends a false condition: its
/// `else` at the same depth if one comes first, else its closing `end`.
pub open spec fn if_next_from(tv: Seq<Token>, i: int, depth: int) -> Option<int>
    decreases tv.len() - i,
{
    if i < 0 || i >= tv.len() {
        None
    } else {
        match tv[i] {
            Token::If(_) | Token::Do(_) => if_next_from(tv, i + 1, depth + 1),
            Token::Else(_) => if depth == 1 {
                Some(i)
            } else {
                if_next_from(tv, i + 1, depth)
            },
            Token::End(_) => if depth == 1 {
                Some(i)
            } else {
                if_next_from(tv, i + 1, depth - 1)
            },
            _ => if_next_from(tv, i + 1, depth),
        }
    }
}

/// A successful scan lands inside the stream, at or after where it began,
/// and on the closer it was looking for: an `end`, or, for an `if`'s
/// scan, possibly the `else` that takes over its block.
pub proof fn lemma_scan_lands_on_closer(tv: Seq<Token>, i: int, depth: int)
    ensures
        block_end_from(tv, i, depth) matches Some(j) ==> i <= j < tv.len() && tv[j] is End,
        if_next_from(tv, i, depth) matches Some(j) ==> i <= j < tv.len() && (tv[j] is Else
            || tv[j] is End),
    decreases tv.len() - i,
{
    if 0 <= i < tv.len() {
        lemma_scan_lands_on_closer(tv, i + 1, depth + 1);
        lemma_scan_lands_on_closer(tv, i + 1, depth - 1);
        lemma_scan_lands_on_closer(tv, i + 1, depth);
    }
}

/// Finds the `end` that closes the block opened at `block_start`, by
/// scanning forward while tracking the nesting depth.
pub fn get_block_end(tokens: &[(Token, TokenPos)], block_start: TokenPos) -> (r: Result<
    usize,
    Error,
>)
    ensures
        match r {
            Ok(j) => block_end_from(toks(tokens@), block_start.ip + 1, 1) == Some(j as int)
                && block_start.ip < j < tokens@.len(),
            Err(e) => block_end_from(toks(tokens@), block_start.ip + 1, 1) is None && e == (Error {
                kind: ErrorKind::UnterminatedBlock,
                pos: block_start,
            }),
        },
{
    let ghost tv = toks(tokens@);
    let n = tokens.len();
    if block_start.ip >= n {
        return Err(Error { kind: ErrorKind::UnterminatedBlock, pos: block_start });
    }
    let mut ip: usize = block_start.ip + 1;
    let mut depth: usize = 1;
    while ip < n
        invariant
            tv == toks(tokens@),
            n == tokens@.len(),
            block_start.ip + 1 <= ip,
            1 <= depth,
            depth <= ip - block_start.ip,
            block_end_from(tv, ip as int, depth as int) == block_end_from(
                tv,
                block_start.ip + 1,
                1,
            ),
        decreases tokens@.len() - ip,
    {
        let token = tokens[ip].0;
        match token {
            Token::If(_) | Token::Do(_) => {
                depth = depth + 1;
            },
            Token::End(_) => {
                if depth == 1 {
                    return Ok(ip);
                }
                depth = depth - 1;
            },
            _ => {},
        }
        ip = ip + 1;
    }
    Err(Error { kind: ErrorKind::UnterminatedBlock, pos: block_start })
}

/// Finds where the `if` opened at `if_start` jumps when its condition is
/// zero: its matching `else` if present, else its matching `end`.
pub fn get_if_next_ip(tokens: &[(Token, TokenPos)], if_start: TokenPos) -> (r: Result<usize, Error>)
    ensures
        match r {
            Ok(j) => if_next_from(toks(tokens@), if_start.ip + 1, 1) == Some(j as int)
                && if_start.ip < j < tokens@.len(),
            Err(e) => if_next_from(toks(tokens@), if_start.ip + 1, 1) is None && e == (Error {
                kind: ErrorKind::UnterminatedBlock,
                pos: if_start,
            }),
        },
{
    let ghost tv = toks(tokens@);
    let n = tokens.len();
    if if_start.ip >= n {
        return Err(Error { kind: ErrorKind::UnterminatedBlock, pos: if_start });
    }
    let mut ip: usize = if_start.ip + 1;
    let mut depth: usize = 1;
    while ip < n
        invariant
            tv == toks(tokens@),
            n == tokens@.len(),
            if_start.ip + 1 <= ip,
            1 <= depth,
            depth <= ip - if_start.ip,
            if_next_from(tv, ip as int, depth as int) == if_next_from(tv, if_start.ip + 1, 1),
        decreases tokens@.len() - ip,
    {
        let token = tokens[ip].0;
        match token {
            Token::If(_) | Token::Do(_) => {
                depth = depth + 1;
            },
            Token::Else(_) => {
                if depth == 1 {
                    return Ok(ip);
                }
            },
            Token::End(_) => {
                if depth == 1 {
                    return Ok(ip);
                }
                depth = depth - 1;
            },
            _ => {},
        }
        ip = ip + 1;
    }
    Err(Error { kind: ErrorKind::UnterminatedBlock, pos: if_start })
}

/// The names and entry addresses of the function table, as plain values.
pub open spec fn funcs_view(fs: Seq<FnEntry>) -> Seq<(Seq<char>, int)> {
    fs.map_values(|f: FnEntry| (f.name@, f.entry as int))
}

/// The tokenizer's whole state between two words.
#[verifier::ext_equal]
pub struct LexSt {
    pub main: Seq<(Token, TokenPos)>,
    pub fns: Seq<(Token, TokenPos)>,
    /// Registered functions: name and entry address in the function stream.
    pub funcs: Seq<(Seq<char>, int)>,
    /// The name carried by each call token emitted so far.
    pub calls: Seq<Seq<char>>,
    pub marks: Seq<Mark>,
    pub inside_fn: bool,
    pub prev_fn: bool,
    pub fn_kw: TokenPos,
}

/// The state tokenizing starts from.
pub open spec fn lex_init() -> LexSt {
    LexSt {
        main: Seq::empty(),
        fns: Seq::empty(),
        funcs: Seq::empty(),
        calls: Seq::empty(),
        marks: Seq::empty(),
        inside_fn: false,
        prev_fn: false,
        fn_kw: TokenPos { row: 0, col: 0, ip: 0 },
    }
}

/// The next address of the stream currently being written.
pub open spec fn cur_ip(st: LexSt) -> int {
    if st.inside_fn {
        st.fns.len() as int
    } else {
        st.main.len() as int
    }
}

/// Appends one token to the stream currently being written, tagged with
/// its own address.
pub open spec fn lex_emit(st: LexSt, t: Token, row: int, col: int) -> LexSt {
    let pos = TokenPos { row: row as usize, col: col as usize, ip: cur_ip(st) as usize };
    if st.inside_fn {
        LexSt { fns: st.fns.push((t, pos)), ..st }
    } else {
        LexSt { main: st.main.push((t, pos)), ..st }
    }
}

/// What one word does to the tokenizer's state — the whole of phase 1,
/// word by word.
pub open spec fn lex_word(st: LexSt, w: Seq<char>, row: int, col: int) -> Result<LexSt, Error> {
    let pos = TokenPos { row: row as usize, col: col as usize, ip: cur_ip(st) as usize };
    if st.prev_fn {
        if exists|k: int| 0 <= k < st.funcs.len() && (#[trigger] st.funcs[k]).0 == w {
            Err(
                Error {
                    kind: ErrorKind::DuplicateFunction,
                    pos: TokenPos { row: row as usize, col: col as usize, ip: st.fns.len() as usize },
                },
            )
        } else {
            let entry = st.fns.len() as int;
            let fidx = st.funcs.len() as int;
            let fpos = TokenPos { row: st.fn_kw.row, col: st.fn_kw.col, ip: entry as usize };
            Ok(
                LexSt {
                    fns: st.fns.push((Token::Fn(fidx as usize, 0), fpos)),
                    funcs: st.funcs.push((w, entry)),
                    marks: st.marks.push(
                        Mark { kind: MarkKind::Fn, ip: entry as usize, pos: fpos },
                    ),
                    inside_fn: true,
                    prev_fn: false,
                    ..st
                },
            )
        }
    } else {
        match classify_spec(w) {
            WordClass::KwFn => if st.inside_fn {
                Err(
                    Error {
                        kind: ErrorKind::NestedFunction,
                        pos: TokenPos {
                            row: row as usize,
                            col: col as usize,
                            ip: st.fns.len() as usize,
                        },
                    },
                )
            } else {
                Ok(
                    LexSt {
                        prev_fn: true,
                        fn_kw: TokenPos {
                            row: row as usize,
                            col: col as usize,
                            ip: st.main.len() as usize,
                        },
                        ..st
                    },
                )
            },
            WordClass::BadNumber => Err(Error { kind: ErrorKind::InvalidNumber, pos }),
            WordClass::Lit(v) => Ok(lex_emit(st, Token::Num(v), row, col)),
            WordClass::Kw(tk) => match tk {
                Token::If(_) => Ok(
                    lex_emit(
                        LexSt {
                            marks: st.marks.push(
                                Mark { kind: MarkKind::If, ip: pos.ip, pos },
                            ),
                            ..st
                        },
                        tk,
                        row,
                        col,
                    ),
                ),
                Token::Else(_) => {
                    let popped = if st.marks.len() > 0 && st.marks.last().kind is If {
                        st.marks.drop_last()
                    } else {
                        st.marks
                    };
                    Ok(
                        lex_emit(
                            LexSt {
                                marks: popped.push(
                                    Mark { kind: MarkKind::Else, ip: pos.ip, pos },
                                ),
                                ..st
                            },
                            tk,
                            row,
                            col,
                        ),
                    )
                },
                Token::While => Ok(
                    lex_emit(
                        LexSt {
                            marks: st.marks.push(
                                Mark { kind: MarkKind::While, ip: pos.ip, pos },
                            ),
                            ..st
                        },
                        tk,
                        row,
                        col,
                    ),
                ),
                _ => Ok(lex_emit(st, tk, row, col)),
            },
            WordClass::KwEnd => if st.marks.len() == 0 {
                Err(Error { kind: ErrorKind::UnmatchedEnd, pos })
            } else {
                let mk = st.marks.last();
                let st1 = LexSt { marks: st.marks.drop_last(), ..st };
                match mk.kind {
                    MarkKind::Fn => Ok(
                        LexSt {
                            fns: st1.fns.push(
                                (
                                    Token::End(EndTarget::Return),
                                    TokenPos {
                                        row: row as usize,
                                        col: col as usize,
                                        ip: st1.fns.len() as usize,
                                    },
                                ),
                            ),
                            inside_fn: false,
                            ..st1
                        },
                    ),
                    MarkKind::While => if mk.ip as int > cur_ip(st1) {
                        Err(Error { kind: ErrorKind::UnmatchedEnd, pos: mk.pos })
                    } else {
                        Ok(lex_emit(st1, Token::End(EndTarget::Addr(mk.ip)), row, col))
                    },
                    _ => Ok(
                        lex_emit(
                            st1,
                            Token::End(EndTarget::Addr(cur_ip(st1) as usize)),
                            row,
                            col,
                        ),
                    ),
                }
            },
            WordClass::Name => Ok(
                lex_emit(LexSt { calls: st.calls.push(w), ..st }, Token::FnCall(st.calls.len() as usize), row, col),
            ),
        }
    }
}

/// Phase 1 over the remaining words of one line.
pub open spec fn lex_words_from(st: LexSt, ws: Seq<Seq<char>>, row: int, col: int) -> Result<LexSt, Error>
    decreases ws.len(),
{
    if ws.len() == 0 {
        Ok(st)
    } else {
        match lex_word(st, ws[0], row, col) {
            Err(e) => Err(e),
            Ok(st2) => lex_words_from(st2, ws.drop_first(), row, col + 1),
        }
    }
}

/// Phase 1 over the lines from `row` on.
pub open spec fn lex_lines_from(st: LexSt, lines: Seq<Seq<char>>, row: int) -> Result<LexSt, Error>
    decreases lines.len() - row,
{
    if row < 0 || row >= lines.len() {
        Ok(st)
    } else {
        match lex_words_from(st, crate::text::words_of(lines[row]), row, 0) {
            Err(e) => Err(e),
            Ok(st2) => lex_lines_from(st2, lines, row + 1),
        }
    }
}

/// Phase 1 over the rest of the current line, then the remaining lines.
pub open spec fn lex_rest(
    st: LexSt,
    ws: Seq<Seq<char>>,
    row: int,
    col: int,
    lines: Seq<Seq<char>>,
    next_row: int,
) -> Result<LexSt, Error> {
    match lex_words_from(st, ws, row, col) {
        Err(e) => Err(e),
        Ok(st2) => lex_lines_from(st2, lines, next_row),
    }
}

/// A found table index witnesses a matching name, and conversely.
proof fn lemma_find_matches_exists(fs: Seq<FnEntry>, name: Seq<char>, k: int)
    requires
        0 <= k <= fs.len(),
    ensures
        find_from(fs, name, k) is Some <==> exists|j: int|
            k <= j < fs.len() && (#[trigger] fs[j]).name@ == name,
    decreases fs.len() - k,
{
    if k < fs.len() {
        lemma_find_matches_exists(fs, name, k + 1);
    }
}

/// Phase 1: turns source lines into the two raw position-tagged streams,
/// registering functions and folding each `fn`'s name word, resolving
/// every `end` against the marker stack, and leaving forward targets and
/// call names for phase 2. The outcome is exactly [`lex_lines_from`]'s,
/// word for word.
#[verifier::rlimit(100)]
#[verifier::spinoff_prover]
fn tokenize(lines: &Vec<String>) -> (r: Result<RawLex, Error>)
    ensures
        ({
            let linesv = crate::text::views_of(lines@);
            match lex_lines_from(lex_init(), linesv, 0) {
                Err(e) => r matches Err(e2) && e2 == e,
                Ok(st) => if st.prev_fn {
                    r matches Err(e2) && e2 == (Error {
                        kind: ErrorKind::MissingFunctionName,
                        pos: st.fn_kw,
                    })
                } else if st.marks.len() > 0 {
                    r matches Err(e2) && e2 == (Error {
                        kind: ErrorKind::UnterminatedBlock,
                        pos: st.marks.last().pos,
                    })
                } else {
                    r matches Ok(raw) && raw.tokens@ == st.main && raw.fn_tokens@ == st.fns
                        && funcs_view(raw.functions@) == st.funcs && crate::text::views_of(
                        raw.call_names@,
                    ) == st.calls && raw.wf()
                },
            }
        }),
{
    let ghost linesv = crate::text::views_of(lines@);
    let ghost ltotal = lex_lines_from(lex_init(), linesv, 0);
    let mut tokens: Vec<(Token, TokenPos)> = Vec::new();
    let mut fn_tokens: Vec<(Token, TokenPos)> = Vec::new();
    let mut functions: Vec<FnEntry> = Vec::new();
    let mut call_names: Vec<String> = Vec::new();
    let mut marks: Vec<Mark> = Vec::new();
    let mut inside_fn: bool = false;
    let mut prev_fn: bool = false;
    let mut fn_kw_pos = TokenPos { row: 0, col: 0, ip: 0 };
    let mut row: usize = 0;
    proof {
        let st0 = LexSt {
            main: tokens@,
            fns: fn_tokens@,
            funcs: funcs_view(functions@),
            calls: crate::text::views_of(call_names@),
            marks: marks@,
            inside_fn: inside_fn,
            prev_fn: prev_fn,
            fn_kw: fn_kw_pos,
        };
        assert(st0 =~= lex_init());
    }
    while row < lines.len()
        invariant
            linesv == crate::text::views_of(lines@),
            ltotal == lex_lines_from(lex_init(), linesv, 0),
            row <= lines@.len(),
            wf_raw_stream(tokens@, functions@.len() as int, call_names@.len() as int),
            wf_raw_stream(fn_tokens@, functions@.len() as int, call_names@.len() as int),
            no_body_tokens(tokens@),
            entries_mark_functions(fn_tokens@, functions@),
            lex_lines_from(
                LexSt {
                    main: tokens@,
                    fns: fn_tokens@,
                    funcs: funcs_view(functions@),
                    calls: crate::text::views_of(call_names@),
                    marks: marks@,
                    inside_fn: inside_fn,
                    prev_fn: prev_fn,
                    fn_kw: fn_kw_pos,
                },
                linesv,
                row as int,
            ) == ltotal,
        decreases lines@.len() - row,
    {
        let words = crate::text::split_words(lines[row].as_str());
        let ghost wsv = crate::text::views_of(words@);
        proof {
            assert(lines@[row as int]@ == linesv[row as int]);
            assert(wsv == crate::text::words_of(linesv[row as int]));
            assert(wsv.skip(0) =~= wsv);
        }
        let mut col: usize = 0;
        while col < words.len()
            invariant
                linesv == crate::text::views_of(lines@),
                ltotal == lex_lines_from(lex_init(), linesv, 0),
                row < lines@.len(),
                wsv == crate::text::views_of(words@),
                col <= words@.len(),
                wf_raw_stream(tokens@, functions@.len() as int, call_names@.len() as int),
                wf_raw_stream(fn_tokens@, functions@.len() as int, call_names@.len() as int),
                no_body_tokens(tokens@),
                entries_mark_functions(fn_tokens@, functions@),
                lex_rest(
                    LexSt {
                        main: tokens@,
                        fns: fn_tokens@,
                        funcs: funcs_view(functions@),
                        calls: crate::text::views_of(call_names@),
                        marks: marks@,
                        inside_fn: inside_fn,
                        prev_fn: prev_fn,
                        fn_kw: fn_kw_pos,
                    },
                    wsv.skip(col as int),
                    row as int,
                    col as int,
                    linesv,
                    row as int + 1,
                ) == ltotal,
            decreases words@.len() - col,
        {
            let ghost st0 = LexSt {
                main: tokens@,
                fns: fn_tokens@,
                funcs: funcs_view(functions@),
                calls: crate::text::views_of(call_names@),
                marks: marks@,
                inside_fn: inside_fn,
                prev_fn: prev_fn,
                fn_kw: fn_kw_pos,
            };
            let ghost wv = wsv[col as int];
            proof {
                assert(wv == words@[col as int]@);
                assert(wsv.skip(col as int)[0] == wv);
                assert(wsv.skip(col as int).drop_first() =~= wsv.skip(col as int + 1));
            }
            let ghost nfns0 = functions@.len() as int;
            let ghost ncalls0 = call_names@.len() as int;
            if prev_fn {
                // The word after `fn` is consumed as the function's name:
                // it gets no token and no address of its own.
                if find_function(&functions, words[col].as_str()).is_some() {
                    let e = Error {
                        kind: ErrorKind::DuplicateFunction,
                        pos: TokenPos { row, col, ip: fn_tokens.len() },
                    };
                    proof {
                        lemma_find_matches_exists(functions@, wv, 0);
                        let j = choose|j: int|
                            0 <= j < functions@.len() && (#[trigger] functions@[j]).name@ == wv;
                        assert(st0.funcs[j].0 == wv);
                        assert(lex_word(st0, wv, row as int, col as int) == Err::<LexSt, Error>(e));
                    }
                    return Err(e);
                }
                proof {
                    lemma_find_matches_exists(functions@, wv, 0);
                    if exists|k: int| 0 <= k < st0.funcs.len() && (#[trigger] st0.funcs[k]).0
                        == wv {
                        let k = choose|k: int|
                            0 <= k < st0.funcs.len() && (#[trigger] st0.funcs[k]).0 == wv;
                        assert(functions@[k].name@ == wv);
                    }
                }
                let fidx = functions.len();
                let entry = fn_tokens.len();
                let ghost fs0 = functions@;
                let ghost fns_s0 = fn_tokens@;
                functions.push(FnEntry { name: words[col].clone(), entry });
                let tk = Token::Fn(fidx, 0);
                let pos = TokenPos { row: fn_kw_pos.row, col: fn_kw_pos.col, ip: entry };
                proof {
                    lemma_raw_grow(tokens@, nfns0, ncalls0, nfns0 + 1, ncalls0);
                    lemma_raw_grow(fn_tokens@, nfns0, ncalls0, nfns0 + 1, ncalls0);
                    lemma_raw_push(fn_tokens@, (tk, pos), nfns0 + 1, ncalls0);
                    lemma_entries_register(fns_s0, fs0, (tk, pos), functions@.last());
                }
                fn_tokens.push((tk, pos));
                marks.push(Mark { kind: MarkKind::Fn, ip: entry, pos });
                inside_fn = true;
                prev_fn = false;
                proof {
                    assert(funcs_view(functions@) =~= funcs_view(fs0).push((wv, entry as int)));
                }
            } else {
                let class = classify_word(words[col].as_str());
                match class {
                    WordClass::KwFn => {
                        if inside_fn {
                            let e = Error {
                                kind: ErrorKind::NestedFunction,
                                pos: TokenPos { row, col, ip: fn_tokens.len() },
                            };
                            proof {
                                assert(lex_word(st0, wv, row as int, col as int) == Err::<
                                    LexSt,
                                    Error,
                                >(e));
                            }
                            return Err(e);
                        }
                        prev_fn = true;
                        fn_kw_pos = TokenPos { row, col, ip: tokens.len() };
                    },
                    WordClass::BadNumber => {
                        let e = Error {
                            kind: ErrorKind::InvalidNumber,
                            pos: TokenPos {
                                row,
                                col,
                                ip: if inside_fn {
                                    fn_tokens.len()
                                } else {
                                    tokens.len()
                                },
                            },
                        };
                        proof {
                            assert(lex_word(st0, wv, row as int, col as int) == Err::<
                                LexSt,
                                Error,
                            >(e));
                        }
                        return Err(e);
                    },
                    WordClass::Lit(v) => {
                        let tk = Token::Num(v);
                        if inside_fn {
                            let pos = TokenPos { row, col, ip: fn_tokens.len() };
                            proof {
                                lemma_raw_push(fn_tokens@, (tk, pos), nfns0, ncalls0);
                                lemma_entries_keep(fn_tokens@, (tk, pos), functions@);
                            }
                            fn_tokens.push((tk, pos));
                        } else {
                            let pos = TokenPos { row, col, ip: tokens.len() };
                            proof {
                                lemma_raw_push(tokens@, (tk, pos), nfns0, ncalls0);
                                assert(main_only_token(tk));
                                lemma_main_push(tokens@, (tk, pos));
                            }
                            tokens.push((tk, pos));
                        }
                    },
                    WordClass::Kw(tk) => {
                        let pos = TokenPos {
                            row,
                            col,
                            ip: if inside_fn {
                                fn_tokens.len()
                            } else {
                                tokens.len()
                            },
                        };
                        match tk {
                            Token::If(_) => {
                                marks.push(Mark { kind: MarkKind::If, ip: pos.ip, pos });
                            },
                            Token::Else(_) => {
                                // An `else` directly closing an `if` takes
                                // over its terminator slot: the pair shares
                                // one `end`.
                                if marks.len() > 0 && matches!(
                                    marks[marks.len() - 1].kind,
                                    MarkKind::If,
                                ) {
                                    let _ = marks.pop();
                                }
                                marks.push(Mark { kind: MarkKind::Else, ip: pos.ip, pos });
                            },
                            Token::While => {
                                marks.push(Mark { kind: MarkKind::While, ip: pos.ip, pos });
                            },
                            _ => {},
                        }
                        if inside_fn {
                            proof {
                                lemma_raw_push(fn_tokens@, (tk, pos), nfns0, ncalls0);
                                lemma_entries_keep(fn_tokens@, (tk, pos), functions@);
                            }
                            fn_tokens.push((tk, pos));
                        } else {
                            proof {
                                lemma_raw_push(tokens@, (tk, pos), nfns0, ncalls0);
                                assert(main_only_token(tk));
                                lemma_main_push(tokens@, (tk, pos));
                            }
                            tokens.push((tk, pos));
                        }
                    },
                    WordClass::KwEnd => {
                        let mk = match marks.pop() {
                            Some(mk) => mk,
                            None => {
                                let e = Error {
                                    kind: ErrorKind::UnmatchedEnd,
                                    pos: TokenPos {
                                        row,
                                        col,
                                        ip: if inside_fn {
                                            fn_tokens.len()
                                        } else {
                                            tokens.len()
                                        },
                                    },
                                };
                                proof {
                                    assert(lex_word(st0, wv, row as int, col as int) == Err::<
                                        LexSt,
                                        Error,
                                    >(e));
                                }
                                return Err(e);
                            },
                        };
                        match mk.kind {
                            MarkKind::Fn => {
                                // The function body's terminator: the
                                // distinguished return sentinel.
                                inside_fn = false;
                                let tk = Token::End(EndTarget::Return);
                                let pos = TokenPos { row, col, ip: fn_tokens.len() };
                                proof {
                                    lemma_raw_push(fn_tokens@, (tk, pos), nfns0, ncalls0);
                                    lemma_entries_keep(fn_tokens@, (tk, pos), functions@);
                                }
                                fn_tokens.push((tk, pos));
                            },
                            MarkKind::While => {
                                // Loop terminator: jump back to the
                                // `while` to re-test the condition.
                                let pos = TokenPos {
                                    row,
                                    col,
                                    ip: if inside_fn {
                                        fn_tokens.len()
                                    } else {
                                        tokens.len()
                                    },
                                };
                                if mk.ip > pos.ip {
                                    let e = Error { kind: ErrorKind::UnmatchedEnd, pos: mk.pos };
                                    proof {
                                        assert(lex_word(st0, wv, row as int, col as int) == Err::<
                                            LexSt,
                                            Error,
                                        >(e));
                                    }
                                    return Err(e);
                                }
                                let tk = Token::End(EndTarget::Addr(mk.ip));
                                if inside_fn {
                                    proof {
                                        lemma_raw_push(fn_tokens@, (tk, pos), nfns0, ncalls0);
                                        lemma_entries_keep(fn_tokens@, (tk, pos), functions@);
                                    }
                                    fn_tokens.push((tk, pos));
                                } else {
                                    proof {
                                        lemma_raw_push(tokens@, (tk, pos), nfns0, ncalls0);
                                        assert(main_only_token(tk));
                                        lemma_main_push(tokens@, (tk, pos));
                                    }
                                    tokens.push((tk, pos));
                                }
                            },
                            _ => {
                                // An `if` or `else` block's terminator
                                // falls through: it targets itself.
                                let pos = TokenPos {
                                    row,
                                    col,
                                    ip: if inside_fn {
                                        fn_tokens.len()
                                    } else {
                                        tokens.len()
                                    },
                                };
                                let tk = Token::End(EndTarget::Addr(pos.ip));
                                if inside_fn {
                                    proof {
                                        lemma_raw_push(fn_tokens@, (tk, pos), nfns0, ncalls0);
                                        lemma_entries_keep(fn_tokens@, (tk, pos), functions@);
                                    }
                                    fn_tokens.push((tk, pos));
                                } else {
                                    proof {
                                        lemma_raw_push(tokens@, (tk, pos), nfns0, ncalls0);
                                        assert(main_only_token(tk));
                                        lemma_main_push(tokens@, (tk, pos));
                                    }
                                    tokens.push((tk, pos));
                                }
                            },
                        }
                    },
                    WordClass::Name => {
                        // Not in the lexical table: a call, resolved by
                        // name in phase 2 so forward references are legal.
                        let cidx = call_names.len();
                        let ghost cn0 = call_names@;
                        call_names.push(words[col].clone());
                        let tk = Token::FnCall(cidx);
                        proof {
                            lemma_raw_grow(tokens@, nfns0, ncalls0, nfns0, ncalls0 + 1);
                            lemma_raw_grow(fn_tokens@, nfns0, ncalls0, nfns0, ncalls0 + 1);
                            assert(crate::text::views_of(call_names@) =~= crate::text::views_of(
                                cn0,
                            ).push(wv));
                        }
                        if inside_fn {
                            let pos = TokenPos { row, col, ip: fn_tokens.len() };
                            proof {
                                lemma_raw_push(fn_tokens@, (tk, pos), nfns0, ncalls0 + 1);
                                lemma_entries_keep(fn_tokens@, (tk, pos), functions@);
                            }
                            fn_tokens.push((tk, pos));
                        } else {
                            let pos = TokenPos { row, col, ip: tokens.len() };
                            proof {
                                lemma_raw_push(tokens@, (tk, pos), nfns0, ncalls0 + 1);
                                assert(main_only_token(tk));
                                lemma_main_push(tokens@, (tk, pos));
                            }
                            tokens.push((tk, pos));
                        }
                    },
                }
            }
            proof {
                let st1 = LexSt {
                    main: tokens@,
                    fns: fn_tokens@,
                    funcs: funcs_view(functions@),
                    calls: crate::text::views_of(call_names@),
                    marks: marks@,
                    inside_fn: inside_fn,
                    prev_fn: prev_fn,
                    fn_kw: fn_kw_pos,
                };
                assert(lex_word(st0, wv, row as int, col as int) is Ok);
                assert(st1 =~= lex_word(st0, wv, row as int, col as int).unwrap());
            }
            col = col + 1;
        }
        proof {
            assert(wsv.skip(words@.len() as int) =~= Seq::<Seq<char>>::empty());
        }
        row = row + 1;
    }
    if prev_fn {
        return Err(Error { kind: ErrorKind::MissingFunctionName, pos: fn_kw_pos });
    }
    if marks.len() > 0 {
        return Err(
            Error { kind: ErrorKind::UnterminatedBlock, pos: marks[marks.len() - 1].pos },
        );
    }
    Ok(RawLex { tokens, fn_tokens, functions, call_names })
}

/// The first table index at or after `k` whose entry bears `name`.
pub open spec fn find_from(fs: Seq<FnEntry>, name: Seq<char>, k: int) -> Option<int>
    decreases fs.len() - k,
{
    if k < 0 || k >= fs.len() {
        None
    } else if fs[k].name@ == name {
        Some(k)
    } else {
        find_from(fs, name, k + 1)
    }
}

/// The table index a call name resolves to: the first entry bearing it.
pub open spec fn find_fn_spec(fs: Seq<FnEntry>, name: Seq<char>) -> Option<int> {
    find_from(fs, name, 0)
}

/// Looks a name up in the function table.
fn find_function(functions: &Vec<FnEntry>, name: &str) -> (r: Option<usize>)
    ensures
        match r {
            Some(k) => find_fn_spec(functions@, name@) == Some(k as int) && k < functions@.len(),
            None => find_fn_spec(functions@, name@) is None,
        },
{
    let mut k: usize = 0;
    while k < functions.len()
        invariant
            k <= functions@.len(),
            find_from(functions@, name@, k as int) == find_fn_spec(functions@, name@),
        decreases functions@.len() - k,
    {
        if crate::text::str_eqs(functions[k].name.as_str(), name) {
            return Some(k);
        }
        k = k + 1;
    }
    None
}

/// Whether the marker at `i` can be resolved: its scan finds a closer,
/// and a call's name stands in the table.
pub open spec fn resolvable(
    s: Seq<(Token, TokenPos)>,
    i: int,
    fs: Seq<FnEntry>,
    cn: Seq<Seq<char>>,
) -> bool {
    match s[i].0 {
        Token::If(_) => if_next_from(toks(s), i + 1, 1) is Some,
        Token::Else(_) => block_end_from(toks(s), i + 1, 1) is Some,
        Token::Do(_) => block_end_from(toks(s), i + 1, 1) is Some,
        Token::Fn(_, _) => block_end_from(toks(s), i + 1, 1) is Some,
        Token::FnCall(c) => find_fn_spec(fs, cn[c as int]) is Some,
        _ => true,
    }
}

/// What the raw token at `i` resolves to: forward markers take their
/// scan's result, calls take their name's table index, and every other
/// token passes through unchanged.
pub open spec fn token_resolves_to(
    s: Seq<(Token, TokenPos)>,
    i: int,
    fs: Seq<FnEntry>,
    cn: Seq<Seq<char>>,
    t: Token,
) -> bool {
    match s[i].0 {
        Token::If(_) => t matches Token::If(tt) && if_next_from(toks(s), i + 1, 1) == Some(
            tt as int,
        ),
        Token::Else(_) => t matches Token::Else(tt) && block_end_from(toks(s), i + 1, 1) == Some(
            tt as int,
        ),
        Token::Do(_) => t matches Token::Do(tt) && block_end_from(toks(s), i + 1, 1) == Some(
            tt as int,
        ),
        Token::Fn(f, _) => t matches Token::Fn(ff, ee) && ff == f && block_end_from(
            toks(s),
            i + 1,
            1,
        ) == Some(ee as int),
        Token::FnCall(c) => t matches Token::FnCall(k) && find_fn_spec(fs, cn[c as int]) == Some(
            k as int,
        ),
        other => t == other,
    }
}

/// Phase 2: back-patches one raw stream, scanning forward from each
/// pending marker to its matching `else`/`end`, and resolving call names
/// through the function table. On success each output token is exactly
/// its raw token's resolution ([`token_resolves_to`]); on the first
/// marker that cannot be resolved, the whole pass fails with that
/// token's position.
fn resolve_stream(
    s: &Vec<(Token, TokenPos)>,
    functions: &Vec<FnEntry>,
    call_names: &Vec<String>,
) -> (r: Result<Vec<(Token, TokenPos)>, Error>)
    requires
        wf_raw_stream(s@, functions@.len() as int, call_names@.len() as int),
    ensures
        ({
            let fs = functions@;
            let cn = crate::text::views_of(call_names@);
            match r {
                Ok(out) => out@.len() == s@.len() && wf_stream(out@, fs.len() as int) && forall|
                    j: int,
                |
                    0 <= j < s@.len() ==> (#[trigger] out@[j]).1 == s@[j].1 && token_resolves_to(
                        s@,
                        j,
                        fs,
                        cn,
                        out@[j].0,
                    ),
                Err(e) => exists|j: int|
                    0 <= j < s@.len() && !(#[trigger] resolvable(s@, j, fs, cn)) && e.pos
                        == s@[j].1 && e.kind == (if s@[j].0 is FnCall {
                        ErrorKind::UnknownWord
                    } else {
                        ErrorKind::UnterminatedBlock
                    }) && (forall|k: int| 0 <= k < j ==> resolvable(s@, k, fs, cn)),
            }
        }),
{
    let ghost nfns = functions@.len() as int;
    let ghost fs = functions@;
    let ghost cn = crate::text::views_of(call_names@);
    let n = s.len();
    let mut out: Vec<(Token, TokenPos)> = Vec::new();
    let mut i: usize = 0;
    while i < n
        invariant
            n == s@.len(),
            wf_raw_stream(s@, nfns, call_names@.len() as int),
            nfns == functions@.len() as int,
            fs == functions@,
            cn == crate::text::views_of(call_names@),
            out@.len() == i <= n,
            forall|j: int|
                0 <= j < i ==> (#[trigger] out@[j]).1.ip == j && token_ok(
                    out@[j].0,
                    j,
                    n as int,
                    nfns,
                ),
            forall|j: int|
                0 <= j < i ==> (#[trigger] out@[j]).1 == s@[j].1 && token_resolves_to(
                    s@,
                    j,
                    fs,
                    cn,
                    out@[j].0,
                ),
            forall|k: int| 0 <= k < i ==> #[trigger] resolvable(s@, k, fs, cn),
        decreases n - i,
    {
        proof {
            assert(raw_entry_ok(s@, i as int, nfns, call_names@.len() as int));
        }
        let (tk, pos) = s[i];
        let resolved: Token = match tk {
            Token::If(_) => {
                match get_if_next_ip(s.as_slice(), pos) {
                    Ok(j) => Token::If(j),
                    Err(e) => {
                        proof {
                            assert(!resolvable(s@, i as int, fs, cn));
                        }
                        return Err(e);
                    },
                }
            },
            Token::Else(_) => {
                match get_block_end(s.as_slice(), pos) {
                    Ok(j) => Token::Else(j),
                    Err(e) => {
                        proof {
                            assert(!resolvable(s@, i as int, fs, cn));
                        }
                        return Err(e);
                    },
                }
            },
            Token::Do(_) => {
                match get_block_end(s.as_slice(), pos) {
                    Ok(j) => Token::Do(j),
                    Err(e) => {
                        proof {
                            assert(!resolvable(s@, i as int, fs, cn));
                        }
                        return Err(e);
                    },
                }
            },
            Token::Fn(f, _) => {
                match get_block_end(s.as_slice(), pos) {
                    Ok(j) => Token::Fn(f, j),
                    Err(e) => {
                        proof {
                            assert(!resolvable(s@, i as int, fs, cn));
                        }
                        return Err(e);
                    },
                }
            },
            Token::FnCall(c) => {
                proof {
                    assert(cn[c as int] == call_names@[c as int]@);
                }
                match find_function(functions, call_names[c].as_str()) {
                    Some(k) => Token::FnCall(k),
                    None => {
                        proof {
                            assert(!resolvable(s@, i as int, fs, cn));
                        }
                        return Err(Error { kind: ErrorKind::UnknownWord, pos });
                    },
                }
            },
            other => other,
        };
        out.push((resolved, pos));
        i = i + 1;
    }
    proof {
        assert forall|j: int| 0 <= j < out@.len() implies #[trigger] target_kind_ok(out@, j) by {
            assert(token_resolves_to(s@, j, fs, cn, out@[j].0));
            lemma_scan_lands_on_closer(toks(s@), j + 1, 1);
            match out@[j].0 {
                Token::If(tt) => {
                    assert(toks(s@)[tt as int] == s@[tt as int].0);
                    assert(token_resolves_to(s@, tt as int, fs, cn, out@[tt as int].0));
                },
                Token::Else(tt) => {
                    assert(toks(s@)[tt as int] == s@[tt as int].0);
                    assert(token_resolves_to(s@, tt as int, fs, cn, out@[tt as int].0));
                },
                Token::Do(tt) => {
                    assert(toks(s@)[tt as int] == s@[tt as int].0);
                    assert(token_resolves_to(s@, tt as int, fs, cn, out@[tt as int].0));
                },
                Token::Fn(_, ee) => {
                    assert(toks(s@)[ee as int] == s@[ee as int].0);
                    assert(token_resolves_to(s@, ee as int, fs, cn, out@[ee as int].0));
                },
                _ => {},
            }
        }
    }
    Ok(out)
}

/// The first index at or after `k` in a name/entry table bearing `name`.
pub open spec fn find_pair_from(fs: Seq<(Seq<char>, int)>, name: Seq<char>, k: int) -> Option<int>
    decreases fs.len() - k,
{
    if k < 0 || k >= fs.len() {
        None
    } else if fs[k].0 == name {
        Some(k)
    } else {
        find_pair_from(fs, name, k + 1)
    }
}

/// The table index a call name resolves to, over plain name/entry pairs.
pub open spec fn find_pair(fs: Seq<(Seq<char>, int)>, name: Seq<char>) -> Option<int> {
    find_pair_from(fs, name, 0)
}

proof fn lemma_find_pair_view(fs: Seq<FnEntry>, name: Seq<char>, k: int)
    ensures
        find_from(fs, name, k) == find_pair_from(funcs_view(fs), name, k),
    decreases fs.len() - k,
{
    if 0 <= k < fs.len() {
        assert(funcs_view(fs)[k] == (fs[k].name@, fs[k].entry as int));
        lemma_find_pair_view(fs, name, k + 1);
    }
}

/// Whether the tokenized marker at `i` can be resolved, stated over the
/// tokenizer's own state ([`LexSt`]).
pub open spec fn resolvable_p(
    s: Seq<(Token, TokenPos)>,
    i: int,
    funcs: Seq<(Seq<char>, int)>,
    calls: Seq<Seq<char>>,
) -> bool {
    match s[i].0 {
        Token::If(_) => if_next_from(toks(s), i + 1, 1) is Some,
        Token::Else(_) => block_end_from(toks(s), i + 1, 1) is Some,
        Token::Do(_) => block_end_from(toks(s), i + 1, 1) is Some,
        Token::Fn(_, _) => block_end_from(toks(s), i + 1, 1) is Some,
        Token::FnCall(c) => find_pair(funcs, calls[c as int]) is Some,
        _ => true,
    }
}

/// What the tokenized marker at `i` resolves to, stated over the
/// tokenizer's own state ([`LexSt`]).
pub open spec fn token_resolves_to_p(
    s: Seq<(Token, TokenPos)>,
    i: int,
    funcs: Seq<(Seq<char>, int)>,
    calls: Seq<Seq<char>>,
    t: Token,
) -> bool {
    match s[i].0 {
        Token::If(_) => t matches Token::If(tt) && if_next_from(toks(s), i + 1, 1) == Some(
            tt as int,
        ),
        Token::Else(_) => t matches Token::Else(tt) && block_end_from(toks(s), i + 1, 1) == Some(
            tt as int,
        ),
        Token::Do(_) => t matches Token::Do(tt) && block_end_from(toks(s), i + 1, 1) == Some(
            tt as int,
        ),
        Token::Fn(f, _) => t matches Token::Fn(ff, ee) && ff == f && block_end_from(
            toks(s),
            i + 1,
            1,
        ) == Some(ee as int),
        Token::FnCall(c) => t matches Token::FnCall(k) && find_pair(funcs, calls[c as int])
            == Some(k as int),
        other => t == other,
    }
}

/// The error resolution reports for the marker at `i`: an unterminated
/// block at the marker's own position, or an unknown name for a call.
pub open spec fn resolve_err_at(s: Seq<(Token, TokenPos)>, i: int) -> Error {
    Error {
        kind: if s[i].0 is FnCall {
            ErrorKind::UnknownWord
        } else {
            ErrorKind::UnterminatedBlock
        },
        pos: s[i].1,
    }
}

/// One resolved stream relates to its tokenized stream position by
/// position: same positions, each token its raw token's resolution.
pub open spec fn stream_resolves(
    s: Seq<(Token, TokenPos)>,
    out: Seq<(Token, TokenPos)>,
    funcs: Seq<(Seq<char>, int)>,
    calls: Seq<Seq<char>>,
) -> bool {
    out.len() == s.len() && forall|j: int|
        0 <= j < s.len() ==> (#[trigger] out[j]).1 == s[j].1 && token_resolves_to_p(
            s,
            j,
            funcs,
            calls,
            out[j].0,
        )
}

/// Resolution fails exactly at the first unresolvable marker of `s`.
pub open spec fn stream_fails_at(
    s: Seq<(Token, TokenPos)>,
    funcs: Seq<(Seq<char>, int)>,
    calls: Seq<Seq<char>>,
    e: Error,
) -> bool {
    exists|j: int|
        0 <= j < s.len() && !(#[trigger] resolvable_p(s, j, funcs, calls)) && e == resolve_err_at(
            s,
            j,
        ) && (forall|k: int| 0 <= k < j ==> resolvable_p(s, k, funcs, calls))
}

/// Every marker of `s` resolves.
pub open spec fn stream_resolvable(
    s: Seq<(Token, TokenPos)>,
    funcs: Seq<(Seq<char>, int)>,
    calls: Seq<Seq<char>>,
) -> bool {
    forall|j: int| 0 <= j < s.len() ==> #[trigger] resolvable_p(s, j, funcs, calls)
}

/// Turns preprocessed source lines into a resolved program: tokenizing,
/// marker matching, function segregation and back-patching in two phases.
///
/// The contract is the whole pipeline: phase 1's outcome is exactly
/// [`lex_lines_from`]'s, word for word; on a well-terminated input each
/// output stream is its tokenized stream with every marker resolved
/// ([`stream_resolves`]), and otherwise resolution fails at the first
/// unresolvable marker, main stream first. On success the output is also
/// well-formed ([`LexerOutput::wf`]): every resolved jump target is a
/// valid address of its stream or the return sentinel, never out of
/// range. No partial program is ever returned.
#[verifier::rlimit(60)]
pub fn lex_lines(lines: Vec<String>) -> (r: Result<LexerOutput, Error>)
    ensures
        ({
            let linesv = crate::text::views_of(lines@);
            match lex_lines_from(lex_init(), linesv, 0) {
                Err(e) => r matches Err(e2) && e2 == e,
                Ok(st) => if st.prev_fn {
                    r matches Err(e2) && e2 == (Error {
                        kind: ErrorKind::MissingFunctionName,
                        pos: st.fn_kw,
                    })
                } else if st.marks.len() > 0 {
                    r matches Err(e2) && e2 == (Error {
                        kind: ErrorKind::UnterminatedBlock,
                        pos: st.marks.last().pos,
                    })
                } else {
                    match r {
                        Ok(o) => o.wf() && stream_resolves(st.main, o.tokens@, st.funcs, st.calls)
                            && stream_resolves(st.fns, o.fn_tokens@, st.funcs, st.calls)
                            && funcs_view(o.functions@) == st.funcs,
                        Err(e) => stream_fails_at(st.main, st.funcs, st.calls, e) || (
                        stream_resolvable(st.main, st.funcs, st.calls) && stream_fails_at(
                            st.fns,
                            st.funcs,
                            st.calls,
                            e,
                        )),
                    }
                },
            }
        }),
{
    let ghost linesv = crate::text::views_of(lines@);
    let raw = match tokenize(&lines) {
        Ok(raw) => raw,
        Err(e) => {
            return Err(e);
        },
    };
    let ghost st = lex_lines_from(lex_init(), linesv, 0).unwrap();
    let ghost fs = raw.functions@;
    let ghost cn = crate::text::views_of(raw.call_names@);
    proof {
        assert(raw.tokens@ == st.main);
        assert(raw.fn_tokens@ == st.fns);
        assert(funcs_view(fs) == st.funcs);
        assert(cn == st.calls);
    }
    let main2 = match resolve_stream(&raw.tokens, &raw.functions, &raw.call_names) {
        Ok(v) => v,
        Err(e) => {
            proof {
                let j = choose|j: int|
                    0 <= j < raw.tokens@.len() && !(#[trigger] resolvable(
                        raw.tokens@,
                        j,
                        fs,
                        cn,
                    )) && e.pos == raw.tokens@[j].1 && e.kind == (if raw.tokens@[j].0 is FnCall {
                        ErrorKind::UnknownWord
                    } else {
                        ErrorKind::UnterminatedBlock
                    }) && (forall|k: int| 0 <= k < j ==> resolvable(raw.tokens@, k, fs, cn));
                match st.main[j].0 {
                    Token::FnCall(c) => {
                        lemma_find_pair_view(fs, cn[c as int], 0);
                    },
                    _ => {},
                }
                assert(!resolvable_p(st.main, j, st.funcs, st.calls));
                assert(e == resolve_err_at(st.main, j));
                assert forall|k: int| 0 <= k < j implies resolvable_p(
                    st.main,
                    k,
                    st.funcs,
                    st.calls,
                ) by {
                    assert(resolvable(raw.tokens@, k, fs, cn));
                    match st.main[k].0 {
                        Token::FnCall(c) => {
                            lemma_find_pair_view(fs, cn[c as int], 0);
                        },
                        _ => {},
                    }
                }
                assert(stream_fails_at(st.main, st.funcs, st.calls, e));
            }
            return Err(e);
        },
    };
    proof {
        assert forall|j: int| 0 <= j < st.main.len() implies (#[trigger] main2@[j]).1
            == st.main[j].1 && token_resolves_to_p(st.main, j, st.funcs, st.calls, main2@[j].0) by {
            assert(token_resolves_to(raw.tokens@, j, fs, cn, main2@[j].0));
            match st.main[j].0 {
                Token::FnCall(c) => {
                    lemma_find_pair_view(fs, cn[c as int], 0);
                },
                _ => {},
            }
        }
        assert(stream_resolves(st.main, main2@, st.funcs, st.calls));
        assert forall|j: int| 0 <= j < st.main.len() implies #[trigger] resolvable_p(
            st.main,
            j,
            st.funcs,
            st.calls,
        ) by {
            assert(token_resolves_to_p(st.main, j, st.funcs, st.calls, main2@[j].0));
        }
    }
    let fns2 = match resolve_stream(&raw.fn_tokens, &raw.functions, &raw.call_names) {
        Ok(v) => v,
        Err(e) => {
            proof {
                let j = choose|j: int|
                    0 <= j < raw.fn_tokens@.len() && !(#[trigger] resolvable(
                        raw.fn_tokens@,
                        j,
                        fs,
                        cn,
                    )) && e.pos == raw.fn_tokens@[j].1 && e.kind == (if raw.fn_tokens@[j].0
                        is FnCall {
                        ErrorKind::UnknownWord
                    } else {
                        ErrorKind::UnterminatedBlock
                    }) && (forall|k: int| 0 <= k < j ==> resolvable(raw.fn_tokens@, k, fs, cn));
                match st.fns[j].0 {
                    Token::FnCall(c) => {
                        lemma_find_pair_view(fs, cn[c as int], 0);
                    },
                    _ => {},
                }
                assert(!resolvable_p(st.fns, j, st.funcs, st.calls));
                assert(e == resolve_err_at(st.fns, j));
                assert forall|k: int| 0 <= k < j implies resolvable_p(
                    st.fns,
                    k,
                    st.funcs,
                    st.calls,
                ) by {
                    assert(resolvable(raw.fn_tokens@, k, fs, cn));
                    match st.fns[k].0 {
                        Token::FnCall(c) => {
                            lemma_find_pair_view(fs, cn[c as int], 0);
                        },
                        _ => {},
                    }
                }
                assert(stream_fails_at(st.fns, st.funcs, st.calls, e));
            }
            return Err(e);
        },
    };
    proof {
        assert forall|j: int| 0 <= j < st.fns.len() implies (#[trigger] fns2@[j]).1 == st.fns[j].1
            && token_resolves_to_p(st.fns, j, st.funcs, st.calls, fns2@[j].0) by {
            assert(token_resolves_to(raw.fn_tokens@, j, fs, cn, fns2@[j].0));
            match st.fns[j].0 {
                Token::FnCall(c) => {
                    lemma_find_pair_view(fs, cn[c as int], 0);
                },
                _ => {},
            }
        }
        assert(stream_resolves(st.fns, fns2@, st.funcs, st.calls));
        assert forall|i: int| 0 <= i < main2@.len() implies main_only_token(
            (#[trigger] main2@[i]).0,
        ) by {
            assert(main_only_token(raw.tokens@[i].0));
            assert(token_resolves_to(raw.tokens@, i, fs, cn, main2@[i].0));
        }
        assert forall|k: int| 0 <= k < fs.len() implies (#[trigger] fs[k]).entry < fns2@.len() && (
        fns2@[fs[k].entry as int].0 matches Token::Fn(ff, _) && ff as int == k) by {
            assert(entries_mark_functions(raw.fn_tokens@, fs));
            assert(fs[k].entry < raw.fn_tokens@.len());
            assert(token_resolves_to(raw.fn_tokens@, fs[k].entry as int, fs, cn, fns2@[fs[k].entry as int].0));
        }
    }
    Ok(LexerOutput { tokens: main2, fn_tokens: fns2, functions: raw.functions })
}

impl Token {
    /// The comment the code generator writes above this token's lowering.
    pub fn to_asm_comment(&self) -> (r: String)
        ensures
            r@ == asm_comment(*self),
    {
        match self {
            Token::Num(_) => String::from_str("; -- push --"),
            Token::OpAdd => String::from_str("; -- add --"),
            Token::OpSub => String::from_str("; -- sub --"),
            Token::OpMul => String::from_str("; -- mul --"),
            Token::OpDiv => String::from_str("; -- div --"),
            Token::Print => String::from_str("; -- print --"),
            Token::Write => String::from_str("; -- write --"),
            Token::Dup => String::from_str("; -- dup --"),
            Token::Drop => String::from_str("; -- drop --"),
            Token::Swap => String::from_str("; -- swap --"),
            Token::Over => String::from_str("; -- over --"),
            Token::If(_) => String::from_str("; -- if --"),
            Token::Else(_) => String::from_str("; -- else --"),
            Token::While => String::from_str("; -- while --"),
            Token::Do(_) => String::from_str("; -- do --"),
            Token::End(_) => String::from_str("; -- end --"),
            Token::Eq => String::from_str("; -- eq --"),
            Token::GT => String::from_str("; -- gt --"),
            Token::LT => String::from_str("; -- lt --"),
            Token::And => String::from_str("; -- and --"),
            Token::Not => String::from_str("; -- not --"),
            Token::Or => String::from_str("; -- or --"),
            Token::Up => String::from_str("; -- up --"),
            Token::Down => String::from_str("; -- down --"),
            Token::Left => String::from_str("; -- left --"),
            Token::Right => String::from_str("; -- right --"),
            Token::Loc => String::from_str("; -- loc --"),
            Token::Store => String::from_str("; -- store --"),
            Token::Load => String::from_str("; -- load --"),
            Token::Copy => String::from_str("; -- copy --"),
            Token::Fn(_, _) => String::from_str("; -- fn --"),
            Token::FnCall(_) => String::from_str("; -- fn call --"),
        }
    }
}

} // verus!
