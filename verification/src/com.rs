//! The code generator: lowers a resolved program to assembly text that
//! realises the abstract machine's semantics rule for rule.
//!
//! The exact text is pinned by the specification functions [`gen_step`]
//! and [`compile_spec`]: [`compile`] is proved to produce precisely those
//! lines. Labelled jumps reproduce the resolved control flow; the memory
//! grid is reached only through the five external runtime primitives; the
//! return sentinel becomes a native return over a dedicated address stack.
use vstd::prelude::*;

use crate::text::{dec_spec, dec_str_of, views_of};
use crate::{asm_comment, toks, EndTarget, Error, ErrorKind, FnEntry, LexerOutput, Token, TokenPos};

verus! {

/// The generator's transient state: the label counter and the stacks of
/// open-block label numbers.
struct CompilerVars {
    block_num: usize,
    block_addrs: Vec<usize>,
    block_is_dowhile: Vec<bool>,
}

/// The generator state's mathematical shape.
#[verifier::ext_equal]
pub struct VarsV {
    pub num: int,
    pub addrs: Seq<int>,
    pub dw: Seq<bool>,
}

impl View for CompilerVars {
    type V = VarsV;

    closed spec fn view(&self) -> VarsV {
        VarsV {
            num: self.block_num as int,
            addrs: self.block_addrs@.map_values(|a: usize| a as int),
            dw: self.block_is_dowhile@,
        }
    }
}

/// A fresh generator state.
pub open spec fn vars_init() -> VarsV {
    VarsV { num: 0, addrs: Seq::empty(), dw: Seq::empty() }
}

/// The names of the function table, for labels and call sites.
pub open spec fn names_of(fs: Seq<FnEntry>) -> Seq<Seq<char>> {
    fs.map_values(|f: FnEntry| f.name@)
}

/// A jump-target label line, `addr_N:`.
pub open spec fn label_line(n: int) -> Seq<char> {
    "addr_"@ + dec_spec(n as nat) + ":"@
}

/// A conditional jump to a label, `je addr_N`.
pub open spec fn je_line(n: int) -> Seq<char> {
    "    je     addr_"@ + dec_spec(n as nat)
}

/// An unconditional jump to a label, `jmp addr_N`.
pub open spec fn jmp_line(n: int) -> Seq<char> {
    "    jmp    addr_"@ + dec_spec(n as nat)
}

/// What one token lowers to: the lines that follow its comment line, and
/// the generator state afterwards. `None` when the stream's block
/// structure cannot be lowered (or a label number would no longer fit).
pub open spec fn gen_step(t: Token, v: VarsV, names: Seq<Seq<char>>) -> Option<
    (Seq<Seq<char>>, VarsV),
> {
    match t {
        Token::Num(n) => Some((seq!["    push "@ + dec_spec(n as nat)], v)),
        Token::OpAdd => Some(
            (
                seq![
                    "    pop    rax"@,
                    "    pop    rcx"@,
                    "    add    rax, rcx"@,
                    "    push   rax"@,
                ],
                v,
            ),
        ),
        Token::OpSub => Some(
            (
                seq![
                    "    pop    rcx"@,
                    "    pop    rax"@,
                    "    sub    rax, rcx"@,
                    "    push   rax"@,
                ],
                v,
            ),
        ),
        Token::OpMul => Some(
            (
                seq![
                    "    pop    rax"@,
                    "    pop    rcx"@,
                    "    mul    rcx"@,
                    "    push   rax"@,
                ],
                v,
            ),
        ),
        Token::OpDiv => Some(
            (
                seq![
                    "    pop    rcx"@,
                    "    pop    rax"@,
                    "    xor    rdx, rdx"@,
                    "    div    rcx"@,
                    "    push   rax"@,
                ],
                v,
            ),
        ),
        Token::Print => Some((seq!["    mov    rdi, [rsp]"@, "    call   print"@], v)),
        Token::Write => Some(
            (
                seq![
                    "    mov    rdi, mem_table"@,
                    "    mov    rsi, [mem_loc]"@,
                    "    pop    rdx"@,
                    "    call   write_cells"@,
                ],
                v,
            ),
        ),
        Token::Dup => Some(
            (seq!["    pop    rax"@, "    push   rax"@, "    push   rax"@], v),
        ),
        Token::Drop => Some((seq!["    pop    rax"@], v)),
        Token::Swap => Some(
            (
                seq![
                    "    pop    rax"@,
                    "    pop    rcx"@,
                    "    push   rax"@,
                    "    push   rcx"@,
                ],
                v,
            ),
        ),
        Token::Over => Some(
            (
                seq![
                    "    pop    rax"@,
                    "    pop    rcx"@,
                    "    push   rcx"@,
                    "    push   rax"@,
                    "    push   rcx"@,
                ],
                v,
            ),
        ),
        Token::If(_) => if v.num + 1 > usize::MAX as int {
            None
        } else {
            Some(
                (
                    seq!["    pop    rax"@, "    cmp    rax, 0"@, je_line(v.num)],
                    VarsV { num: v.num + 1, addrs: v.addrs.push(v.num), dw: v.dw.push(false) },
                ),
            )
        },
        Token::Else(_) => if v.addrs.len() == 0 || v.num + 1 > usize::MAX as int {
            None
        } else {
            Some(
                (
                    seq![jmp_line(v.num), label_line(v.addrs.last())],
                    VarsV { num: v.num + 1, addrs: v.addrs.drop_last().push(v.num), dw: v.dw },
                ),
            )
        },
        Token::While => if v.num + 2 > usize::MAX as int {
            None
        } else {
            Some(
                (
                    seq![label_line(v.num)],
                    VarsV {
                        num: v.num + 2,
                        addrs: v.addrs.push(v.num + 1).push(v.num),
                        dw: v.dw,
                    },
                ),
            )
        },
        Token::Do(_) => if v.addrs.len() < 2 {
            None
        } else {
            Some(
                (
                    seq![
                        "    pop    rax"@,
                        "    cmp    rax, 0"@,
                        je_line(v.addrs[v.addrs.len() - 2]),
                    ],
                    VarsV { num: v.num, addrs: v.addrs, dw: v.dw.push(true) },
                ),
            )
        },
        Token::End(et) => match et {
            EndTarget::Return => Some((seq!["    ret"@], v)),
            EndTarget::Addr(_) => if v.dw.len() == 0 {
                None
            } else if v.dw.last() {
                if v.addrs.len() < 2 {
                    None
                } else {
                    Some(
                        (
                            seq![
                                jmp_line(v.addrs.last()),
                                label_line(v.addrs[v.addrs.len() - 2]),
                            ],
                            VarsV {
                                num: v.num,
                                addrs: v.addrs.drop_last().drop_last(),
                                dw: v.dw.drop_last(),
                            },
                        ),
                    )
                }
            } else {
                if v.addrs.len() == 0 {
                    None
                } else {
                    Some(
                        (
                            seq![label_line(v.addrs.last())],
                            VarsV {
                                num: v.num,
                                addrs: v.addrs.drop_last(),
                                dw: v.dw.drop_last(),
                            },
                        ),
                    )
                }
            },
        },
        Token::Eq => Some(
            (
                seq![
                    "    pop    rcx"@,
                    "    pop    rdx"@,
                    "    cmp    rdx, rcx"@,
                    "    mov    rax, 0"@,
                    "    mov    rdx, 1"@,
                    "    cmove  rax, rdx"@,
                    "    push   rax"@,
                ],
                v,
            ),
        ),
        Token::And => Some(
            (
                seq![
                    "    pop    rax"@,
                    "    pop    rcx"@,
                    "    mov    rdx, 0"@,
                    "    mov    r8, 1"@,
                    "    cmp    rax, 0"@,
                    "    cmove  r8, rdx"@,
                    "    cmp    rcx, 0"@,
                    "    cmove  r8, rdx"@,
                    "    push   r8"@,
                ],
                v,
            ),
        ),
        Token::GT => Some(
            (
                seq![
                    "    pop    rcx"@,
                    "    pop    rdx"@,
                    "    cmp    rdx, rcx"@,
                    "    mov    rax, 0"@,
                    "    mov    rdx, 1"@,
                    "    cmova  rax, rdx"@,
                    "    push   rax"@,
                ],
                v,
            ),
        ),
        Token::LT => Some(
            (
                seq![
                    "    pop    rcx"@,
                    "    pop    rdx"@,
                    "    cmp    rdx, rcx"@,
                    "    mov    rax, 0"@,
                    "    mov    rdx, 1"@,
                    "    cmovb  rax, rdx"@,
                    "    push   rax"@,
                ],
                v,
            ),
        ),
        Token::Not => Some(
            (
                seq![
                    "    pop    rax"@,
                    "    cmp    rax, 0"@,
                    "    mov    rcx, 0"@,
                    "    mov    rdx, 1"@,
                    "    cmove  rcx, rdx"@,
                    "    push   rcx"@,
                ],
                v,
            ),
        ),
        Token::Or => Some(
            (
                seq![
                    "    pop    rax"@,
                    "    pop    rcx"@,
                    "    mov    rdx, 1"@,
                    "    cmp    rax, 0"@,
                    "    cmovne rax, rdx"@,
                    "    cmp    rcx, 0"@,
                    "    cmovne rax, rdx"@,
                    "    push   rax"@,
                ],
                v,
            ),
        ),
        Token::Up => Some(
            (
                seq![
                    "    pop    rax"@,
                    "    mov    rcx, 4294967296"@,
                    "    mul    rcx"@,
                    "    cmp    rdx, 0"@,
                    "    jne    runtime_fault"@,
                    "    cmp    rax, [mem_loc]"@,
                    "    ja     runtime_fault"@,
                    "    sub    [mem_loc], rax"@,
                ],
                v,
            ),
        ),
        Token::Down => Some(
            (
                seq![
                    "    pop    rax"@,
                    "    mov    rcx, 4294967296"@,
                    "    mul    rcx"@,
                    "    cmp    rdx, 0"@,
                    "    jne    runtime_fault"@,
                    "    add    rax, [mem_loc]"@,
                    "    jc     runtime_fault"@,
                    "    mov    [mem_loc], rax"@,
                ],
                v,
            ),
        ),
        Token::Left => Some(
            (
                seq![
                    "    pop    rax"@,
                    "    mov    rcx, [mem_loc]"@,
                    "    mov    edx, ecx"@,
                    "    cmp    rax, rdx"@,
                    "    ja     runtime_fault"@,
                    "    sub    [mem_loc], rax"@,
                ],
                v,
            ),
        ),
        Token::Right => Some(
            (
                seq![
                    "    pop    rax"@,
                    "    mov    rcx, 4294967296"@,
                    "    cmp    rax, rcx"@,
                    "    jae    runtime_fault"@,
                    "    mov    rdx, [mem_loc]"@,
                    "    mov    r8d, edx"@,
                    "    add    r8, rax"@,
                    "    cmp    r8, rcx"@,
                    "    jae    runtime_fault"@,
                    "    add    [mem_loc], rax"@,
                ],
                v,
            ),
        ),
        Token::Loc => Some(
            (seq!["    mov    rax, [mem_loc]"@, "    push   rax"@], v),
        ),
        Token::Store => Some(
            (
                seq![
                    "    mov    rdi, mem_table"@,
                    "    mov    rsi, [mem_loc]"@,
                    "    pop    rdx"@,
                    "    call   insert_val"@,
                ],
                v,
            ),
        ),
        Token::Load => Some(
            (
                seq![
                    "    mov    rdi, mem_table"@,
                    "    mov    rsi, [mem_loc]"@,
                    "    xor    rax, rax"@,
                    "    call   pop_element"@,
                    "    push   rax"@,
                ],
                v,
            ),
        ),
        Token::Copy => Some(
            (
                seq![
                    "    mov    rdi, mem_table"@,
                    "    mov    rsi, [mem_loc]"@,
                    "    xor    rax, rax"@,
                    "    call   get_val"@,
                    "    push   rax"@,
                ],
                v,
            ),
        ),
        Token::Fn(f, _) => if f >= names.len() {
            None
        } else {
            Some((seq![names[f as int] + ": "@], v))
        },
        Token::FnCall(f) => if f >= names.len() {
            None
        } else {
            Some((seq!["    call "@ + names[f as int]], v))
        },
    }
}

/// The return-sentinel plumbing emitted before a function's final `end`:
/// the saved return address comes back from the dedicated address stack.
pub open spec fn fn_extra_before(t: Token) -> Seq<Seq<char>> {
    if t == Token::End(EndTarget::Return) {
        seq![
            "    mov     rcx, QWORD fn_stack"@,
            "    mov     rdx, QWORD [fn_index]"@,
            "    mov     rax, QWORD [rcx+rdx*8]"@,
            "    push    rax"@,
            "    dec     QWORD [fn_index]"@,
        ]
    } else {
        Seq::empty()
    }
}

/// The call plumbing emitted after a function's label: the native return
/// address is moved onto the dedicated address stack, keeping the data
/// stack clean for the body.
pub open spec fn fn_extra_after(t: Token) -> Seq<Seq<char>> {
    if t matches Token::Fn(_, _) {
        seq![
            "    inc     QWORD [fn_index]"@,
            "    mov     rcx, QWORD fn_stack"@,
            "    mov     rdx, QWORD [fn_index]"@,
            "    pop     rax"@,
            "    mov     QWORD [rcx+rdx*8], rax"@,
        ]
    } else {
        Seq::empty()
    }
}

/// Everything one token contributes to a stream's text: its comment line,
/// its lowering, and, in the function stream, the call/return plumbing.
pub open spec fn gen_token(t: Token, v: VarsV, names: Seq<Seq<char>>, in_fn: bool) -> Option<
    (Seq<Seq<char>>, VarsV),
> {
    match gen_step(t, v, names) {
        None => None,
        Some((ls, v2)) => Some(
            (
                if in_fn {
                    fn_extra_before(t) + seq![asm_comment(t)] + ls + fn_extra_after(t)
                } else {
                    seq![asm_comment(t)] + ls
                },
                v2,
            ),
        ),
    }
}

/// The text of a whole stream, token by token.
pub open spec fn gen_fold(ts: Seq<Token>, v: VarsV, names: Seq<Seq<char>>, in_fn: bool) -> Option<
    (Seq<Seq<char>>, VarsV),
>
    decreases ts.len(),
{
    if ts.len() == 0 {
        Some((Seq::empty(), v))
    } else {
        match gen_token(ts[0], v, names, in_fn) {
            None => None,
            Some((ls, v2)) => match gen_fold(ts.drop_first(), v2, names, in_fn) {
                None => None,
                Some((rest, v3)) => Some((ls + rest, v3)),
            },
        }
    }
}

/// Prefixes already-emitted lines onto a fold's outcome.
pub open spec fn prepend_gen(p: Seq<Seq<char>>, o: Option<(Seq<Seq<char>>, VarsV)>) -> Option<
    (Seq<Seq<char>>, VarsV),
> {
    match o {
        None => None,
        Some((ls, v)) => Some((p + ls, v)),
    }
}

/// The fixed prologue: reserved storage, the runtime's external
/// primitives, and the decimal-print routine.
pub open spec fn header_lines() -> Seq<Seq<char>> {
    seq![
        "section .bss"@,
        "    mem_table resq 32"@,
        "    mem_loc   resq 1"@,
        "    fn_stack resq 1024"@,
        "    fn_index resq 1"@,
        "    stack_base resq 1"@,
        "section .text"@,
        "extern insert_val"@,
        "extern get_val"@,
        "extern pop_element"@,
        "extern init_table"@,
        "extern free_table"@,
        "extern write_cells"@,
        "print:"@,
        "    mov     r9, -3689348814741910323"@,
        "    sub     rsp, 40"@,
        "    mov     BYTE [rsp+31], 10"@,
        "    lea     rcx, [rsp+30]"@,
        ".L2:"@,
        "    mov     rax, rdi"@,
        "    lea     r8, [rsp+32]"@,
        "    mul     r9"@,
        "    mov     rax, rdi"@,
        "    sub     r8, rcx"@,
        "    shr     rdx, 3"@,
        "    lea     rsi, [rdx+rdx*4]"@,
        "    add     rsi, rsi"@,
        "    sub     rax, rsi"@,
        "    add     eax, 48"@,
        "    mov     BYTE [rcx], al"@,
        "    mov     rax, rdi"@,
        "    mov     rdi, rdx"@,
        "    mov     rdx, rcx"@,
        "    sub     rcx, 1"@,
        "    cmp     rax, 9"@,
        "    ja      .L2"@,
        "    lea     rax, [rsp+32]"@,
        "    mov     edi, 1"@,
        "    sub     rdx, rax"@,
        "    xor     eax, eax"@,
        "    lea     rsi, [rsp+32+rdx]"@,
        "    mov     rdx, r8"@,
        "    mov     rax, 1"@,
        "    syscall"@,
        "    add     rsp, 40"@,
        "    ret"@,
        "runtime_fault:"@,
        "    mov     rax, 60"@,
        "    mov     rdi, 101"@,
        "    syscall"@,
    ]
}

/// The executable's entry point: initialise the runtime's table and the
/// function-return stack, then fall into the main body.
pub open spec fn entry_lines() -> Seq<Seq<char>> {
    seq![
        "global _start"@,
        "_start:"@,
        "    mov    rdi, mem_table"@,
        "    call   init_table"@,
        "    mov    QWORD [fn_index], 0"@,
        "    mov    [stack_base], rsp"@,
    ]
}

/// The fixed epilogue: free the runtime's table and exit with the final
/// value on the data stack.
pub open spec fn footer_lines() -> Seq<Seq<char>> {
    seq![
        "; -- exit --"@,
        "    cmp    rsp, [stack_base]"@,
        "    je     runtime_fault"@,
        "    mov    rdi, mem_table"@,
        "    call   free_table"@,
        "    mov    rax, 60"@,
        "    pop    rdi"@,
        "    syscall"@,
    ]
}

/// The whole program's text: prologue, the lowered function bodies, the
/// entry point, the lowered main body, and the epilogue — or `None` for a
/// stream whose block structure cannot be lowered.
pub open spec fn compile_spec(main: Seq<Token>, fns: Seq<Token>, names: Seq<Seq<char>>) -> Option<
    Seq<Seq<char>>,
> {
    match gen_fold(fns, vars_init(), names, true) {
        None => None,
        Some((fl, v1)) => match gen_fold(main, v1, names, false) {
            None => None,
            Some((ml, _)) => Some(
                header_lines() + fl + entry_lines() + ml + footer_lines(),
            ),
        },
    }
}

fn pushs(ins: &mut Vec<String>, s: &str)
    ensures
        views_of(final(ins)@) == views_of(old(ins)@).push(s@),
{
    ins.push(String::from_str(s));
    proof {
        assert(views_of(ins@) =~= views_of(old(ins)@).push(s@));
    }
}

fn push_owned(ins: &mut Vec<String>, s: String)
    ensures
        views_of(final(ins)@) == views_of(old(ins)@).push(s@),
{
    ins.push(s);
    proof {
        assert(views_of(ins@) =~= views_of(old(ins)@).push(s@));
    }
}

/// `addr_N:`.
fn addr_label(n: usize) -> (s: String)
    ensures
        s@ == label_line(n as int),
{
    let mut s = String::from_str("addr_");
    s.append(dec_str_of(n as u64).as_str());
    s.append(":");
    s
}

/// `je addr_N`.
fn je_addr(n: usize) -> (s: String)
    ensures
        s@ == je_line(n as int),
{
    let mut s = String::from_str("    je     addr_");
    s.append(dec_str_of(n as u64).as_str());
    s
}

/// `jmp addr_N`.
fn jmp_addr(n: usize) -> (s: String)
    ensures
        s@ == jmp_line(n as int),
{
    let mut s = String::from_str("    jmp    addr_");
    s.append(dec_str_of(n as u64).as_str());
    s
}

/// Lowers one token: its comment line and its fixed composable effect,
/// updating the open-block label stacks. Returns `false` on block
/// structure that cannot be lowered, having emitted exactly the comment
/// line and nothing after it.
#[verifier::rlimit(100)]
#[verifier::spinoff_prover]
fn push_instructions_from_token(
    token: &Token,
    instructions: &mut Vec<String>,
    compiler_vars: &mut CompilerVars,
    functions: &Vec<FnEntry>,
) -> (ok: bool)
    ensures
        match gen_step(*token, old(compiler_vars)@, names_of(functions@)) {
            Some((ls, v2)) => ok && views_of(final(instructions)@) == views_of(
                old(instructions)@,
            ) + seq![asm_comment(*token)] + ls && final(compiler_vars)@ == v2,
            None => !ok && views_of(final(instructions)@) == views_of(old(instructions)@).push(
                asm_comment(*token),
            ),
        },
{
    let ghost names = names_of(functions@);
    let ghost v0 = compiler_vars@;
    let ghost ins0 = views_of(instructions@);
    push_owned(instructions, token.to_asm_comment());
    proof {
        assert(views_of(instructions@) =~= ins0 + seq![asm_comment(*token)]);
    }
    let ghost ins1 = views_of(instructions@);
    match *token {
        Token::Num(n) => {
            let mut l = String::from_str("    push ");
            l.append(dec_str_of(n).as_str());
            push_owned(instructions, l);
            proof {
                assert(views_of(instructions@) =~= ins1 + seq!["    push "@ + dec_spec(n as nat)]);
            }
        },
        Token::OpAdd => {
            pushs(instructions, "    pop    rax");
            pushs(instructions, "    pop    rcx");
            pushs(instructions, "    add    rax, rcx");
            pushs(instructions, "    push   rax");
            proof {
                assert(views_of(instructions@) =~= ins1 + gen_step(
                    *token,
                    v0,
                    names,
                ).unwrap().0);
            }
        },
        Token::OpSub => {
            pushs(instructions, "    pop    rcx");
            pushs(instructions, "    pop    rax");
            pushs(instructions, "    sub    rax, rcx");
            pushs(instructions, "    push   rax");
            proof {
                assert(views_of(instructions@) =~= ins1 + gen_step(
                    *token,
                    v0,
                    names,
                ).unwrap().0);
            }
        },
        Token::OpMul => {
            pushs(instructions, "    pop    rax");
            pushs(instructions, "    pop    rcx");
            pushs(instructions, "    mul    rcx");
            pushs(instructions, "    push   rax");
            proof {
                assert(views_of(instructions@) =~= ins1 + gen_step(
                    *token,
                    v0,
                    names,
                ).unwrap().0);
            }
        },
        Token::OpDiv => {
            pushs(instructions, "    pop    rcx");
            pushs(instructions, "    pop    rax");
            // div divides the 128-bit pair rdx:rax, so rdx is zeroed first
            pushs(instructions, "    xor    rdx, rdx");
            pushs(instructions, "    div    rcx");
            pushs(instructions, "    push   rax");
            proof {
                assert(views_of(instructions@) =~= ins1 + gen_step(
                    *token,
                    v0,
                    names,
                ).unwrap().0);
            }
        },
        Token::Print => {
            pushs(instructions, "    mov    rdi, [rsp]");
            pushs(instructions, "    call   print");
            proof {
                assert(views_of(instructions@) =~= ins1 + gen_step(
                    *token,
                    v0,
                    names,
                ).unwrap().0);
            }
        },
        Token::Write => {
            pushs(instructions, "    mov    rdi, mem_table");
            pushs(instructions, "    mov    rsi, [mem_loc]");
            pushs(instructions, "    pop    rdx");
            pushs(instructions, "    call   write_cells");
            proof {
                assert(views_of(instructions@) =~= ins1 + gen_step(
                    *token,
                    v0,
                    names,
                ).unwrap().0);
            }
        },
        Token::Dup => {
            pushs(instructions, "    pop    rax");
            pushs(instructions, "    push   rax");
            pushs(instructions, "    push   rax");
            proof {
                assert(views_of(instructions@) =~= ins1 + gen_step(
                    *token,
                    v0,
                    names,
                ).unwrap().0);
            }
        },
        Token::Drop => {
            pushs(instructions, "    pop    rax");
            proof {
                assert(views_of(instructions@) =~= ins1 + gen_step(
                    *token,
                    v0,
                    names,
                ).unwrap().0);
            }
        },
        Token::Swap => {
            pushs(instructions, "    pop    rax");
            pushs(instructions, "    pop    rcx");
            pushs(instructions, "    push   rax");
            pushs(instructions, "    push   rcx");
            proof {
                assert(views_of(instructions@) =~= ins1 + gen_step(
                    *token,
                    v0,
                    names,
                ).unwrap().0);
            }
        },
        Token::Over => {
            pushs(instructions, "    pop    rax");
            pushs(instructions, "    pop    rcx");
            pushs(instructions, "    push   rcx");
            pushs(instructions, "    push   rax");
            pushs(instructions, "    push   rcx");
            proof {
                assert(views_of(instructions@) =~= ins1 + gen_step(
                    *token,
                    v0,
                    names,
                ).unwrap().0);
            }
        },
        Token::If(_) => {
            if compiler_vars.block_num == usize::MAX {
                return false;
            }
            pushs(instructions, "    pop    rax");
            pushs(instructions, "    cmp    rax, 0");
            push_owned(instructions, je_addr(compiler_vars.block_num));
            compiler_vars.block_addrs.push(compiler_vars.block_num);
            compiler_vars.block_num = compiler_vars.block_num + 1;
            compiler_vars.block_is_dowhile.push(false);
            proof {
                assert(views_of(instructions@) =~= ins1 + gen_step(
                    *token,
                    v0,
                    names,
                ).unwrap().0);
                assert(compiler_vars@.addrs =~= v0.addrs.push(v0.num));
                assert(compiler_vars@ =~= gen_step(*token, v0, names).unwrap().1);
            }
        },
        Token::Else(_) => {
            if compiler_vars.block_addrs.len() == 0 || compiler_vars.block_num == usize::MAX {
                return false;
            }
            let block_addr = compiler_vars.block_addrs[compiler_vars.block_addrs.len() - 1];
            let _ = compiler_vars.block_addrs.pop();
            push_owned(instructions, jmp_addr(compiler_vars.block_num));
            compiler_vars.block_addrs.push(compiler_vars.block_num);
            compiler_vars.block_num = compiler_vars.block_num + 1;
            push_owned(instructions, addr_label(block_addr));
            proof {
                assert(views_of(instructions@) =~= ins1 + gen_step(
                    *token,
                    v0,
                    names,
                ).unwrap().0);
                assert(compiler_vars@.addrs =~= v0.addrs.drop_last().push(v0.num));
                assert(compiler_vars@ =~= gen_step(*token, v0, names).unwrap().1);
            }
        },
        Token::While => {
            if compiler_vars.block_num >= usize::MAX - 1 {
                return false;
            }
            push_owned(instructions, addr_label(compiler_vars.block_num));
            compiler_vars.block_num = compiler_vars.block_num + 1;
            compiler_vars.block_addrs.push(compiler_vars.block_num);
            compiler_vars.block_addrs.push(compiler_vars.block_num - 1);
            compiler_vars.block_num = compiler_vars.block_num + 1;
            proof {
                assert(views_of(instructions@) =~= ins1 + gen_step(
                    *token,
                    v0,
                    names,
                ).unwrap().0);
                assert(compiler_vars@.addrs =~= v0.addrs.push(v0.num + 1).push(v0.num));
                assert(compiler_vars@ =~= gen_step(*token, v0, names).unwrap().1);
            }
        },
        Token::Do(_) => {
            if compiler_vars.block_addrs.len() < 2 {
                return false;
            }
            pushs(instructions, "    pop    rax");
            pushs(instructions, "    cmp    rax, 0");
            push_owned(
                instructions,
                je_addr(compiler_vars.block_addrs[compiler_vars.block_addrs.len() - 2]),
            );
            compiler_vars.block_is_dowhile.push(true);
            proof {
                assert(views_of(instructions@) =~= ins1 + gen_step(
                    *token,
                    v0,
                    names,
                ).unwrap().0);
                assert(compiler_vars@ =~= gen_step(*token, v0, names).unwrap().1);
            }
        },
        Token::End(et) => {
            match et {
                EndTarget::Return => {
                    pushs(instructions, "    ret");
                    proof {
                        assert(views_of(instructions@) =~= ins1 + gen_step(
                            *token,
                            v0,
                            names,
                        ).unwrap().0);
                    }
                },
                EndTarget::Addr(_) => {
                    if compiler_vars.block_is_dowhile.len() == 0 {
                        return false;
                    }
                    let dw = compiler_vars.block_is_dowhile.pop().unwrap();
                    if dw {
                        if compiler_vars.block_addrs.len() < 2 {
                            return false;
                        }
                        let back = compiler_vars.block_addrs.pop().unwrap();
                        push_owned(instructions, jmp_addr(back));
                        let exit = compiler_vars.block_addrs.pop().unwrap();
                        push_owned(instructions, addr_label(exit));
                        proof {
                            assert(views_of(instructions@) =~= ins1 + gen_step(
                                *token,
                                v0,
                                names,
                            ).unwrap().0);
                            assert(compiler_vars@.addrs =~= v0.addrs.drop_last().drop_last());
                            assert(compiler_vars@ =~= gen_step(*token, v0, names).unwrap().1);
                        }
                    } else {
                        if compiler_vars.block_addrs.len() == 0 {
                            return false;
                        }
                        let join = compiler_vars.block_addrs.pop().unwrap();
                        push_owned(instructions, addr_label(join));
                        proof {
                            assert(views_of(instructions@) =~= ins1 + gen_step(
                                *token,
                                v0,
                                names,
                            ).unwrap().0);
                            assert(compiler_vars@.addrs =~= v0.addrs.drop_last());
                            assert(compiler_vars@ =~= gen_step(*token, v0, names).unwrap().1);
                        }
                    }
                },
            }
        },
        Token::Eq => {
            pushs(instructions, "    pop    rcx");
            pushs(instructions, "    pop    rdx");
            pushs(instructions, "    cmp    rdx, rcx");
            pushs(instructions, "    mov    rax, 0");
            pushs(instructions, "    mov    rdx, 1");
            pushs(instructions, "    cmove  rax, rdx");
            pushs(instructions, "    push   rax");
            proof {
                assert(views_of(instructions@) =~= ins1 + gen_step(
                    *token,
                    v0,
                    names,
                ).unwrap().0);
            }
        },
        Token::And => {
            pushs(instructions, "    pop    rax");
            pushs(instructions, "    pop    rcx");
            pushs(instructions, "    mov    rdx, 0");
            pushs(instructions, "    mov    r8, 1");
            pushs(instructions, "    cmp    rax, 0");
            pushs(instructions, "    cmove  r8, rdx");
            pushs(instructions, "    cmp    rcx, 0");
            pushs(instructions, "    cmove  r8, rdx");
            pushs(instructions, "    push   r8");
            proof {
                assert(views_of(instructions@) =~= ins1 + gen_step(
                    *token,
                    v0,
                    names,
                ).unwrap().0);
            }
        },
        Token::GT => {
            pushs(instructions, "    pop    rcx");
            pushs(instructions, "    pop    rdx");
            pushs(instructions, "    cmp    rdx, rcx");
            pushs(instructions, "    mov    rax, 0");
            pushs(instructions, "    mov    rdx, 1");
            pushs(instructions, "    cmova  rax, rdx");
            pushs(instructions, "    push   rax");
            proof {
                assert(views_of(instructions@) =~= ins1 + gen_step(
                    *token,
                    v0,
                    names,
                ).unwrap().0);
            }
        },
        Token::LT => {
            pushs(instructions, "    pop    rcx");
            pushs(instructions, "    pop    rdx");
            pushs(instructions, "    cmp    rdx, rcx");
            pushs(instructions, "    mov    rax, 0");
            pushs(instructions, "    mov    rdx, 1");
            pushs(instructions, "    cmovb  rax, rdx");
            pushs(instructions, "    push   rax");
            proof {
                assert(views_of(instructions@) =~= ins1 + gen_step(
                    *token,
                    v0,
                    names,
                ).unwrap().0);
            }
        },
        Token::Not => {
            pushs(instructions, "    pop    rax");
            pushs(instructions, "    cmp    rax, 0");
            pushs(instructions, "    mov    rcx, 0");
            pushs(instructions, "    mov    rdx, 1");
            pushs(instructions, "    cmove  rcx, rdx");
            pushs(instructions, "    push   rcx");
            proof {
                assert(views_of(instructions@) =~= ins1 + gen_step(
                    *token,
                    v0,
                    names,
                ).unwrap().0);
            }
        },
        Token::Or => {
            pushs(instructions, "    pop    rax");
            pushs(instructions, "    pop    rcx");
            pushs(instructions, "    mov    rdx, 1");
            pushs(instructions, "    cmp    rax, 0");
            pushs(instructions, "    cmovne rax, rdx");
            pushs(instructions, "    cmp    rcx, 0");
            pushs(instructions, "    cmovne rax, rdx");
            pushs(instructions, "    push   rax");
            proof {
                assert(views_of(instructions@) =~= ins1 + gen_step(
                    *token,
                    v0,
                    names,
                ).unwrap().0);
            }
        },
        Token::Up => {
            pushs(instructions, "    pop    rax");
            pushs(instructions, "    mov    rcx, 4294967296");
            pushs(instructions, "    mul    rcx");
            pushs(instructions, "    cmp    rdx, 0");
            pushs(instructions, "    jne    runtime_fault");
            pushs(instructions, "    cmp    rax, [mem_loc]");
            pushs(instructions, "    ja     runtime_fault");
            pushs(instructions, "    sub    [mem_loc], rax");
            proof {
                assert(views_of(instructions@) =~= ins1 + gen_step(
                    *token,
                    v0,
                    names,
                ).unwrap().0);
            }
        },
        Token::Down => {
            pushs(instructions, "    pop    rax");
            pushs(instructions, "    mov    rcx, 4294967296");
            pushs(instructions, "    mul    rcx");
            pushs(instructions, "    cmp    rdx, 0");
            pushs(instructions, "    jne    runtime_fault");
            pushs(instructions, "    add    rax, [mem_loc]");
            pushs(instructions, "    jc     runtime_fault");
            pushs(instructions, "    mov    [mem_loc], rax");
            proof {
                assert(views_of(instructions@) =~= ins1 + gen_step(
                    *token,
                    v0,
                    names,
                ).unwrap().0);
            }
        },
        Token::Left => {
            pushs(instructions, "    pop    rax");
            pushs(instructions, "    mov    rcx, [mem_loc]");
            pushs(instructions, "    mov    edx, ecx");
            pushs(instructions, "    cmp    rax, rdx");
            pushs(instructions, "    ja     runtime_fault");
            pushs(instructions, "    sub    [mem_loc], rax");
            proof {
                assert(views_of(instructions@) =~= ins1 + gen_step(
                    *token,
                    v0,
                    names,
                ).unwrap().0);
            }
        },
        Token::Right => {
            pushs(instructions, "    pop    rax");
            pushs(instructions, "    mov    rcx, 4294967296");
            pushs(instructions, "    cmp    rax, rcx");
            pushs(instructions, "    jae    runtime_fault");
            pushs(instructions, "    mov    rdx, [mem_loc]");
            pushs(instructions, "    mov    r8d, edx");
            pushs(instructions, "    add    r8, rax");
            pushs(instructions, "    cmp    r8, rcx");
            pushs(instructions, "    jae    runtime_fault");
            pushs(instructions, "    add    [mem_loc], rax");
            proof {
                assert(views_of(instructions@) =~= ins1 + gen_step(
                    *token,
                    v0,
                    names,
                ).unwrap().0);
            }
        },
        Token::Loc => {
            pushs(instructions, "    mov    rax, [mem_loc]");
            pushs(instructions, "    push   rax");
            proof {
                assert(views_of(instructions@) =~= ins1 + gen_step(
                    *token,
                    v0,
                    names,
                ).unwrap().0);
            }
        },
        Token::Store => {
            pushs(instructions, "    mov    rdi, mem_table");
            pushs(instructions, "    mov    rsi, [mem_loc]");
            pushs(instructions, "    pop    rdx");
            pushs(instructions, "    call   insert_val");
            proof {
                assert(views_of(instructions@) =~= ins1 + gen_step(
                    *token,
                    v0,
                    names,
                ).unwrap().0);
            }
        },
        Token::Load => {
            pushs(instructions, "    mov    rdi, mem_table");
            pushs(instructions, "    mov    rsi, [mem_loc]");
            pushs(instructions, "    xor    rax, rax");
            pushs(instructions, "    call   pop_element");
            pushs(instructions, "    push   rax");
            proof {
                assert(views_of(instructions@) =~= ins1 + gen_step(
                    *token,
                    v0,
                    names,
                ).unwrap().0);
            }
        },
        Token::Copy => {
            pushs(instructions, "    mov    rdi, mem_table");
            pushs(instructions, "    mov    rsi, [mem_loc]");
            pushs(instructions, "    xor    rax, rax");
            pushs(instructions, "    call   get_val");
            pushs(instructions, "    push   rax");
            proof {
                assert(views_of(instructions@) =~= ins1 + gen_step(
                    *token,
                    v0,
                    names,
                ).unwrap().0);
            }
        },
        Token::Fn(f, _) => {
            if f >= functions.len() {
                return false;
            }
            let mut l = functions[f].name.clone();
            l.append(": ");
            push_owned(instructions, l);
            proof {
                assert(names[f as int] == functions@[f as int].name@);
                assert(views_of(instructions@) =~= ins1 + seq![names[f as int] + ": "@]);
            }
        },
        Token::FnCall(f) => {
            if f >= functions.len() {
                return false;
            }
            let mut l = String::from_str("    call ");
            l.append(functions[f].name.as_str());
            push_owned(instructions, l);
            proof {
                assert(names[f as int] == functions@[f as int].name@);
                assert(views_of(instructions@) =~= ins1 + seq!["    call "@ + names[f as int]]);
            }
        },
    }
    proof {
        assert(views_of(instructions@) =~= ins0 + seq![asm_comment(*token)] + gen_step(
            *token,
            v0,
            names,
        ).unwrap().0);
    }
    true
}

#[verifier::rlimit(100)]
#[verifier::spinoff_prover]
fn push_header(ins: &mut Vec<String>)
    ensures
        views_of(final(ins)@) == views_of(old(ins)@) + header_lines(),
{
    let ghost ins0 = views_of(ins@);
    pushs(ins, "section .bss");
    pushs(ins, "    mem_table resq 32");
    pushs(ins, "    mem_loc   resq 1");
    pushs(ins, "    fn_stack resq 1024");
    pushs(ins, "    fn_index resq 1");
    pushs(ins, "    stack_base resq 1");
    pushs(ins, "section .text");
    pushs(ins, "extern insert_val");
    pushs(ins, "extern get_val");
    pushs(ins, "extern pop_element");
    pushs(ins, "extern init_table");
    pushs(ins, "extern free_table");
    pushs(ins, "extern write_cells");
    pushs(ins, "print:");
    pushs(ins, "    mov     r9, -3689348814741910323");
    pushs(ins, "    sub     rsp, 40");
    pushs(ins, "    mov     BYTE [rsp+31], 10");
    pushs(ins, "    lea     rcx, [rsp+30]");
    pushs(ins, ".L2:");
    pushs(ins, "    mov     rax, rdi");
    pushs(ins, "    lea     r8, [rsp+32]");
    pushs(ins, "    mul     r9");
    pushs(ins, "    mov     rax, rdi");
    pushs(ins, "    sub     r8, rcx");
    pushs(ins, "    shr     rdx, 3");
    pushs(ins, "    lea     rsi, [rdx+rdx*4]");
    pushs(ins, "    add     rsi, rsi");
    pushs(ins, "    sub     rax, rsi");
    pushs(ins, "    add     eax, 48");
    pushs(ins, "    mov     BYTE [rcx], al");
    pushs(ins, "    mov     rax, rdi");
    pushs(ins, "    mov     rdi, rdx");
    pushs(ins, "    mov     rdx, rcx");
    pushs(ins, "    sub     rcx, 1");
    pushs(ins, "    cmp     rax, 9");
    pushs(ins, "    ja      .L2");
    pushs(ins, "    lea     rax, [rsp+32]");
    pushs(ins, "    mov     edi, 1");
    pushs(ins, "    sub     rdx, rax");
    pushs(ins, "    xor     eax, eax");
    pushs(ins, "    lea     rsi, [rsp+32+rdx]");
    pushs(ins, "    mov     rdx, r8");
    pushs(ins, "    mov     rax, 1");
    pushs(ins, "    syscall");
    pushs(ins, "    add     rsp, 40");
    pushs(ins, "    ret");
    pushs(ins, "runtime_fault:");
    pushs(ins, "    mov     rax, 60");
    pushs(ins, "    mov     rdi, 101");
    pushs(ins, "    syscall");
    proof {
        assert(views_of(ins@) =~= ins0 + header_lines());
    }
}

fn push_entry(ins: &mut Vec<String>)
    ensures
        views_of(final(ins)@) == views_of(old(ins)@) + entry_lines(),
{
    let ghost ins0 = views_of(ins@);
    pushs(ins, "global _start");
    pushs(ins, "_start:");
    pushs(ins, "    mov    rdi, mem_table");
    pushs(ins, "    call   init_table");
    pushs(ins, "    mov    QWORD [fn_index], 0");
    pushs(ins, "    mov    [stack_base], rsp");
    proof {
        assert(views_of(ins@) =~= ins0 + entry_lines());
    }
}

fn push_footer(ins: &mut Vec<String>)
    ensures
        views_of(final(ins)@) == views_of(old(ins)@) + footer_lines(),
{
    let ghost ins0 = views_of(ins@);
    pushs(ins, "; -- exit --");
    pushs(ins, "    cmp    rsp, [stack_base]");
    pushs(ins, "    je     runtime_fault");
    pushs(ins, "    mov    rdi, mem_table");
    pushs(ins, "    call   free_table");
    pushs(ins, "    mov    rax, 60");
    pushs(ins, "    pop    rdi");
    pushs(ins, "    syscall");
    proof {
        assert(views_of(ins@) =~= ins0 + footer_lines());
    }
}

fn push_fn_extra_before(ins: &mut Vec<String>)
    ensures
        views_of(final(ins)@) == views_of(old(ins)@) + fn_extra_before(
            Token::End(EndTarget::Return),
        ),
{
    let ghost ins0 = views_of(ins@);
    pushs(ins, "    mov     rcx, QWORD fn_stack");
    pushs(ins, "    mov     rdx, QWORD [fn_index]");
    pushs(ins, "    mov     rax, QWORD [rcx+rdx*8]");
    pushs(ins, "    push    rax");
    pushs(ins, "    dec     QWORD [fn_index]");
    proof {
        assert(views_of(ins@) =~= ins0 + fn_extra_before(Token::End(EndTarget::Return)));
    }
}

fn push_fn_extra_after(ins: &mut Vec<String>, t: Ghost<Token>)
    requires
        t@ matches Token::Fn(_, _),
    ensures
        views_of(final(ins)@) == views_of(old(ins)@) + fn_extra_after(t@),
{
    let ghost ins0 = views_of(ins@);
    pushs(ins, "    inc     QWORD [fn_index]");
    pushs(ins, "    mov     rcx, QWORD fn_stack");
    pushs(ins, "    mov     rdx, QWORD [fn_index]");
    pushs(ins, "    pop     rax");
    pushs(ins, "    mov     QWORD [rcx+rdx*8], rax");
    proof {
        assert(views_of(ins@) =~= ins0 + fn_extra_after(t@));
    }
}

/// Lowers one whole stream into `ins`, callee plumbing included when
/// `in_fn` marks the function stream.
fn compile_stream(
    s: &Vec<(Token, TokenPos)>,
    functions: &Vec<FnEntry>,
    ins: &mut Vec<String>,
    vars: &mut CompilerVars,
    in_fn: bool,
) -> (r: Result<(), Error>)
    ensures
        ({
            let names = names_of(functions@);
            let fold = gen_fold(toks(s@), old(vars)@, names, in_fn);
            match r {
                Ok(()) => fold is Some && views_of(final(ins)@) == views_of(old(ins)@)
                    + fold.unwrap().0 && final(vars)@ == fold.unwrap().1,
                Err(e) => fold is None && e.kind == ErrorKind::MalformedBlocks,
            }
        }),
{
    let ghost names = names_of(functions@);
    let ghost tsv = toks(s@);
    let ghost base = views_of(ins@);
    let ghost v0 = vars@;
    let ghost mut emitted: Seq<Seq<char>> = Seq::empty();
    let n = s.len();
    let mut i: usize = 0;
    proof {
        assert(views_of(ins@) =~= base + emitted);
        assert(tsv.skip(0) =~= tsv);
        match gen_fold(tsv, v0, names, in_fn) {
            Option::Some((ls, vf)) => {
                assert(Seq::<Seq<char>>::empty() + ls =~= ls);
            },
            Option::None => {},
        }
    }
    while i < n
        invariant
            n == s@.len(),
            tsv == toks(s@),
            names == names_of(functions@),
            i <= n,
            v0 == old(vars)@,
            base == views_of(old(ins)@),
            views_of(ins@) == base + emitted,
            prepend_gen(emitted, gen_fold(tsv.skip(i as int), vars@, names, in_fn)) == gen_fold(
                tsv,
                v0,
                names,
                in_fn,
            ),
        decreases n - i,
    {
        let ghost vi = vars@;
        let (tok, pos) = s[i];
        proof {
            assert(tsv.skip(i as int).drop_first() =~= tsv.skip(i as int + 1));
            assert(tsv.skip(i as int)[0] == tsv[i as int]);
            assert(tsv[i as int] == s@[i as int].0);
        }
        if in_fn {
            if matches!(tok, Token::End(EndTarget::Return)) {
                push_fn_extra_before(ins);
            }
        }
        let ok = push_instructions_from_token(&tok, ins, vars, functions);
        if !ok {
            proof {
                assert(gen_token(tok, vi, names, in_fn) is None);
                assert(gen_fold(tsv.skip(i as int), vi, names, in_fn) is None);
                assert(gen_fold(tsv, v0, names, in_fn) is None);
            }
            return Err(Error { kind: ErrorKind::MalformedBlocks, pos });
        }
        if in_fn {
            if matches!(tok, Token::Fn(_, _)) {
                push_fn_extra_after(ins, Ghost(tok));
            }
        }
        proof {
            let block = gen_token(tok, vi, names, in_fn).unwrap().0;
            assert(views_of(ins@) =~= (base + emitted) + block);
            assert((base + emitted) + block =~= base + (emitted + block));
            match gen_fold(tsv.skip(i as int + 1), vars@, names, in_fn) {
                Option::Some((rest, vf)) => {
                    assert((emitted + block) + rest =~= emitted + (block + rest));
                },
                Option::None => {},
            }
            emitted = emitted + block;
        }
        i = i + 1;
    }
    proof {
        assert(tsv.skip(n as int) =~= Seq::<Token>::empty());
        assert(emitted + Seq::<Seq<char>>::empty() =~= emitted);
    }
    Ok(())
}

/// Lowers a resolved program to the complete assembly text, one line per
/// element: prologue, callee bodies (each ending in a native return), the
/// entry point, the main body, and the exit epilogue. The text is exactly
/// [`compile_spec`]'s; handing it to the external assembler and linker is
/// the caller's affair.
pub fn compile(prog: &LexerOutput) -> (r: Result<Vec<String>, Error>)
    ensures
        ({
            let spec = compile_spec(
                toks(prog.tokens@),
                toks(prog.fn_tokens@),
                names_of(prog.functions@),
            );
            match r {
                Ok(lines) => spec == Some(views_of(lines@)),
                Err(e) => spec is None && e.kind == ErrorKind::MalformedBlocks,
            }
        }),
{
    let ghost names = names_of(prog.functions@);
    let ghost fnsv = toks(prog.fn_tokens@);
    let ghost mainv = toks(prog.tokens@);
    let mut ins: Vec<String> = Vec::new();
    let mut vars = CompilerVars {
        block_num: 0,
        block_addrs: Vec::new(),
        block_is_dowhile: Vec::new(),
    };
    proof {
        assert(vars@ =~= vars_init());
        assert(views_of(ins@) =~= Seq::<Seq<char>>::empty());
    }
    push_header(&mut ins);
    proof {
        assert(views_of(ins@) =~= header_lines());
    }
    match compile_stream(&prog.fn_tokens, &prog.functions, &mut ins, &mut vars, true) {
        Ok(()) => {},
        Err(e) => {
            return Err(e);
        },
    }
    let ghost ffold = gen_fold(fnsv, vars_init(), names, true);
    let ghost fl = ffold.unwrap().0;
    let ghost v1 = ffold.unwrap().1;
    proof {
        assert(views_of(ins@) =~= header_lines() + fl);
        assert(vars@ == v1);
    }
    push_entry(&mut ins);
    let ghost base2 = views_of(ins@);
    match compile_stream(&prog.tokens, &prog.functions, &mut ins, &mut vars, false) {
        Ok(()) => {},
        Err(e) => {
            return Err(e);
        },
    }
    let ghost mfold = gen_fold(mainv, v1, names, false);
    let ghost ml = mfold.unwrap().0;
    proof {
        assert(views_of(ins@) =~= base2 + ml);
    }
    push_footer(&mut ins);
    proof {
        assert(views_of(ins@) =~= header_lines() + fl + entry_lines() + ml + footer_lines());
    }
    Ok(ins)
}

} // verus!
