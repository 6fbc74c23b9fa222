//! The abstract stack machine and the interpreter that runs a resolved
//! program against it.
//!
//! The machine's semantics live in the specification functions [`step`] and
//! [`run`]; [`simulate`] is the executable interpreter, proved to return
//! exactly what `run` says for the program it was handed.
use vstd::prelude::*;

use crate::text::dec_spec;
use crate::{entries_of, toks, EndTarget, Error, ErrorKind, LexerOutput, Token, TokenPos};

verus! {

/// The memory grid's stride: the cursor's flat address is
/// `y * STRIDE + x`, so rows never alias.
pub const STRIDE: u64 = 0x1_0000_0000;

/// The value of a sparse memory under a flat address: absent cells read 0.
pub open spec fn mem_read(m: Map<u64, u64>, addr: u64) -> u64 {
    if m.dom().contains(addr) {
        m[addr]
    } else {
        0
    }
}

/// The map written by a journal of stores, later entries shadowing earlier
/// ones.
pub open spec fn mem_of(entries: Seq<(u64, u64)>) -> Map<u64, u64>
    decreases entries.len(),
{
    if entries.len() == 0 {
        Map::empty()
    } else {
        mem_of(entries.drop_last()).insert(entries.last().0, entries.last().1)
    }
}

/// The memory grid's sparse backing: a journal of `(address, value)`
/// stores, read back through [`mem_of`].
pub struct MemGrid {
    entries: Vec<(u64, u64)>,
}

impl MemGrid {
    pub closed spec fn view(&self) -> Map<u64, u64> {
        mem_of(self.entries@)
    }

    pub fn new() -> (r: MemGrid)
        ensures
            r@ == Map::<u64, u64>::empty(),
    {
        MemGrid { entries: Vec::new() }
    }

    /// Write `v` at `addr`.
    pub fn set(&mut self, addr: u64, v: u64)
        ensures
            final(self)@ == old(self)@.insert(addr, v),
    {
        self.entries.push((addr, v));
        proof {
            assert(self.entries@.drop_last() =~= old(self).entries@);
        }
    }

    /// Read the cell at `addr`; absent cells read 0.
    pub fn get(&self, addr: u64) -> (r: u64)
        ensures
            r == mem_read(self@, addr),
    {
        let mut i = self.entries.len();
        proof {
            assert(self.entries@.take(i as int) =~= self.entries@);
        }
        while i > 0
            invariant
                i <= self.entries.len(),
                mem_read(mem_of(self.entries@.take(i as int)), addr) == mem_read(
                    mem_of(self.entries@),
                    addr,
                ),
            decreases i,
        {
            i = i - 1;
            proof {
                assert(self.entries@.take(i + 1).drop_last() =~= self.entries@.take(i as int));
                assert(self.entries@.take(i + 1).last() == self.entries@[i as int]);
            }
            if self.entries[i].0 == addr {
                return self.entries[i].1;
            }
        }
        proof {
            assert(self.entries@.take(0) =~= Seq::<(u64, u64)>::empty());
        }
        0
    }
}

/// The abstract machine's whole runtime state: data stack, call stack
/// (return addresses, disjoint from the data stack), sparse memory grid
/// with its 2-D cursor, the output produced so far, and the instruction
/// pointer with the stream it points into.
#[verifier::ext_equal]
pub struct State {
    pub stack: Seq<u64>,
    /// Return addresses: which stream the call came from, and the call
    /// token's address there.
    pub calls: Seq<(bool, int)>,
    pub mem: Map<u64, u64>,
    pub x: int,
    pub y: int,
    pub out: Seq<char>,
    /// Whether `ip` points into the function stream.
    pub in_fn: bool,
    pub ip: int,
}

/// The state a run starts from: empty stacks, zeroed grid, cursor at the
/// origin, instruction pointer at the head of the main stream.
pub open spec fn init_state() -> State {
    State {
        stack: Seq::empty(),
        calls: Seq::empty(),
        mem: Map::empty(),
        x: 0,
        y: 0,
        out: Seq::empty(),
        in_fn: false,
        ip: 0,
    }
}

/// The cursor's derived flat address.
pub open spec fn flat_of(x: int, y: int) -> u64 {
    (y * (STRIDE as int) + x) as u64
}

/// What one instruction does: advance to a new state, exit the program
/// with a code, or abort with a fatal fault.
pub enum Step {
    Next(State),
    Exit(u64),
    Fault(ErrorKind),
}

/// The text `write` produces for `n` cells starting at `addr`: each cell's
/// decimal value followed by one space.
pub open spec fn write_span(m: Map<u64, u64>, addr: int, n: nat) -> Seq<char>
    decreases n,
{
    if n == 0 {
        Seq::empty()
    } else {
        dec_spec(mem_read(m, addr as u64) as nat) + " "@ + write_span(m, addr + 1, (n - 1) as nat)
    }
}

/// One fetch-execute step of the abstract machine. This is the
/// authoritative semantics both backends must realise: the interpreter is
/// proved against it, and the code generator must reproduce its every
/// rule. `entries` is the function table's entry addresses into `fns`.
pub open spec fn step(main: Seq<Token>, fns: Seq<Token>, entries: Seq<int>, s: State) -> Step {
    let cur = if s.in_fn {
        fns
    } else {
        main
    };
    if !s.in_fn && s.ip == main.len() {
        if s.stack.len() == 0 {
            Step::Fault(ErrorKind::EmptyStack)
        } else {
            Step::Exit(s.stack.last())
        }
    } else if s.ip < 0 || s.ip >= cur.len() {
        Step::Fault(ErrorKind::IpOutOfRange)
    } else {
        match cur[s.ip] {
            Token::Num(v) => Step::Next(State { stack: s.stack.push(v), ip: s.ip + 1, ..s }),
            Token::OpAdd => if s.stack.len() < 2 {
                Step::Fault(ErrorKind::StackUnderflow)
            } else {
                let a = s.stack.last();
                let b = s.stack[s.stack.len() - 2];
                Step::Next(
                    State {
                        stack: s.stack.drop_last().drop_last().push(
                            vstd::wrapping::u64_specs::wrapping_add(a, b),
                        ),
                        ip: s.ip + 1,
                        ..s
                    },
                )
            },
            Token::OpSub => if s.stack.len() < 2 {
                Step::Fault(ErrorKind::StackUnderflow)
            } else {
                let a = s.stack.last();
                let b = s.stack[s.stack.len() - 2];
                Step::Next(
                    State {
                        stack: s.stack.drop_last().drop_last().push(
                            vstd::wrapping::u64_specs::wrapping_sub(b, a),
                        ),
                        ip: s.ip + 1,
                        ..s
                    },
                )
            },
            Token::OpMul => if s.stack.len() < 2 {
                Step::Fault(ErrorKind::StackUnderflow)
            } else {
                let a = s.stack.last();
                let b = s.stack[s.stack.len() - 2];
                Step::Next(
                    State {
                        stack: s.stack.drop_last().drop_last().push(
                            vstd::wrapping::u64_specs::wrapping_mul(b, a),
                        ),
                        ip: s.ip + 1,
                        ..s
                    },
                )
            },
            Token::OpDiv => if s.stack.len() < 2 {
                Step::Fault(ErrorKind::StackUnderflow)
            } else if s.stack.last() == 0 {
                Step::Fault(ErrorKind::DivisionByZero)
            } else {
                let a = s.stack.last();
                let b = s.stack[s.stack.len() - 2];
                Step::Next(
                    State {
                        stack: s.stack.drop_last().drop_last().push(
                            ((b as int) / (a as int)) as u64,
                        ),
                        ip: s.ip + 1,
                        ..s
                    },
                )
            },
            Token::Print => if s.stack.len() < 1 {
                Step::Fault(ErrorKind::StackUnderflow)
            } else {
                Step::Next(
                    State {
                        out: s.out + dec_spec(s.stack.last() as nat) + "\n"@,
                        ip: s.ip + 1,
                        ..s
                    },
                )
            },
            Token::Write => if s.stack.len() < 1 {
                Step::Fault(ErrorKind::StackUnderflow)
            } else {
                let n = s.stack.last();
                let base = flat_of(s.x, s.y);
                if n > 0 && base as int + n as int - 1 > u64::MAX as int {
                    Step::Fault(ErrorKind::GridOutOfBounds)
                } else {
                    Step::Next(
                        State {
                            stack: s.stack.drop_last(),
                            out: s.out + write_span(s.mem, base as int, n as nat) + "\n"@,
                            ip: s.ip + 1,
                            ..s
                        },
                    )
                }
            },
            Token::Dup => if s.stack.len() < 1 {
                Step::Fault(ErrorKind::StackUnderflow)
            } else {
                Step::Next(State { stack: s.stack.push(s.stack.last()), ip: s.ip + 1, ..s })
            },
            Token::Drop => if s.stack.len() < 1 {
                Step::Fault(ErrorKind::StackUnderflow)
            } else {
                Step::Next(State { stack: s.stack.drop_last(), ip: s.ip + 1, ..s })
            },
            Token::Swap => if s.stack.len() < 2 {
                Step::Fault(ErrorKind::StackUnderflow)
            } else {
                let a = s.stack.last();
                let b = s.stack[s.stack.len() - 2];
                Step::Next(
                    State {
                        stack: s.stack.drop_last().drop_last().push(a).push(b),
                        ip: s.ip + 1,
                        ..s
                    },
                )
            },
            Token::Over => if s.stack.len() < 2 {
                Step::Fault(ErrorKind::StackUnderflow)
            } else {
                let a = s.stack.last();
                let b = s.stack[s.stack.len() - 2];
                Step::Next(
                    State {
                        stack: s.stack.drop_last().drop_last().push(b).push(a).push(b),
                        ip: s.ip + 1,
                        ..s
                    },
                )
            },
            Token::If(t) => if s.stack.len() < 1 {
                Step::Fault(ErrorKind::StackUnderflow)
            } else if s.stack.last() != 0 {
                Step::Next(State { stack: s.stack.drop_last(), ip: s.ip + 1, ..s })
            } else if t >= cur.len() {
                Step::Fault(ErrorKind::InvalidJump)
            } else {
                Step::Next(State { stack: s.stack.drop_last(), ip: t + 1, ..s })
            },
            Token::Else(t) => if t >= cur.len() {
                Step::Fault(ErrorKind::InvalidJump)
            } else {
                Step::Next(State { ip: t + 1, ..s })
            },
            Token::While => Step::Next(State { ip: s.ip + 1, ..s }),
            Token::Do(t) => if s.stack.len() < 1 {
                Step::Fault(ErrorKind::StackUnderflow)
            } else if s.stack.last() != 0 {
                Step::Next(State { stack: s.stack.drop_last(), ip: s.ip + 1, ..s })
            } else if t >= cur.len() {
                Step::Fault(ErrorKind::InvalidJump)
            } else {
                Step::Next(State { stack: s.stack.drop_last(), ip: t + 1, ..s })
            },
            Token::End(et) => match et {
                EndTarget::Addr(t) => if t >= cur.len() {
                    Step::Fault(ErrorKind::InvalidJump)
                } else {
                    Step::Next(State { ip: t + 1, ..s })
                },
                EndTarget::Return => if s.calls.len() == 0 {
                    Step::Fault(ErrorKind::ReturnWithoutCall)
                } else {
                    let ra = s.calls.last();
                    Step::Next(
                        State { calls: s.calls.drop_last(), in_fn: ra.0, ip: ra.1 + 1, ..s },
                    )
                },
            },
            Token::Eq => if s.stack.len() < 2 {
                Step::Fault(ErrorKind::StackUnderflow)
            } else {
                let a = s.stack.last();
                let b = s.stack[s.stack.len() - 2];
                Step::Next(
                    State {
                        stack: s.stack.drop_last().drop_last().push(
                            if a == b {
                                1u64
                            } else {
                                0u64
                            },
                        ),
                        ip: s.ip + 1,
                        ..s
                    },
                )
            },
            Token::GT => if s.stack.len() < 2 {
                Step::Fault(ErrorKind::StackUnderflow)
            } else {
                let a = s.stack.last();
                let b = s.stack[s.stack.len() - 2];
                Step::Next(
                    State {
                        stack: s.stack.drop_last().drop_last().push(
                            if b > a {
                                1u64
                            } else {
                                0u64
                            },
                        ),
                        ip: s.ip + 1,
                        ..s
                    },
                )
            },
            Token::LT => if s.stack.len() < 2 {
                Step::Fault(ErrorKind::StackUnderflow)
            } else {
                let a = s.stack.last();
                let b = s.stack[s.stack.len() - 2];
                Step::Next(
                    State {
                        stack: s.stack.drop_last().drop_last().push(
                            if b < a {
                                1u64
                            } else {
                                0u64
                            },
                        ),
                        ip: s.ip + 1,
                        ..s
                    },
                )
            },
            Token::And => if s.stack.len() < 2 {
                Step::Fault(ErrorKind::StackUnderflow)
            } else {
                let a = s.stack.last();
                let b = s.stack[s.stack.len() - 2];
                Step::Next(
                    State {
                        stack: s.stack.drop_last().drop_last().push(
                            if a > 0 && b > 0 {
                                1u64
                            } else {
                                0u64
                            },
                        ),
                        ip: s.ip + 1,
                        ..s
                    },
                )
            },
            Token::Not => if s.stack.len() < 1 {
                Step::Fault(ErrorKind::StackUnderflow)
            } else {
                Step::Next(
                    State {
                        stack: s.stack.drop_last().push(
                            if s.stack.last() == 0 {
                                1u64
                            } else {
                                0u64
                            },
                        ),
                        ip: s.ip + 1,
                        ..s
                    },
                )
            },
            Token::Or => if s.stack.len() < 2 {
                Step::Fault(ErrorKind::StackUnderflow)
            } else {
                let a = s.stack.last();
                let b = s.stack[s.stack.len() - 2];
                Step::Next(
                    State {
                        stack: s.stack.drop_last().drop_last().push(
                            if a > 0 || b > 0 {
                                1u64
                            } else {
                                0u64
                            },
                        ),
                        ip: s.ip + 1,
                        ..s
                    },
                )
            },
            Token::Up => if s.stack.len() < 1 {
                Step::Fault(ErrorKind::StackUnderflow)
            } else {
                let a = s.stack.last();
                if a as int > s.y {
                    Step::Fault(ErrorKind::GridOutOfBounds)
                } else {
                    Step::Next(State { stack: s.stack.drop_last(), y: s.y - a, ip: s.ip + 1, ..s })
                }
            },
            Token::Down => if s.stack.len() < 1 {
                Step::Fault(ErrorKind::StackUnderflow)
            } else {
                let a = s.stack.last();
                if s.y + a >= STRIDE as int {
                    Step::Fault(ErrorKind::GridOutOfBounds)
                } else {
                    Step::Next(State { stack: s.stack.drop_last(), y: s.y + a, ip: s.ip + 1, ..s })
                }
            },
            Token::Left => if s.stack.len() < 1 {
                Step::Fault(ErrorKind::StackUnderflow)
            } else {
                let a = s.stack.last();
                if a as int > s.x {
                    Step::Fault(ErrorKind::GridOutOfBounds)
                } else {
                    Step::Next(State { stack: s.stack.drop_last(), x: s.x - a, ip: s.ip + 1, ..s })
                }
            },
            Token::Right => if s.stack.len() < 1 {
                Step::Fault(ErrorKind::StackUnderflow)
            } else {
                let a = s.stack.last();
                if s.x + a >= STRIDE as int {
                    Step::Fault(ErrorKind::GridOutOfBounds)
                } else {
                    Step::Next(State { stack: s.stack.drop_last(), x: s.x + a, ip: s.ip + 1, ..s })
                }
            },
            Token::Loc => Step::Next(
                State { stack: s.stack.push(flat_of(s.x, s.y)), ip: s.ip + 1, ..s },
            ),
            Token::Store => if s.stack.len() < 1 {
                Step::Fault(ErrorKind::StackUnderflow)
            } else {
                Step::Next(
                    State {
                        stack: s.stack.drop_last(),
                        mem: s.mem.insert(flat_of(s.x, s.y), s.stack.last()),
                        ip: s.ip + 1,
                        ..s
                    },
                )
            },
            Token::Load => Step::Next(
                State {
                    stack: s.stack.push(mem_read(s.mem, flat_of(s.x, s.y))),
                    mem: s.mem.insert(flat_of(s.x, s.y), 0),
                    ip: s.ip + 1,
                    ..s
                },
            ),
            Token::Copy => Step::Next(
                State { stack: s.stack.push(mem_read(s.mem, flat_of(s.x, s.y))), ip: s.ip + 1, ..s },
            ),
            Token::Fn(_f, e) => if e >= cur.len() {
                Step::Fault(ErrorKind::InvalidJump)
            } else {
                Step::Next(State { ip: e + 1, ..s })
            },
            Token::FnCall(f) => if f >= entries.len() {
                Step::Fault(ErrorKind::UnknownWord)
            } else if entries[f as int] < 0 || entries[f as int] >= fns.len() {
                Step::Fault(ErrorKind::InvalidJump)
            } else {
                Step::Next(
                    State {
                        calls: s.calls.push((s.in_fn, s.ip)),
                        in_fn: true,
                        ip: entries[f as int] + 1,
                        ..s
                    },
                )
            },
        }
    }
}

/// Where a bounded run ends: normal exit with a code, a fatal fault, or
/// out of fuel with the state it reached.
pub enum Run {
    Done(State, u64),
    Bad(State, ErrorKind),
    More(State),
}

/// Runs the machine for at most `fuel` steps from `s`.
pub open spec fn run(main: Seq<Token>, fns: Seq<Token>, entries: Seq<int>, s: State, fuel: nat) -> Run
    decreases fuel,
{
    if fuel == 0 {
        Run::More(s)
    } else {
        match step(main, fns, entries, s) {
            Step::Exit(c) => Run::Done(s, c),
            Step::Fault(k) => Run::Bad(s, k),
            Step::Next(s2) => run(main, fns, entries, s2, (fuel - 1) as nat),
        }
    }
}

/// The position reported for a fault in state `s`: the failing token's
/// own position, or a blank position when no token is current.
pub open spec fn pos_at(
    main: Seq<(Token, TokenPos)>,
    fns: Seq<(Token, TokenPos)>,
    s: State,
) -> TokenPos {
    let cur = if s.in_fn {
        fns
    } else {
        main
    };
    if 0 <= s.ip < cur.len() {
        cur[s.ip].1
    } else {
        TokenPos { row: 0, col: 0, ip: 0 }
    }
}

/// How a bounded interpreter run ended.
#[derive(Debug, Clone, Copy, PartialEq, Eq, Structural)]
pub enum SimStatus {
    /// Normal termination; the carried value is the process exit status,
    /// the final value on the data stack.
    Exit(u64),
    /// A fatal runtime fault, with the failing token's position.
    Fault(Error),
    /// The step bound ran out before the program ended.
    OutOfFuel,
}

/// What a run produced: everything written to standard output, and how the
/// run ended.
#[derive(Debug)]
pub struct SimResult {
    pub output: String,
    pub status: SimStatus,
}

#[derive(Clone, Copy)]
struct RetAddr {
    in_fn: bool,
    ip: usize,
}

struct Machine {
    stack: Vec<u64>,
    calls: Vec<RetAddr>,
    mem: MemGrid,
    x: u32,
    y: u32,
    out: String,
    in_fn: bool,
    ip: usize,
}

impl View for Machine {
    type V = State;

    closed spec fn view(&self) -> State {
        State {
            stack: self.stack@,
            calls: self.calls@.map_values(|r: RetAddr| (r.in_fn, r.ip as int)),
            mem: self.mem@,
            x: self.x as int,
            y: self.y as int,
            out: self.out@,
            in_fn: self.in_fn,
            ip: self.ip as int,
        }
    }
}

fn faulted(output: String, kind: ErrorKind, pos: TokenPos) -> (r: SimResult)
    ensures
        r.status == SimStatus::Fault(Error { kind, pos }),
        r.output@ == output@,
{
    SimResult { output, status: SimStatus::Fault(Error { kind, pos }) }
}

/// The cursor's flat address, computed without overflow.
fn flat_cursor(x: u32, y: u32) -> (r: u64)
    ensures
        r == flat_of(x as int, y as int),
{
    proof {
        assert((y as u64) * STRIDE <= 0xFFFF_FFFFu64 * 0x1_0000_0000u64) by (nonlinear_arith)
            requires
                y <= 0xFFFF_FFFFu32,
        ;
    }
    (y as u64) * STRIDE + (x as u64)
}

/// The text `write` prints for `n` cells starting at `base`.
fn span_str(mem: &MemGrid, base: u64, n: u64) -> (s: String)
    requires
        n > 0 ==> base as int + n as int - 1 <= u64::MAX as int,
    ensures
        s@ == write_span(mem@, base as int, n as nat),
{
    let mut s = String::new();
    proof {
        assert(s@ + write_span(mem@, base as int, n as nat) =~= write_span(
            mem@,
            base as int,
            n as nat,
        ));
    }
    let mut i: u64 = 0;
    while i < n
        invariant
            i <= n,
            n > 0 ==> base as int + n as int - 1 <= u64::MAX as int,
            s@ + write_span(mem@, base as int + i as int, (n - i) as nat) == write_span(
                mem@,
                base as int,
                n as nat,
            ),
        decreases n - i,
    {
        let ghost s_old = s@;
        let v = mem.get(base + i);
        let ds = crate::text::dec_str_of(v);
        s.append(ds.as_str());
        s.append(" ");
        proof {
            assert(s@ + write_span(mem@, base as int + i as int + 1, (n - i - 1) as nat) =~= s_old
                + write_span(mem@, base as int + i as int, (n - i) as nat));
        }
        i = i + 1;
    }
    proof {
        assert(s@ + write_span(mem@, base as int + n as int, 0) =~= s@);
    }
    s
}

/// The call stack's return addresses all lie inside their streams, so a
/// return's successor address exists.
pub open spec fn wf_calls(main: Seq<Token>, fns: Seq<Token>, s: State) -> bool {
    forall|i: int|
        0 <= i < s.calls.len() ==> 0 <= (#[trigger] s.calls[i]).1 && s.calls[i].1 + 1
            <= usize::MAX as int && s.calls[i].1 < (if s.calls[i].0 {
            fns.len() as int
        } else {
            main.len() as int
        })
}

/// One step of literals, stack manipulation and printing.
#[verifier::rlimit(100)]
#[verifier::spinoff_prover]
fn step_stack(prog: &LexerOutput, m: &mut Machine, tok: Token, pos: TokenPos, cur_len: usize) -> (r:
    Option<SimResult>)
    requires
        wf_calls(toks(prog.tokens@), toks(prog.fn_tokens@), old(m)@),
        !(!old(m)@.in_fn && old(m)@.ip == toks(prog.tokens@).len()),
        0 <= old(m)@.ip < (if old(m)@.in_fn {
            toks(prog.fn_tokens@).len() as int
        } else {
            toks(prog.tokens@).len() as int
        }),
        tok == (if old(m)@.in_fn {
            toks(prog.fn_tokens@)
        } else {
            toks(prog.tokens@)
        })[old(m)@.ip],
        pos == pos_at(prog.tokens@, prog.fn_tokens@, old(m)@),
        cur_len as int == (if old(m)@.in_fn {
            prog.fn_tokens@.len() as int
        } else {
            prog.tokens@.len() as int
        }),
        tok is Num || tok is Dup || tok is Drop || tok is Swap || tok is Over || tok is Print,
    ensures
        ({
            let mainv = toks(prog.tokens@);
            let fnsv = toks(prog.fn_tokens@);
            let ent = entries_of(prog.functions@);
            let s0 = old(m)@;
            match step(mainv, fnsv, ent, s0) {
                Step::Next(s2) => r is None && final(m)@ == s2 && wf_calls(mainv, fnsv, s2),
                Step::Exit(c) => r matches Some(res) && res.status == SimStatus::Exit(c)
                    && res.output@ == s0.out,
                Step::Fault(k) => r matches Some(res) && res.status == SimStatus::Fault(
                    Error { kind: k, pos: pos_at(prog.tokens@, prog.fn_tokens@, s0) },
                ) && res.output@ == s0.out,
            }
        }),
{
    let ghost mainv = toks(prog.tokens@);
    let ghost fnsv = toks(prog.fn_tokens@);
    let ghost ent = entries_of(prog.functions@);
    let ghost s0 = m@;
    let ghost curv = if s0.in_fn {
        fnsv
    } else {
        mainv
    };
    match tok {
            Token::Num(v) => {
                m.stack.push(v);
                m.ip = m.ip + 1;
                proof {
                    assert(m@ =~= (State { stack: s0.stack.push(v), ip: s0.ip + 1, ..s0 }));
                    assert(step(mainv, fnsv, ent, s0) == Step::Next(m@));
                }
            },
            Token::Dup => {
                if m.stack.len() < 1 {
                    proof {
                        assert(step(mainv, fnsv, ent, s0) == Step::Fault(ErrorKind::StackUnderflow));
                    }
                    return Some(faulted(m.out.clone(), ErrorKind::StackUnderflow, pos));
                }
                let a = m.stack[m.stack.len() - 1];
                m.stack.push(a);
                m.ip = m.ip + 1;
                proof {
                    assert(m@ =~= (State { stack: s0.stack.push(s0.stack.last()), ip: s0.ip + 1, ..s0 }));
                    assert(step(mainv, fnsv, ent, s0) == Step::Next(m@));
                }
            },
            Token::Drop => {
                if m.stack.len() < 1 {
                    proof {
                        assert(step(mainv, fnsv, ent, s0) == Step::Fault(ErrorKind::StackUnderflow));
                    }
                    return Some(faulted(m.out.clone(), ErrorKind::StackUnderflow, pos));
                }
                let _ = m.stack.pop();
                m.ip = m.ip + 1;
                proof {
                    assert(m@ =~= (State { stack: s0.stack.drop_last(), ip: s0.ip + 1, ..s0 }));
                    assert(step(mainv, fnsv, ent, s0) == Step::Next(m@));
                }
            },
            Token::Swap => {
                if m.stack.len() < 2 {
                    proof {
                        assert(step(mainv, fnsv, ent, s0) == Step::Fault(ErrorKind::StackUnderflow));
                    }
                    return Some(faulted(m.out.clone(), ErrorKind::StackUnderflow, pos));
                }
                let a = m.stack.pop().unwrap();
                let b = m.stack.pop().unwrap();
                m.stack.push(a);
                m.stack.push(b);
                m.ip = m.ip + 1;
                proof {
                    assert(m@ =~= (State {
                        stack: s0.stack.drop_last().drop_last().push(a).push(b),
                        ip: s0.ip + 1,
                        ..s0
                    }));
                    assert(step(mainv, fnsv, ent, s0) == Step::Next(m@));
                }
            },
            Token::Over => {
                if m.stack.len() < 2 {
                    proof {
                        assert(step(mainv, fnsv, ent, s0) == Step::Fault(ErrorKind::StackUnderflow));
                    }
                    return Some(faulted(m.out.clone(), ErrorKind::StackUnderflow, pos));
                }
                let a = m.stack.pop().unwrap();
                let b = m.stack.pop().unwrap();
                m.stack.push(b);
                m.stack.push(a);
                m.stack.push(b);
                m.ip = m.ip + 1;
                proof {
                    assert(m@ =~= (State {
                        stack: s0.stack.drop_last().drop_last().push(b).push(a).push(b),
                        ip: s0.ip + 1,
                        ..s0
                    }));
                    assert(step(mainv, fnsv, ent, s0) == Step::Next(m@));
                }
            },
            Token::Print => {
                if m.stack.len() < 1 {
                    proof {
                        assert(step(mainv, fnsv, ent, s0) == Step::Fault(ErrorKind::StackUnderflow));
                    }
                    return Some(faulted(m.out.clone(), ErrorKind::StackUnderflow, pos));
                }
                let a = m.stack[m.stack.len() - 1];
                let ds = crate::text::dec_str_of(a);
                m.out.append(ds.as_str());
                m.out.append("\n");
                m.ip = m.ip + 1;
                proof {
                    assert(m@ =~= (State {
                        out: s0.out + dec_spec(a as nat) + "\n"@,
                        ip: s0.ip + 1,
                        ..s0
                    }));
                    assert(step(mainv, fnsv, ent, s0) == Step::Next(m@));
                }
            },
        _ => {
            proof {
                assert(false);
            }
        },
    }
    None
}

/// One step of arithmetic and comparison operators.
#[verifier::rlimit(100)]
#[verifier::spinoff_prover]
fn step_arith(prog: &LexerOutput, m: &mut Machine, tok: Token, pos: TokenPos, cur_len: usize) -> (r:
    Option<SimResult>)
    requires
        wf_calls(toks(prog.tokens@), toks(prog.fn_tokens@), old(m)@),
        !(!old(m)@.in_fn && old(m)@.ip == toks(prog.tokens@).len()),
        0 <= old(m)@.ip < (if old(m)@.in_fn {
            toks(prog.fn_tokens@).len() as int
        } else {
            toks(prog.tokens@).len() as int
        }),
        tok == (if old(m)@.in_fn {
            toks(prog.fn_tokens@)
        } else {
            toks(prog.tokens@)
        })[old(m)@.ip],
        pos == pos_at(prog.tokens@, prog.fn_tokens@, old(m)@),
        cur_len as int == (if old(m)@.in_fn {
            prog.fn_tokens@.len() as int
        } else {
            prog.tokens@.len() as int
        }),
        tok is OpAdd || tok is OpSub || tok is OpMul || tok is OpDiv || tok is Eq || tok is GT || tok is LT || tok is And || tok is Not || tok is Or,
    ensures
        ({
            let mainv = toks(prog.tokens@);
            let fnsv = toks(prog.fn_tokens@);
            let ent = entries_of(prog.functions@);
            let s0 = old(m)@;
            match step(mainv, fnsv, ent, s0) {
                Step::Next(s2) => r is None && final(m)@ == s2 && wf_calls(mainv, fnsv, s2),
                Step::Exit(c) => r matches Some(res) && res.status == SimStatus::Exit(c)
                    && res.output@ == s0.out,
                Step::Fault(k) => r matches Some(res) && res.status == SimStatus::Fault(
                    Error { kind: k, pos: pos_at(prog.tokens@, prog.fn_tokens@, s0) },
                ) && res.output@ == s0.out,
            }
        }),
{
    let ghost mainv = toks(prog.tokens@);
    let ghost fnsv = toks(prog.fn_tokens@);
    let ghost ent = entries_of(prog.functions@);
    let ghost s0 = m@;
    let ghost curv = if s0.in_fn {
        fnsv
    } else {
        mainv
    };
    match tok {
            Token::OpAdd => {
                if m.stack.len() < 2 {
                    proof {
                        assert(step(mainv, fnsv, ent, s0) == Step::Fault(ErrorKind::StackUnderflow));
                    }
                    return Some(faulted(m.out.clone(), ErrorKind::StackUnderflow, pos));
                }
                let a = m.stack.pop().unwrap();
                let b = m.stack.pop().unwrap();
                m.stack.push(a.wrapping_add(b));
                m.ip = m.ip + 1;
                proof {
                    assert(m@ =~= (State {
                        stack: s0.stack.drop_last().drop_last().push(
                            vstd::wrapping::u64_specs::wrapping_add(a, b),
                        ),
                        ip: s0.ip + 1,
                        ..s0
                    }));
                    assert(step(mainv, fnsv, ent, s0) == Step::Next(m@));
                }
            },
            Token::OpSub => {
                if m.stack.len() < 2 {
                    proof {
                        assert(step(mainv, fnsv, ent, s0) == Step::Fault(ErrorKind::StackUnderflow));
                    }
                    return Some(faulted(m.out.clone(), ErrorKind::StackUnderflow, pos));
                }
                let a = m.stack.pop().unwrap();
                let b = m.stack.pop().unwrap();
                m.stack.push(b.wrapping_sub(a));
                m.ip = m.ip + 1;
                proof {
                    assert(m@ =~= (State {
                        stack: s0.stack.drop_last().drop_last().push(
                            vstd::wrapping::u64_specs::wrapping_sub(b, a),
                        ),
                        ip: s0.ip + 1,
                        ..s0
                    }));
                    assert(step(mainv, fnsv, ent, s0) == Step::Next(m@));
                }
            },
            Token::OpMul => {
                if m.stack.len() < 2 {
                    proof {
                        assert(step(mainv, fnsv, ent, s0) == Step::Fault(ErrorKind::StackUnderflow));
                    }
                    return Some(faulted(m.out.clone(), ErrorKind::StackUnderflow, pos));
                }
                let a = m.stack.pop().unwrap();
                let b = m.stack.pop().unwrap();
                m.stack.push(b.wrapping_mul(a));
                m.ip = m.ip + 1;
                proof {
                    assert(m@ =~= (State {
                        stack: s0.stack.drop_last().drop_last().push(
                            vstd::wrapping::u64_specs::wrapping_mul(b, a),
                        ),
                        ip: s0.ip + 1,
                        ..s0
                    }));
                    assert(step(mainv, fnsv, ent, s0) == Step::Next(m@));
                }
            },
            Token::OpDiv => {
                if m.stack.len() < 2 {
                    proof {
                        assert(step(mainv, fnsv, ent, s0) == Step::Fault(ErrorKind::StackUnderflow));
                    }
                    return Some(faulted(m.out.clone(), ErrorKind::StackUnderflow, pos));
                }
                let a = m.stack.pop().unwrap();
                if a == 0 {
                    proof {
                        assert(step(mainv, fnsv, ent, s0) == Step::Fault(ErrorKind::DivisionByZero));
                    }
                    return Some(faulted(m.out.clone(), ErrorKind::DivisionByZero, pos));
                }
                let b = m.stack.pop().unwrap();
                m.stack.push(b / a);
                m.ip = m.ip + 1;
                proof {
                    assert(m@ =~= (State {
                        stack: s0.stack.drop_last().drop_last().push(
                            ((b as int) / (a as int)) as u64,
                        ),
                        ip: s0.ip + 1,
                        ..s0
                    }));
                    assert(step(mainv, fnsv, ent, s0) == Step::Next(m@));
                }
            },
            Token::Eq => {
                if m.stack.len() < 2 {
                    proof {
                        assert(step(mainv, fnsv, ent, s0) == Step::Fault(ErrorKind::StackUnderflow));
                    }
                    return Some(faulted(m.out.clone(), ErrorKind::StackUnderflow, pos));
                }
                let a = m.stack.pop().unwrap();
                let b = m.stack.pop().unwrap();
                m.stack.push(if a == b { 1 } else { 0 });
                m.ip = m.ip + 1;
                proof {
                    assert(m@ =~= (State {
                        stack: s0.stack.drop_last().drop_last().push(if a == b { 1u64 } else { 0u64 }),
                        ip: s0.ip + 1,
                        ..s0
                    }));
                    assert(step(mainv, fnsv, ent, s0) == Step::Next(m@));
                }
            },
            Token::GT => {
                if m.stack.len() < 2 {
                    proof {
                        assert(step(mainv, fnsv, ent, s0) == Step::Fault(ErrorKind::StackUnderflow));
                    }
                    return Some(faulted(m.out.clone(), ErrorKind::StackUnderflow, pos));
                }
                let a = m.stack.pop().unwrap();
                let b = m.stack.pop().unwrap();
                m.stack.push(if b > a { 1 } else { 0 });
                m.ip = m.ip + 1;
                proof {
                    assert(m@ =~= (State {
                        stack: s0.stack.drop_last().drop_last().push(if b > a { 1u64 } else { 0u64 }),
                        ip: s0.ip + 1,
                        ..s0
                    }));
                    assert(step(mainv, fnsv, ent, s0) == Step::Next(m@));
                }
            },
            Token::LT => {
                if m.stack.len() < 2 {
                    proof {
                        assert(step(mainv, fnsv, ent, s0) == Step::Fault(ErrorKind::StackUnderflow));
                    }
                    return Some(faulted(m.out.clone(), ErrorKind::StackUnderflow, pos));
                }
                let a = m.stack.pop().unwrap();
                let b = m.stack.pop().unwrap();
                m.stack.push(if b < a { 1 } else { 0 });
                m.ip = m.ip + 1;
                proof {
                    assert(m@ =~= (State {
                        stack: s0.stack.drop_last().drop_last().push(if b < a { 1u64 } else { 0u64 }),
                        ip: s0.ip + 1,
                        ..s0
                    }));
                    assert(step(mainv, fnsv, ent, s0) == Step::Next(m@));
                }
            },
            Token::And => {
                if m.stack.len() < 2 {
                    proof {
                        assert(step(mainv, fnsv, ent, s0) == Step::Fault(ErrorKind::StackUnderflow));
                    }
                    return Some(faulted(m.out.clone(), ErrorKind::StackUnderflow, pos));
                }
                let a = m.stack.pop().unwrap();
                let b = m.stack.pop().unwrap();
                m.stack.push(if a > 0 && b > 0 { 1 } else { 0 });
                m.ip = m.ip + 1;
                proof {
                    assert(m@ =~= (State {
                        stack: s0.stack.drop_last().drop_last().push(
                            if a > 0 && b > 0 { 1u64 } else { 0u64 },
                        ),
                        ip: s0.ip + 1,
                        ..s0
                    }));
                    assert(step(mainv, fnsv, ent, s0) == Step::Next(m@));
                }
            },
            Token::Not => {
                if m.stack.len() < 1 {
                    proof {
                        assert(step(mainv, fnsv, ent, s0) == Step::Fault(ErrorKind::StackUnderflow));
                    }
                    return Some(faulted(m.out.clone(), ErrorKind::StackUnderflow, pos));
                }
                let a = m.stack.pop().unwrap();
                m.stack.push(if a == 0 { 1 } else { 0 });
                m.ip = m.ip + 1;
                proof {
                    assert(m@ =~= (State {
                        stack: s0.stack.drop_last().push(if a == 0 { 1u64 } else { 0u64 }),
                        ip: s0.ip + 1,
                        ..s0
                    }));
                    assert(step(mainv, fnsv, ent, s0) == Step::Next(m@));
                }
            },
            Token::Or => {
                if m.stack.len() < 2 {
                    proof {
                        assert(step(mainv, fnsv, ent, s0) == Step::Fault(ErrorKind::StackUnderflow));
                    }
                    return Some(faulted(m.out.clone(), ErrorKind::StackUnderflow, pos));
                }
                let a = m.stack.pop().unwrap();
                let b = m.stack.pop().unwrap();
                m.stack.push(if a > 0 || b > 0 { 1 } else { 0 });
                m.ip = m.ip + 1;
                proof {
                    assert(m@ =~= (State {
                        stack: s0.stack.drop_last().drop_last().push(
                            if a > 0 || b > 0 { 1u64 } else { 0u64 },
                        ),
                        ip: s0.ip + 1,
                        ..s0
                    }));
                    assert(step(mainv, fnsv, ent, s0) == Step::Next(m@));
                }
            },
        _ => {
            proof {
                assert(false);
            }
        },
    }
    None
}

/// One step of the memory grid: cursor moves, loads, stores and `write`.
#[verifier::rlimit(100)]
#[verifier::spinoff_prover]
fn step_grid(prog: &LexerOutput, m: &mut Machine, tok: Token, pos: TokenPos, cur_len: usize) -> (r:
    Option<SimResult>)
    requires
        wf_calls(toks(prog.tokens@), toks(prog.fn_tokens@), old(m)@),
        !(!old(m)@.in_fn && old(m)@.ip == toks(prog.tokens@).len()),
        0 <= old(m)@.ip < (if old(m)@.in_fn {
            toks(prog.fn_tokens@).len() as int
        } else {
            toks(prog.tokens@).len() as int
        }),
        tok == (if old(m)@.in_fn {
            toks(prog.fn_tokens@)
        } else {
            toks(prog.tokens@)
        })[old(m)@.ip],
        pos == pos_at(prog.tokens@, prog.fn_tokens@, old(m)@),
        cur_len as int == (if old(m)@.in_fn {
            prog.fn_tokens@.len() as int
        } else {
            prog.tokens@.len() as int
        }),
        tok is Up || tok is Down || tok is Left || tok is Right || tok is Loc || tok is Store || tok is Load || tok is Copy || tok is Write,
    ensures
        ({
            let mainv = toks(prog.tokens@);
            let fnsv = toks(prog.fn_tokens@);
            let ent = entries_of(prog.functions@);
            let s0 = old(m)@;
            match step(mainv, fnsv, ent, s0) {
                Step::Next(s2) => r is None && final(m)@ == s2 && wf_calls(mainv, fnsv, s2),
                Step::Exit(c) => r matches Some(res) && res.status == SimStatus::Exit(c)
                    && res.output@ == s0.out,
                Step::Fault(k) => r matches Some(res) && res.status == SimStatus::Fault(
                    Error { kind: k, pos: pos_at(prog.tokens@, prog.fn_tokens@, s0) },
                ) && res.output@ == s0.out,
            }
        }),
{
    let ghost mainv = toks(prog.tokens@);
    let ghost fnsv = toks(prog.fn_tokens@);
    let ghost ent = entries_of(prog.functions@);
    let ghost s0 = m@;
    let ghost curv = if s0.in_fn {
        fnsv
    } else {
        mainv
    };
    match tok {
            Token::Up => {
                if m.stack.len() < 1 {
                    proof {
                        assert(step(mainv, fnsv, ent, s0) == Step::Fault(ErrorKind::StackUnderflow));
                    }
                    return Some(faulted(m.out.clone(), ErrorKind::StackUnderflow, pos));
                }
                let a = m.stack.pop().unwrap();
                if a > m.y as u64 {
                    proof {
                        assert(step(mainv, fnsv, ent, s0) == Step::Fault(
                            ErrorKind::GridOutOfBounds,
                        ));
                    }
                    return Some(faulted(m.out.clone(), ErrorKind::GridOutOfBounds, pos));
                }
                m.y = m.y - (a as u32);
                m.ip = m.ip + 1;
                proof {
                    assert(m@ =~= (State {
                        stack: s0.stack.drop_last(),
                        y: s0.y - a,
                        ip: s0.ip + 1,
                        ..s0
                    }));
                    assert(step(mainv, fnsv, ent, s0) == Step::Next(m@));
                }
            },
            Token::Down => {
                if m.stack.len() < 1 {
                    proof {
                        assert(step(mainv, fnsv, ent, s0) == Step::Fault(ErrorKind::StackUnderflow));
                    }
                    return Some(faulted(m.out.clone(), ErrorKind::StackUnderflow, pos));
                }
                let a = m.stack.pop().unwrap();
                if a >= STRIDE - (m.y as u64) {
                    proof {
                        assert(step(mainv, fnsv, ent, s0) == Step::Fault(
                            ErrorKind::GridOutOfBounds,
                        ));
                    }
                    return Some(faulted(m.out.clone(), ErrorKind::GridOutOfBounds, pos));
                }
                m.y = m.y + (a as u32);
                m.ip = m.ip + 1;
                proof {
                    assert(m@ =~= (State {
                        stack: s0.stack.drop_last(),
                        y: s0.y + a,
                        ip: s0.ip + 1,
                        ..s0
                    }));
                    assert(step(mainv, fnsv, ent, s0) == Step::Next(m@));
                }
            },
            Token::Left => {
                if m.stack.len() < 1 {
                    proof {
                        assert(step(mainv, fnsv, ent, s0) == Step::Fault(ErrorKind::StackUnderflow));
                    }
                    return Some(faulted(m.out.clone(), ErrorKind::StackUnderflow, pos));
                }
                let a = m.stack.pop().unwrap();
                if a > m.x as u64 {
                    proof {
                        assert(step(mainv, fnsv, ent, s0) == Step::Fault(
                            ErrorKind::GridOutOfBounds,
                        ));
                    }
                    return Some(faulted(m.out.clone(), ErrorKind::GridOutOfBounds, pos));
                }
                m.x = m.x - (a as u32);
                m.ip = m.ip + 1;
                proof {
                    assert(m@ =~= (State {
                        stack: s0.stack.drop_last(),
                        x: s0.x - a,
                        ip: s0.ip + 1,
                        ..s0
                    }));
                    assert(step(mainv, fnsv, ent, s0) == Step::Next(m@));
                }
            },
            Token::Right => {
                if m.stack.len() < 1 {
                    proof {
                        assert(step(mainv, fnsv, ent, s0) == Step::Fault(ErrorKind::StackUnderflow));
                    }
                    return Some(faulted(m.out.clone(), ErrorKind::StackUnderflow, pos));
                }
                let a = m.stack.pop().unwrap();
                if a >= STRIDE - (m.x as u64) {
                    proof {
                        assert(step(mainv, fnsv, ent, s0) == Step::Fault(
                            ErrorKind::GridOutOfBounds,
                        ));
                    }
                    return Some(faulted(m.out.clone(), ErrorKind::GridOutOfBounds, pos));
                }
                m.x = m.x + (a as u32);
                m.ip = m.ip + 1;
                proof {
                    assert(m@ =~= (State {
                        stack: s0.stack.drop_last(),
                        x: s0.x + a,
                        ip: s0.ip + 1,
                        ..s0
                    }));
                    assert(step(mainv, fnsv, ent, s0) == Step::Next(m@));
                }
            },
            Token::Loc => {
                let f = flat_cursor(m.x, m.y);
                m.stack.push(f);
                m.ip = m.ip + 1;
                proof {
                    assert(m@ =~= (State {
                        stack: s0.stack.push(flat_of(s0.x, s0.y)),
                        ip: s0.ip + 1,
                        ..s0
                    }));
                    assert(step(mainv, fnsv, ent, s0) == Step::Next(m@));
                }
            },
            Token::Store => {
                if m.stack.len() < 1 {
                    proof {
                        assert(step(mainv, fnsv, ent, s0) == Step::Fault(ErrorKind::StackUnderflow));
                    }
                    return Some(faulted(m.out.clone(), ErrorKind::StackUnderflow, pos));
                }
                let v = m.stack.pop().unwrap();
                let f = flat_cursor(m.x, m.y);
                m.mem.set(f, v);
                m.ip = m.ip + 1;
                proof {
                    assert(m@ =~= (State {
                        stack: s0.stack.drop_last(),
                        mem: s0.mem.insert(flat_of(s0.x, s0.y), v),
                        ip: s0.ip + 1,
                        ..s0
                    }));
                    assert(step(mainv, fnsv, ent, s0) == Step::Next(m@));
                }
            },
            Token::Load => {
                let f = flat_cursor(m.x, m.y);
                let v = m.mem.get(f);
                m.stack.push(v);
                m.mem.set(f, 0);
                m.ip = m.ip + 1;
                proof {
                    assert(m@ =~= (State {
                        stack: s0.stack.push(mem_read(s0.mem, flat_of(s0.x, s0.y))),
                        mem: s0.mem.insert(flat_of(s0.x, s0.y), 0),
                        ip: s0.ip + 1,
                        ..s0
                    }));
                    assert(step(mainv, fnsv, ent, s0) == Step::Next(m@));
                }
            },
            Token::Copy => {
                let f = flat_cursor(m.x, m.y);
                let v = m.mem.get(f);
                m.stack.push(v);
                m.ip = m.ip + 1;
                proof {
                    assert(m@ =~= (State {
                        stack: s0.stack.push(mem_read(s0.mem, flat_of(s0.x, s0.y))),
                        ip: s0.ip + 1,
                        ..s0
                    }));
                    assert(step(mainv, fnsv, ent, s0) == Step::Next(m@));
                }
            },
            Token::Write => {
                if m.stack.len() < 1 {
                    proof {
                        assert(step(mainv, fnsv, ent, s0) == Step::Fault(ErrorKind::StackUnderflow));
                    }
                    return Some(faulted(m.out.clone(), ErrorKind::StackUnderflow, pos));
                }
                let n = m.stack.pop().unwrap();
                let base = flat_cursor(m.x, m.y);
                if n > 0 && base > u64::MAX - (n - 1) {
                    proof {
                        assert(step(mainv, fnsv, ent, s0) == Step::Fault(
                            ErrorKind::GridOutOfBounds,
                        ));
                    }
                    return Some(faulted(m.out.clone(), ErrorKind::GridOutOfBounds, pos));
                }
                let sp = span_str(&m.mem, base, n);
                m.out.append(sp.as_str());
                m.out.append("\n");
                m.ip = m.ip + 1;
                proof {
                    assert(m@ =~= (State {
                        stack: s0.stack.drop_last(),
                        out: s0.out + write_span(s0.mem, base as int, n as nat) + "\n"@,
                        ip: s0.ip + 1,
                        ..s0
                    }));
                    assert(step(mainv, fnsv, ent, s0) == Step::Next(m@));
                }
            },
        _ => {
            proof {
                assert(false);
            }
        },
    }
    None
}

/// One step of control flow: branches, loops, blocks, calls and returns.
#[verifier::rlimit(100)]
#[verifier::spinoff_prover]
fn step_ctrl(prog: &LexerOutput, m: &mut Machine, tok: Token, pos: TokenPos, cur_len: usize) -> (r:
    Option<SimResult>)
    requires
        wf_calls(toks(prog.tokens@), toks(prog.fn_tokens@), old(m)@),
        !(!old(m)@.in_fn && old(m)@.ip == toks(prog.tokens@).len()),
        0 <= old(m)@.ip < (if old(m)@.in_fn {
            toks(prog.fn_tokens@).len() as int
        } else {
            toks(prog.tokens@).len() as int
        }),
        tok == (if old(m)@.in_fn {
            toks(prog.fn_tokens@)
        } else {
            toks(prog.tokens@)
        })[old(m)@.ip],
        pos == pos_at(prog.tokens@, prog.fn_tokens@, old(m)@),
        cur_len as int == (if old(m)@.in_fn {
            prog.fn_tokens@.len() as int
        } else {
            prog.tokens@.len() as int
        }),
        tok is If || tok is Else || tok is While || tok is Do || tok is End || tok is Fn || tok is FnCall,
    ensures
        ({
            let mainv = toks(prog.tokens@);
            let fnsv = toks(prog.fn_tokens@);
            let ent = entries_of(prog.functions@);
            let s0 = old(m)@;
            match step(mainv, fnsv, ent, s0) {
                Step::Next(s2) => r is None && final(m)@ == s2 && wf_calls(mainv, fnsv, s2),
                Step::Exit(c) => r matches Some(res) && res.status == SimStatus::Exit(c)
                    && res.output@ == s0.out,
                Step::Fault(k) => r matches Some(res) && res.status == SimStatus::Fault(
                    Error { kind: k, pos: pos_at(prog.tokens@, prog.fn_tokens@, s0) },
                ) && res.output@ == s0.out,
            }
        }),
{
    let ghost mainv = toks(prog.tokens@);
    let ghost fnsv = toks(prog.fn_tokens@);
    let ghost ent = entries_of(prog.functions@);
    let ghost s0 = m@;
    let ghost curv = if s0.in_fn {
        fnsv
    } else {
        mainv
    };
    match tok {
            Token::If(t) => {
                if m.stack.len() < 1 {
                    proof {
                        assert(step(mainv, fnsv, ent, s0) == Step::Fault(ErrorKind::StackUnderflow));
                    }
                    return Some(faulted(m.out.clone(), ErrorKind::StackUnderflow, pos));
                }
                let c = m.stack.pop().unwrap();
                if c != 0 {
                    m.ip = m.ip + 1;
                } else {
                    if t >= cur_len {
                        proof {
                            assert(step(mainv, fnsv, ent, s0) == Step::Fault(
                                ErrorKind::InvalidJump,
                            ));
                        }
                        return Some(faulted(m.out.clone(), ErrorKind::InvalidJump, pos));
                    }
                    m.ip = t + 1;
                }
                proof {
                    assert(m@ =~= (State { stack: s0.stack.drop_last(), ip: m.ip as int, ..s0 }));
                    assert(step(mainv, fnsv, ent, s0) == Step::Next(m@));
                }
            },
            Token::Else(t) => {
                if t >= cur_len {
                    proof {
                        assert(step(mainv, fnsv, ent, s0) == Step::Fault(ErrorKind::InvalidJump));
                    }
                    return Some(faulted(m.out.clone(), ErrorKind::InvalidJump, pos));
                }
                m.ip = t + 1;
                proof {
                    assert(m@ =~= (State { ip: t + 1, ..s0 }));
                    assert(step(mainv, fnsv, ent, s0) == Step::Next(m@));
                }
            },
            Token::While => {
                m.ip = m.ip + 1;
                proof {
                    assert(m@ =~= (State { ip: s0.ip + 1, ..s0 }));
                    assert(step(mainv, fnsv, ent, s0) == Step::Next(m@));
                }
            },
            Token::Do(t) => {
                if m.stack.len() < 1 {
                    proof {
                        assert(step(mainv, fnsv, ent, s0) == Step::Fault(ErrorKind::StackUnderflow));
                    }
                    return Some(faulted(m.out.clone(), ErrorKind::StackUnderflow, pos));
                }
                let c = m.stack.pop().unwrap();
                if c != 0 {
                    m.ip = m.ip + 1;
                } else {
                    if t >= cur_len {
                        proof {
                            assert(step(mainv, fnsv, ent, s0) == Step::Fault(
                                ErrorKind::InvalidJump,
                            ));
                        }
                        return Some(faulted(m.out.clone(), ErrorKind::InvalidJump, pos));
                    }
                    m.ip = t + 1;
                }
                proof {
                    assert(m@ =~= (State { stack: s0.stack.drop_last(), ip: m.ip as int, ..s0 }));
                    assert(step(mainv, fnsv, ent, s0) == Step::Next(m@));
                }
            },
            Token::End(et) => {
                match et {
                    EndTarget::Addr(t) => {
                        if t >= cur_len {
                            proof {
                                assert(step(mainv, fnsv, ent, s0) == Step::Fault(
                                    ErrorKind::InvalidJump,
                                ));
                            }
                            return Some(faulted(m.out.clone(), ErrorKind::InvalidJump, pos));
                        }
                        m.ip = t + 1;
                        proof {
                            assert(m@ =~= (State { ip: t + 1, ..s0 }));
                            assert(step(mainv, fnsv, ent, s0) == Step::Next(m@));
                        }
                    },
                    EndTarget::Return => {
                        if m.calls.len() == 0 {
                            proof {
                                assert(step(mainv, fnsv, ent, s0) == Step::Fault(
                                    ErrorKind::ReturnWithoutCall,
                                ));
                            }
                            return Some(faulted(m.out.clone(), ErrorKind::ReturnWithoutCall, pos));
                        }
                        let ra = m.calls.pop().unwrap();
                        proof {
                            assert(s0.calls[s0.calls.len() - 1] == (ra.in_fn, ra.ip as int));
                            assert(ra.ip as int + 1 <= usize::MAX as int);
                        }
                        m.in_fn = ra.in_fn;
                        m.ip = ra.ip + 1;
                        proof {
                            assert(m.calls@.map_values(|r: RetAddr| (r.in_fn, r.ip as int))
                                =~= s0.calls.drop_last());
                            assert(m@ =~= (State {
                                calls: s0.calls.drop_last(),
                                in_fn: s0.calls.last().0,
                                ip: s0.calls.last().1 + 1,
                                ..s0
                            }));
                            assert(step(mainv, fnsv, ent, s0) == Step::Next(m@));
                        }
                    },
                }
            },
            Token::Fn(_f, e) => {
                if e >= cur_len {
                    proof {
                        assert(step(mainv, fnsv, ent, s0) == Step::Fault(ErrorKind::InvalidJump));
                    }
                    return Some(faulted(m.out.clone(), ErrorKind::InvalidJump, pos));
                }
                m.ip = e + 1;
                proof {
                    assert(m@ =~= (State { ip: e + 1, ..s0 }));
                    assert(step(mainv, fnsv, ent, s0) == Step::Next(m@));
                }
            },
            Token::FnCall(f) => {
                if f >= prog.functions.len() {
                    proof {
                        assert(step(mainv, fnsv, ent, s0) == Step::Fault(ErrorKind::UnknownWord));
                    }
                    return Some(faulted(m.out.clone(), ErrorKind::UnknownWord, pos));
                }
                let e = prog.functions[f].entry;
                if e >= prog.fn_tokens.len() {
                    proof {
                        assert(step(mainv, fnsv, ent, s0) == Step::Fault(ErrorKind::InvalidJump));
                    }
                    return Some(faulted(m.out.clone(), ErrorKind::InvalidJump, pos));
                }
                m.calls.push(RetAddr { in_fn: m.in_fn, ip: m.ip });
                m.in_fn = true;
                m.ip = e + 1;
                proof {
                    assert(m.calls@.map_values(|r: RetAddr| (r.in_fn, r.ip as int)) =~= s0.calls.push(
                        (s0.in_fn, s0.ip),
                    ));
                    assert(m@ =~= (State {
                        calls: s0.calls.push((s0.in_fn, s0.ip)),
                        in_fn: true,
                        ip: ent[f as int] + 1,
                        ..s0
                    }));
                    assert(step(mainv, fnsv, ent, s0) == Step::Next(m@));
                }
            },
        _ => {
            proof {
                assert(false);
            }
        },
    }
    None
}

/// Performs one fetch-execute step on `m`, returning the final
/// [`SimResult`] when the step exits or faults, and `None` when the
/// machine stepped to a successor state.
fn exec_step(prog: &LexerOutput, m: &mut Machine) -> (r: Option<SimResult>)
    requires
        wf_calls(toks(prog.tokens@), toks(prog.fn_tokens@), old(m)@),
    ensures
        ({
            let mainv = toks(prog.tokens@);
            let fnsv = toks(prog.fn_tokens@);
            let ent = entries_of(prog.functions@);
            let s0 = old(m)@;
            match step(mainv, fnsv, ent, s0) {
                Step::Next(s2) => r is None && final(m)@ == s2 && wf_calls(mainv, fnsv, s2),
                Step::Exit(c) => r matches Some(res) && res.status == SimStatus::Exit(c)
                    && res.output@ == s0.out,
                Step::Fault(k) => r matches Some(res) && res.status == SimStatus::Fault(
                    Error { kind: k, pos: pos_at(prog.tokens@, prog.fn_tokens@, s0) },
                ) && res.output@ == s0.out,
            }
        }),
{
    let ghost mainv = toks(prog.tokens@);
    let ghost fnsv = toks(prog.fn_tokens@);
    let ghost ent = entries_of(prog.functions@);
    let ghost s0 = m@;
    if !m.in_fn && m.ip == prog.tokens.len() {
        if m.stack.len() == 0 {
            proof {
                assert(step(mainv, fnsv, ent, s0) == Step::Fault(ErrorKind::EmptyStack));
            }
            return Some(
                faulted(m.out.clone(), ErrorKind::EmptyStack, TokenPos { row: 0, col: 0, ip: 0 }),
            );
        } else {
            let c = m.stack[m.stack.len() - 1];
            proof {
                assert(step(mainv, fnsv, ent, s0) == Step::Exit(c));
            }
            return Some(SimResult { output: m.out.clone(), status: SimStatus::Exit(c) });
        }
    }
    let cur_len = if m.in_fn {
        prog.fn_tokens.len()
    } else {
        prog.tokens.len()
    };
    if m.ip >= cur_len {
        proof {
            assert(step(mainv, fnsv, ent, s0) == Step::Fault(ErrorKind::IpOutOfRange));
        }
        return Some(
            faulted(m.out.clone(), ErrorKind::IpOutOfRange, TokenPos { row: 0, col: 0, ip: 0 }),
        );
    }
    let (tok, pos) = if m.in_fn {
        prog.fn_tokens[m.ip]
    } else {
        prog.tokens[m.ip]
    };
    let ghost curv = if s0.in_fn {
        fnsv
    } else {
        mainv
    };
    proof {
        assert(tok == curv[s0.ip]);
        assert(pos == pos_at(prog.tokens@, prog.fn_tokens@, s0));
    }
    match tok {
        Token::Num(_) | Token::Dup | Token::Drop | Token::Swap | Token::Over | Token::Print => {
            step_stack(prog, m, tok, pos, cur_len)
        },
        Token::OpAdd | Token::OpSub | Token::OpMul | Token::OpDiv | Token::Eq | Token::GT
            | Token::LT | Token::And | Token::Not | Token::Or => {
            step_arith(prog, m, tok, pos, cur_len)
        },
        Token::Up | Token::Down | Token::Left | Token::Right | Token::Loc | Token::Store
            | Token::Load | Token::Copy | Token::Write => {
            step_grid(prog, m, tok, pos, cur_len)
        },
        Token::If(_) | Token::Else(_) | Token::While | Token::Do(_) | Token::End(_)
            | Token::Fn(_, _) | Token::FnCall(_) => {
            step_ctrl(prog, m, tok, pos, cur_len)
        },
    }
}


/// Interprets a resolved program for at most `fuel` instructions, starting
/// from the pristine machine state.
///
/// The result is exactly what the abstract machine's [`run`] function
/// says: the output it accumulated and, with enough fuel, either the
/// normal exit status (the final value on the data stack) or the fatal
/// fault and the failing token's position.
pub fn simulate(prog: &LexerOutput, fuel: u64) -> (r: SimResult)
    ensures
        ({
            let outcome = run(
                toks(prog.tokens@),
                toks(prog.fn_tokens@),
                entries_of(prog.functions@),
                init_state(),
                fuel as nat,
            );
            match outcome {
                Run::Done(s, c) => r.status == SimStatus::Exit(c) && r.output@ == s.out,
                Run::Bad(s, k) => r.status == SimStatus::Fault(
                    Error { kind: k, pos: pos_at(prog.tokens@, prog.fn_tokens@, s) },
                ) && r.output@ == s.out,
                Run::More(s) => r.status == SimStatus::OutOfFuel && r.output@ == s.out,
            }
        }),
{
    let ghost mainv = toks(prog.tokens@);
    let ghost fnsv = toks(prog.fn_tokens@);
    let ghost ent = entries_of(prog.functions@);
    let mut m = Machine {
        stack: Vec::new(),
        calls: Vec::new(),
        mem: MemGrid::new(),
        x: 0,
        y: 0,
        out: String::new(),
        in_fn: false,
        ip: 0,
    };
    proof {
        assert(m@ =~= init_state());
    }
    let mut remaining: u64 = fuel;
    loop
        invariant
            mainv == toks(prog.tokens@),
            fnsv == toks(prog.fn_tokens@),
            ent == entries_of(prog.functions@),
            run(mainv, fnsv, ent, m@, remaining as nat) == run(
                mainv,
                fnsv,
                ent,
                init_state(),
                fuel as nat,
            ),
            wf_calls(mainv, fnsv, m@),
        decreases remaining,
    {
        let ghost s0 = m@;
        if remaining == 0 {
            return SimResult { output: m.out, status: SimStatus::OutOfFuel };
        }
        let stepped = exec_step(prog, &mut m);
        match stepped {
            Some(res) => {
                return res;
            },
            None => {
                proof {
                    assert(run(mainv, fnsv, ent, s0, remaining as nat) == run(
                        mainv,
                        fnsv,
                        ent,
                        m@,
                        (remaining - 1) as nat,
                    ));
                }
                remaining = remaining - 1;
            },
        }
    }
}

/// The current stream `s.ip` points into.
pub open spec fn cur_stream(main: Seq<Token>, fns: Seq<Token>, s: State) -> Seq<Token> {
    if s.in_fn {
        fns
    } else {
        main
    }
}

/// A conditional evaluates exactly the branch its popped condition
/// selects: a nonzero condition falls through into the true branch, and
/// zero jumps to just past the resolved target — the head of the `else`
/// branch when one exists, else past the block's `end`. Nothing besides
/// the condition leaves the stack, and memory, cursor and output are
/// untouched; the whole run continues from the selected point.
pub proof fn lemma_if_selects_branch(
    main: Seq<Token>,
    fns: Seq<Token>,
    entries: Seq<int>,
    s: State,
    t: usize,
    fuel: nat,
)
    requires
        fuel >= 1,
        0 <= s.ip < cur_stream(main, fns, s).len(),
        cur_stream(main, fns, s)[s.ip] == Token::If(t),
        s.stack.len() >= 1,
        (t as int) < cur_stream(main, fns, s).len(),
    ensures
        s.stack.last() != 0 ==> step(main, fns, entries, s) == Step::Next(
            State { stack: s.stack.drop_last(), ip: s.ip + 1, ..s },
        ) && run(main, fns, entries, s, fuel) == run(
            main,
            fns,
            entries,
            State { stack: s.stack.drop_last(), ip: s.ip + 1, ..s },
            (fuel - 1) as nat,
        ),
        s.stack.last() == 0 ==> step(main, fns, entries, s) == Step::Next(
            State { stack: s.stack.drop_last(), ip: t + 1, ..s },
        ) && run(main, fns, entries, s, fuel) == run(
            main,
            fns,
            entries,
            State { stack: s.stack.drop_last(), ip: t + 1, ..s },
            (fuel - 1) as nat,
        ),
{
}

/// An `else` is reached only by falling out of the true branch, and it
/// transfers unconditionally to just past its resolved `end`: the run
/// skips the false branch entirely, with no other state change.
pub proof fn lemma_else_jumps_to_join(
    main: Seq<Token>,
    fns: Seq<Token>,
    entries: Seq<int>,
    s: State,
    t: usize,
    fuel: nat,
)
    requires
        fuel >= 1,
        0 <= s.ip < cur_stream(main, fns, s).len(),
        cur_stream(main, fns, s)[s.ip] == Token::Else(t),
        (t as int) < cur_stream(main, fns, s).len(),
    ensures
        step(main, fns, entries, s) == Step::Next(State { ip: t + 1, ..s }),
        run(main, fns, entries, s, fuel) == run(
            main,
            fns,
            entries,
            State { ip: t + 1, ..s },
            (fuel - 1) as nat,
        ),
{
}

/// An `if`/`else` block's `end` resolves to itself, so the run falls
/// through it: a structural join changes nothing but the instruction
/// pointer.
pub proof fn lemma_structural_end_falls_through(
    main: Seq<Token>,
    fns: Seq<Token>,
    entries: Seq<int>,
    s: State,
    fuel: nat,
)
    requires
        fuel >= 1,
        0 <= s.ip <= usize::MAX as int,
        s.ip < cur_stream(main, fns, s).len(),
        cur_stream(main, fns, s)[s.ip] == Token::End(EndTarget::Addr(s.ip as usize)),
    ensures
        step(main, fns, entries, s) == Step::Next(State { ip: s.ip + 1, ..s }),
        run(main, fns, entries, s, fuel) == run(
            main,
            fns,
            entries,
            State { ip: s.ip + 1, ..s },
            (fuel - 1) as nat,
        ),
{
    assert(s.ip as usize as int == s.ip);
}

/// A loop's `do` re-tests and pops the condition before every entry into
/// the body: on a nonzero condition the run continues into the body, and
/// on zero it leaves the loop at once, resuming just past the loop's
/// `end`. This is the loop's only exit, so the body runs zero or more
/// times and stops the first time the condition is zero.
pub proof fn lemma_do_tests_condition(
    main: Seq<Token>,
    fns: Seq<Token>,
    entries: Seq<int>,
    s: State,
    t: usize,
    fuel: nat,
)
    requires
        fuel >= 1,
        0 <= s.ip < cur_stream(main, fns, s).len(),
        cur_stream(main, fns, s)[s.ip] == Token::Do(t),
        s.stack.len() >= 1,
        (t as int) < cur_stream(main, fns, s).len(),
    ensures
        s.stack.last() != 0 ==> step(main, fns, entries, s) == Step::Next(
            State { stack: s.stack.drop_last(), ip: s.ip + 1, ..s },
        ) && run(main, fns, entries, s, fuel) == run(
            main,
            fns,
            entries,
            State { stack: s.stack.drop_last(), ip: s.ip + 1, ..s },
            (fuel - 1) as nat,
        ),
        s.stack.last() == 0 ==> step(main, fns, entries, s) == Step::Next(
            State { stack: s.stack.drop_last(), ip: t + 1, ..s },
        ) && run(main, fns, entries, s, fuel) == run(
            main,
            fns,
            entries,
            State { stack: s.stack.drop_last(), ip: t + 1, ..s },
            (fuel - 1) as nat,
        ),
{
}

/// A loop's closing `end` jumps back over its `while`, which is itself a
/// no-op: after every pass through the body, the run lands on the first
/// token of the condition, so the condition is re-evaluated before every
/// iteration.
pub proof fn lemma_loop_end_retests(
    main: Seq<Token>,
    fns: Seq<Token>,
    entries: Seq<int>,
    s: State,
    w: usize,
    fuel: nat,
)
    requires
        fuel >= 1,
        0 <= s.ip < cur_stream(main, fns, s).len(),
        cur_stream(main, fns, s)[s.ip] == Token::End(EndTarget::Addr(w)),
        (w as int) < cur_stream(main, fns, s).len(),
        cur_stream(main, fns, s)[w as int] == Token::While,
    ensures
        step(main, fns, entries, s) == Step::Next(State { ip: w + 1, ..s }),
        step(main, fns, entries, State { ip: w as int, ..s }) == Step::Next(
            State { ip: w + 1, ..s },
        ),
        run(main, fns, entries, s, fuel) == run(
            main,
            fns,
            entries,
            State { ip: w + 1, ..s },
            (fuel - 1) as nat,
        ),
{
    assert(State { ip: w + 1, ..(State { ip: w as int, ..s }) } =~= (State { ip: w + 1, ..s }));
}

/// A destructive load resets the cell it read, so a copy made right
/// after it at the same address pushes 0: first the cell's old value is
/// pushed, then 0, and the run continues past the pair.
pub proof fn lemma_load_then_copy(
    main: Seq<Token>,
    fns: Seq<Token>,
    entries: Seq<int>,
    s: State,
    fuel: nat,
)
    requires
        fuel >= 2,
        0 <= s.ip,
        s.ip + 1 < cur_stream(main, fns, s).len(),
        cur_stream(main, fns, s)[s.ip] == Token::Load,
        cur_stream(main, fns, s)[s.ip + 1] == Token::Copy,
    ensures
        ({
            let a = flat_of(s.x, s.y);
            let s1 = State {
                stack: s.stack.push(mem_read(s.mem, a)),
                mem: s.mem.insert(a, 0),
                ip: s.ip + 1,
                ..s
            };
            let s2 = State { stack: s1.stack.push(0), ip: s.ip + 2, ..s1 };
            step(main, fns, entries, s) == Step::Next(s1) && step(main, fns, entries, s1)
                == Step::Next(s2) && run(main, fns, entries, s, fuel) == run(
                main,
                fns,
                entries,
                s2,
                (fuel - 2) as nat,
            )
        }),
{
    let a = flat_of(s.x, s.y);
    let s1 = State {
        stack: s.stack.push(mem_read(s.mem, a)),
        mem: s.mem.insert(a, 0),
        ip: s.ip + 1,
        ..s
    };
    assert(mem_read(s1.mem, flat_of(s1.x, s1.y)) == 0);
    let s2 = State { stack: s1.stack.push(0), ip: s.ip + 2, ..s1 };
    assert(step(main, fns, entries, s1) == Step::Next(s2));
    assert(run(main, fns, entries, s, fuel) == run(main, fns, entries, s1, (fuel - 1) as nat));
    assert(run(main, fns, entries, s1, (fuel - 1) as nat) == run(
        main,
        fns,
        entries,
        s2,
        (fuel - 2) as nat,
    ));
}

/// A copy alone is idempotent: two copies in a row at one address push
/// the same value twice, leave the memory untouched, and the run
/// continues past the pair.
pub proof fn lemma_copy_idempotent(
    main: Seq<Token>,
    fns: Seq<Token>,
    entries: Seq<int>,
    s: State,
    fuel: nat,
)
    requires
        fuel >= 2,
        0 <= s.ip,
        s.ip + 1 < cur_stream(main, fns, s).len(),
        cur_stream(main, fns, s)[s.ip] == Token::Copy,
        cur_stream(main, fns, s)[s.ip + 1] == Token::Copy,
    ensures
        ({
            let v = mem_read(s.mem, flat_of(s.x, s.y));
            let s1 = State { stack: s.stack.push(v), ip: s.ip + 1, ..s };
            let s2 = State { stack: s.stack.push(v).push(v), ip: s.ip + 2, ..s };
            step(main, fns, entries, s) == Step::Next(s1) && step(main, fns, entries, s1)
                == Step::Next(s2) && s2.mem == s.mem && run(main, fns, entries, s, fuel) == run(
                main,
                fns,
                entries,
                s2,
                (fuel - 2) as nat,
            )
        }),
{
    let v = mem_read(s.mem, flat_of(s.x, s.y));
    let s1 = State { stack: s.stack.push(v), ip: s.ip + 1, ..s };
    let s2 = State { stack: s1.stack.push(v), ip: s.ip + 2, ..s1 };
    assert(step(main, fns, entries, s1) == Step::Next(s2));
    assert(s2 =~= (State { stack: s.stack.push(v).push(v), ip: s.ip + 2, ..s }));
    assert(run(main, fns, entries, s, fuel) == run(main, fns, entries, s1, (fuel - 1) as nat));
    assert(run(main, fns, entries, s1, (fuel - 1) as nat) == run(
        main,
        fns,
        entries,
        s2,
        (fuel - 2) as nat,
    ));
}

/// A data token: one that neither branches, loops, marks or calls — its
/// effect does not depend on where in a stream it stands.
pub open spec fn plain_tok(t: Token) -> bool {
    match t {
        Token::If(_) | Token::Else(_) | Token::While | Token::Do(_) | Token::End(_)
            | Token::Fn(_, _) | Token::FnCall(_) => false,
        _ => true,
    }
}

/// Two states with the same data: stack, call stack, memory, cursor and
/// output — the instruction pointer and its stream may differ.
pub open spec fn data_eq(s1: State, s2: State) -> bool {
    s1.stack == s2.stack && s1.calls == s2.calls && s1.mem == s2.mem && s1.x == s2.x && s1.y
        == s2.y && s1.out == s2.out
}

/// A data token steps the same way wherever it stands: two states with
/// equal data, each sitting on the same plain token in its own program,
/// either both fault with one kind or both advance one place with equal
/// data.
#[verifier::rlimit(100)]
#[verifier::spinoff_prover]
proof fn lemma_plain_step(
    main1: Seq<Token>,
    fns1: Seq<Token>,
    ent1: Seq<int>,
    main2: Seq<Token>,
    fns2: Seq<Token>,
    ent2: Seq<int>,
    s1: State,
    s2: State,
)
    requires
        data_eq(s1, s2),
        0 <= s1.ip < cur_stream(main1, fns1, s1).len(),
        0 <= s2.ip < cur_stream(main2, fns2, s2).len(),
        cur_stream(main1, fns1, s1)[s1.ip] == cur_stream(main2, fns2, s2)[s2.ip],
        plain_tok(cur_stream(main1, fns1, s1)[s1.ip]),
    ensures
        match step(main1, fns1, ent1, s1) {
            Step::Next(n1) => step(main2, fns2, ent2, s2) matches Step::Next(n2) && data_eq(
                n1,
                n2,
            ) && n1.ip == s1.ip + 1 && n2.ip == s2.ip + 1 && n1.in_fn == s1.in_fn && n2.in_fn
                == s2.in_fn,
            Step::Fault(k) => step(main2, fns2, ent2, s2) == Step::Fault(k),
            Step::Exit(_) => false,
        },
{
}

/// `n` matching plain tokens stand at `a1` in `c1` and at `a2` in `c2`.
pub open spec fn seg_match(c1: Seq<Token>, a1: int, c2: Seq<Token>, a2: int, n: nat) -> bool
    decreases n,
{
    if n == 0 {
        true
    } else {
        &&& 0 <= a1 < c1.len()
        &&& 0 <= a2 < c2.len()
        &&& c1[a1] == c2[a2]
        &&& plain_tok(c1[a1])
        &&& seg_match(c1, a1 + 1, c2, a2 + 1, (n - 1) as nat)
    }
}

/// A run of plain tokens matches its own extraction as a standalone
/// sequence.
proof fn lemma_seg_match_tail(c: Seq<Token>, a0: int, b: int, k: int)
    requires
        0 <= a0 <= b <= c.len(),
        0 <= k <= b - a0,
        forall|j: int| a0 <= j < b ==> plain_tok(#[trigger] c[j]),
    ensures
        seg_match(c, a0 + k, c.subrange(a0, b), k, (b - a0 - k) as nat),
    decreases b - a0 - k,
{
    if k < b - a0 {
        lemma_seg_match_tail(c, a0, b, k + 1);
        assert(c.subrange(a0, b)[k] == c[a0 + k]);
        assert(plain_tok(c[a0 + k]));
    }
}

/// A straight-line segment runs the same way wherever it stands: running
/// `n` plain tokens in one program mirrors running the same tokens in
/// another, step for step — reaching states with equal data `n` places
/// on, or faulting identically part-way.
proof fn lemma_plain_run(
    main1: Seq<Token>,
    fns1: Seq<Token>,
    ent1: Seq<int>,
    main2: Seq<Token>,
    fns2: Seq<Token>,
    ent2: Seq<int>,
    s1: State,
    s2: State,
    n: nat,
    fuel1: nat,
)
    requires
        data_eq(s1, s2),
        seg_match(
            cur_stream(main1, fns1, s1),
            s1.ip,
            cur_stream(main2, fns2, s2),
            s2.ip,
            n,
        ),
        fuel1 >= n,
    ensures
        !(run(main2, fns2, ent2, s2, n) is Done),
        match run(main2, fns2, ent2, s2, n) {
            Run::More(e2) => e2.ip == s2.ip + n && e2.in_fn == s2.in_fn && run(
                main1,
                fns1,
                ent1,
                s1,
                fuel1,
            ) == run(
                main1,
                fns1,
                ent1,
                State { in_fn: s1.in_fn, ip: s1.ip + n, ..e2 },
                (fuel1 - n) as nat,
            ),
            Run::Bad(b2, k) => run(main1, fns1, ent1, s1, fuel1) == Run::Bad(
                State { in_fn: s1.in_fn, ip: b2.ip - s2.ip + s1.ip, ..b2 },
                k,
            ),
            Run::Done(_, _) => false,
        },
    decreases n,
{
    if n == 0 {
        assert(run(main2, fns2, ent2, s2, 0) == Run::More(s2));
        assert(State { in_fn: s1.in_fn, ip: s1.ip, ..s2 } =~= s1);
    } else {
        lemma_plain_step(main1, fns1, ent1, main2, fns2, ent2, s1, s2);
        match step(main1, fns1, ent1, s1) {
            Step::Next(n1) => {
                let n2 = match step(main2, fns2, ent2, s2) {
                    Step::Next(n2) => n2,
                    _ => arbitrary(),
                };
                assert(cur_stream(main1, fns1, n1) == cur_stream(main1, fns1, s1));
                assert(cur_stream(main2, fns2, n2) == cur_stream(main2, fns2, s2));
                lemma_plain_run(
                    main1,
                    fns1,
                    ent1,
                    main2,
                    fns2,
                    ent2,
                    n1,
                    n2,
                    (n - 1) as nat,
                    (fuel1 - 1) as nat,
                );
                assert(run(main2, fns2, ent2, s2, n) == run(main2, fns2, ent2, n2, (n - 1) as nat));
                assert(run(main1, fns1, ent1, s1, fuel1) == run(
                    main1,
                    fns1,
                    ent1,
                    n1,
                    (fuel1 - 1) as nat,
                ));
                match run(main2, fns2, ent2, n2, (n - 1) as nat) {
                    Run::More(e2) => {
                        assert(State { in_fn: n1.in_fn, ip: n1.ip + (n - 1), ..e2 } =~= (State {
                            in_fn: s1.in_fn,
                            ip: s1.ip + n,
                            ..e2
                        }));
                    },
                    Run::Bad(b2, k) => {
                        assert(State { in_fn: n1.in_fn, ip: b2.ip - n2.ip + n1.ip, ..b2 } =~= (
                        State { in_fn: s1.in_fn, ip: b2.ip - s2.ip + s1.ip, ..b2 }));
                    },
                    Run::Done(_, _) => {},
                }
            },
            Step::Fault(k) => {
                assert(run(main2, fns2, ent2, s2, n) == Run::Bad(s2, k));
                assert(run(main1, fns1, ent1, s1, fuel1) == Run::Bad(s1, k));
                assert(State { in_fn: s1.in_fn, ip: s2.ip - s2.ip + s1.ip, ..s2 } =~= s1);
            },
            Step::Exit(_) => {},
        }
    }
}

/// A conditional with straight-line branches evaluates exactly the
/// branch its condition selects: interpreting from the `if` equals
/// popping the condition, running the selected branch's tokens as a
/// program of their own on the machine's data, and resuming just past
/// the block's `end` with that evaluation's data — or faulting exactly
/// where and how the branch alone faults. The unselected branch
/// contributes nothing.
pub proof fn lemma_conditional_evaluates_selected_branch(
    main: Seq<Token>,
    fns: Seq<Token>,
    entries: Seq<int>,
    s: State,
    t: usize,
    e: usize,
    fuel: nat,
)
    requires
        0 <= s.ip < cur_stream(main, fns, s).len(),
        cur_stream(main, fns, s)[s.ip] == Token::If(t),
        s.ip < t < e < cur_stream(main, fns, s).len(),
        cur_stream(main, fns, s)[t as int] == Token::Else(e),
        cur_stream(main, fns, s)[e as int] == Token::End(EndTarget::Addr(e)),
        forall|j: int| s.ip < j < t ==> plain_tok(#[trigger] cur_stream(main, fns, s)[j]),
        forall|j: int| t < j < e ==> plain_tok(#[trigger] cur_stream(main, fns, s)[j]),
        s.stack.len() >= 1,
        fuel >= e - s.ip + 1,
    ensures
        ({
            let cur = cur_stream(main, fns, s);
            let c = s.stack.last();
            let bstart: int = if c != 0 {
                s.ip + 1
            } else {
                t + 1
            };
            let bend: int = if c != 0 {
                t as int
            } else {
                e as int
            };
            let branch = cur.subrange(bstart, bend);
            let sb = State { stack: s.stack.drop_last(), in_fn: false, ip: 0, ..s };
            match run(branch, Seq::empty(), Seq::empty(), sb, branch.len()) {
                Run::More(eb) => run(main, fns, entries, s, fuel) == run(
                    main,
                    fns,
                    entries,
                    State { in_fn: s.in_fn, ip: e + 1, ..eb },
                    (fuel - branch.len() - 2) as nat,
                ),
                Run::Bad(bb, k) => run(main, fns, entries, s, fuel) == Run::Bad(
                    State { in_fn: s.in_fn, ip: bb.ip + bstart, ..bb },
                    k,
                ),
                Run::Done(_, _) => false,
            }
        }),
{
    let cur = cur_stream(main, fns, s);
    let c = s.stack.last();
    let bstart: int = if c != 0 {
        s.ip + 1
    } else {
        t + 1
    };
    let bend: int = if c != 0 {
        t as int
    } else {
        e as int
    };
    let branch = cur.subrange(bstart, bend);
    let bn = (bend - bstart) as nat;
    assert(branch.len() == bn);
    lemma_if_selects_branch(main, fns, entries, s, t, fuel);
    let s1 = State { stack: s.stack.drop_last(), ip: bstart, ..s };
    let sb = State { stack: s.stack.drop_last(), in_fn: false, ip: 0, ..s };
    assert(run(main, fns, entries, s, fuel) == run(main, fns, entries, s1, (fuel - 1) as nat));
    assert(data_eq(s1, sb));
    lemma_seg_match_tail(cur, bstart, bend, 0);
    assert(cur_stream(branch, Seq::empty(), sb) == branch);
    assert(cur_stream(main, fns, s1) == cur);
    lemma_plain_run(
        main,
        fns,
        entries,
        branch,
        Seq::empty(),
        Seq::empty(),
        s1,
        sb,
        bn,
        (fuel - 1) as nat,
    );
    match run(branch, Seq::empty(), Seq::empty(), sb, bn) {
        Run::More(eb) => {
            let se = State { in_fn: s1.in_fn, ip: s1.ip + bn, ..eb };
            assert(run(main, fns, entries, s1, (fuel - 1) as nat) == run(
                main,
                fns,
                entries,
                se,
                (fuel - 1 - bn) as nat,
            ));
            assert(se.ip == bend);
            assert(cur_stream(main, fns, se) == cur);
            if c != 0 {
                lemma_else_jumps_to_join(main, fns, entries, se, e, (fuel - 1 - bn) as nat);
            } else {
                lemma_structural_end_falls_through(main, fns, entries, se, (fuel - 1 - bn) as nat);
            }
            assert(run(main, fns, entries, se, (fuel - 1 - bn) as nat) == run(
                main,
                fns,
                entries,
                State { ip: e + 1, ..se },
                (fuel - bn - 2) as nat,
            ));
            assert(State { ip: e + 1, ..se } =~= (State { in_fn: s.in_fn, ip: e + 1, ..eb }));
        },
        Run::Bad(bb, k) => {
            assert(run(main, fns, entries, s1, (fuel - 1) as nat) == Run::Bad(
                State { in_fn: s1.in_fn, ip: bb.ip - sb.ip + s1.ip, ..bb },
                k,
            ));
            assert(State { in_fn: s1.in_fn, ip: bb.ip - sb.ip + s1.ip, ..bb } =~= (State {
                in_fn: s.in_fn,
                ip: bb.ip + bstart,
                ..bb
            }));
        },
        Run::Done(_, _) => {},
    }
}

/// One round of a loop with straight-line condition and body, taken from
/// the condition's first token (just past the `while`): the condition is
/// evaluated as a program of its own on the machine's data and its
/// result popped by `do`. A zero result leaves the loop at once, resuming
/// just past its `end` with nothing else changed; a nonzero result runs
/// the body alone and lands back on the condition's first token, so the
/// condition is re-evaluated before every iteration and the body runs
/// zero or more times, stopping the first time the condition is zero.
pub proof fn lemma_loop_round(
    main: Seq<Token>,
    fns: Seq<Token>,
    entries: Seq<int>,
    s: State,
    w: usize,
    d: usize,
    e: usize,
    fuel: nat,
)
    requires
        0 <= w < d < e < cur_stream(main, fns, s).len(),
        s.ip == w + 1,
        cur_stream(main, fns, s)[w as int] == Token::While,
        cur_stream(main, fns, s)[d as int] == Token::Do(e),
        cur_stream(main, fns, s)[e as int] == Token::End(EndTarget::Addr(w)),
        forall|j: int| w < j < d ==> plain_tok(#[trigger] cur_stream(main, fns, s)[j]),
        forall|j: int| d < j < e ==> plain_tok(#[trigger] cur_stream(main, fns, s)[j]),
        fuel >= e - w,
    ensures
        ({
            let cur = cur_stream(main, fns, s);
            let cond = cur.subrange(w + 1, d as int);
            let scd = State { in_fn: false, ip: 0, ..s };
            match run(cond, Seq::empty(), Seq::empty(), scd, cond.len()) {
                Run::Bad(bb, k) => run(main, fns, entries, s, fuel) == Run::Bad(
                    State { in_fn: s.in_fn, ip: bb.ip + w + 1, ..bb },
                    k,
                ),
                Run::More(ec) => if ec.stack.len() == 0 {
                    run(main, fns, entries, s, fuel) == Run::Bad(
                        State { in_fn: s.in_fn, ip: d as int, ..ec },
                        ErrorKind::StackUnderflow,
                    )
                } else if ec.stack.last() == 0 {
                    run(main, fns, entries, s, fuel) == run(
                        main,
                        fns,
                        entries,
                        State { stack: ec.stack.drop_last(), in_fn: s.in_fn, ip: e + 1, ..ec },
                        (fuel - (d - w)) as nat,
                    )
                } else {
                    let body = cur.subrange(d + 1, e as int);
                    let sbd = State { stack: ec.stack.drop_last(), in_fn: false, ip: 0, ..ec };
                    match run(body, Seq::empty(), Seq::empty(), sbd, body.len()) {
                        Run::Bad(bb, k) => run(main, fns, entries, s, fuel) == Run::Bad(
                            State { in_fn: s.in_fn, ip: bb.ip + d + 1, ..bb },
                            k,
                        ),
                        Run::More(eb) => run(main, fns, entries, s, fuel) == run(
                            main,
                            fns,
                            entries,
                            State { in_fn: s.in_fn, ip: w + 1, ..eb },
                            (fuel - (e - w)) as nat,
                        ),
                        Run::Done(_, _) => false,
                    }
                },
                Run::Done(_, _) => false,
            }
        }),
{
    let cur = cur_stream(main, fns, s);
    let cond = cur.subrange(w + 1, d as int);
    let n1 = (d - w - 1) as nat;
    assert(cond.len() == n1);
    let scd = State { in_fn: false, ip: 0, ..s };
    assert(data_eq(s, scd));
    lemma_seg_match_tail(cur, w + 1, d as int, 0);
    assert(cur_stream(cond, Seq::empty(), scd) == cond);
    assert(cur_stream(main, fns, s) == cur);
    lemma_plain_run(
        main,
        fns,
        entries,
        cond,
        Seq::empty(),
        Seq::empty(),
        s,
        scd,
        n1,
        fuel,
    );
    match run(cond, Seq::empty(), Seq::empty(), scd, n1) {
        Run::More(ec) => {
            let sd = State { in_fn: s.in_fn, ip: s.ip + n1, ..ec };
            assert(run(main, fns, entries, s, fuel) == run(
                main,
                fns,
                entries,
                sd,
                (fuel - n1) as nat,
            ));
            assert(sd.ip == d as int);
            assert(cur_stream(main, fns, sd) == cur);
            if ec.stack.len() == 0 {
                assert(step(main, fns, entries, sd) == Step::Fault(ErrorKind::StackUnderflow));
                assert(run(main, fns, entries, sd, (fuel - n1) as nat) == Run::Bad(
                    sd,
                    ErrorKind::StackUnderflow,
                ));
                assert(sd =~= (State { in_fn: s.in_fn, ip: d as int, ..ec }));
            } else {
                lemma_do_tests_condition(main, fns, entries, sd, e, (fuel - n1) as nat);
                if ec.stack.last() == 0 {
                    assert(run(main, fns, entries, sd, (fuel - n1) as nat) == run(
                        main,
                        fns,
                        entries,
                        State { stack: sd.stack.drop_last(), ip: e + 1, ..sd },
                        (fuel - n1 - 1) as nat,
                    ));
                    assert(State { stack: sd.stack.drop_last(), ip: e + 1, ..sd } =~= (State {
                        stack: ec.stack.drop_last(),
                        in_fn: s.in_fn,
                        ip: e + 1,
                        ..ec
                    }));
                } else {
                    let s2 = State { stack: sd.stack.drop_last(), ip: d + 1, ..sd };
                    assert(run(main, fns, entries, sd, (fuel - n1) as nat) == run(
                        main,
                        fns,
                        entries,
                        s2,
                        (fuel - n1 - 1) as nat,
                    ));
                    let body = cur.subrange(d + 1, e as int);
                    let n2 = (e - d - 1) as nat;
                    assert(body.len() == n2);
                    let sbd = State { stack: ec.stack.drop_last(), in_fn: false, ip: 0, ..ec };
                    assert(data_eq(s2, sbd));
                    lemma_seg_match_tail(cur, d + 1, e as int, 0);
                    assert(cur_stream(body, Seq::empty(), sbd) == body);
                    assert(cur_stream(main, fns, s2) == cur);
                    lemma_plain_run(
                        main,
                        fns,
                        entries,
                        body,
                        Seq::empty(),
                        Seq::empty(),
                        s2,
                        sbd,
                        n2,
                        (fuel - n1 - 1) as nat,
                    );
                    match run(body, Seq::empty(), Seq::empty(), sbd, n2) {
                        Run::More(eb) => {
                            let se = State { in_fn: s2.in_fn, ip: s2.ip + n2, ..eb };
                            assert(run(main, fns, entries, s2, (fuel - n1 - 1) as nat) == run(
                                main,
                                fns,
                                entries,
                                se,
                                (fuel - n1 - 1 - n2) as nat,
                            ));
                            assert(se.ip == e as int);
                            assert(cur_stream(main, fns, se) == cur);
                            lemma_loop_end_retests(
                                main,
                                fns,
                                entries,
                                se,
                                w,
                                (fuel - n1 - 1 - n2) as nat,
                            );
                            assert(run(main, fns, entries, se, (fuel - n1 - 1 - n2) as nat) == run(
                                main,
                                fns,
                                entries,
                                State { ip: w + 1, ..se },
                                (fuel - (e - w)) as nat,
                            ));
                            assert(State { ip: w + 1, ..se } =~= (State {
                                in_fn: s.in_fn,
                                ip: w + 1,
                                ..eb
                            }));
                        },
                        Run::Bad(bb, k) => {
                            assert(run(main, fns, entries, s2, (fuel - n1 - 1) as nat)
                                == Run::Bad(
                                State { in_fn: s2.in_fn, ip: bb.ip - sbd.ip + s2.ip, ..bb },
                                k,
                            ));
                            assert(State { in_fn: s2.in_fn, ip: bb.ip - sbd.ip + s2.ip, ..bb }
                                =~= (State { in_fn: s.in_fn, ip: bb.ip + d + 1, ..bb }));
                        },
                        Run::Done(_, _) => {},
                    }
                }
            }
        },
        Run::Bad(bb, k) => {
            assert(run(main, fns, entries, s, fuel) == Run::Bad(
                State { in_fn: s.in_fn, ip: bb.ip - scd.ip + s.ip, ..bb },
                k,
            ));
            assert(State { in_fn: s.in_fn, ip: bb.ip - scd.ip + s.ip, ..bb } =~= (State {
                in_fn: s.in_fn,
                ip: bb.ip + w + 1,
                ..bb
            }));
        },
        Run::Done(_, _) => {},
    }
}

} // verus!
