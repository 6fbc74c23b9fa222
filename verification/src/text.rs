//! Character-level utilities shared by the tokenizer, the interpreter's
//! output and the code generator: decimal rendering and word handling.
use vstd::prelude::*;

verus! {

/// The character for one decimal digit value.
pub open spec fn digit_char(d: int) -> char {
    if d == 0 {
        '0'
    } else if d == 1 {
        '1'
    } else if d == 2 {
        '2'
    } else if d == 3 {
        '3'
    } else if d == 4 {
        '4'
    } else if d == 5 {
        '5'
    } else if d == 6 {
        '6'
    } else if d == 7 {
        '7'
    } else if d == 8 {
        '8'
    } else {
        '9'
    }
}

/// The usual decimal rendering of `n`, most significant digit first, with
/// no leading zeros (except for `n == 0` itself).
pub open spec fn dec_spec(n: nat) -> Seq<char>
    decreases n,
{
    if n < 10 {
        seq![digit_char(n as int)]
    } else {
        dec_spec(n / 10).push(digit_char((n % 10) as int))
    }
}

fn digit_str(d: u64) -> (s: &'static str)
    requires
        d < 10,
    ensures
        s@ == seq![digit_char(d as int)],
{
    if d == 0 {
        proof {
            reveal_strlit("0");
        }
        assert("0"@ =~= seq![digit_char(0)]);
        "0"
    } else if d == 1 {
        proof {
            reveal_strlit("1");
        }
        assert("1"@ =~= seq![digit_char(1)]);
        "1"
    } else if d == 2 {
        proof {
            reveal_strlit("2");
        }
        assert("2"@ =~= seq![digit_char(2)]);
        "2"
    } else if d == 3 {
        proof {
            reveal_strlit("3");
        }
        assert("3"@ =~= seq![digit_char(3)]);
        "3"
    } else if d == 4 {
        proof {
            reveal_strlit("4");
        }
        assert("4"@ =~= seq![digit_char(4)]);
        "4"
    } else if d == 5 {
        proof {
            reveal_strlit("5");
        }
        assert("5"@ =~= seq![digit_char(5)]);
        "5"
    } else if d == 6 {
        proof {
            reveal_strlit("6");
        }
        assert("6"@ =~= seq![digit_char(6)]);
        "6"
    } else if d == 7 {
        proof {
            reveal_strlit("7");
        }
        assert("7"@ =~= seq![digit_char(7)]);
        "7"
    } else if d == 8 {
        proof {
            reveal_strlit("8");
        }
        assert("8"@ =~= seq![digit_char(8)]);
        "8"
    } else {
        proof {
            reveal_strlit("9");
        }
        assert("9"@ =~= seq![digit_char(9)]);
        "9"
    }
}

/// ASCII whitespace, the word separator of the source language.
pub open spec fn is_ws(c: char) -> bool {
    c == ' ' || c == '\t' || c == '\n' || c == '\r' || c == '\x0c'
}

/// The words of `s` up from position `i`, given the partial word `cur`
/// read so far and the words `acc` already taken.
pub open spec fn words_from(s: Seq<char>, i: int, cur: Seq<char>, acc: Seq<Seq<char>>) -> Seq<
    Seq<char>,
>
    decreases s.len() - i,
{
    if i < 0 || i >= s.len() {
        if cur.len() > 0 {
            acc.push(cur)
        } else {
            acc
        }
    } else if is_ws(s[i]) {
        if cur.len() > 0 {
            words_from(s, i + 1, Seq::empty(), acc.push(cur))
        } else {
            words_from(s, i + 1, Seq::empty(), acc)
        }
    } else {
        words_from(s, i + 1, cur.push(s[i]), acc)
    }
}

/// The maximal whitespace-free words of `s`, in order.
pub open spec fn words_of(s: Seq<char>) -> Seq<Seq<char>> {
    words_from(s, 0, Seq::empty(), Seq::empty())
}

/// The views of a sequence of owned strings.
pub open spec fn views_of(v: Seq<String>) -> Seq<Seq<char>> {
    v.map_values(|w: String| w@)
}

pub(crate) fn is_ws_exec(c: char) -> (r: bool)
    ensures
        r == is_ws(c),
{
    c == ' ' || c == '\t' || c == '\n' || c == '\r' || c == '\x0c'
}

/// Splits one source line on whitespace into its words.
pub fn split_words(line: &str) -> (r: Vec<String>)
    ensures
        views_of(r@) == words_of(line@),
{
    let len = line.unicode_len();
    let mut r: Vec<String> = Vec::new();
    let mut start: usize = 0;
    let mut i: usize = 0;
    proof {
        assert(line@.subrange(0, 0) =~= Seq::<char>::empty());
        assert(views_of(r@) =~= Seq::<Seq<char>>::empty());
    }
    while i < len
        invariant
            len == line@.len(),
            0 <= start <= i <= len,
            forall|j: int| start <= j < i ==> !is_ws(line@[j]),
            words_from(line@, i as int, line@.subrange(start as int, i as int), views_of(r@))
                == words_of(line@),
        decreases len - i,
    {
        let ghost r_old = r@;
        let c = line.get_char(i);
        if is_ws_exec(c) {
            if start < i {
                r.push(String::from_str(line.substring_char(start, i)));
                proof {
                    assert(views_of(r@) =~= views_of(r_old).push(
                        line@.subrange(start as int, i as int),
                    ));
                }
            }
            start = i + 1;
            proof {
                assert(line@.subrange(start as int, start as int) =~= Seq::<char>::empty());
            }
        } else {
            proof {
                assert(line@.subrange(start as int, i as int + 1) =~= line@.subrange(
                    start as int,
                    i as int,
                ).push(line@[i as int]));
            }
        }
        i = i + 1;
    }
    if start < len {
        let ghost r_old = r@;
        r.push(String::from_str(line.substring_char(start, len)));
        proof {
            assert(views_of(r@) =~= views_of(r_old).push(
                line@.subrange(start as int, len as int),
            ));
        }
    }
    r
}

/// Whether two strings hold the same characters.
pub fn str_eqs(a: &str, b: &str) -> (r: bool)
    ensures
        r == (a@ == b@),
{
    let la = a.unicode_len();
    let lb = b.unicode_len();
    if la != lb {
        return false;
    }
    let mut i: usize = 0;
    while i < la
        invariant
            la == a@.len(),
            la == b@.len(),
            0 <= i <= la,
            forall|j: int| 0 <= j < i ==> a@[j] == b@[j],
        decreases la - i,
    {
        if a.get_char(i) != b.get_char(i) {
            return false;
        }
        i = i + 1;
    }
    proof {
        assert(a@ =~= b@);
    }
    true
}

/// A decimal digit character.
pub open spec fn is_digit(c: char) -> bool {
    '0' as int <= c as int <= '9' as int
}

/// Whether `w` is a non-empty run of decimal digits.
pub open spec fn is_digits(w: Seq<char>) -> bool {
    w.len() > 0 && forall|j: int| 0 <= j < w.len() ==> is_digit(#[trigger] w[j])
}

/// One digit's value.
pub open spec fn digit_val(c: char) -> nat {
    (c as int - '0' as int) as nat
}

/// The value of a run of decimal digits, most significant first.
pub open spec fn digits_val(w: Seq<char>) -> nat
    decreases w.len(),
{
    if w.len() == 0 {
        0
    } else {
        digits_val(w.drop_last()) * 10 + digit_val(w.last())
    }
}

/// A prefix of a digit run never exceeds the whole run's value.
proof fn lemma_digits_prefix(w: Seq<char>, i: int)
    requires
        0 <= i <= w.len(),
    ensures
        digits_val(w.take(i)) <= digits_val(w),
    decreases w.len(),
{
    if i == w.len() {
        assert(w.take(i) =~= w);
    } else {
        assert(w.take(i) =~= w.drop_last().take(i));
        lemma_digits_prefix(w.drop_last(), i);
        assert(digits_val(w.drop_last()) * 10 >= digits_val(w.drop_last())) by (nonlinear_arith);
    }
}

pub(crate) fn is_digits_exec(w: &str) -> (r: bool)
    ensures
        r == is_digits(w@),
{
    let len = w.unicode_len();
    if len == 0 {
        return false;
    }
    let mut i: usize = 0;
    while i < len
        invariant
            len == w@.len(),
            0 <= i <= len,
            forall|j: int| 0 <= j < i ==> is_digit(#[trigger] w@[j]),
        decreases len - i,
    {
        let c = w.get_char(i);
        let u = c as u32;
        if u < '0' as u32 || u > '9' as u32 {
            return false;
        }
        i = i + 1;
    }
    true
}

/// Reads a digit run as a machine integer; `None` when the value does not
/// fit the machine's integer width.
pub(crate) fn digits_value(w: &str) -> (r: Option<u64>)
    requires
        is_digits(w@),
    ensures
        match r {
            Some(v) => v as nat == digits_val(w@),
            None => digits_val(w@) > u64::MAX,
        },
{
    let len = w.unicode_len();
    let mut acc: u64 = 0;
    let mut i: usize = 0;
    proof {
        assert(w@.take(0) =~= Seq::<char>::empty());
    }
    while i < len
        invariant
            len == w@.len(),
            is_digits(w@),
            0 <= i <= len,
            acc as nat == digits_val(w@.take(i as int)),
        decreases len - i,
    {
        let c = w.get_char(i);
        let d: u64 = ((c as u32) - ('0' as u32)) as u64;
        proof {
            assert(w@.take(i as int + 1).drop_last() =~= w@.take(i as int));
            assert(w@.take(i as int + 1).last() == w@[i as int]);
        }
        let shifted = match acc.checked_mul(10) {
            Some(x) => x,
            None => {
                proof {
                    lemma_digits_prefix(w@, i as int + 1);
                }
                return None;
            },
        };
        let next = match shifted.checked_add(d) {
            Some(x) => x,
            None => {
                proof {
                    lemma_digits_prefix(w@, i as int + 1);
                }
                return None;
            },
        };
        acc = next;
        i = i + 1;
    }
    proof {
        assert(w@.take(len as int) =~= w@);
    }
    Some(acc)
}

/// Renders `n` in decimal.
pub fn dec_str_of(n: u64) -> (s: String)
    ensures
        s@ == dec_spec(n as nat),
    decreases n,
{
    if n < 10 {
        String::from_str(digit_str(n))
    } else {
        proof {
            assert(n / 10 < n) by (nonlinear_arith)
                requires
                    n >= 10,
            ;
        }
        let mut s = dec_str_of(n / 10);
        s.append(digit_str(n % 10));
        s
    }
}

} // verus!
