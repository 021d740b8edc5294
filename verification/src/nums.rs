//! Decimal reading and writing of the numbers that record lines hold: card
//! ids, timestamps, and review factors in hundredths of a day.
//!
//! Each exec function is specified against a small recursive definition of the
//! decimal notation, and round-trip lemmas show that what is written can be
//! read back unchanged.

use vstd::prelude::*;

use crate::strutil::{find_sep, lemma_find_sep_at, lemma_find_sep_none};

verus! {

/// Whether `c` is a decimal digit.
pub open spec fn is_digit(c: char) -> bool {
    48 <= c as u32 <= 57
}

/// The value of a digit character.
pub open spec fn digit_val(c: char) -> nat {
    (c as u32 - 48) as nat
}

/// The character for a digit value below ten.
pub open spec fn digit_char(d: nat) -> char {
    if d == 0 {
        '0'
    } else if d == 1 {
        '1'
    } else if d == 2 {
        '2'
    } else if d == 3 {
        '3'
    } else if d == 4 {
        '4'
    } else if d == 5 {
        '5'
    } else if d == 6 {
        '6'
    } else if d == 7 {
        '7'
    } else if d == 8 {
        '8'
    } else {
        '9'
    }
}

/// The decimal notation of `n`, without sign and without leading zeros
/// (except for `n == 0` itself).
pub open spec fn dec_rep(n: nat) -> Seq<char>
    decreases n,
{
    if n < 10 {
        seq![digit_char(n)]
    } else {
        dec_rep(n / 10).push(digit_char(n % 10))
    }
}

/// The decimal notation of a possibly negative number.
pub open spec fn int_rep(n: int) -> Seq<char> {
    if n < 0 {
        seq!['-'] + dec_rep((-n) as nat)
    } else {
        dec_rep(n as nat)
    }
}

/// Whether every character of `s` is a decimal digit.
pub open spec fn all_digits(s: Seq<char>) -> bool {
    forall|i: int| 0 <= i < s.len() ==> is_digit(s[i])
}

/// The number that a digit string denotes.
pub open spec fn digits_val(s: Seq<char>) -> nat
    decreases s.len(),
{
    if s.len() == 0 {
        0
    } else {
        digits_val(s.drop_last()) * 10 + digit_val(s.last())
    }
}

/// An unsigned decimal number: digits, at least one, after an optional plus
/// sign.
pub open spec fn parse_uint(s: Seq<char>) -> Option<nat> {
    let t = if s.len() >= 1 && s[0] == '+' {
        s.drop_first()
    } else {
        s
    };
    if t.len() >= 1 && all_digits(t) {
        Some(digits_val(t))
    } else {
        None
    }
}

/// A signed decimal number: an unsigned one, negated by a leading minus sign.
pub open spec fn parse_int(s: Seq<char>) -> Option<int> {
    if s.len() >= 1 && s[0] == '-' {
        let t = s.drop_first();
        if t.len() >= 1 && all_digits(t) {
            Some(-(digits_val(t) as int))
        } else {
            None
        }
    } else {
        match parse_uint(s) {
            Some(v) => Some(v as int),
            None => None,
        }
    }
}

/// A day factor in hundredths: digits, optionally followed by a point and at
/// most two fraction digits.
pub open spec fn parse_centi(s: Seq<char>) -> Option<nat> {
    let dot = find_sep(s, '.');
    if dot == -1 {
        match parse_uint(s) {
            Some(v) => Some(v * 100),
            None => None,
        }
    } else {
        let ip = s.take(dot);
        let fp = s.skip(dot + 1);
        if ip.len() >= 1 && all_digits(ip) && fp.len() <= 2 && all_digits(fp) {
            let scale: nat = if fp.len() == 1 {
                10
            } else {
                1
            };
            Some(digits_val(ip) * 100 + digits_val(fp) * scale)
        } else {
            None
        }
    }
}

/// The notation this crate writes for a factor of `f` hundredths: whole days,
/// a point, and exactly two fraction digits.
pub open spec fn centi_rep(f: nat) -> Seq<char> {
    dec_rep(f / 100) + seq!['.', digit_char((f % 100) / 10), digit_char((f % 100) % 10)]
}

/// The decimal notation consists of digits and denotes the number itself.
pub proof fn lemma_dec_rep(n: nat)
    ensures
        dec_rep(n).len() >= 1,
        all_digits(dec_rep(n)),
        digits_val(dec_rep(n)) == n,
    decreases n,
{
    if n < 10 {
        let s = dec_rep(n);
        assert(s == seq![digit_char(n)]);
        assert(is_digit(digit_char(n)));
        assert(digit_val(digit_char(n)) == n);
        assert(s.drop_last() =~= Seq::<char>::empty());
        assert(digits_val(Seq::<char>::empty()) == 0);
        assert(s.last() == digit_char(n));
        assert(digits_val(s) == n);
    } else {
        lemma_dec_rep(n / 10);
        let p = dec_rep(n / 10);
        let s = dec_rep(n);
        let d = digit_char(n % 10);
        assert(s == p.push(d));
        assert(s.drop_last() =~= p);
        assert(s.last() == d);
        assert(digit_val(d) == n % 10);
        assert(digits_val(s) == (n / 10) * 10 + n % 10);
        assert((n / 10) * 10 + n % 10 == n) by (nonlinear_arith);
        assert forall|i: int| 0 <= i < s.len() implies is_digit(s[i]) by {
            if i < p.len() {
                assert(is_digit(p[i]));
            }
        }
    }
}

/// A longer digit prefix never denotes a smaller number.
pub proof fn lemma_digits_val_take_mono(s: Seq<char>, i: int, j: int)
    requires
        0 <= i <= j <= s.len(),
    ensures
        digits_val(s.take(i)) <= digits_val(s.take(j)),
    decreases j - i,
{
    if i < j {
        lemma_digits_val_take_mono(s, i, j - 1);
        let t = s.take(j);
        assert(t.drop_last() =~= s.take(j - 1));
        assert(digits_val(s.take(j - 1)) * 10 >= digits_val(s.take(j - 1))) by (nonlinear_arith);
    }
}

/// Reading back the decimal notation of `n` yields `n`.
pub proof fn lemma_parse_uint_dec_rep(n: nat)
    ensures
        parse_uint(dec_rep(n)) == Some(n),
{
    lemma_dec_rep(n);
    let s = dec_rep(n);
    assert(is_digit(s[0]));
    assert(s[0] != '+');
}

/// Reading back the signed decimal notation of `n` yields `n`.
pub proof fn lemma_parse_int_int_rep(n: int)
    ensures
        parse_int(int_rep(n)) == Some(n),
{
    if n < 0 {
        let m = (-n) as nat;
        lemma_dec_rep(m);
        let s = int_rep(n);
        assert(s[0] == '-');
        assert(s.drop_first() =~= dec_rep(m));
    } else {
        lemma_dec_rep(n as nat);
        let s = dec_rep(n as nat);
        assert(is_digit(s[0]));
        assert(s[0] != '-');
        lemma_parse_uint_dec_rep(n as nat);
    }
}

/// Reading back the written factor notation of `f` yields `f`.
pub proof fn lemma_parse_centi_rep(f: nat)
    ensures
        parse_centi(centi_rep(f)) == Some(f),
{
    lemma_dec_rep(f / 100);
    let w = dec_rep(f / 100);
    let s = centi_rep(f);
    let k = w.len() as int;
    assert(s[k] == '.');
    assert forall|i: int| 0 <= i < k implies s[i] != '.' by {
        assert(is_digit(w[i]));
        assert(s[i] == w[i]);
    }
    lemma_find_sep_at(s, '.', k);
    let ip = s.take(k);
    let fp = s.skip(k + 1);
    assert(ip =~= w);
    let d1 = digit_char((f % 100) / 10);
    let d2 = digit_char((f % 100) % 10);
    assert(fp =~= seq![d1, d2]);
    assert(is_digit(d1) && is_digit(d2));
    assert(all_digits(fp));
    assert(fp.drop_last() =~= seq![d1]);
    assert(fp.last() == d2);
    assert(seq![d1].drop_last() =~= Seq::<char>::empty());
    assert(seq![d1].last() == d1);
    assert(digits_val(Seq::<char>::empty()) == 0);
    assert(digits_val(seq![d1]) == digit_val(d1));
    assert(digits_val(fp) == digit_val(d1) * 10 + digit_val(d2));
    assert(digit_val(d1) == (f % 100) / 10 && digit_val(d2) == (f % 100) % 10);
    assert(((f % 100) / 10) * 10 + (f % 100) % 10 == f % 100) by (nonlinear_arith);
    assert((f / 100) * 100 + f % 100 == f) by (nonlinear_arith);
}

/// The digit characters zero to nine, as string slices.
fn digit_to_str(d: u64) -> (r: &'static str)
    requires
        d < 10,
    ensures
        r@ =~= seq![digit_char(d as nat)],
{
    proof {
        reveal_strlit("0");
        reveal_strlit("1");
        reveal_strlit("2");
        reveal_strlit("3");
        reveal_strlit("4");
        reveal_strlit("5");
        reveal_strlit("6");
        reveal_strlit("7");
        reveal_strlit("8");
        reveal_strlit("9");
    }
    match d {
        0 => "0",
        1 => "1",
        2 => "2",
        3 => "3",
        4 => "4",
        5 => "5",
        6 => "6",
        7 => "7",
        8 => "8",
        _ => "9",
    }
}

/// Writes `n` in decimal, as the specification `dec_rep` says.
pub fn u64_to_string(n: u64) -> (r: String)
    ensures
        r@ == dec_rep(n as nat),
    decreases n,
{
    if n < 10 {
        String::from_str(digit_to_str(n))
    } else {
        let mut s = u64_to_string(n / 10);
        s.append(digit_to_str(n % 10));
        proof {
            assert(s@ =~= dec_rep((n / 10) as nat).push(digit_char((n % 10) as nat)));
        }
        s
    }
}

/// Writes `n` in decimal with its sign, as the specification `int_rep` says.
pub fn i64_to_string(n: i64) -> (r: String)
    requires
        n > i64::MIN,
    ensures
        r@ == int_rep(n as int),
{
    if n < 0 {
        let mut s = String::from_str("-");
        let digits = u64_to_string((-n) as u64);
        s.append(digits.as_str());
        proof {
            reveal_strlit("-");
            assert(s@ =~= seq!['-'] + dec_rep((-(n as int)) as nat));
        }
        s
    } else {
        u64_to_string(n as u64)
    }
}

/// Writes a factor of `f` hundredths, as the specification `centi_rep` says.
pub fn centi_to_string(f: u64) -> (r: String)
    ensures
        r@ == centi_rep(f as nat),
{
    let mut s = u64_to_string(f / 100);
    let rem: u64 = f % 100;
    s.append(".");
    s.append(digit_to_str(rem / 10));
    s.append(digit_to_str(rem % 10));
    proof {
        reveal_strlit(".");
        assert(s@ =~= centi_rep(f as nat));
    }
    s
}

/// Reads a string of decimal digits; `None` when the string is empty, holds a
/// non-digit, or denotes a number above `u64::MAX`.
fn parse_digits_u64(s: &str) -> (r: Option<u64>)
    ensures
        r == (if s@.len() >= 1 && all_digits(s@) && digits_val(s@) <= u64::MAX {
            Some(digits_val(s@) as u64)
        } else {
            None::<u64>
        }),
{
    let n: usize = s.unicode_len();
    if n == 0 {
        return None;
    }
    let mut v: u64 = 0;
    let mut i: usize = 0;
    proof {
        assert(s@.take(0) =~= Seq::<char>::empty());
    }
    while i < n
        invariant
            n == s@.len(),
            0 <= i <= n,
            all_digits(s@.take(i as int)),
            v == digits_val(s@.take(i as int)),
        decreases n - i,
    {
        let c = s.get_char(i);
        let cu: u32 = c as u32;
        if cu < 48 || cu > 57 {
            assert(!is_digit(s@[i as int]));
            return None;
        }
        let d: u64 = (cu - 48) as u64;
        let ghost pre = s@.take(i as int);
        let ghost cur = s@.take(i + 1);
        proof {
            assert(cur.drop_last() =~= pre);
            assert(cur.last() == s@[i as int]);
        }
        let step = match v.checked_mul(10) {
            Some(x) => x.checked_add(d),
            None => None,
        };
        match step {
            Some(x) => {
                v = x;
            },
            None => {
                proof {
                    assert(digits_val(cur) > u64::MAX);
                    if all_digits(s@) && digits_val(s@) <= u64::MAX {
                        lemma_digits_val_take_mono(s@, i + 1, n as int);
                        assert(s@.take(n as int) =~= s@);
                    }
                }
                return None;
            },
        }
        i = i + 1;
    }
    proof {
        assert(s@.take(n as int) =~= s@);
    }
    Some(v)
}

/// Reads an unsigned number for a card id, as the specification `parse_uint`
/// says; `None` also when the value does not fit a `usize`.
pub fn parse_usize_str(s: &str) -> (r: Option<usize>)
    ensures
        r == (match parse_uint(s@) {
            Some(v) => if v <= usize::MAX {
                Some(v as usize)
            } else {
                None::<usize>
            },
            None => None::<usize>,
        }),
{
    let n: usize = s.unicode_len();
    let body = if n >= 1 && s.get_char(0) == '+' {
        proof {
            assert(s@.subrange(1, n as int) =~= s@.drop_first());
        }
        s.substring_char(1, n)
    } else {
        s
    };
    match parse_digits_u64(body) {
        Some(v) => {
            if v <= usize::MAX as u64 {
                Some(v as usize)
            } else {
                None
            }
        },
        None => None,
    }
}

/// Reads a signed number for a timestamp, as the specification `parse_int`
/// says; `None` also when the value does not fit an `i64`.
pub fn parse_i64_str(s: &str) -> (r: Option<i64>)
    ensures
        r == (match parse_int(s@) {
            Some(v) => if i64::MIN <= v <= i64::MAX {
                Some(v as i64)
            } else {
                None::<i64>
            },
            None => None::<i64>,
        }),
{
    let n: usize = s.unicode_len();
    if n >= 1 && s.get_char(0) == '-' {
        proof {
            assert(s@.subrange(1, n as int) =~= s@.drop_first());
        }
        let body = s.substring_char(1, n);
        match parse_digits_u64(body) {
            Some(v) => {
                if v <= i64::MAX as u64 {
                    Some(-(v as i64))
                } else if v == i64::MAX as u64 + 1 {
                    Some(i64::MIN)
                } else {
                    None
                }
            },
            None => None,
        }
    } else {
        match parse_usize_like_u64(s) {
            Some(v) => {
                if v <= i64::MAX as u64 {
                    Some(v as i64)
                } else {
                    None
                }
            },
            None => None,
        }
    }
}

/// Reads an unsigned number, allowing a leading plus sign, into a `u64`.
fn parse_usize_like_u64(s: &str) -> (r: Option<u64>)
    ensures
        r == (match parse_uint(s@) {
            Some(v) => if v <= u64::MAX {
                Some(v as u64)
            } else {
                None::<u64>
            },
            None => None::<u64>,
        }),
{
    let n: usize = s.unicode_len();
    let body = if n >= 1 && s.get_char(0) == '+' {
        proof {
            assert(s@.subrange(1, n as int) =~= s@.drop_first());
        }
        s.substring_char(1, n)
    } else {
        s
    };
    parse_digits_u64(body)
}

/// Reads a factor notation into hundredths, as the specification
/// `parse_centi` says; `None` also when the value does not fit a `u64`.
pub fn parse_centi_str(s: &str) -> (r: Option<u64>)
    ensures
        r == (match parse_centi(s@) {
            Some(v) => if v <= u64::MAX {
                Some(v as u64)
            } else {
                None::<u64>
            },
            None => None::<u64>,
        }),
{
    let n: usize = s.unicode_len();
    let mut dot: usize = n;
    let mut i: usize = 0;
    while i < n && dot == n
        invariant
            n == s@.len(),
            0 <= i <= n,
            0 <= dot <= n,
            dot == n ==> forall|j: int| 0 <= j < i ==> s@[j] != '.',
            dot < n ==> {
                &&& s@[dot as int] == '.'
                &&& forall|j: int| 0 <= j < dot ==> s@[j] != '.'
            },
        decreases n - i,
    {
        if s.get_char(i) == '.' {
            dot = i;
        }
        i = i + 1;
    }
    if dot == n {
        proof {
            lemma_find_sep_none(s@, '.');
        }
        match parse_usize_like_u64(s) {
            Some(v) => {
                match v.checked_mul(100) {
                    Some(x) => Some(x),
                    None => None,
                }
            },
            None => None,
        }
    } else {
        proof {
            lemma_find_sep_at(s@, '.', dot as int);
        }
        let ip = s.substring_char(0, dot);
        let fp = s.substring_char(dot + 1, n);
        proof {
            assert(ip@ =~= s@.take(dot as int));
            assert(fp@ =~= s@.skip(dot + 1));
        }
        let flen: usize = fp.unicode_len();
        if flen > 2 {
            return None;
        }
        let iv: u64 = match parse_digits_u64(ip) {
            Some(v) => v,
            None => {
                return None;
            },
        };
        let fv: u64 = match parse_digits_u64(fp) {
            Some(v) => v,
            None => {
                if flen == 0 {
                    0
                } else {
                    return None;
                }
            },
        };
        proof {
            if flen == 0 {
                assert(fp@ =~= Seq::<char>::empty());
            }
            assert(fv == digits_val(fp@));
        }
        let scaled_frac: u64 = if flen == 1 {
            proof {
                assert(fp@.drop_last() =~= Seq::<char>::empty());
                assert(digits_val(Seq::<char>::empty()) == 0);
                assert(is_digit(fp@.last()));
                assert(digits_val(fp@) == digit_val(fp@.last()));
                assert(fv <= 9);
            }
            fv * 10
        } else {
            fv
        };
        let whole = match iv.checked_mul(100) {
            Some(x) => x.checked_add(scaled_frac),
            None => None,
        };
        match whole {
            Some(x) => Some(x),
            None => None,
        }
    }
}

} // verus!
