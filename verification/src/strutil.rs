//! Splitting, trimming and line handling over character sequences.
//!
//! Record files are line oriented and field separated, so everything the
//! parsers need reduces to splitting on a separator character, trimming
//! surrounding blanks, and cutting a text into lines.

use vstd::prelude::*;

verus! {

/// The blank characters that field trimming removes: the Unicode white-space
/// characters.
pub open spec fn is_blank(c: char) -> bool {
    ||| c == ' '
    ||| c == '\t'
    ||| c == '\n'
    ||| c == '\u{0B}'
    ||| c == '\u{0C}'
    ||| c == '\r'
    ||| c == '\u{85}'
    ||| c == '\u{A0}'
    ||| c == '\u{1680}'
    ||| ('\u{2000}' <= c && c <= '\u{200A}')
    ||| c == '\u{2028}'
    ||| c == '\u{2029}'
    ||| c == '\u{202F}'
    ||| c == '\u{205F}'
    ||| c == '\u{3000}'
}

/// Index of the first occurrence of `sep` in `s`, or `-1` when absent.
pub open spec fn find_sep(s: Seq<char>, sep: char) -> int
    decreases s.len(),
{
    if s.len() == 0 {
        -1
    } else if s[0] == sep {
        0
    } else {
        let r = find_sep(s.drop_first(), sep);
        if r == -1 {
            -1
        } else {
            r + 1
        }
    }
}

/// Where the first separator stands when the head of `s` is separator free.
pub proof fn lemma_find_sep_at(s: Seq<char>, sep: char, k: int)
    requires
        0 <= k < s.len(),
        s[k] == sep,
        forall|i: int| 0 <= i < k ==> s[i] != sep,
    ensures
        find_sep(s, sep) == k,
{
    lemma_find_sep(s, sep);
    let f = find_sep(s, sep);
    if f == -1 {
        assert(s[k] != sep);
    } else {
        if f < k {
            assert(s[f] != sep);
        }
        if k < f {
            assert(s[k] != sep);
        }
    }
}

/// A text without the separator has no first occurrence of it.
pub proof fn lemma_find_sep_none(s: Seq<char>, sep: char)
    requires
        forall|i: int| 0 <= i < s.len() ==> s[i] != sep,
    ensures
        find_sep(s, sep) == -1,
{
    lemma_find_sep(s, sep);
    let f = find_sep(s, sep);
    if f != -1 {
        assert(s[f] != sep);
    }
}

pub proof fn lemma_find_sep(s: Seq<char>, sep: char)
    ensures
        find_sep(s, sep) == -1 ==> forall|i: int| 0 <= i < s.len() ==> s[i] != sep,
        find_sep(s, sep) != -1 ==> {
            &&& 0 <= find_sep(s, sep) < s.len()
            &&& s[find_sep(s, sep)] == sep
            &&& forall|i: int| 0 <= i < find_sep(s, sep) ==> s[i] != sep
        },
    decreases s.len(),
{
    if s.len() > 0 && s[0] != sep {
        let t = s.drop_first();
        lemma_find_sep(t, sep);
        let f = find_sep(s, sep);
        if f == -1 {
            assert forall|i: int| 0 <= i < s.len() implies s[i] != sep by {
                if i >= 1 {
                    assert(t[i - 1] != sep);
                }
            }
        } else {
            assert(s[f] == t[f - 1]);
            assert forall|i: int| 0 <= i < f implies s[i] != sep by {
                if i >= 1 {
                    assert(t[i - 1] != sep);
                }
            }
        }
    }
}

/// The pieces of `s` between occurrences of `sep`; always at least one piece.
pub open spec fn split_on(s: Seq<char>, sep: char) -> Seq<Seq<char>>
    decreases s.len(),
{
    let i = find_sep(s, sep);
    if 0 <= i < s.len() {
        seq![s.take(i)] + split_on(s.skip(i + 1), sep)
    } else {
        seq![s]
    }
}

pub proof fn lemma_split_on_len(s: Seq<char>, sep: char)
    ensures
        split_on(s, sep).len() >= 1,
    decreases s.len(),
{
    let i = find_sep(s, sep);
    lemma_find_sep(s, sep);
    if i != -1 {
        lemma_split_on_len(s.skip(i + 1), sep);
    }
}

/// Splitting a text whose head (up to position `k`) holds no separator and
/// whose character at `k` is the separator yields that head followed by the
/// split of the rest.
pub proof fn lemma_split_on_step(s: Seq<char>, sep: char, k: int)
    requires
        0 <= k < s.len(),
        s[k] == sep,
        forall|i: int| 0 <= i < k ==> s[i] != sep,
    ensures
        split_on(s, sep) == seq![s.take(k)] + split_on(s.skip(k + 1), sep),
{
    lemma_find_sep(s, sep);
    let f = find_sep(s, sep);
    assert(f != -1 && s[f] == sep);
    assert(f == k) by {
        if f < k {
            assert(s[f] != sep);
        }
        if k < f {
            assert(s[k] != sep);
        }
    }
}

/// A text without the separator splits into itself alone.
pub proof fn lemma_split_on_whole(s: Seq<char>, sep: char)
    requires
        forall|i: int| 0 <= i < s.len() ==> s[i] != sep,
    ensures
        split_on(s, sep) == seq![s],
{
    lemma_find_sep(s, sep);
    let f = find_sep(s, sep);
    if f != -1 {
        assert(s[f] != sep);
    }
}

/// Splits `s` on the character `sep`, as the specification `split_on` says.
pub fn split_str(s: &str, sep: char) -> (parts: Vec<String>)
    ensures
        parts.deep_view() == split_on(s@, sep),
        parts.len() >= 1,
{
    let n: usize = s.unicode_len();
    let mut parts: Vec<String> = Vec::new();
    let mut start: usize = 0;
    let mut i: usize = 0;
    proof {
        assert(s@.skip(0) =~= s@);
        assert(parts.deep_view() + split_on(s@.skip(0), sep) =~= split_on(s@, sep));
    }
    while i < n
        invariant
            n == s@.len(),
            0 <= start <= i <= n,
            forall|j: int| start <= j < i ==> s@[j] != sep,
            split_on(s@, sep) == parts.deep_view() + split_on(s@.skip(start as int), sep),
        decreases n - i,
    {
        let c = s.get_char(i);
        if c == sep {
            let piece = s.substring_char(start, i);
            let ghost old_parts = parts.deep_view();
            parts.push(String::from_str(piece));
            proof {
                let rest = s@.skip(start as int);
                lemma_split_on_step(rest, sep, i - start);
                assert(rest.take(i - start) =~= s@.subrange(start as int, i as int));
                assert(rest.skip(i - start + 1) =~= s@.skip(i + 1));
                assert(parts.deep_view() =~= old_parts.push(piece@));
                assert(old_parts + (seq![piece@] + split_on(s@.skip(i + 1), sep)) =~= parts.deep_view()
                    + split_on(s@.skip(i + 1), sep));
            }
            start = i + 1;
        }
        i = i + 1;
    }
    let piece = s.substring_char(start, n);
    let ghost old_parts = parts.deep_view();
    parts.push(String::from_str(piece));
    proof {
        let rest = s@.skip(start as int);
        lemma_split_on_whole(rest, sep);
        assert(rest =~= s@.subrange(start as int, n as int));
        assert(parts.deep_view() =~= old_parts.push(piece@));
        assert(old_parts + seq![rest] =~= parts.deep_view());
    }
    parts
}

/// `s` without its leading blanks.
pub open spec fn trim_start_spec(s: Seq<char>) -> Seq<char>
    decreases s.len(),
{
    if s.len() > 0 && is_blank(s[0]) {
        trim_start_spec(s.drop_first())
    } else {
        s
    }
}

/// `s` without its trailing blanks.
pub open spec fn trim_end_spec(s: Seq<char>) -> Seq<char>
    decreases s.len(),
{
    if s.len() > 0 && is_blank(s[s.len() - 1]) {
        trim_end_spec(s.drop_last())
    } else {
        s
    }
}

/// `s` without leading and trailing blanks.
pub open spec fn trim_spec(s: Seq<char>) -> Seq<char> {
    trim_end_spec(trim_start_spec(s))
}

/// Trimming leaves a text alone when nothing blank stands at its ends.
pub proof fn lemma_trim_noop(s: Seq<char>)
    requires
        s.len() == 0 || (!is_blank(s[0]) && !is_blank(s[s.len() - 1])),
    ensures
        trim_spec(s) == s,
{
    assert(trim_start_spec(s) == s);
    assert(trim_end_spec(s) == s);
}

proof fn lemma_trim_start_bounds(s: Seq<char>, k: int)
    requires
        0 <= k <= s.len(),
        forall|i: int| 0 <= i < k ==> is_blank(s[i]),
        k < s.len() ==> !is_blank(s[k]),
    ensures
        trim_start_spec(s) == s.skip(k),
    decreases s.len(),
{
    if s.len() > 0 && is_blank(s[0]) {
        assert(k >= 1);
        lemma_trim_start_bounds(s.drop_first(), k - 1);
        assert(s.drop_first().skip(k - 1) == s.skip(k));
    } else {
        assert(k == 0);
        assert(s.skip(0) == s);
    }
}

proof fn lemma_trim_end_bounds(s: Seq<char>, k: int)
    requires
        0 <= k <= s.len(),
        forall|i: int| k <= i < s.len() ==> is_blank(s[i]),
        k > 0 ==> !is_blank(s[k - 1]),
    ensures
        trim_end_spec(s) == s.take(k),
    decreases s.len(),
{
    if s.len() > 0 && is_blank(s[s.len() - 1]) {
        assert(k < s.len());
        lemma_trim_end_bounds(s.drop_last(), k);
        assert(s.drop_last().take(k) == s.take(k));
    } else {
        assert(k == s.len());
        assert(s.take(k) == s);
    }
}

/// Removes leading and trailing blanks, as the specification `trim_spec` says.
pub fn trim_str(s: &str) -> (r: String)
    ensures
        r@ == trim_spec(s@),
{
    let n: usize = s.unicode_len();
    let mut lo: usize = 0;
    while lo < n && is_blank_char(s.get_char(lo))
        invariant
            n == s@.len(),
            0 <= lo <= n,
            forall|i: int| 0 <= i < lo ==> is_blank(s@[i]),
        decreases n - lo,
    {
        lo = lo + 1;
    }
    let mut hi: usize = n;
    while hi > lo && is_blank_char(s.get_char(hi - 1))
        invariant
            n == s@.len(),
            0 <= lo <= hi <= n,
            forall|i: int| 0 <= i < lo ==> is_blank(s@[i]),
            lo < n ==> !is_blank(s@[lo as int]),
            forall|i: int| hi <= i < n ==> is_blank(s@[i]),
        decreases hi,
    {
        hi = hi - 1;
    }
    let piece = s.substring_char(lo, hi);
    proof {
        lemma_trim_start_bounds(s@, lo as int);
        let t = s@.skip(lo as int);
        lemma_trim_end_bounds(t, hi - lo);
        assert(t.take(hi - lo) == s@.subrange(lo as int, hi as int));
    }
    String::from_str(piece)
}

/// Whether `c` is one of the blank characters; usable in specifications.
#[verifier::when_used_as_spec(is_blank)]
pub fn is_blank_char(c: char) -> (r: bool)
    ensures
        r == is_blank(c),
{
    c == ' ' || c == '\t' || c == '\n' || c == '\u{0B}' || c == '\u{0C}' || c == '\r' || c
        == '\u{85}' || c == '\u{A0}' || c == '\u{1680}' || ('\u{2000}' <= c && c <= '\u{200A}')
        || c == '\u{2028}' || c == '\u{2029}' || c == '\u{202F}' || c == '\u{205F}' || c
        == '\u{3000}'
}

/// A line with a trailing carriage return loses it.
pub open spec fn strip_cr(s: Seq<char>) -> Seq<char> {
    if s.len() > 0 && s[s.len() - 1] == '\r' {
        s.drop_last()
    } else {
        s
    }
}

/// The lines of a text: pieces between newlines, a final newline closing the
/// last line rather than opening an empty one, and each line free of a
/// trailing carriage return.
pub open spec fn lines_spec(s: Seq<char>) -> Seq<Seq<char>> {
    let p = split_on(s, '\n');
    let q = if p.last().len() == 0 {
        p.drop_last()
    } else {
        p
    };
    q.map_values(|line: Seq<char>| strip_cr(line))
}

/// Cuts a text into lines, as the specification `lines_spec` says.
pub fn split_lines(s: &str) -> (r: Vec<String>)
    ensures
        r.deep_view() == lines_spec(s@),
{
    let mut parts = split_str(s, '\n');
    proof {
        lemma_split_on_len(s@, '\n');
    }
    let keep_last = {
        let last = &parts[parts.len() - 1];
        last.as_str().unicode_len() > 0
    };
    if !keep_last {
        let _ = parts.pop();
        proof {
            assert(parts.deep_view() =~= split_on(s@, '\n').drop_last());
        }
    }
    let mut out: Vec<String> = Vec::new();
    let ghost q = parts.deep_view();
    let mut i: usize = 0;
    while i < parts.len()
        invariant
            q == parts.deep_view(),
            0 <= i <= parts.len(),
            out.deep_view() =~= q.take(i as int).map_values(|line: Seq<char>| strip_cr(line)),
        decreases parts.len() - i,
    {
        let line = &parts[i];
        let n: usize = line.as_str().unicode_len();
        let ghost old_out = out.deep_view();
        if n > 0 && line.as_str().get_char(n - 1) == '\r' {
            let cut = line.as_str().substring_char(0, n - 1);
            proof {
                assert(line@.subrange(0, line@.len() - 1) =~= line@.drop_last());
            }
            out.push(String::from_str(cut));
        } else {
            out.push(line.clone());
        }
        proof {
            assert(out.deep_view() =~= old_out.push(strip_cr(q[i as int])));
        }
        i = i + 1;
    }
    proof {
        assert(q.take(parts.len() as int) =~= q);
    }
    out
}

} // verus!
