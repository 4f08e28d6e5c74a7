//! Parsing of word-alignment strings: space-separated `i-j` index pairs,
//! with malformed entries skipped rather than aborting the line.

use vstd::prelude::*;
use crate::text::spec_split;
use crate::text::split_str;

verus! {

/// A decimal digit.
pub open spec fn is_digit(c: char) -> bool {
    48 <= c as u32 <= 57
}

/// The value of a decimal digit.
pub open spec fn digit_val(c: char) -> nat {
    (c as u32 - 48) as nat
}

/// A non-empty, all-digit character sequence.
pub open spec fn is_digits(s: Seq<char>) -> bool {
    s.len() >= 1 && forall|i: int| 0 <= i < s.len() ==> is_digit(#[trigger] s[i])
}

/// The numeric value of a digit sequence, most significant digit first.
pub open spec fn digits_val(s: Seq<char>) -> nat
    decreases s.len(),
{
    if s.len() == 0 {
        0
    } else {
        digits_val(s.drop_last()) * 10 + digit_val(s.last())
    }
}

/// Extending a digit sequence never lowers its value.
proof fn lemma_digits_val_take_le(s: Seq<char>, m: int, n: int)
    requires
        0 <= m <= n <= s.len(),
    ensures
        digits_val(s.take(m)) <= digits_val(s.take(n)),
    decreases n - m,
{
    if m < n {
        lemma_digits_val_take_le(s, m, n - 1);
        assert(s.take(n).drop_last() =~= s.take(n - 1));
    }
}

/// Parses a decimal index: `Some` exactly when `s` is one or more digits
/// whose value fits in `usize`.
#[verifier::loop_isolation(false)]
pub fn parse_index(s: &str) -> (r: Option<usize>)
    ensures
        r == (if is_digits(s@) && digits_val(s@) <= usize::MAX {
            Some(digits_val(s@) as usize)
        } else {
            None::<usize>
        }),
{
    let n = s.unicode_len();
    if n == 0 {
        return None;
    }
    let mut val: usize = 0;
    let mut i: usize = 0;
    while i < n
        invariant
            i <= n,
            forall|p: int| 0 <= p < i ==> is_digit(#[trigger] s@[p]),
            val == digits_val(s@.take(i as int)),
        decreases n - i,
    {
        let c = s.get_char(i);
        let u = c as u32;
        if u < 48 || u > 57 {
            assert(!is_digit(s@[i as int]));
            return None;
        }
        let d = (u - 48) as usize;
        proof {
            assert(s@.take(i as int + 1).drop_last() =~= s@.take(i as int));
            assert(s@.take(i as int + 1).last() == s@[i as int]);
        }
        if val > (usize::MAX - d) / 10 {
            proof {
                let m = usize::MAX as int;
                let q = (m - d) / 10;
                assert(m - d == 10 * q + (m - d) % 10);
                assert(digits_val(s@.take(i as int + 1)) > usize::MAX);
                lemma_digits_val_take_le(s@, i as int + 1, n as int);
                assert(s@.take(n as int) =~= s@);
            }
            return None;
        }
        proof {
            let m = usize::MAX as int;
            let q = (m - d) / 10;
            assert(m - d == 10 * q + (m - d) % 10);
            assert(val * 10 + d <= usize::MAX);
        }
        val = val * 10 + d;
        i += 1;
    }
    assert(s@.take(n as int) =~= s@);
    Some(val)
}

/// The hyphen separating the two indices of an alignment token.
pub open spec fn hyphen() -> Seq<char> {
    seq!['-']
}

/// The alignment point denoted by token `t`: `Some` exactly when `t` has the
/// form `i-j` with two digit runs whose values fit in `usize`.
pub open spec fn spec_align_token(t: Seq<char>) -> Option<(usize, usize)> {
    let parts = spec_split(t, hyphen());
    if parts.len() == 2 && is_digits(parts[0]) && digits_val(parts[0]) <= usize::MAX && is_digits(
        parts[1],
    ) && digits_val(parts[1]) <= usize::MAX {
        Some((digits_val(parts[0]) as usize, digits_val(parts[1]) as usize))
    } else {
        None
    }
}

/// The alignment points of the well-formed tokens, in order.
pub open spec fn spec_entries(ts: Seq<Seq<char>>) -> Seq<(usize, usize)>
    decreases ts.len(),
{
    if ts.len() == 0 {
        Seq::empty()
    } else {
        spec_entries(ts.drop_last()) + (match spec_align_token(ts.last()) {
            Some(p) => seq![p],
            None => Seq::empty(),
        })
    }
}

/// The alignment points denoted by `s`: fields split on single spaces, each
/// well-formed `i-j` field contributing one point, malformed fields skipped.
pub open spec fn spec_convert(s: Seq<char>) -> Seq<(usize, usize)> {
    spec_entries(spec_split(s, seq![' ']))
}

/// Parses one alignment token of the form `i-j`.
pub fn parse_align_token(t: &str) -> (r: Option<(usize, usize)>)
    ensures
        r == spec_align_token(t@),
{
    proof {
        reveal_strlit("-");
        assert("-"@ =~= hyphen());
    }
    let parts = split_str(t, "-");
    if parts.len() != 2 {
        assert(parts.deep_view().len() != 2);
        return None;
    }
    assert(parts.deep_view()[0] == parts@[0]@ && parts.deep_view()[1] == parts@[1]@);
    let a = parse_index(parts[0].as_str());
    let b = parse_index(parts[1].as_str());
    match (a, b) {
        (Some(x), Some(y)) => Some((x, y)),
        _ => None,
    }
}

/// Parses an alignment string: space-separated `i-j` tokens, each well-formed
/// token yielding one alignment point, malformed tokens skipped.
#[verifier::loop_isolation(false)]
pub fn convert_alignment(a: &str) -> (r: Vec<(usize, usize)>)
    ensures
        r@ == spec_convert(a@),
{
    proof {
        reveal_strlit(" ");
        assert(" "@ =~= seq![' ']);
    }
    let toks = split_str(a, " ");
    let ghost tv = toks.deep_view();
    let mut r: Vec<(usize, usize)> = Vec::new();
    let mut i: usize = 0;
    while i < toks.len()
        invariant
            i <= toks@.len(),
            r@ == spec_entries(tv.take(i as int)),
        decreases toks@.len() - i,
    {
        assert(tv[i as int] == toks@[i as int]@);
        let p = parse_align_token(toks[i].as_str());
        proof {
            assert(tv.take(i as int + 1).drop_last() =~= tv.take(i as int));
            assert(tv.take(i as int + 1).last() == tv[i as int]);
        }
        match p {
            Some(point) => {
                r.push(point);
            },
            None => {},
        }
        i += 1;
    }
    assert(tv.take(toks@.len() as int) =~= tv);
    r
}

} // verus!
