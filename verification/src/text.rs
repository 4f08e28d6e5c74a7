//! Text primitives: whitespace tokenization, splitting on a separator,
//! trimming, and joining tokens with single spaces.

use vstd::prelude::*;

verus! {

/// Whitespace, the characters on which sentences are tokenized: the Unicode
/// White_Space set — tab through carriage return (including vertical tab and
/// form feed), space, next line, no-break space, ogham space mark, the en
/// quad through hair space range, line and paragraph separators, narrow
/// no-break space, medium mathematical space, and ideographic space.
pub open spec fn is_space(c: char) -> bool {
    let u = c as u32;
    ||| u == 0x09
    ||| u == 0x0A
    ||| u == 0x0B
    ||| u == 0x0C
    ||| u == 0x0D
    ||| u == 0x20
    ||| u == 0x85
    ||| u == 0xA0
    ||| u == 0x1680
    ||| (0x2000 <= u && u <= 0x200A)
    ||| u == 0x2028
    ||| u == 0x2029
    ||| u == 0x202F
    ||| u == 0x205F
    ||| u == 0x3000
}

/// Whether `c` is whitespace.
pub fn space_char(c: char) -> (b: bool)
    ensures
        b == is_space(c),
{
    let u = c as u32;
    u == 0x09 || u == 0x0A || u == 0x0B || u == 0x0C || u == 0x0D || u == 0x20 || u == 0x85 || u
        == 0xA0 || u == 0x1680 || (0x2000 <= u && u <= 0x200A) || u == 0x2028 || u == 0x2029 || u
        == 0x202F || u == 0x205F || u == 0x3000
}

/// Whether the character at position `i` of `s` is whitespace.
pub fn space_char_at(s: &str, i: usize) -> (b: bool)
    requires
        i < s@.len(),
    ensures
        b == is_space(s@[i as int]),
{
    space_char(s.get_char(i))
}

/// The whitespace tokens of `s[i..]`: the maximal runs of non-whitespace
/// characters, in order.
pub open spec fn spec_tokens_from(s: Seq<char>, i: int) -> Seq<Seq<char>>
    decreases s.len() - i,
{
    if i < 0 || i >= s.len() {
        Seq::empty()
    } else if is_space(s[i]) {
        spec_tokens_from(s, i + 1)
    } else {
        let rest = spec_tokens_from(s, i + 1);
        if i + 1 < s.len() && !is_space(s[i + 1]) {
            // s[i] continues the token that begins the rest.
            seq![seq![s[i]] + rest[0]] + rest.skip(1)
        } else {
            seq![seq![s[i]]] + rest
        }
    }
}

/// The whitespace tokens of `s`.
pub open spec fn spec_tokens(s: Seq<char>) -> Seq<Seq<char>> {
    spec_tokens_from(s, 0)
}

/// A run of non-whitespace from `i` up to the boundary `j` forms one token,
/// followed by the tokens of the remainder.
proof fn lemma_tokens_from_run(s: Seq<char>, i: int, j: int)
    requires
        0 <= i < j <= s.len(),
        forall|p: int| i <= p < j ==> !is_space(s[p]),
        j == s.len() || is_space(s[j]),
    ensures
        spec_tokens_from(s, i) == seq![s.subrange(i, j)] + spec_tokens_from(s, j),
    decreases j - i,
{
    if i + 1 == j {
        assert(s.subrange(i, j) =~= seq![s[i]]);
        assert(seq![s.subrange(i, j)] + spec_tokens_from(s, j) =~= spec_tokens_from(s, i));
    } else {
        lemma_tokens_from_run(s, i + 1, j);
        let rest = spec_tokens_from(s, i + 1);
        assert(rest[0] == s.subrange(i + 1, j));
        assert(seq![s[i]] + rest[0] =~= s.subrange(i, j));
        assert(rest.skip(1) =~= spec_tokens_from(s, j));
        assert(spec_tokens_from(s, i) =~= seq![s.subrange(i, j)] + spec_tokens_from(s, j));
    }
}

/// Splits `text` into its whitespace tokens: the maximal runs of
/// non-whitespace characters, in order, with all whitespace discarded.
#[verifier::loop_isolation(false)]
pub fn whitespace_tokenizer(text: &str) -> (r: Vec<String>)
    ensures
        r.deep_view() == spec_tokens(text@),
{
    let n = text.unicode_len();
    let mut r: Vec<String> = Vec::new();
    let mut i: usize = 0;
    while i < n
        invariant
            i <= n,
            r.deep_view() + spec_tokens_from(text@, i as int) == spec_tokens(text@),
        decreases n - i,
    {
        if space_char_at(text, i) {
            i += 1;
        } else {
            let mut j: usize = i + 1;
            while j < n && !space_char_at(text, j)
                invariant
                    i < j <= n,
                    forall|p: int| i <= p < j ==> !is_space(text@[p]),
                decreases n - j,
            {
                j += 1;
            }
            let tok = text.substring_char(i, j).to_owned();
            proof {
                lemma_tokens_from_run(text@, i as int, j as int);
                let ghost r_old = r.deep_view();
                assert(r_old.push(tok@) + spec_tokens_from(text@, j as int) =~= r_old + (seq![
                    text@.subrange(i as int, j as int),
                ] + spec_tokens_from(text@, j as int)));
            }
            let ghost r_old = r.deep_view();
            r.push(tok);
            assert(r.deep_view() =~= r_old.push(tok@));
            i = j;
        }
    }
    assert(r.deep_view() =~= r.deep_view() + spec_tokens_from(text@, n as int));
    r
}

/// A well-formed token: non-empty and free of whitespace. Whitespace
/// tokenization yields exactly such tokens.
pub open spec fn wf_token(t: Seq<char>) -> bool {
    t.len() >= 1 && forall|i: int| 0 <= i < t.len() ==> !is_space(#[trigger] t[i])
}

/// Every element is a well-formed token.
pub open spec fn wf_tokens(ts: Seq<Seq<char>>) -> bool {
    forall|i: int| 0 <= i < ts.len() ==> wf_token(#[trigger] ts[i])
}

/// Tokenizing from a non-whitespace position yields at least one token.
proof fn lemma_tokens_from_nonempty(s: Seq<char>, i: int)
    requires
        0 <= i < s.len(),
        !is_space(s[i]),
    ensures
        spec_tokens_from(s, i).len() >= 1,
{
}

/// The tokens of any text are well-formed.
proof fn lemma_tokens_from_wf(s: Seq<char>, i: int)
    ensures
        wf_tokens(spec_tokens_from(s, i)),
    decreases s.len() - i,
{
    if i < 0 || i >= s.len() {
    } else if is_space(s[i]) {
        lemma_tokens_from_wf(s, i + 1);
    } else {
        lemma_tokens_from_wf(s, i + 1);
        let rest = spec_tokens_from(s, i + 1);
        let out = spec_tokens_from(s, i);
        if i + 1 < s.len() && !is_space(s[i + 1]) {
            lemma_tokens_from_nonempty(s, i + 1);
            let first = seq![s[i]] + rest[0];
            assert(wf_token(first)) by {
                assert(wf_token(rest[0]));
                assert forall|p: int| 0 <= p < first.len() implies !is_space(first[p]) by {
                    if p > 0 {
                        assert(first[p] == rest[0][p - 1]);
                    }
                }
            }
            assert forall|t: int| 0 <= t < out.len() implies wf_token(out[t]) by {
                if t > 0 {
                    assert(out[t] == rest.skip(1)[t - 1]);
                    assert(rest.skip(1)[t - 1] == rest[t]);
                }
            }
        } else {
            assert(wf_token(seq![s[i]]));
            assert forall|t: int| 0 <= t < out.len() implies wf_token(out[t]) by {
                if t > 0 {
                    assert(out[t] == rest[t - 1]);
                }
            }
        }
    }
}

/// Law-support: whitespace tokenization yields only well-formed tokens,
/// non-empty and free of whitespace.
pub proof fn lemma_tokens_wf(s: Seq<char>)
    ensures
        wf_tokens(spec_tokens(s)),
{
    lemma_tokens_from_wf(s, 0);
}

/// Tokenizing from position `i` is tokenizing the suffix that starts there.
proof fn lemma_tokens_from_shift(s: Seq<char>, i: int)
    requires
        0 <= i <= s.len(),
    ensures
        spec_tokens_from(s, i) == spec_tokens(s.skip(i)),
    decreases s.len() - i,
{
    let t = s.skip(i);
    if i == s.len() {
        assert(spec_tokens_from(s, i) == spec_tokens(t));
    } else {
        assert(t[0] == s[i]);
        lemma_tokens_from_shift(s, i + 1);
        lemma_tokens_from_shift(t, 1);
        assert(t.skip(1) =~= s.skip(i + 1));
        if is_space(s[i]) {
            assert(spec_tokens(t) == spec_tokens_from(t, 1));
        } else {
            let rest = spec_tokens_from(s, i + 1);
            assert(spec_tokens_from(t, 1) == rest);
            if i + 1 < s.len() {
                assert(t[1] == s[i + 1]);
            }
            if i + 1 < s.len() && !is_space(s[i + 1]) {
                assert(spec_tokens_from(s, i) == seq![seq![s[i]] + rest[0]] + rest.skip(1));
                assert(spec_tokens(t) == seq![seq![t[0]] + rest[0]] + rest.skip(1));
            } else {
                assert(spec_tokens_from(s, i) == seq![seq![s[i]]] + rest);
                assert(spec_tokens(t) == seq![seq![t[0]]] + rest);
            }
        }
    }
}

/// Unfolding a join at the front: the first token, a space, and the join of
/// the rest.
proof fn lemma_join_front(ts: Seq<Seq<char>>)
    requires
        ts.len() >= 2,
    ensures
        spec_join(ts) == ts[0] + seq![' '] + spec_join(ts.skip(1)),
    decreases ts.len(),
{
    if ts.len() == 2 {
        assert(ts.drop_last() =~= seq![ts[0]]);
        assert(ts.skip(1) =~= seq![ts[1]]);
        assert(spec_join(seq![ts[0]]) == ts[0]);
        assert(spec_join(seq![ts[1]]) == ts[1]);
    } else {
        let dl = ts.drop_last();
        lemma_join_front(dl);
        assert(ts.skip(1).drop_last() =~= dl.skip(1));
        assert(ts.skip(1).last() == ts.last());
        assert(dl[0] == ts[0]);
        assert(spec_join(ts.skip(1)) == spec_join(dl.skip(1)) + seq![' '] + ts.last());
        assert((ts[0] + seq![' '] + spec_join(dl.skip(1))) + seq![' '] + ts.last() =~= ts[0]
            + seq![' '] + (spec_join(dl.skip(1)) + seq![' '] + ts.last()));
    }
}

/// Law-support: joining well-formed tokens with single spaces and tokenizing
/// the result gives the tokens back — a phrase's token count is its span
/// length.
pub proof fn lemma_join_retokenizes(ts: Seq<Seq<char>>)
    requires
        wf_tokens(ts),
    ensures
        spec_tokens(spec_join(ts)) == ts,
    decreases ts.len(),
{
    if ts.len() == 0 {
        assert(spec_tokens(spec_join(ts)) =~= ts);
    } else if ts.len() == 1 {
        let t = ts[0];
        assert(wf_token(t));
        lemma_tokens_from_run(t, 0, t.len() as int);
        assert(t.subrange(0, t.len() as int) =~= t);
        assert(spec_tokens(t) =~= ts);
    } else {
        lemma_join_front(ts);
        let s = spec_join(ts);
        let t0 = ts[0];
        assert(wf_token(t0));
        let n0 = t0.len() as int;
        assert forall|p: int| 0 <= p < n0 implies !is_space(s[p]) by {
            assert(s[p] == t0[p]);
        }
        assert(s[n0] == ' ');
        lemma_tokens_from_run(s, 0, n0);
        assert(s.subrange(0, n0) =~= t0);
        assert(spec_tokens_from(s, n0) == spec_tokens_from(s, n0 + 1));
        lemma_tokens_from_shift(s, n0 + 1);
        assert(s.skip(n0 + 1) =~= spec_join(ts.skip(1)));
        assert(wf_tokens(ts.skip(1))) by {
            assert forall|p: int| 0 <= p < ts.skip(1).len() implies wf_token(ts.skip(1)[p]) by {
                assert(ts.skip(1)[p] == ts[p + 1]);
            }
        }
        lemma_join_retokenizes(ts.skip(1));
        assert(spec_tokens(s) =~= seq![t0] + ts.skip(1));
        assert(seq![t0] + ts.skip(1) =~= ts);
    }
}

/// An occurrence of `sep` begins at position `i` of `s`.
pub open spec fn sep_at(s: Seq<char>, sep: Seq<char>, i: int) -> bool {
    0 <= i && i + sep.len() <= s.len() && s.subrange(i, i + sep.len() as int) == sep
}

/// The fields of `s[i..]` split on `sep`: the leftmost occurrence ends the
/// current field, and the scan resumes after it. Always at least one field.
pub open spec fn spec_split_from(s: Seq<char>, sep: Seq<char>, i: int) -> Seq<Seq<char>>
    decreases s.len() - i,
{
    if sep.len() < 1 || i < 0 || i > s.len() {
        Seq::empty()
    } else if sep_at(s, sep, i) {
        seq![Seq::<char>::empty()] + spec_split_from(s, sep, i + sep.len() as int)
    } else if i == s.len() {
        seq![Seq::<char>::empty()]
    } else {
        let rest = spec_split_from(s, sep, i + 1);
        seq![seq![s[i]] + rest[0]] + rest.skip(1)
    }
}

/// The fields of `s` split on `sep`.
pub open spec fn spec_split(s: Seq<char>, sep: Seq<char>) -> Seq<Seq<char>> {
    spec_split_from(s, sep, 0)
}

/// Splitting always yields at least one field.
pub proof fn lemma_split_from_len(s: Seq<char>, sep: Seq<char>, i: int)
    requires
        sep.len() >= 1,
        0 <= i <= s.len(),
    ensures
        spec_split_from(s, sep, i).len() >= 1,
{
}

/// `ts` with `t` prefixed onto its first element.
pub open spec fn prepend_first(t: Seq<char>, ts: Seq<Seq<char>>) -> Seq<Seq<char>> {
    seq![t + ts[0]] + ts.skip(1)
}

/// Prefixing nothing onto the first element changes nothing.
proof fn lemma_prepend_empty(ts: Seq<Seq<char>>)
    requires
        ts.len() >= 1,
    ensures
        prepend_first(Seq::empty(), ts) == ts,
{
    assert(Seq::<char>::empty() + ts[0] =~= ts[0]);
    assert(prepend_first(Seq::empty(), ts) =~= ts);
}

/// Whether `sep` occurs in `s` at position `i`.
#[verifier::loop_isolation(false)]
pub fn matches_at(s: &str, n: usize, sep: &str, m: usize, i: usize) -> (b: bool)
    requires
        n == s@.len(),
        m == sep@.len(),
        m >= 1,
        i <= n,
    ensures
        b == sep_at(s@, sep@, i as int),
{
    if m > n || i > n - m {
        return false;
    }
    let mut k: usize = 0;
    while k < m
        invariant
            k <= m,
            forall|p: int| 0 <= p < k ==> s@[i + p] == sep@[p],
        decreases m - k,
    {
        if s.get_char(i + k) != sep.get_char(k) {
            assert(s@.subrange(i as int, i as int + m as int)[k as int] != sep@[k as int]);
            return false;
        }
        k += 1;
    }
    assert(s@.subrange(i as int, i as int + m as int) =~= sep@);
    true
}

/// Splits `s` on every occurrence of `sep`, scanning left to right; `n`
/// fields for `n - 1` occurrences, and one (possibly empty) field when there
/// is none.
#[verifier::loop_isolation(false)]
pub fn split_str(s: &str, sep: &str) -> (r: Vec<String>)
    requires
        sep@.len() >= 1,
    ensures
        r.deep_view() == spec_split(s@, sep@),
{
    let n = s.unicode_len();
    let m = sep.unicode_len();
    let mut r: Vec<String> = Vec::new();
    let mut start: usize = 0;
    let mut i: usize = 0;
    proof {
        lemma_split_from_len(s@, sep@, 0);
        lemma_prepend_empty(spec_split_from(s@, sep@, 0));
        assert(s@.subrange(0, 0) =~= Seq::<char>::empty());
    }
    while i < n
        invariant
            start <= i <= n,
            r.deep_view() + prepend_first(
                s@.subrange(start as int, i as int),
                spec_split_from(s@, sep@, i as int),
            ) == spec_split(s@, sep@),
        decreases n - i,
    {
        let ghost cur = s@.subrange(start as int, i as int);
        if matches_at(s, n, sep, m, i) {
            let field = s.substring_char(start, i).to_owned();
            proof {
                lemma_split_from_len(s@, sep@, i as int + m as int);
                let tail = spec_split_from(s@, sep@, i as int + m as int);
                lemma_prepend_empty(tail);
                assert(spec_split_from(s@, sep@, i as int) == seq![Seq::<char>::empty()] + tail);
                assert(cur + (seq![Seq::<char>::empty()] + tail)[0] =~= cur);
                assert((seq![Seq::<char>::empty()] + tail).skip(1) =~= tail);
                assert(prepend_first(cur, spec_split_from(s@, sep@, i as int)) =~= seq![cur]
                    + tail);
                let ghost r_old = r.deep_view();
                assert(r_old.push(field@) + prepend_first(s@.subrange(i as int + m as int, i as int + m as int), tail)
                    =~= r_old + (seq![cur] + tail)) by {
                    assert(s@.subrange(i as int + m as int, i as int + m as int)
                        =~= Seq::<char>::empty());
                    lemma_prepend_empty(tail);
                }
            }
            let ghost r_old = r.deep_view();
            r.push(field);
            assert(r.deep_view() =~= r_old.push(s@.subrange(start as int, i as int)));
            i = i + m;
            start = i;
        } else {
            proof {
                lemma_split_from_len(s@, sep@, i as int + 1);
                let rest = spec_split_from(s@, sep@, i as int + 1);
                assert(spec_split_from(s@, sep@, i as int) == seq![seq![s@[i as int]] + rest[0]]
                    + rest.skip(1));
                assert(cur + (seq![s@[i as int]] + rest[0]) =~= s@.subrange(
                    start as int,
                    i as int + 1,
                ) + rest[0]);
                assert((seq![seq![s@[i as int]] + rest[0]] + rest.skip(1)).skip(1) =~= rest.skip(
                    1,
                ));
                assert(prepend_first(cur, spec_split_from(s@, sep@, i as int)) =~= prepend_first(
                    s@.subrange(start as int, i as int + 1),
                    rest,
                ));
            }
            i += 1;
        }
    }
    let last = s.substring_char(start, n).to_owned();
    proof {
        let tail = spec_split_from(s@, sep@, n as int);
        assert(tail == seq![Seq::<char>::empty()]);
        let cur = s@.subrange(start as int, n as int);
        assert(cur + tail[0] =~= cur);
        assert(prepend_first(cur, tail) =~= seq![cur]);
        let ghost r_old = r.deep_view();
        assert(r_old.push(last@) =~= r_old + seq![cur]);
    }
    let ghost r_old = r.deep_view();
    r.push(last);
    assert(r.deep_view() =~= r_old.push(s@.subrange(start as int, n as int)));
    r
}

/// `s` with leading whitespace removed.
pub open spec fn trim_left(s: Seq<char>) -> Seq<char>
    decreases s.len(),
{
    if s.len() > 0 && is_space(s[0]) {
        trim_left(s.skip(1))
    } else {
        s
    }
}

/// `s` with trailing whitespace removed.
pub open spec fn trim_right(s: Seq<char>) -> Seq<char>
    decreases s.len(),
{
    if s.len() > 0 && is_space(s.last()) {
        trim_right(s.drop_last())
    } else {
        s
    }
}

/// `s` with leading and trailing whitespace removed.
pub open spec fn spec_trim(s: Seq<char>) -> Seq<char> {
    trim_right(trim_left(s))
}

/// Removes leading and trailing whitespace.
#[verifier::loop_isolation(false)]
pub fn trim_spaces(s: &str) -> (r: String)
    ensures
        r@ == spec_trim(s@),
{
    let n = s.unicode_len();
    let mut lo: usize = 0;
    proof {
        assert(s@.skip(0) =~= s@);
    }
    while lo < n && space_char_at(s, lo)
        invariant
            lo <= n,
            trim_left(s@.skip(lo as int)) == trim_left(s@),
        decreases n - lo,
    {
        proof {
            assert(s@.skip(lo as int).skip(1) =~= s@.skip(lo as int + 1));
        }
        lo += 1;
    }
    assert(trim_left(s@) == s@.skip(lo as int));
    let mut hi: usize = n;
    proof {
        assert(s@.subrange(lo as int, n as int) =~= s@.skip(lo as int));
    }
    while hi > lo && space_char_at(s, hi - 1)
        invariant
            lo <= hi <= n,
            trim_right(s@.subrange(lo as int, hi as int)) == spec_trim(s@),
        decreases hi,
    {
        proof {
            assert(s@.subrange(lo as int, hi as int).drop_last() =~= s@.subrange(
                lo as int,
                hi as int - 1,
            ));
        }
        hi -= 1;
    }
    assert(spec_trim(s@) == s@.subrange(lo as int, hi as int));
    s.substring_char(lo, hi).to_owned()
}

/// The tokens joined with single spaces.
pub open spec fn spec_join(ts: Seq<Seq<char>>) -> Seq<char>
    decreases ts.len(),
{
    if ts.len() == 0 {
        Seq::empty()
    } else if ts.len() == 1 {
        ts[0]
    } else {
        spec_join(ts.drop_last()) + seq![' '] + ts.last()
    }
}

/// Joins `tokens[start..=end]` with single spaces.
#[verifier::loop_isolation(false)]
pub fn join_range(tokens: &Vec<String>, start: usize, end: usize) -> (r: String)
    requires
        start <= end < tokens@.len(),
    ensures
        r@ == spec_join(tokens.deep_view().subrange(start as int, end as int + 1)),
{
    let n_tokens = tokens.len();
    assert(end < n_tokens);
    let mut out = String::new();
    let mut i: usize = start;
    while i <= end
        invariant
            start <= i <= end + 1,
            out@ == spec_join(tokens.deep_view().subrange(start as int, i as int)),
        decreases end + 1 - i,
    {
        if i > start {
            out.append(" ");
        }
        out.append(tokens[i].as_str());
        proof {
            let tv = tokens.deep_view();
            assert(tv.subrange(start as int, i as int + 1).drop_last() =~= tv.subrange(
                start as int,
                i as int,
            ));
            assert(tv.subrange(start as int, i as int + 1).last() == tv[i as int]);
            assert(tv[i as int] == tokens@[i as int]@);
            reveal_strlit(" ");
            assert(" "@ =~= seq![' ']);
            if i == start {
                assert(tv.subrange(start as int, i as int) =~= Seq::<Seq<char>>::empty());
                assert(tv.subrange(start as int, i as int + 1) =~= seq![tv[i as int]]);
            }
        }
        i += 1;
    }
    out
}

} // verus!
