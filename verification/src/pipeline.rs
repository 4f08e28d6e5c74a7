//! The extraction pipeline: from sentence texts and an alignment string to
//! rendered phrase pairs, and from corpus lines to output lines filtered by a
//! maximum phrase length.

use vstd::prelude::*;
use crate::alignment::convert_alignment;
use crate::alignment::spec_convert;
use crate::extract::SpanPair;
use crate::extract::extract_spans;
use crate::extract::extractable;
use crate::extract::is_extraction_result;
use crate::extract::lemma_extraction_deterministic;
use crate::text::spec_join;
use crate::text::spec_split;
use crate::text::spec_tokens;
use crate::text::spec_trim;
use crate::text::join_range;
use crate::text::split_str;
use crate::text::trim_spaces;
use crate::text::whitespace_tokenizer;

verus! {

/// The alignment points that address real token positions.
pub open spec fn spec_in_range(
    a: Seq<(usize, usize)>,
    s_len: int,
    t_len: int,
) -> Seq<(usize, usize)> {
    a.filter(|p: (usize, usize)| p.0 < s_len && p.1 < t_len)
}

/// Drops alignment points whose indices lie outside the sentences.
#[verifier::loop_isolation(false)]
pub fn in_range_points(a: &Vec<(usize, usize)>, s_len: usize, t_len: usize) -> (r: Vec<
    (usize, usize),
>)
    ensures
        r@ == spec_in_range(a@, s_len as int, t_len as int),
        forall|k: int| 0 <= k < r@.len() ==> (#[trigger] r@[k]).0 < s_len && r@[k].1 < t_len,
{
    let mut r: Vec<(usize, usize)> = Vec::new();
    let mut i: usize = 0;
    while i < a.len()
        invariant
            i <= a@.len(),
            r@ == spec_in_range(a@.take(i as int), s_len as int, t_len as int),
            forall|k: int| 0 <= k < r@.len() ==> (#[trigger] r@[k]).0 < s_len && r@[k].1 < t_len,
        decreases a@.len() - i,
    {
        let p = a[i];
        proof {
            reveal(Seq::filter);
            assert(a@.take(i as int + 1).drop_last() =~= a@.take(i as int));
            assert(a@.take(i as int + 1).last() == a@[i as int]);
        }
        if p.0 < s_len && p.1 < t_len {
            r.push(p);
        }
        i += 1;
    }
    assert(a@.take(a@.len() as int) =~= a@);
    r
}

/// Law: an alignment point outside the sentences is ignored — dropping it
/// leaves the in-range points, and with them every extraction result,
/// unchanged.
pub proof fn lemma_out_of_range_ignored(
    a: Seq<(usize, usize)>,
    p: (usize, usize),
    s_len: int,
    t_len: int,
)
    requires
        !(p.0 < s_len && p.1 < t_len),
    ensures
        spec_in_range(a.push(p), s_len, t_len) == spec_in_range(a, s_len, t_len),
{
    reveal(Seq::filter);
    assert(a.push(p).drop_last() =~= a);
    assert(a.push(p).last() == p);
}

/// The source phrase of `q`: source tokens `e_start..=e_end` joined with
/// single spaces.
pub open spec fn rendered_source(stoks: Seq<Seq<char>>, q: SpanPair) -> Seq<char> {
    spec_join(stoks.subrange(q.e_start as int, q.e_end as int + 1))
}

/// The target phrase of `q`: target tokens `f_start..=f_end` joined with
/// single spaces.
pub open spec fn rendered_target(ttoks: Seq<Seq<char>>, q: SpanPair) -> Seq<char> {
    spec_join(ttoks.subrange(q.f_start as int, q.f_end as int + 1))
}

/// What phrase extraction returns for the given texts: the unique extraction
/// result over the tokenized sentences and the in-range alignment points,
/// with each span pair rendered to its two phrases.
pub open spec fn phrase_extraction_post(
    src: Seq<char>,
    trg: Seq<char>,
    align: Seq<char>,
    out: Seq<(Seq<char>, Seq<char>)>,
) -> bool {
    let stoks = spec_tokens(src);
    let ttoks = spec_tokens(trg);
    let pts = spec_in_range(spec_convert(align), stoks.len() as int, ttoks.len() as int);
    exists|quads: Seq<SpanPair>|
        #[trigger] is_extraction_result(pts, stoks.len() as int, ttoks.len() as int, quads)
            && out == quads.map_values(
            |q: SpanPair| (rendered_source(stoks, q), rendered_target(ttoks, q)),
        )
}

/// Extracts every alignment-consistent phrase pair of the sentence pair, as
/// `(source_phrase, target_phrase)` strings. The sentences are tokenized on
/// whitespace; the alignment string is parsed as space-separated `i-j` pairs,
/// with malformed and out-of-range entries ignored.
#[verifier::loop_isolation(false)]
pub fn phrase_extraction(srctext: &str, trgtext: &str, alignment: &str) -> (r: Vec<
    (String, String),
>)
    ensures
        phrase_extraction_post(srctext@, trgtext@, alignment@, r.deep_view()),
{
    let src_tokens = whitespace_tokenizer(srctext);
    let trg_tokens = whitespace_tokenizer(trgtext);
    let points_raw = convert_alignment(alignment);
    let points = in_range_points(&points_raw, src_tokens.len(), trg_tokens.len());
    let quads = extract_spans(&points, src_tokens.len(), trg_tokens.len());
    let ghost stoks = spec_tokens(srctext@);
    let ghost ttoks = spec_tokens(trgtext@);
    let ghost render = |q: SpanPair| (rendered_source(stoks, q), rendered_target(ttoks, q));
    let mut r: Vec<(String, String)> = Vec::new();
    let mut i: usize = 0;
    while i < quads.len()
        invariant
            i <= quads@.len(),
            r.deep_view() == quads@.take(i as int).map_values(render),
        decreases quads@.len() - i,
    {
        let q = quads[i];
        assert(extractable(points@, src_tokens@.len() as int, trg_tokens@.len() as int, q));
        let sp = join_range(&src_tokens, q.e_start, q.e_end);
        let tp = join_range(&trg_tokens, q.f_start, q.f_end);
        let ghost r_old = r.deep_view();
        r.push((sp, tp));
        proof {
            assert(r.deep_view() =~= r_old.push((sp@, tp@)));
            assert(quads@.take(i as int + 1).map_values(render) =~= quads@.take(
                i as int,
            ).map_values(render).push(render(quads@[i as int])));
        }
        i += 1;
    }
    proof {
        assert(quads@.take(quads@.len() as int) =~= quads@);
        let pts = spec_in_range(spec_convert(alignment@), stoks.len() as int, ttoks.len() as int);
        assert(points@ == pts);
        assert(is_extraction_result(pts, stoks.len() as int, ttoks.len() as int, quads@));
        assert(r.deep_view() == quads@.map_values(
            |q: SpanPair| (rendered_source(stoks, q), rendered_target(ttoks, q)),
        ));
    }
    r
}

/// Law: extraction is deterministic — two outputs for one input are equal,
/// phrase for phrase and in the same order.
pub proof fn lemma_phrase_extraction_deterministic(
    src: Seq<char>,
    trg: Seq<char>,
    align: Seq<char>,
    out1: Seq<(Seq<char>, Seq<char>)>,
    out2: Seq<(Seq<char>, Seq<char>)>,
)
    requires
        phrase_extraction_post(src, trg, align, out1),
        phrase_extraction_post(src, trg, align, out2),
    ensures
        out1 == out2,
{
    let stoks = spec_tokens(src);
    let ttoks = spec_tokens(trg);
    let pts = spec_in_range(spec_convert(align), stoks.len() as int, ttoks.len() as int);
    let quads1 = choose|quads: Seq<SpanPair>|
        #[trigger] is_extraction_result(pts, stoks.len() as int, ttoks.len() as int, quads)
            && out1 == quads.map_values(
            |q: SpanPair| (rendered_source(stoks, q), rendered_target(ttoks, q)),
        );
    let quads2 = choose|quads: Seq<SpanPair>|
        #[trigger] is_extraction_result(pts, stoks.len() as int, ttoks.len() as int, quads)
            && out2 == quads.map_values(
            |q: SpanPair| (rendered_source(stoks, q), rendered_target(ttoks, q)),
        );
    lemma_extraction_deterministic(
        pts,
        stoks.len() as int,
        ttoks.len() as int,
        quads1,
        quads2,
    );
}

/// Both spans of `q` hold at most `k` tokens. (They hold at least one by
/// construction.)
pub open spec fn len_within(q: SpanPair, k: nat) -> bool {
    &&& q.e_end - q.e_start + 1 <= k
    &&& q.f_end - q.f_start + 1 <= k
}

/// An element of a filtered sequence is an element of the unfiltered one.
proof fn lemma_filter_subset(s: Seq<SpanPair>, pred: spec_fn(SpanPair) -> bool, i: int)
    requires
        0 <= i < s.filter(pred).len(),
    ensures
        s.contains(s.filter(pred)[i]),
    decreases s.len(),
{
    reveal(Seq::filter);
    if s.len() > 0 {
        let f = s.filter(pred);
        let fd = s.drop_last().filter(pred);
        if pred(s.last()) && i == f.len() - 1 {
            assert(f[i] == s[s.len() - 1]);
        } else {
            lemma_filter_subset(s.drop_last(), pred, i);
            let j = choose|j: int| 0 <= j < s.drop_last().len() && s.drop_last()[j] == fd[i];
            assert(s[j] == f[i]);
        }
    }
}

/// Law: every phrase pair kept by the length filter has between 1 and `k`
/// tokens on each side.
pub proof fn lemma_length_filter_bounds(
    a: Seq<(usize, usize)>,
    s_len: int,
    t_len: int,
    quads: Seq<SpanPair>,
    k: nat,
    i: int,
)
    requires
        forall|j: int| 0 <= j < quads.len() ==> extractable(a, s_len, t_len, #[trigger] quads[j]),
        0 <= i < quads.filter(|q: SpanPair| len_within(q, k)).len(),
    ensures
        ({
            let q = quads.filter(|q: SpanPair| len_within(q, k))[i];
            1 <= q.e_end - q.e_start + 1 <= k && 1 <= q.f_end - q.f_start + 1 <= k
        }),
{
    let pred = |q: SpanPair| len_within(q, k);
    quads.lemma_filter_pred(pred, i);
    lemma_filter_subset(quads, pred, i);
    let q = quads.filter(pred)[i];
    let j = choose|j: int| 0 <= j < quads.len() && quads[j] == q;
    assert(extractable(a, s_len, t_len, quads[j]));
}

/// Law: raising the length bound keeps every pair — the set filtered at `k1`
/// is a subset of the set filtered at any `k2 >= k1`.
pub proof fn lemma_length_filter_monotonic(quads: Seq<SpanPair>, k1: nat, k2: nat, q: SpanPair)
    requires
        k1 <= k2,
        quads.filter(|x: SpanPair| len_within(x, k1)).contains(q),
    ensures
        quads.filter(|x: SpanPair| len_within(x, k2)).contains(q),
{
    let pred1 = |x: SpanPair| len_within(x, k1);
    let pred2 = |x: SpanPair| len_within(x, k2);
    let i = choose|i: int| 0 <= i < quads.filter(pred1).len() && quads.filter(pred1)[i] == q;
    quads.lemma_filter_pred(pred1, i);
    lemma_filter_subset(quads, pred1, i);
    let j = choose|j: int| 0 <= j < quads.len() && quads[j] == q;
    quads.lemma_filter_contains(pred2, j);
}

/// Law: every output line of a processed sentence pair is `E ||| F` where
/// the phrases `E` and `F`, re-tokenized, hold between 1 and `k` tokens —
/// exactly as many as their spans.
pub proof fn lemma_output_line_shape(
    a: Seq<(usize, usize)>,
    stoks: Seq<Seq<char>>,
    ttoks: Seq<Seq<char>>,
    quads: Seq<SpanPair>,
    k: nat,
    i: int,
)
    requires
        forall|j: int|
            0 <= j < quads.len() ==> extractable(
                a,
                stoks.len() as int,
                ttoks.len() as int,
                #[trigger] quads[j],
            ),
        crate::text::wf_tokens(stoks),
        crate::text::wf_tokens(ttoks),
        0 <= i < line_outputs(stoks, ttoks, quads, k).len(),
    ensures
        ({
            let q = quads.filter(|x: SpanPair| len_within(x, k))[i];
            let e = rendered_source(stoks, q);
            let f = rendered_target(ttoks, q);
            &&& line_outputs(stoks, ttoks, quads, k)[i] == formatted_pair(e, f)
            &&& spec_tokens(e).len() == q.e_end - q.e_start + 1
            &&& spec_tokens(f).len() == q.f_end - q.f_start + 1
            &&& 1 <= spec_tokens(e).len() <= k
            &&& 1 <= spec_tokens(f).len() <= k
        }),
{
    let pred = |x: SpanPair| len_within(x, k);
    quads.lemma_filter_pred(pred, i);
    lemma_filter_subset(quads, pred, i);
    let q = quads.filter(pred)[i];
    let j = choose|j: int| 0 <= j < quads.len() && quads[j] == q;
    assert(extractable(a, stoks.len() as int, ttoks.len() as int, quads[j]));
    let e_toks = stoks.subrange(q.e_start as int, q.e_end as int + 1);
    let f_toks = ttoks.subrange(q.f_start as int, q.f_end as int + 1);
    assert(crate::text::wf_tokens(e_toks)) by {
        assert forall|p: int| 0 <= p < e_toks.len() implies crate::text::wf_token(
            #[trigger] e_toks[p],
        ) by {
            assert(e_toks[p] == stoks[q.e_start + p]);
        }
    }
    assert(crate::text::wf_tokens(f_toks)) by {
        assert forall|p: int| 0 <= p < f_toks.len() implies crate::text::wf_token(
            #[trigger] f_toks[p],
        ) by {
            assert(f_toks[p] == ttoks[q.f_start + p]);
        }
    }
    crate::text::lemma_join_retokenizes(e_toks);
    crate::text::lemma_join_retokenizes(f_toks);
}

/// Law: raising the length bound only adds output lines — every line emitted
/// for a sentence pair under bound `k1` is also emitted under any `k2 >= k1`.
pub proof fn lemma_line_outputs_monotonic(
    stoks: Seq<Seq<char>>,
    ttoks: Seq<Seq<char>>,
    quads: Seq<SpanPair>,
    k1: nat,
    k2: nat,
    i: int,
)
    requires
        k1 <= k2,
        0 <= i < line_outputs(stoks, ttoks, quads, k1).len(),
    ensures
        line_outputs(stoks, ttoks, quads, k2).contains(line_outputs(stoks, ttoks, quads, k1)[i]),
{
    let pred1 = |x: SpanPair| len_within(x, k1);
    let pred2 = |x: SpanPair| len_within(x, k2);
    let fmt = |q: SpanPair| formatted_pair(rendered_source(stoks, q), rendered_target(ttoks, q));
    let q = quads.filter(pred1)[i];
    assert(quads.filter(pred1).contains(q));
    lemma_length_filter_monotonic(quads, k1, k2, q);
    let j = choose|j: int| 0 <= j < quads.filter(pred2).len() && quads.filter(pred2)[j] == q;
    assert(line_outputs(stoks, ttoks, quads, k2)[j] == fmt(q));
    assert(line_outputs(stoks, ttoks, quads, k1)[i] == fmt(q));
}

/// The separator between the two fields of a corpus line and between the two
/// phrases of an output line.
pub open spec fn field_sep() -> Seq<char> {
    seq![' ', '|', '|', '|', ' ']
}

/// An output line: the two phrases around the field separator.
pub open spec fn formatted_pair(a: Seq<char>, b: Seq<char>) -> Seq<char> {
    a + field_sep() + b
}

/// The output lines for one sentence pair: the extracted span pairs within
/// the length bound, rendered and formatted, in extraction order.
pub open spec fn line_outputs(
    stoks: Seq<Seq<char>>,
    ttoks: Seq<Seq<char>>,
    quads: Seq<SpanPair>,
    k: nat,
) -> Seq<Seq<char>> {
    quads.filter(|q: SpanPair| len_within(q, k)).map_values(
        |q: SpanPair| formatted_pair(rendered_source(stoks, q), rendered_target(ttoks, q)),
    )
}

/// The output lines owed to one corpus line: none when the trimmed pair line
/// does not split into exactly two fields on ` ||| `; otherwise the filtered,
/// formatted extraction result of the two fields under the given alignment.
pub open spec fn line_ok(pair: Seq<char>, align: Seq<char>, k: nat, outs: Seq<Seq<char>>) -> bool {
    let fields = spec_split(spec_trim(pair), field_sep());
    if fields.len() == 2 {
        let stoks = spec_tokens(fields[0]);
        let ttoks = spec_tokens(fields[1]);
        let pts = spec_in_range(spec_convert(align), stoks.len() as int, ttoks.len() as int);
        exists|quads: Seq<SpanPair>|
            #[trigger] is_extraction_result(pts, stoks.len() as int, ttoks.len() as int, quads)
                && outs == line_outputs(stoks, ttoks, quads, k)
    } else {
        outs == Seq::<Seq<char>>::empty()
    }
}

/// `per` describes a whole run: one block of output lines for each processed
/// corpus line, in order, and `out` is their concatenation.
pub open spec fn per_line_outputs_ok(
    pairs: Seq<Seq<char>>,
    aligns: Seq<Seq<char>>,
    k: nat,
    out: Seq<Seq<char>>,
    per: Seq<Seq<Seq<char>>>,
) -> bool {
    &&& per.len() == (if pairs.len() <= aligns.len() {
        pairs.len()
    } else {
        aligns.len()
    })
    &&& (forall|l: int| 0 <= l < per.len() ==> line_ok(pairs[l], aligns[l], k, #[trigger] per[l]))
    &&& out == per.flatten()
}

/// What a whole run returns: the concatenation, corpus line by corpus line,
/// of each line's owed output.
pub open spec fn process_lines_post(
    pairs: Seq<Seq<char>>,
    aligns: Seq<Seq<char>>,
    k: nat,
    out: Seq<Seq<char>>,
) -> bool {
    exists|per: Seq<Seq<Seq<char>>>| per_line_outputs_ok(pairs, aligns, k, out, per)
}

/// Weakening the filter can only add occurrences to the filtered, mapped
/// output.
proof fn lemma_filtered_map_multiset_le(
    s: Seq<SpanPair>,
    pred1: spec_fn(SpanPair) -> bool,
    pred2: spec_fn(SpanPair) -> bool,
    fmt: spec_fn(SpanPair) -> Seq<char>,
)
    requires
        forall|x: SpanPair| #[trigger] pred1(x) ==> pred2(x),
    ensures
        s.filter(pred1).map_values(fmt).to_multiset().subset_of(
            s.filter(pred2).map_values(fmt).to_multiset(),
        ),
    decreases s.len(),
{
    reveal(Seq::filter);
    broadcast use vstd::seq_lib::group_to_multiset_ensures;
    broadcast use vstd::multiset::group_multiset_axioms;

    if s.len() > 0 {
        lemma_filtered_map_multiset_le(s.drop_last(), pred1, pred2, fmt);
        let f1 = s.drop_last().filter(pred1).map_values(fmt);
        let f2 = s.drop_last().filter(pred2).map_values(fmt);
        let y = fmt(s.last());
        if pred1(s.last()) {
            assert(s.filter(pred1).map_values(fmt) =~= f1.push(y));
            assert(s.filter(pred2).map_values(fmt) =~= f2.push(y));
            assert(f1.push(y).to_multiset() =~= f1.to_multiset().insert(y));
            assert(f2.push(y).to_multiset() =~= f2.to_multiset().insert(y));
        } else if pred2(s.last()) {
            assert(s.filter(pred1).map_values(fmt) =~= f1);
            assert(s.filter(pred2).map_values(fmt) =~= f2.push(y));
            assert(f2.push(y).to_multiset() =~= f2.to_multiset().insert(y));
        } else {
            assert(s.filter(pred1).map_values(fmt) =~= f1);
            assert(s.filter(pred2).map_values(fmt) =~= f2);
        }
    }
}

/// Pointwise sub-multisets concatenate to a sub-multiset.
proof fn lemma_flatten_multiset_le(a: Seq<Seq<Seq<char>>>, b: Seq<Seq<Seq<char>>>)
    requires
        a.len() == b.len(),
        forall|l: int|
            0 <= l < a.len() ==> (#[trigger] a[l]).to_multiset().subset_of(b[l].to_multiset()),
    ensures
        a.flatten().to_multiset().subset_of(b.flatten().to_multiset()),
    decreases a.len(),
{
    broadcast use vstd::multiset::group_multiset_axioms;

    if a.len() == 0 {
        assert(a.flatten() == b.flatten());
    } else {
        lemma_flatten_multiset_le(a.drop_last(), b.drop_last());
        a.drop_last().lemma_flatten_push(a.last());
        b.drop_last().lemma_flatten_push(b.last());
        assert(a.drop_last().push(a.last()) =~= a);
        assert(b.drop_last().push(b.last()) =~= b);
        assert(a.flatten() =~= a.drop_last().flatten() + a.last());
        assert(b.flatten() =~= b.drop_last().flatten() + b.last());
        vstd::seq_lib::lemma_multiset_commutative(a.drop_last().flatten(), a.last());
        vstd::seq_lib::lemma_multiset_commutative(b.drop_last().flatten(), b.last());
    }
}

/// An element of a concatenation comes from one of its blocks.
proof fn lemma_flatten_elem(per: Seq<Seq<Seq<char>>>, i: int)
    requires
        0 <= i < per.flatten().len(),
    ensures
        exists|l: int, j: int|
            0 <= l < per.len() && 0 <= j < per[l].len() && per.flatten()[i] == #[trigger] per[l][j],
    decreases per.len(),
{
    assert(per.len() > 0);
    assert(per.flatten() == per.first() + per.drop_first().flatten());
    if i < per.first().len() {
        assert(per.flatten()[i] == per[0][i]);
        assert(0 <= 0 < per.len() && 0 <= i < per[0].len());
    } else {
        lemma_flatten_elem(per.drop_first(), i - per.first().len());
        let (l, j) = choose|l: int, j: int|
            0 <= l < per.drop_first().len() && 0 <= j < per.drop_first()[l].len()
                && per.drop_first().flatten()[i - per.first().len()] == #[trigger] per.drop_first()[l][j];
        assert(per.drop_first()[l] == per[l + 1]);
        assert(per.flatten()[i] == per[l + 1][j]);
        assert(0 <= l + 1 < per.len() && 0 <= j < per[l + 1].len());
    }
}

/// Law: every line a whole run produces has the form `E ||| F` with the two
/// phrases holding between 1 and `k` tokens each.
pub proof fn lemma_output_lines_token_counts(
    pairs: Seq<Seq<char>>,
    aligns: Seq<Seq<char>>,
    k: nat,
    out: Seq<Seq<char>>,
    i: int,
)
    requires
        process_lines_post(pairs, aligns, k, out),
        0 <= i < out.len(),
    ensures
        exists|e: Seq<char>, f: Seq<char>|
            out[i] == #[trigger] formatted_pair(e, f) && 1 <= spec_tokens(e).len() <= k && 1
                <= spec_tokens(f).len() <= k,
{
    let per = choose|per: Seq<Seq<Seq<char>>>| per_line_outputs_ok(pairs, aligns, k, out, per);
    lemma_flatten_elem(per, i);
    let (l, j) = choose|l: int, j: int|
        0 <= l < per.len() && 0 <= j < per[l].len() && per.flatten()[i] == #[trigger] per[l][j];
    assert(line_ok(pairs[l], aligns[l], k, per[l]));
    let fields = spec_split(spec_trim(pairs[l]), field_sep());
    assert(fields.len() == 2);
    let stoks = spec_tokens(fields[0]);
    let ttoks = spec_tokens(fields[1]);
    let pts = spec_in_range(spec_convert(aligns[l]), stoks.len() as int, ttoks.len() as int);
    let quads = choose|quads: Seq<SpanPair>|
        #[trigger] is_extraction_result(pts, stoks.len() as int, ttoks.len() as int, quads)
            && per[l] == line_outputs(stoks, ttoks, quads, k);
    crate::text::lemma_tokens_wf(fields[0]);
    crate::text::lemma_tokens_wf(fields[1]);
    lemma_output_line_shape(pts, stoks, ttoks, quads, k, j);
    let q = quads.filter(|x: SpanPair| len_within(x, k))[j];
    let e = rendered_source(stoks, q);
    let f = rendered_target(ttoks, q);
    assert(out[i] == formatted_pair(e, f));
}

/// Law: raising the length bound across a whole run only adds output lines —
/// the multiset of lines produced with bound `k1` is contained in the
/// multiset produced, on the same input, with any bound `k2 >= k1`.
pub proof fn lemma_process_lines_monotonic(
    pairs: Seq<Seq<char>>,
    aligns: Seq<Seq<char>>,
    k1: nat,
    k2: nat,
    out1: Seq<Seq<char>>,
    out2: Seq<Seq<char>>,
)
    requires
        k1 <= k2,
        process_lines_post(pairs, aligns, k1, out1),
        process_lines_post(pairs, aligns, k2, out2),
    ensures
        out1.to_multiset().subset_of(out2.to_multiset()),
{
    let per1 = choose|per: Seq<Seq<Seq<char>>>| per_line_outputs_ok(pairs, aligns, k1, out1, per);
    let per2 = choose|per: Seq<Seq<Seq<char>>>| per_line_outputs_ok(pairs, aligns, k2, out2, per);
    assert forall|l: int| 0 <= l < per1.len() implies (#[trigger] per1[l]).to_multiset().subset_of(
        per2[l].to_multiset(),
    ) by {
        assert(line_ok(pairs[l], aligns[l], k1, per1[l]));
        assert(line_ok(pairs[l], aligns[l], k2, per2[l]));
        let fields = spec_split(spec_trim(pairs[l]), field_sep());
        if fields.len() == 2 {
            let stoks = spec_tokens(fields[0]);
            let ttoks = spec_tokens(fields[1]);
            let pts = spec_in_range(spec_convert(aligns[l]), stoks.len() as int, ttoks.len() as int);
            let quads1 = choose|quads: Seq<SpanPair>|
                #[trigger] is_extraction_result(pts, stoks.len() as int, ttoks.len() as int, quads)
                    && per1[l] == line_outputs(stoks, ttoks, quads, k1);
            let quads2 = choose|quads: Seq<SpanPair>|
                #[trigger] is_extraction_result(pts, stoks.len() as int, ttoks.len() as int, quads)
                    && per2[l] == line_outputs(stoks, ttoks, quads, k2);
            lemma_extraction_deterministic(
                pts,
                stoks.len() as int,
                ttoks.len() as int,
                quads1,
                quads2,
            );
            lemma_filtered_map_multiset_le(
                quads1,
                |x: SpanPair| len_within(x, k1),
                |x: SpanPair| len_within(x, k2),
                |q: SpanPair| formatted_pair(rendered_source(stoks, q), rendered_target(ttoks, q)),
            );
        } else {
            assert(per1[l] == per2[l]);
        }
    }
    lemma_flatten_multiset_le(per1, per2);
}

/// Processes corpus lines pairwise: the l-th pair line with the l-th
/// alignment line, as far as both inputs reach. Each well-formed line
/// contributes its extracted phrase pairs within the length bound, formatted
/// as `source ||| target`; malformed lines contribute nothing.
#[verifier::loop_isolation(false)]
pub fn process_lines(pairs: &Vec<String>, alignments: &Vec<String>, max_ngram: u32) -> (r: Vec<
    String,
>)
    ensures
        process_lines_post(
            pairs.deep_view(),
            alignments.deep_view(),
            max_ngram as nat,
            r.deep_view(),
        ),
{
    let n = if pairs.len() <= alignments.len() {
        pairs.len()
    } else {
        alignments.len()
    };
    let mut r: Vec<String> = Vec::new();
    let ghost mut per: Seq<Seq<Seq<char>>> = Seq::empty();
    let mut l: usize = 0;
    while l < n
        invariant
            l <= n,
            per.len() == l as int,
            forall|l2: int|
                0 <= l2 < l ==> line_ok(
                    pairs.deep_view()[l2],
                    alignments.deep_view()[l2],
                    max_ngram as nat,
                    #[trigger] per[l2],
                ),
            r.deep_view() == per.flatten(),
        decreases n - l,
    {
        proof {
            reveal_strlit(" ||| ");
            assert(" ||| "@ =~= field_sep());
        }
        let line = trim_spaces(pairs[l].as_str());
        let fields = split_str(line.as_str(), " ||| ");
        let ghost pair_view = pairs.deep_view()[l as int];
        let ghost align_view = alignments.deep_view()[l as int];
        assert(pair_view == pairs@[l as int]@ && align_view == alignments@[l as int]@);
        let ghost spec_fields = spec_split(spec_trim(pair_view), field_sep());
        assert(fields.deep_view() == spec_fields);
        let ghost mut outs: Seq<Seq<char>> = Seq::empty();
        if fields.len() == 2 {
            let src_tokens = whitespace_tokenizer(fields[0].as_str());
            let trg_tokens = whitespace_tokenizer(fields[1].as_str());
            assert(src_tokens.deep_view() == spec_tokens(spec_fields[0]));
            assert(trg_tokens.deep_view() == spec_tokens(spec_fields[1]));
            let points_raw = convert_alignment(alignments[l].as_str());
            let points = in_range_points(&points_raw, src_tokens.len(), trg_tokens.len());
            let quads = extract_spans(&points, src_tokens.len(), trg_tokens.len());
            let ghost stoks = src_tokens.deep_view();
            let ghost ttoks = trg_tokens.deep_view();
            let ghost k = max_ngram as nat;
            let ghost pred = |q: SpanPair| len_within(q, k);
            let ghost fmt = |q: SpanPair| formatted_pair(
                rendered_source(stoks, q),
                rendered_target(ttoks, q),
            );
            let mut i: usize = 0;
            while i < quads.len()
                invariant
                    i <= quads@.len(),
                    outs == quads@.take(i as int).filter(pred).map_values(fmt),
                    r.deep_view() == per.flatten() + outs,
                decreases quads@.len() - i,
            {
                let q = quads[i];
                assert(extractable(points@, src_tokens@.len() as int, trg_tokens@.len() as int, q));
                proof {
                    reveal(Seq::filter);
                    assert(quads@.take(i as int + 1).drop_last() =~= quads@.take(i as int));
                    assert(quads@.take(i as int + 1).last() == quads@[i as int]);
                }
                if q.e_end - q.e_start < max_ngram as usize && q.f_end - q.f_start < max_ngram
                    as usize {
                    assert(len_within(q, k));
                    let sp = join_range(&src_tokens, q.e_start, q.e_end);
                    let tp = join_range(&trg_tokens, q.f_start, q.f_end);
                    let mut out_line = sp;
                    out_line.append(" ||| ");
                    out_line.append(tp.as_str());
                    assert(out_line@ == fmt(q));
                    let ghost r_old = r.deep_view();
                    r.push(out_line);
                    proof {
                        assert(r.deep_view() =~= r_old.push(fmt(q)));
                        outs = outs.push(fmt(q));
                        assert(quads@.take(i as int + 1).filter(pred).map_values(fmt)
                            =~= quads@.take(i as int).filter(pred).map_values(fmt).push(fmt(q)));
                        assert(r.deep_view() =~= per.flatten() + outs);
                    }
                } else {
                    assert(!len_within(q, k));
                    assert(quads@.take(i as int + 1).filter(pred).map_values(fmt) =~= quads@.take(
                        i as int,
                    ).filter(pred).map_values(fmt));
                }
                i += 1;
            }
            proof {
                assert(quads@.take(quads@.len() as int) =~= quads@);
                assert(outs == line_outputs(stoks, ttoks, quads@, k));
                let lf = spec_split(spec_trim(pair_view), field_sep());
                let ls = spec_tokens(lf[0]);
                let lt = spec_tokens(lf[1]);
                let lpts = spec_in_range(spec_convert(align_view), ls.len() as int, lt.len() as int);
                assert(ls == stoks && lt == ttoks);
                assert(lpts == points@);
                assert(is_extraction_result(lpts, ls.len() as int, lt.len() as int, quads@));
                assert(line_ok(pair_view, align_view, k, outs));
            }
        } else {
            assert(line_ok(pair_view, align_view, max_ngram as nat, outs));
        }
        proof {
            per.lemma_flatten_push(outs);
            per = per.push(outs);
            assert(r.deep_view() == per.flatten());
        }
        l += 1;
    }
    proof {
        assert(per_line_outputs_ok(
            pairs.deep_view(),
            alignments.deep_view(),
            max_ngram as nat,
            r.deep_view(),
            per,
        ));
    }
    r
}

} // verus!
