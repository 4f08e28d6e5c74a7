//! The phrase-extraction core: which pairs of spans are consistent with a
//! word alignment, and an enumerator that emits exactly those pairs.

use vstd::prelude::*;

verus! {

/// A pair of closed spans: `[e_start, e_end]` over the source tokens and
/// `[f_start, f_end]` over the target tokens, all bounds inclusive.
#[derive(Clone, Copy, Debug, PartialEq, Eq, Structural)]
pub struct SpanPair {
    pub e_start: usize,
    pub e_end: usize,
    pub f_start: usize,
    pub f_end: usize,
}

/// The source coordinate of alignment point `p` lies in `[e_start, e_end]`.
pub open spec fn point_in_src(p: (usize, usize), e_start: int, e_end: int) -> bool {
    e_start <= p.0 <= e_end
}

/// The target coordinate of alignment point `p` lies in `[f_start, f_end]`.
pub open spec fn point_in_trg(p: (usize, usize), f_start: int, f_end: int) -> bool {
    f_start <= p.1 <= f_end
}

/// Some alignment point has its source coordinate in `[e_start, e_end]`.
pub open spec fn span_anchored(a: Seq<(usize, usize)>, e_start: int, e_end: int) -> bool {
    exists|k: int| 0 <= k < a.len() && point_in_src(#[trigger] a[k], e_start, e_end)
}

/// No alignment point has exactly one coordinate inside its respective span:
/// a point's source coordinate lies in the source span if and only if its
/// target coordinate lies in the target span.
pub open spec fn spans_consistent(
    a: Seq<(usize, usize)>,
    e_start: int,
    e_end: int,
    f_start: int,
    f_end: int,
) -> bool {
    forall|k: int|
        0 <= k < a.len() ==> (point_in_src(#[trigger] a[k], e_start, e_end) <==> point_in_trg(
            a[k],
            f_start,
            f_end,
        ))
}

/// Target position `j` carries at least one alignment point.
pub open spec fn trg_aligned(a: Seq<(usize, usize)>, j: int) -> bool {
    exists|k: int| 0 <= k < a.len() && (#[trigger] a[k]).1 == j
}

/// The span pair `q` is emitted by phrase extraction over alignment `a` on
/// sentences of `s_len` source and `t_len` target tokens: both spans are in
/// range, the source span holds at least one alignment point, and no point
/// straddles the pair's boundary.
pub open spec fn extractable(
    a: Seq<(usize, usize)>,
    s_len: int,
    t_len: int,
    q: SpanPair,
) -> bool {
    &&& q.e_start <= q.e_end < s_len
    &&& q.f_start <= q.f_end < t_len
    &&& span_anchored(a, q.e_start as int, q.e_end as int)
    &&& spans_consistent(a, q.e_start as int, q.e_end as int, q.f_start as int, q.f_end as int)
}

/// Strict lexicographic order on span pairs, the order in which they are
/// emitted.
pub open spec fn span_pair_lt(x: SpanPair, y: SpanPair) -> bool {
    ||| x.e_start < y.e_start
    ||| (x.e_start == y.e_start && x.e_end < y.e_end)
    ||| (x.e_start == y.e_start && x.e_end == y.e_end && x.f_start < y.f_start)
    ||| (x.e_start == y.e_start && x.e_end == y.e_end && x.f_start == y.f_start && x.f_end
        < y.f_end)
}

/// Each element is strictly lexicographically below every later one.
pub open spec fn strictly_sorted(r: Seq<SpanPair>) -> bool {
    forall|i: int, j: int| 0 <= i < j < r.len() ==> span_pair_lt(#[trigger] r[i], #[trigger] r[j])
}

/// `r` is the result of phrase extraction: it holds the extractable span
/// pairs, all of them, each exactly once, in lexicographic order. Only one
/// sequence satisfies this for given inputs.
pub open spec fn is_extraction_result(
    a: Seq<(usize, usize)>,
    s_len: int,
    t_len: int,
    r: Seq<SpanPair>,
) -> bool {
    &&& forall|i: int| 0 <= i < r.len() ==> extractable(a, s_len, t_len, #[trigger] r[i])
    &&& forall|q: SpanPair| extractable(a, s_len, t_len, q) ==> r.contains(q)
    &&& strictly_sorted(r)
}

/// `q`'s source span lies strictly before `[e_start, e_end]` in
/// lexicographic order.
pub open spec fn span_before(q: SpanPair, e_start: int, e_end: int) -> bool {
    q.e_start < e_start || (q.e_start == e_start && q.e_end < e_end)
}

/// `r` already holds every extractable span pair whose source span precedes
/// `[e_start, e_end]`.
pub open spec fn complete_before(
    a: Seq<(usize, usize)>,
    s_len: int,
    t_len: int,
    r: Seq<SpanPair>,
    e_start: int,
    e_end: int,
) -> bool {
    forall|q: SpanPair|
        #[trigger] extractable(a, s_len, t_len, q) && span_before(q, e_start, e_end)
            ==> r.contains(q)
}

/// `q` was emitted before reaching target spans `[f_start, ..]`, `[.., f_end]`
/// while enumerating source span `[e_start, e_end]`.
pub open spec fn emitted_pos_lt(
    q: SpanPair,
    e_start: int,
    e_end: int,
    f_start: int,
    f_end: int,
) -> bool {
    span_before(q, e_start, e_end) || (q.e_start == e_start && q.e_end == e_end && (q.f_start
        < f_start || (q.f_start == f_start && q.f_end < f_end)))
}

/// Whether target position `j` carries an alignment point.
pub fn is_trg_aligned(a: &Vec<(usize, usize)>, j: usize) -> (b: bool)
    ensures
        b == trg_aligned(a@, j as int),
{
    let mut k: usize = 0;
    while k < a.len()
        invariant
            0 <= k <= a@.len(),
            !trg_aligned(a@.take(k as int), j as int),
        decreases a@.len() - k,
    {
        if a[k].1 == j {
            assert(a@[k as int].1 == j);
            return true;
        }
        assert(a@.take(k + 1 as int) =~= a@.take(k as int).push(a@[k as int]));
        k += 1;
    }
    assert(a@.take(a@.len() as int) =~= a@);
    false
}

/// Enumerates every span pair consistent with the alignment, in lexicographic
/// order. For each candidate source span it computes the tight target
/// bounding box of the span's alignment points, rejects the span if a point
/// ties the box to a source token outside the span, and otherwise emits the
/// box together with every widening of it across consecutive unaligned
/// target positions.
#[verifier::loop_isolation(false)]
pub fn extract_spans(a: &Vec<(usize, usize)>, s_len: usize, t_len: usize) -> (r: Vec<SpanPair>)
    requires
        forall|k: int| 0 <= k < a@.len() ==> (#[trigger] a@[k]).0 < s_len && a@[k].1 < t_len,
    ensures
        is_extraction_result(a@, s_len as int, t_len as int, r@),
{
    let ghost sl = s_len as int;
    let ghost tl = t_len as int;
    let mut r: Vec<SpanPair> = Vec::new();

    // The set of aligned target positions, built once.
    let mut aligned: Vec<bool> = Vec::new();
    let mut j: usize = 0;
    while j < t_len
        invariant
            j <= t_len,
            aligned@.len() == j,
            forall|p: int| 0 <= p < j ==> aligned@[p] == trg_aligned(a@, p),
        decreases t_len - j,
    {
        let b = is_trg_aligned(a, j);
        aligned.push(b);
        j += 1;
    }

    let mut e_start: usize = 0;
    while e_start < s_len
        invariant
            e_start <= s_len,
            forall|i: int| 0 <= i < r@.len() ==> extractable(a@, sl, tl, #[trigger] r@[i]),
            forall|i: int| 0 <= i < r@.len() ==> span_before(#[trigger] r@[i], e_start as int, e_start as int),
            complete_before(a@, sl, tl, r@, e_start as int, e_start as int),
            strictly_sorted(r@),
        decreases s_len - e_start,
    {
        let mut e_end: usize = e_start;
        while e_end < s_len
            invariant
                e_start <= e_end <= s_len,
                forall|i: int| 0 <= i < r@.len() ==> extractable(a@, sl, tl, #[trigger] r@[i]),
                forall|i: int| 0 <= i < r@.len() ==> span_before(#[trigger] r@[i], e_start as int, e_end as int),
                complete_before(a@, sl, tl, r@, e_start as int, e_end as int),
                strictly_sorted(r@),
            decreases s_len - e_end,
        {
            let ghost es = e_start as int;
            let ghost ee = e_end as int;

            // Tight target bounding box of the span's alignment points.
            let mut found = false;
            let mut f_min: usize = 0;
            let mut f_max: usize = 0;
            let mut k: usize = 0;
            while k < a.len()
                invariant
                    k <= a@.len(),
                    found == exists|k2: int|
                        0 <= k2 < k && point_in_src(#[trigger] a@[k2], es, ee),
                    found ==> exists|k2: int|
                        0 <= k2 < k && point_in_src(#[trigger] a@[k2], es, ee) && a@[k2].1
                            == f_min,
                    found ==> exists|k2: int|
                        0 <= k2 < k && point_in_src(#[trigger] a@[k2], es, ee) && a@[k2].1
                            == f_max,
                    forall|k2: int|
                        0 <= k2 < k && point_in_src(#[trigger] a@[k2], es, ee) ==> f_min
                            <= a@[k2].1 <= f_max,
                decreases a@.len() - k,
            {
                let p = a[k];
                if e_start <= p.0 && p.0 <= e_end {
                    if !found {
                        found = true;
                        f_min = p.1;
                        f_max = p.1;
                    } else {
                        if p.1 < f_min {
                            f_min = p.1;
                        }
                        if p.1 > f_max {
                            f_max = p.1;
                        }
                    }
                }
                k += 1;
            }
            assert(found == span_anchored(a@, es, ee));

            if found {
                assert(f_min < t_len && f_max < t_len) by {
                    let k2 = choose|k2: int|
                        0 <= k2 < a@.len() && point_in_src(#[trigger] a@[k2], es, ee) && a@[k2].1
                            == f_min;
                    let k3 = choose|k3: int|
                        0 <= k3 < a@.len() && point_in_src(#[trigger] a@[k3], es, ee) && a@[k3].1
                            == f_max;
                    assert(a@[k2].1 < t_len && a@[k3].1 < t_len);
                }

                // A point into the box from a source token outside the span
                // invalidates the whole source span.
                let mut ok = true;
                let mut k: usize = 0;
                while k < a.len()
                    invariant
                        k <= a@.len(),
                        ok == forall|k2: int|
                            0 <= k2 < k ==> (point_in_trg(#[trigger] a@[k2], f_min as int, f_max as int)
                                ==> point_in_src(a@[k2], es, ee)),
                    decreases a@.len() - k,
                {
                    let p = a[k];
                    if f_min <= p.1 && p.1 <= f_max {
                        if !(e_start <= p.0 && p.0 <= e_end) {
                            ok = false;
                        }
                    }
                    k += 1;
                }

                // Any extractable pair over this source span must cover the box.
                assert forall|q: SpanPair|
                    extractable(a@, sl, tl, q) && q.e_start == e_start && q.e_end == e_end
                    implies q.f_start <= f_min && f_max <= q.f_end by {
                    let k2 = choose|k2: int|
                        0 <= k2 < a@.len() && point_in_src(#[trigger] a@[k2], es, ee) && a@[k2].1
                            == f_min;
                    assert(point_in_trg(a@[k2], q.f_start as int, q.f_end as int));
                    let k3 = choose|k3: int|
                        0 <= k3 < a@.len() && point_in_src(#[trigger] a@[k3], es, ee) && a@[k3].1
                            == f_max;
                    assert(point_in_trg(a@[k3], q.f_start as int, q.f_end as int));
                }

                if ok {
                    // Widen the box leftward and rightward across consecutive
                    // unaligned target positions.
                    let mut ls: usize = f_min;
                    while ls > 0 && !aligned[ls - 1]
                        invariant
                            ls <= f_min,
                            forall|p: int| ls <= p < f_min ==> !trg_aligned(a@, p),
                        decreases ls,
                    {
                        ls -= 1;
                    }
                    assert(ls == 0 || trg_aligned(a@, ls - 1));

                    let mut re: usize = f_max;
                    while re + 1 < t_len && !aligned[re + 1]
                        invariant
                            f_max <= re < t_len,
                            forall|p: int| f_max < p <= re ==> !trg_aligned(a@, p),
                        decreases t_len - re,
                    {
                        re += 1;
                    }
                    assert(re + 1 == t_len || trg_aligned(a@, re as int + 1));

                    // The extractable pairs over this source span are exactly
                    // the rectangle [ls, f_min] x [f_max, re].
                    assert forall|q: SpanPair|
                        extractable(a@, sl, tl, q) && q.e_start == e_start && q.e_end == e_end
                        implies ls <= q.f_start && q.f_end <= re by {
                        if q.f_start < ls {
                            assert(ls > 0);
                            assert(trg_aligned(a@, ls - 1));
                            let k2 = choose|k2: int|
                                0 <= k2 < a@.len() && (#[trigger] a@[k2]).1 == ls - 1;
                            assert(point_in_trg(a@[k2], q.f_start as int, q.f_end as int));
                            assert(point_in_src(a@[k2], es, ee));
                            assert(f_min <= a@[k2].1);
                            assert(false);
                        }
                        if q.f_end > re {
                            if re + 1 == t_len {
                                assert(q.f_end < t_len);
                                assert(false);
                            } else {
                                assert(trg_aligned(a@, re as int + 1));
                                let k2 = choose|k2: int|
                                    0 <= k2 < a@.len() && (#[trigger] a@[k2]).1 == re as int + 1;
                                assert(point_in_trg(a@[k2], q.f_start as int, q.f_end as int));
                                assert(point_in_src(a@[k2], es, ee));
                                assert(a@[k2].1 <= f_max);
                                assert(false);
                            }
                        }
                    }

                    // Emit the rectangle in lexicographic order.
                    let mut fs: usize = ls;
                    while fs <= f_min
                        invariant
                            ls <= fs <= f_min + 1,
                            forall|i: int| 0 <= i < r@.len() ==> extractable(a@, sl, tl, #[trigger] r@[i]),
                            forall|i: int|
                                0 <= i < r@.len() ==> emitted_pos_lt(#[trigger] r@[i], es, ee, fs as int, f_max as int),
                            complete_before(a@, sl, tl, r@, es, ee),
                            forall|fs2: usize, fe2: usize|
                                ls <= fs2 < fs && f_max <= fe2 <= re ==> #[trigger] r@.contains(
                                    (SpanPair {
                                        e_start: e_start,
                                        e_end: e_end,
                                        f_start: fs2,
                                        f_end: fe2,
                                    }),
                                ),
                            strictly_sorted(r@),
                        decreases f_min + 1 - fs,
                    {
                        let mut fe: usize = f_max;
                        while fe <= re
                            invariant
                                f_max <= fe <= re + 1,
                                fs <= f_min,
                                forall|i: int| 0 <= i < r@.len() ==> extractable(a@, sl, tl, #[trigger] r@[i]),
                                forall|i: int|
                                    0 <= i < r@.len() ==> emitted_pos_lt(#[trigger] r@[i], es, ee, fs as int, fe as int),
                                complete_before(a@, sl, tl, r@, es, ee),
                                forall|fs2: usize, fe2: usize|
                                    ls <= fs2 < fs && f_max <= fe2 <= re ==> #[trigger] r@.contains(
                                        (SpanPair {
                                            e_start: e_start,
                                            e_end: e_end,
                                            f_start: fs2,
                                            f_end: fe2,
                                        }),
                                    ),
                                forall|fe2: usize|
                                    f_max <= fe2 < fe ==> #[trigger] r@.contains(
                                        (SpanPair {
                                            e_start: e_start,
                                            e_end: e_end,
                                            f_start: fs,
                                            f_end: fe2,
                                        }),
                                    ),
                                strictly_sorted(r@),
                            decreases re + 1 - fe,
                        {
                            let q = SpanPair { e_start, e_end, f_start: fs, f_end: fe };
                            assert(extractable(a@, sl, tl, q)) by {
                                assert forall|k2: int| 0 <= k2 < a@.len() implies (point_in_src(
                                    #[trigger] a@[k2],
                                    es,
                                    ee,
                                ) <==> point_in_trg(a@[k2], fs as int, fe as int)) by {
                                    if point_in_src(a@[k2], es, ee) {
                                        assert(f_min <= a@[k2].1 <= f_max);
                                    }
                                    if point_in_trg(a@[k2], fs as int, fe as int) {
                                        if a@[k2].1 < f_min {
                                            assert(trg_aligned(a@, a@[k2].1 as int));
                                            assert(false);
                                        } else if a@[k2].1 > f_max {
                                            assert(trg_aligned(a@, a@[k2].1 as int));
                                            assert(false);
                                        } else {
                                            assert(point_in_trg(a@[k2], f_min as int, f_max as int));
                                        }
                                    }
                                }
                            }
                            let ghost r_old = r@;
                            r.push(q);
                            assert(r@ == r_old.push(q));
                            assert(r@[r@.len() - 1] == q);
                            assert forall|x: SpanPair| r_old.contains(x) implies r@.contains(
                                x,
                            ) by {
                                let i = choose|i: int| 0 <= i < r_old.len() && r_old[i] == x;
                                assert(r@[i] == x);
                            }
                            assert forall|fs2: usize, fe2: usize|
                                ls <= fs2 < fs && f_max <= fe2 <= re implies r@.contains(
                                (SpanPair { e_start: e_start, e_end: e_end, f_start: fs2, f_end: fe2 }),
                            ) by {
                                assert(r_old.contains(
                                    (SpanPair {
                                        e_start: e_start,
                                        e_end: e_end,
                                        f_start: fs2,
                                        f_end: fe2,
                                    }),
                                ));
                            }
                            assert forall|fe2: usize| f_max <= fe2 < fe + 1 implies r@.contains(
                                (SpanPair { e_start: e_start, e_end: e_end, f_start: fs, f_end: fe2 }),
                            ) by {
                                if fe2 < fe {
                                    assert(r_old.contains(
                                        (SpanPair {
                                            e_start: e_start,
                                            e_end: e_end,
                                            f_start: fs,
                                            f_end: fe2,
                                        }),
                                    ));
                                } else {
                                    assert(r@[r@.len() - 1] == (SpanPair {
                                        e_start: e_start,
                                        e_end: e_end,
                                        f_start: fs,
                                        f_end: fe2,
                                    }));
                                }
                            }
                            assert forall|i2: int, j2: int| 0 <= i2 < j2 < r@.len() implies
                                span_pair_lt(#[trigger] r@[i2], #[trigger] r@[j2]) by {
                                if j2 == r@.len() - 1 {
                                    assert(emitted_pos_lt(r_old[i2], es, ee, fs as int, fe as int));
                                }
                            }
                            fe += 1;
                        }
                        fs += 1;
                    }

                    // Every extractable pair over this source span is now in.
                    assert forall|q: SpanPair|
                        extractable(a@, sl, tl, q) && q.e_start == e_start && q.e_end == e_end
                        implies r@.contains(q) by {
                        assert(ls <= q.f_start <= f_min && f_max <= q.f_end <= re);
                        assert(r@.contains(
                            (SpanPair {
                                e_start: e_start,
                                e_end: e_end,
                                f_start: q.f_start,
                                f_end: q.f_end,
                            }),
                        ));
                        assert(q == (SpanPair {
                            e_start: e_start,
                            e_end: e_end,
                            f_start: q.f_start,
                            f_end: q.f_end,
                        }));
                    }
                } else {
                    // Some point straddles the box: no pair over this span.
                    assert forall|q: SpanPair|
                        extractable(a@, sl, tl, q) implies !(q.e_start == e_start && q.e_end
                        == e_end) by {
                        if q.e_start == e_start && q.e_end == e_end {
                            let k2 = choose|k2: int|
                                0 <= k2 < a@.len() && (point_in_trg(
                                    #[trigger] a@[k2],
                                    f_min as int,
                                    f_max as int,
                                ) && !point_in_src(a@[k2], es, ee));
                            assert(q.f_start <= f_min && f_max <= q.f_end);
                            assert(point_in_trg(a@[k2], q.f_start as int, q.f_end as int));
                            assert(point_in_src(a@[k2], es, ee));
                            assert(false);
                        }
                    }
                }
            } else {
                // No alignment point in the span: it anchors no pair.
                assert forall|q: SpanPair|
                    extractable(a@, sl, tl, q) implies !(q.e_start == e_start && q.e_end == e_end) by {
                    if q.e_start == e_start && q.e_end == e_end {
                        assert(span_anchored(a@, es, ee));
                        assert(false);
                    }
                }
            }

            assert(complete_before(a@, sl, tl, r@, es, ee + 1)) by {
                assert forall|q: SpanPair|
                    #[trigger] extractable(a@, sl, tl, q) && span_before(q, es, ee + 1)
                    implies r@.contains(q) by {
                    if span_before(q, es, ee) {
                        assert(r@.contains(q));
                    } else {
                        assert(q.e_start == e_start && q.e_end == e_end);
                        assert(r@.contains(q));
                    }
                }
            }
            e_end += 1;
        }

        assert(complete_before(a@, sl, tl, r@, e_start as int + 1, e_start as int + 1)) by {
            assert forall|q: SpanPair|
                #[trigger] extractable(a@, sl, tl, q) && span_before(q, e_start as int + 1, e_start as int + 1)
                implies r@.contains(q) by {
                assert(q.e_start <= q.e_end < s_len);
                assert(span_before(q, e_start as int, s_len as int));
            }
        }
        e_start += 1;
    }

    assert forall|q: SpanPair| extractable(a@, sl, tl, q) implies r@.contains(q) by {
        assert(span_before(q, s_len as int, s_len as int));
    }
    r
}

/// Law: for every emitted phrase pair and every alignment point, the point's
/// source coordinate lies in the source span if and only if its target
/// coordinate lies in the target span — no point has exactly one coordinate
/// inside.
pub proof fn lemma_consistency(
    a: Seq<(usize, usize)>,
    s_len: int,
    t_len: int,
    q: SpanPair,
    k: int,
)
    requires
        extractable(a, s_len, t_len, q),
        0 <= k < a.len(),
    ensures
        point_in_src(a[k], q.e_start as int, q.e_end as int) <==> point_in_trg(
            a[k],
            q.f_start as int,
            q.f_end as int,
        ),
{
}

/// For a strictly sorted sequence, dropping the head keeps exactly the
/// elements above the head.
proof fn lemma_sorted_skip_contains(s: Seq<SpanPair>, q: SpanPair)
    requires
        strictly_sorted(s),
        s.len() > 0,
    ensures
        s.skip(1).contains(q) <==> (s.contains(q) && span_pair_lt(s[0], q)),
{
    if s.skip(1).contains(q) {
        let i = choose|i: int| 0 <= i < s.skip(1).len() && s.skip(1)[i] == q;
        assert(s[i + 1] == q);
        assert(span_pair_lt(s[0], s[i + 1]));
    }
    if s.contains(q) && span_pair_lt(s[0], q) {
        let i = choose|i: int| 0 <= i < s.len() && s[i] == q;
        assert(i != 0);
        assert(s.skip(1)[i - 1] == q);
    }
}

/// Two strictly sorted sequences with the same elements are equal.
proof fn lemma_sorted_same_elements(r1: Seq<SpanPair>, r2: Seq<SpanPair>)
    requires
        strictly_sorted(r1),
        strictly_sorted(r2),
        forall|q: SpanPair| r1.contains(q) <==> r2.contains(q),
    ensures
        r1 == r2,
    decreases r1.len(),
{
    if r1.len() == 0 {
        if r2.len() > 0 {
            assert(r2.contains(r2[0]));
            assert(r1.contains(r2[0]));
            assert(false);
        }
        assert(r1 =~= r2);
    } else {
        assert(r1.contains(r1[0]));
        assert(r2.contains(r1[0]));
        let i = choose|i: int| 0 <= i < r2.len() && r2[i] == r1[0];
        if i > 0 {
            // r2[0] would sit strictly below r1's minimum and strictly above it.
            assert(span_pair_lt(r2[0], r2[i]));
            assert(r2.contains(r2[0]));
            assert(r1.contains(r2[0]));
            let j = choose|j: int| 0 <= j < r1.len() && r1[j] == r2[0];
            if j == 0 {
                assert(span_pair_lt(r1[0], r1[0]));
            } else {
                assert(span_pair_lt(r1[0], r1[j]));
            }
            assert(false);
        }
        assert(r2[0] == r1[0]);
        assert(strictly_sorted(r1.skip(1))) by {
            assert forall|i2: int, j2: int| 0 <= i2 < j2 < r1.skip(1).len() implies span_pair_lt(
                #[trigger] r1.skip(1)[i2],
                #[trigger] r1.skip(1)[j2],
            ) by {
                assert(r1.skip(1)[i2] == r1[i2 + 1]);
                assert(r1.skip(1)[j2] == r1[j2 + 1]);
            }
        }
        assert(strictly_sorted(r2.skip(1))) by {
            assert forall|i2: int, j2: int| 0 <= i2 < j2 < r2.skip(1).len() implies span_pair_lt(
                #[trigger] r2.skip(1)[i2],
                #[trigger] r2.skip(1)[j2],
            ) by {
                assert(r2.skip(1)[i2] == r2[i2 + 1]);
                assert(r2.skip(1)[j2] == r2[j2 + 1]);
            }
        }
        assert forall|q: SpanPair| r1.skip(1).contains(q) <==> r2.skip(1).contains(q) by {
            lemma_sorted_skip_contains(r1, q);
            lemma_sorted_skip_contains(r2, q);
        }
        lemma_sorted_same_elements(r1.skip(1), r2.skip(1));
        assert(r1 =~= r2) by {
            assert forall|i2: int| 0 <= i2 < r1.len() implies r1[i2] == r2[i2] by {
                if i2 > 0 {
                    assert(r1.skip(1)[i2 - 1] == r2.skip(1)[i2 - 1]);
                }
            }
        }
    }
}

/// Law: extraction is deterministic — for one alignment and one pair of
/// sentence lengths, only a single sequence of span pairs satisfies the
/// extraction-result predicate, so re-running extraction reproduces it
/// exactly.
pub proof fn lemma_extraction_deterministic(
    a: Seq<(usize, usize)>,
    s_len: int,
    t_len: int,
    r1: Seq<SpanPair>,
    r2: Seq<SpanPair>,
)
    requires
        is_extraction_result(a, s_len, t_len, r1),
        is_extraction_result(a, s_len, t_len, r2),
    ensures
        r1 == r2,
{
    assert forall|q: SpanPair| r1.contains(q) <==> r2.contains(q) by {
        if r1.contains(q) {
            let i = choose|i: int| 0 <= i < r1.len() && r1[i] == q;
            assert(extractable(a, s_len, t_len, r1[i]));
        }
        if r2.contains(q) {
            let i = choose|i: int| 0 <= i < r2.len() && r2[i] == q;
            assert(extractable(a, s_len, t_len, r2[i]));
        }
    }
    lemma_sorted_same_elements(r1, r2);
}

/// Law: an empty source or target sentence admits no span at all, so
/// extraction yields nothing rather than failing.
pub proof fn lemma_empty_sentence(
    a: Seq<(usize, usize)>,
    s_len: int,
    t_len: int,
    r: Seq<SpanPair>,
)
    requires
        s_len == 0 || t_len == 0,
        is_extraction_result(a, s_len, t_len, r),
    ensures
        r == Seq::<SpanPair>::empty(),
{
    if r.len() > 0 {
        assert(extractable(a, s_len, t_len, r[0]));
    }
    assert(r =~= Seq::<SpanPair>::empty());
}

/// Law: with an empty alignment no source span is anchored, so extraction
/// yields nothing, whatever the sentences hold.
pub proof fn lemma_empty_alignment(
    a: Seq<(usize, usize)>,
    s_len: int,
    t_len: int,
    r: Seq<SpanPair>,
)
    requires
        a.len() == 0,
        is_extraction_result(a, s_len, t_len, r),
    ensures
        r == Seq::<SpanPair>::empty(),
{
    if r.len() > 0 {
        assert(extractable(a, s_len, t_len, r[0]));
        assert(span_anchored(a, r[0].e_start as int, r[0].e_end as int));
        let k = choose|k: int|
            0 <= k < a.len() && point_in_src(#[trigger] a[k], r[0].e_start as int, r[0].e_end as int);
        assert(false);
    }
    assert(r =~= Seq::<SpanPair>::empty());
}

} // verus!

