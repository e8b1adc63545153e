//! Ordering and filtering of scored documents.
//!
//! A score is the bit pattern of an IEEE-754 double, carried as a `u64`.
//! `score_key` maps such a bit pattern to a `u64` whose unsigned order
//! ranks the underlying doubles as the ranking engine is meant to:
//! descending by value, not-a-numbers least, so the whole pipeline is
//! verified over plain integers. The numeric scoring itself lives with
//! the service layer, which hands in one score per document.

use vstd::prelude::*;
use crate::index::Index;

verus! {

broadcast use vstd::seq_lib::group_to_multiset_ensures;

/// A ranked result: a document's display name and its score bits.
pub struct SearchMatch {
    pub file_name: String,
    pub score: u64,
}

/// What a search returns: the ranked, filtered, capped matches, and
/// their count.
pub struct SearchResult {
    pub matches: Vec<SearchMatch>,
    pub total: usize,
}

/// A search request: query terms, an optional cap on the number of
/// results, and an optional score threshold (as score bits).
pub struct SearchData {
    pub terms: Vec<String>,
    pub max_length: Option<i32>,
    pub min_score: Option<u64>,
}

/// Is the bit pattern one of a not-a-number: exponent all ones with a
/// non-zero significand?
pub open spec fn is_nan_bits(bits: u64) -> bool {
    bits & 0x7FF0_0000_0000_0000 == 0x7FF0_0000_0000_0000 && bits & 0x000F_FFFF_FFFF_FFFF != 0
}

/// The ranking key of a score bit pattern. Unsigned comparison of keys
/// orders scores as doubles are to be ranked: not-a-numbers (of either
/// sign) below every real score, negatives below non-negatives in
/// value order, the two zeros equal, infinities at the ends. On real
/// thresholds the strict key comparison therefore agrees with the
/// IEEE `>` of the scorer, and a not-a-number score never passes a
/// filter.
pub open spec fn score_key_of(bits: u64) -> u64 {
    if is_nan_bits(bits) {
        0
    } else if bits == 0x8000_0000_0000_0000 {
        0x8000_0000_0000_0000
    } else if bits >= 0x8000_0000_0000_0000 {
        !bits
    } else {
        (bits + 0x8000_0000_0000_0000) as u64
    }
}

/// Computes `score_key_of`.
pub fn score_key(bits: u64) -> (r: u64)
    ensures
        r == score_key_of(bits),
{
    if bits & 0x7FF0_0000_0000_0000 == 0x7FF0_0000_0000_0000 && bits & 0x000F_FFFF_FFFF_FFFF
        != 0 {
        0
    } else if bits == 0x8000_0000_0000_0000 {
        0x8000_0000_0000_0000
    } else if bits >= 0x8000_0000_0000_0000 {
        !bits
    } else {
        bits + 0x8000_0000_0000_0000
    }
}

/// One `(document id, score bits)` pair per document, in id order.
pub open spec fn score_pairs(scores: Seq<u64>) -> Seq<(u64, u64)> {
    Seq::new(scores.len(), |i: int| (i as u64, scores[i]))
}

/// Stable insertion into a sequence sorted by descending score key:
/// the new pair goes after every pair scoring at least as high.
pub open spec fn insert_desc(s: Seq<(u64, u64)>, x: (u64, u64)) -> Seq<(u64, u64)>
    decreases s.len(),
{
    if s.len() == 0 {
        seq![x]
    } else if score_key_of(s.last().1) >= score_key_of(x.1) {
        s.push(x)
    } else {
        insert_desc(s.drop_last(), x).push(s.last())
    }
}

/// Stable sort by descending score key; ties keep id order.
pub open spec fn sort_desc(s: Seq<(u64, u64)>) -> Seq<(u64, u64)>
    decreases s.len(),
{
    if s.len() == 0 {
        Seq::empty()
    } else {
        insert_desc(sort_desc(s.drop_last()), s.last())
    }
}

/// Pairs scoring strictly above the threshold, in order.
pub open spec fn filter_min(s: Seq<(u64, u64)>, min: u64) -> Seq<(u64, u64)>
    decreases s.len(),
{
    if s.len() == 0 {
        Seq::empty()
    } else {
        (if score_key_of(s[0].1) > score_key_of(min) {
            seq![s[0]]
        } else {
            Seq::empty()
        }) + filter_min(s.skip(1), min)
    }
}

/// How many scores lie strictly above the threshold.
pub open spec fn count_above(scores: Seq<u64>, min: u64) -> nat
    decreases scores.len(),
{
    if scores.len() == 0 {
        0
    } else {
        (if score_key_of(scores[0]) > score_key_of(min) {
            1nat
        } else {
            0
        }) + count_above(scores.skip(1), min)
    }
}

/// The first `cap` entries, or all of them without a cap.
pub open spec fn take_cap(s: Seq<(u64, u64)>, cap: Option<usize>) -> Seq<(u64, u64)> {
    match cap {
        Option::None => s,
        Option::Some(m) => if m < s.len() {
            s.take(m as int)
        } else {
            s
        },
    }
}

/// The whole ranked pipeline: sort all documents by descending score,
/// drop those at or below the threshold, cap the length.
pub open spec fn ranked(scores: Seq<u64>, min: u64, cap: Option<usize>) -> Seq<(u64, u64)> {
    take_cap(filter_min(sort_desc(score_pairs(scores)), min), cap)
}

proof fn lemma_filter_min_add(s1: Seq<(u64, u64)>, s2: Seq<(u64, u64)>, min: u64)
    ensures
        filter_min(s1 + s2, min) == filter_min(s1, min) + filter_min(s2, min),
    decreases s1.len(),
{
    if s1.len() == 0 {
        assert(s1 + s2 =~= s2);
        assert(filter_min(s1, min) + filter_min(s2, min) =~= filter_min(s2, min));
    } else {
        assert((s1 + s2).skip(1) =~= s1.skip(1) + s2);
        lemma_filter_min_add(s1.skip(1), s2, min);
        assert((s1 + s2)[0] == s1[0]);
        assert((if score_key_of(s1[0].1) > score_key_of(min) {
            seq![s1[0]]
        } else {
            Seq::<(u64, u64)>::empty()
        }) + (filter_min(s1.skip(1), min) + filter_min(s2, min)) =~= ((if score_key_of(s1[0].1)
            > score_key_of(min) {
            seq![s1[0]]
        } else {
            Seq::<(u64, u64)>::empty()
        }) + filter_min(s1.skip(1), min)) + filter_min(s2, min));
    }
}

proof fn lemma_filter_min_push(s: Seq<(u64, u64)>, x: (u64, u64), min: u64)
    ensures
        filter_min(s.push(x), min) == filter_min(s, min) + (if score_key_of(x.1) > score_key_of(
            min,
        ) {
            seq![x]
        } else {
            Seq::<(u64, u64)>::empty()
        }),
{
    assert(s.push(x) =~= s + seq![x]);
    lemma_filter_min_add(s, seq![x], min);
    assert(seq![x].skip(1) =~= Seq::<(u64, u64)>::empty());
    assert(filter_min(Seq::<(u64, u64)>::empty(), min) == Seq::<(u64, u64)>::empty());
    assert(filter_min(seq![x], min) =~= (if score_key_of(x.1) > score_key_of(min) {
        seq![x]
    } else {
        Seq::<(u64, u64)>::empty()
    }));
}

/// Inserting in sorted position is inserting at the found index.
proof fn lemma_insert_desc_at(s: Seq<(u64, u64)>, x: (u64, u64), pos: int)
    requires
        0 <= pos <= s.len(),
        forall|j: int| pos <= j < s.len() ==> score_key_of((#[trigger] s[j]).1) < score_key_of(x.1),
        pos > 0 ==> score_key_of(s[pos - 1].1) >= score_key_of(x.1),
    ensures
        insert_desc(s, x) == s.insert(pos, x),
    decreases s.len(),
{
    if s.len() == 0 {
        assert(seq![x] =~= s.insert(0, x));
    } else if score_key_of(s.last().1) >= score_key_of(x.1) {
        assert(pos == s.len());
        assert(s.push(x) =~= s.insert(s.len() as int, x));
    } else {
        assert(pos < s.len());
        lemma_insert_desc_at(s.drop_last(), x, pos);
        assert(insert_desc(s.drop_last(), x).push(s.last()) =~= s.insert(pos, x));
    }
}

proof fn lemma_insert_desc_multiset(s: Seq<(u64, u64)>, x: (u64, u64))
    ensures
        insert_desc(s, x).to_multiset() == s.to_multiset().insert(x),
    decreases s.len(),
{
    if s.len() == 0 {
        assert(seq![x] =~= Seq::<(u64, u64)>::empty().push(x));
        assert(s.to_multiset() =~= Seq::<(u64, u64)>::empty().to_multiset());
    } else if score_key_of(s.last().1) >= score_key_of(x.1) {
    } else {
        lemma_insert_desc_multiset(s.drop_last(), x);
        assert(s.drop_last().push(s.last()) =~= s);
        assert(s.drop_last().to_multiset().insert(x).insert(s.last())
            =~= s.drop_last().to_multiset().insert(s.last()).insert(x));
    }
}

proof fn lemma_sort_desc_multiset(s: Seq<(u64, u64)>)
    ensures
        sort_desc(s).to_multiset() == s.to_multiset(),
    decreases s.len(),
{
    if s.len() > 0 {
        lemma_sort_desc_multiset(s.drop_last());
        lemma_insert_desc_multiset(sort_desc(s.drop_last()), s.last());
        assert(s.drop_last().push(s.last()) =~= s);
    }
}

/// Every sorted pair is one of the input pairs.
proof fn lemma_sort_desc_membership(s: Seq<(u64, u64)>, j: int)
    requires
        0 <= j < sort_desc(s).len(),
    ensures
        exists|i: int| 0 <= i < s.len() && s[i] == sort_desc(s)[j],
{
    lemma_sort_desc_multiset(s);
    let x = sort_desc(s)[j];
    assert(sort_desc(s).contains(x));
    assert(sort_desc(s).to_multiset().count(x) > 0);
    assert(s.contains(x));
}

/// Every filtered pair is one of the input pairs.
proof fn lemma_filter_min_membership(s: Seq<(u64, u64)>, min: u64, j: int)
    requires
        0 <= j < filter_min(s, min).len(),
    ensures
        exists|i: int| 0 <= i < s.len() && s[i] == filter_min(s, min)[j],
    decreases s.len(),
{
    let f = filter_min(s, min);
    if score_key_of(s[0].1) > score_key_of(min) {
        if j == 0 {
            assert(f[0] == s[0]);
        } else {
            lemma_filter_min_membership(s.skip(1), min, j - 1);
            let i = choose|i: int|
                0 <= i < s.skip(1).len() && s.skip(1)[i] == filter_min(s.skip(1), min)[j - 1];
            assert(s[i + 1] == f[j]);
        }
    } else {
        lemma_filter_min_membership(s.skip(1), min, j);
        let i = choose|i: int|
            0 <= i < s.skip(1).len() && s.skip(1)[i] == filter_min(s.skip(1), min)[j];
        assert(s[i + 1] == f[j]);
    }
}

/// Filtering after a stable insertion keeps one pair more exactly when
/// the inserted pair passes the threshold.
proof fn lemma_filter_min_insert_len(s: Seq<(u64, u64)>, x: (u64, u64), min: u64)
    ensures
        filter_min(insert_desc(s, x), min).len() == filter_min(s, min).len() + (if score_key_of(
            x.1,
        ) > score_key_of(min) {
            1nat
        } else {
            0
        }),
    decreases s.len(),
{
    if s.len() == 0 {
        assert(seq![x] =~= Seq::<(u64, u64)>::empty().push(x));
        lemma_filter_min_push(Seq::<(u64, u64)>::empty(), x, min);
    } else if score_key_of(s.last().1) >= score_key_of(x.1) {
        lemma_filter_min_push(s, x, min);
    } else {
        lemma_filter_min_insert_len(s.drop_last(), x, min);
        lemma_filter_min_push(insert_desc(s.drop_last(), x), s.last(), min);
        lemma_filter_min_push(s.drop_last(), s.last(), min);
        assert(s.drop_last().push(s.last()) =~= s);
    }
}

/// After sorting, the number of pairs above the threshold is the
/// number of scores above the threshold.
proof fn lemma_filter_sort_len(s: Seq<(u64, u64)>, min: u64)
    ensures
        filter_min(sort_desc(s), min).len() == filter_min(s, min).len(),
    decreases s.len(),
{
    if s.len() > 0 {
        lemma_filter_sort_len(s.drop_last(), min);
        lemma_filter_min_insert_len(sort_desc(s.drop_last()), s.last(), min);
        lemma_filter_min_push(s.drop_last(), s.last(), min);
        assert(s.drop_last().push(s.last()) =~= s);
    }
}

proof fn lemma_filter_pairs_count(scores: Seq<u64>, min: u64)
    ensures
        filter_min(score_pairs(scores), min).len() == count_above(scores, min),
    decreases scores.len(),
{
    if scores.len() > 0 {
        let p = score_pairs(scores);
        let pt = score_pairs(scores.skip(1));
        lemma_filter_pairs_count(scores.skip(1), min);
        // the tail pairs carry shifted ids but identical scores, and
        // the filtered length depends on the scores alone
        lemma_filter_len_score_eq(p.skip(1), pt, min);
        assert(p[0].1 == scores[0]);
    }
}

/// Two pair sequences with the same scores filter to the same length.
proof fn lemma_filter_len_score_eq(a: Seq<(u64, u64)>, b: Seq<(u64, u64)>, min: u64)
    requires
        a.len() == b.len(),
        forall|i: int| 0 <= i < a.len() ==> (#[trigger] a[i]).1 == b[i].1,
    ensures
        filter_min(a, min).len() == filter_min(b, min).len(),
    decreases a.len(),
{
    if a.len() > 0 {
        assert(forall|i: int| 0 <= i < a.skip(1).len() ==> (#[trigger] a.skip(1)[i]).1 == b.skip(
            1,
        )[i].1);
        lemma_filter_len_score_eq(a.skip(1), b.skip(1), min);
        assert(a[0].1 == b[0].1);
    }
}

/// Pairs in descending score-key order.
pub open spec fn sorted_desc(s: Seq<(u64, u64)>) -> bool {
    forall|i: int, j: int|
        0 <= i < j < s.len() ==> score_key_of((#[trigger] s[i]).1) >= score_key_of(
            (#[trigger] s[j]).1,
        )
}

proof fn lemma_insert_desc_sorted(s: Seq<(u64, u64)>, x: (u64, u64))
    requires
        sorted_desc(s),
    ensures
        sorted_desc(insert_desc(s, x)),
    decreases s.len(),
{
    if s.len() == 0 {
    } else if score_key_of(s.last().1) >= score_key_of(x.1) {
        assert forall|i: int| 0 <= i < s.len() implies score_key_of(
            (#[trigger] s[i]).1,
        ) >= score_key_of(x.1) by {
            assert(score_key_of(s[i].1) >= score_key_of(s[s.len() - 1].1));
        }
    } else {
        let dl = s.drop_last();
        assert(sorted_desc(dl)) by {
            assert(forall|i: int| 0 <= i < dl.len() ==> dl[i] == s[i]);
        }
        lemma_insert_desc_sorted(dl, x);
        let t = insert_desc(dl, x);
        // everything already placed scores at least as high as the
        // displaced last pair
        assert forall|i: int| 0 <= i < t.len() implies score_key_of(
            (#[trigger] t[i]).1,
        ) >= score_key_of(s.last().1) by {
            lemma_insert_desc_multiset(dl, x);
            assert(t.contains(t[i]));
            assert(t.to_multiset().count(t[i]) > 0);
            if t[i] == x {
            } else {
                assert(dl.to_multiset().count(t[i]) > 0);
                assert(dl.contains(t[i]));
                let j = choose|j: int| 0 <= j < dl.len() && dl[j] == t[i];
                assert(score_key_of(s[j].1) >= score_key_of(s[s.len() - 1].1));
            }
        }
        assert(insert_desc(s, x) == t.push(s.last()));
        assert forall|i: int, j: int|
            0 <= i < j < t.push(s.last()).len() implies score_key_of(
            (#[trigger] t.push(s.last())[i]).1,
        ) >= score_key_of((#[trigger] t.push(s.last())[j]).1) by {
            if j < t.len() {
                assert(t.push(s.last())[i] == t[i]);
                assert(t.push(s.last())[j] == t[j]);
            } else {
                assert(t.push(s.last())[i] == t[i]);
                assert(t.push(s.last())[j] == s.last());
            }
        }
    }
}

proof fn lemma_sort_desc_sorted(s: Seq<(u64, u64)>)
    ensures
        sorted_desc(sort_desc(s)),
    decreases s.len(),
{
    if s.len() > 0 {
        lemma_sort_desc_sorted(s.drop_last());
        lemma_insert_desc_sorted(sort_desc(s.drop_last()), s.last());
    }
}

proof fn lemma_filter_min_sorted(s: Seq<(u64, u64)>, min: u64)
    requires
        sorted_desc(s),
    ensures
        sorted_desc(filter_min(s, min)),
    decreases s.len(),
{
    if s.len() > 0 {
        assert(sorted_desc(s.skip(1))) by {
            assert(forall|i: int| 0 <= i < s.skip(1).len() ==> s.skip(1)[i] == s[i + 1]);
        }
        lemma_filter_min_sorted(s.skip(1), min);
        let f = filter_min(s, min);
        let ft = filter_min(s.skip(1), min);
        assert forall|i: int, j: int| 0 <= i < j < f.len() implies score_key_of(
            (#[trigger] f[i]).1,
        ) >= score_key_of((#[trigger] f[j]).1) by {
            if score_key_of(s[0].1) > score_key_of(min) {
                assert(f == seq![s[0]] + ft);
                if i == 0 {
                    assert(f[j] == ft[j - 1]);
                    lemma_filter_min_membership(s.skip(1), min, j - 1);
                    let q = choose|q: int|
                        0 <= q < s.skip(1).len() && s.skip(1)[q] == ft[j - 1];
                    assert(s[q + 1] == ft[j - 1]);
                    assert(score_key_of(s[0].1) >= score_key_of(s[q + 1].1));
                } else {
                    assert(f[i] == ft[i - 1]);
                    assert(f[j] == ft[j - 1]);
                }
            } else {
                assert(f == Seq::<(u64, u64)>::empty() + ft);
                assert(f[i] == ft[i]);
                assert(f[j] == ft[j]);
            }
        }
    }
}

/// The ranked result really is ranked: scores come out in descending
/// key order — by value, not-a-numbers last — whatever the threshold
/// and the cap.
pub proof fn lemma_ranked_sorted(scores: Seq<u64>, min: u64, cap: Option<usize>)
    ensures
        sorted_desc(ranked(scores, min, cap)),
{
    lemma_sort_desc_sorted(score_pairs(scores));
    lemma_filter_min_sorted(sort_desc(score_pairs(scores)), min);
    let full = filter_min(sort_desc(score_pairs(scores)), min);
    let r = ranked(scores, min, cap);
    assert forall|i: int, j: int| 0 <= i < j < r.len() implies score_key_of(
        (#[trigger] r[i]).1,
    ) >= score_key_of((#[trigger] r[j]).1) by {
        assert(r[i] == full[i]);
        assert(r[j] == full[j]);
    }
}

/// The number of documents scoring strictly above the threshold is the
/// post-filter result count: with no cap, `total` is exactly this.
/// With the threshold at the bits of `0.0`, it is the number of
/// documents with positive score: zero, negative, and not-a-number
/// scores are never counted.
pub proof fn lemma_total_counts_positive(scores: Seq<u64>, min: u64)
    ensures
        ranked(scores, min, Option::None).len() == count_above(scores, min),
{
    lemma_filter_sort_len(score_pairs(scores), min);
    lemma_filter_pairs_count(scores, min);
}

/// A cap only truncates: the capped ranking is a prefix of the
/// uncapped one, never reordered and never differently filtered.
pub proof fn lemma_max_length_truncates(scores: Seq<u64>, min: u64, m: usize)
    ensures
        ranked(scores, min, Option::Some(m)) == if m < ranked(scores, min, Option::None).len() {
            ranked(scores, min, Option::None).take(m as int)
        } else {
            ranked(scores, min, Option::None)
        },
{
}

/// For one index and one score vector, the ranked result is a single
/// mathematical function of them: two searches with the same inputs
/// return identical sequences.
pub proof fn lemma_search_pure(
    scores: Seq<u64>,
    min1: u64,
    min2: u64,
    cap1: Option<usize>,
    cap2: Option<usize>,
)
    requires
        min1 == min2,
        cap1 == cap2,
    ensures
        ranked(scores, min1, cap1) == ranked(scores, min2, cap2),
{
}

/// Sorts `(document id, score bits)` pairs by descending score key,
/// ties in id order.
fn order_results(scores: &Vec<u64>) -> (r: Vec<(u64, u64)>)
    ensures
        r@ == sort_desc(score_pairs(scores@)),
{
    let mut r: Vec<(u64, u64)> = Vec::new();
    let mut i: usize = 0;
    proof {
        assert(score_pairs(scores@).take(0) =~= Seq::<(u64, u64)>::empty());
    }
    while i < scores.len()
        invariant
            i <= scores@.len(),
            r@ == sort_desc(score_pairs(scores@).take(i as int)),
        decreases scores@.len() - i,
    {
        let x = (i as u64, scores[i]);
        let xk = score_key(x.1);
        let mut pos = r.len();
        while pos > 0 && score_key(r[pos - 1].1) < xk
            invariant
                pos <= r@.len(),
                xk == score_key_of(x.1),
                forall|j: int|
                    pos <= j < r@.len() ==> score_key_of((#[trigger] r@[j]).1) < score_key_of(x.1),
            decreases pos,
        {
            pos = pos - 1;
        }
        proof {
            lemma_insert_desc_at(r@, x, pos as int);
            let p = score_pairs(scores@);
            assert(p.take(i + 1).drop_last() =~= p.take(i as int));
            assert(p.take(i + 1).last() == p[i as int]);
            assert(p[i as int] == x);
        }
        r.insert(pos, x);
        i = i + 1;
    }
    proof {
        assert(score_pairs(scores@).take(scores@.len() as int) =~= score_pairs(scores@));
    }
    r
}

/// Pairs scoring strictly above the threshold, in order.
fn filter_results(sorted: &Vec<(u64, u64)>, min: u64) -> (r: Vec<(u64, u64)>)
    ensures
        r@ == filter_min(sorted@, min),
{
    let mut r: Vec<(u64, u64)> = Vec::new();
    let minkey = score_key(min);
    let mut i: usize = 0;
    proof {
        assert(sorted@.take(0) =~= Seq::<(u64, u64)>::empty());
        assert(r@ =~= filter_min(sorted@.take(0), min));
    }
    while i < sorted.len()
        invariant
            i <= sorted@.len(),
            minkey == score_key_of(min),
            r@ == filter_min(sorted@.take(i as int), min),
        decreases sorted@.len() - i,
    {
        let x = sorted[i];
        proof {
            lemma_filter_min_push(sorted@.take(i as int), x, min);
            assert(sorted@.take(i + 1) =~= sorted@.take(i as int).push(x));
        }
        if score_key(x.1) > minkey {
            r.push(x);
            proof {
                assert(filter_min(sorted@.take(i as int), min).push(x) =~= filter_min(
                    sorted@.take(i as int),
                    min,
                ) + seq![x]);
            }
        } else {
            proof {
                assert(filter_min(sorted@.take(i as int), min) + Seq::<(u64, u64)>::empty()
                    =~= filter_min(sorted@.take(i as int), min));
            }
        }
        i = i + 1;
    }
    proof {
        assert(sorted@.take(sorted@.len() as int) =~= sorted@);
    }
    r
}

/// Ranks every document by its score, filters, caps, and resolves
/// document ids to display names. The service layer computes one score
/// per document (id order) and passes the bit patterns here; with no
/// threshold the bits of `0.0` apply, and a negative cap means no cap,
/// as a cap wider than the result list does.
pub fn search(index: &Index, scores: &Vec<u64>, max_length: Option<i32>, min_score: Option<u64>) -> (r:
    SearchResult)
    requires
        index.wf(),
        scores@.len() == index.n(),
    ensures
        ({
            let min = match min_score {
                Option::Some(m) => m,
                Option::None => 0u64,
            };
            let cap = match max_length {
                Option::Some(m) => if m >= 0 {
                    Option::Some(m as usize)
                } else {
                    Option::None
                },
                Option::None => Option::None,
            };
            let want = ranked(scores@, min, cap);
            &&& r.matches@.len() == want.len()
            &&& r.total == want.len()
            &&& (cap is None ==> r.total == count_above(scores@, min))
            &&& forall|j: int|
                0 <= j < want.len() ==> (#[trigger] r.matches@[j]).score == want[j].1
                    && r.matches@[j].file_name@ == index.doc_names@[want[j].0 as int]@
        }),
{
    let min: u64 = match min_score {
        Option::Some(m) => m,
        Option::None => 0u64,
    };
    let sorted = order_results(scores);
    let mut kept = filter_results(&sorted, min);
    match max_length {
        Option::Some(m) => {
            if m >= 0 {
                kept.truncate(m as usize);
            }
        },
        Option::None => {},
    }
    proof {
        let minv = match min_score {
            Option::Some(m) => m,
            Option::None => 0u64,
        };
        let capv = match max_length {
            Option::Some(m) => if m >= 0 {
                Option::<usize>::Some(m as usize)
            } else {
                Option::<usize>::None
            },
            Option::None => Option::<usize>::None,
        };
        assert(kept@ =~= ranked(scores@, minv, capv));
        lemma_total_counts_positive(scores@, minv);
        // every kept pair names a real document
        assert forall|j: int| 0 <= j < kept@.len() implies (#[trigger] kept@[j]).0
            < index.n() by {
            let full = filter_min(sort_desc(score_pairs(scores@)), minv);
            assert(kept@[j] == full[j]);
            lemma_filter_min_membership(sort_desc(score_pairs(scores@)), minv, j);
            let i1 = choose|i1: int|
                0 <= i1 < sort_desc(score_pairs(scores@)).len() && sort_desc(score_pairs(scores@))[i1]
                    == full[j];
            lemma_sort_desc_membership(score_pairs(scores@), i1);
        }
    }
    let ghost want = kept@;
    let nn = index.doc_count();
    let mut matches: Vec<SearchMatch> = Vec::new();
    let mut j: usize = 0;
    while j < kept.len()
        invariant
            index.wf(),
            nn == index.n(),
            j <= kept@.len(),
            kept@ == want,
            forall|q: int| 0 <= q < kept@.len() ==> (#[trigger] kept@[q]).0 < index.n(),
            matches@.len() == j,
            forall|q: int|
                0 <= q < j ==> (#[trigger] matches@[q]).score == kept@[q].1
                    && matches@[q].file_name@ == index.doc_names@[kept@[q].0 as int]@,
        decreases kept@.len() - j,
    {
        let (doc, sc) = kept[j];
        proof {
            assert(kept@[j as int].0 < index.n());
        }
        let name = index.doc_name(doc as usize).clone();
        matches.push(SearchMatch { file_name: name, score: sc });
        j = j + 1;
    }
    let total = matches.len();
    SearchResult { matches, total }
}

} // verus!
