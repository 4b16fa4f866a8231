use vstd::prelude::*;
use vstd::seq_lib::*;

use crate::ordering::{
    keep_above, key_above, key_at_most, lemma_filter_all, lemma_stable_sort_filter_len, lemma_stable_sort_by_key, sort_by_key, sorted_by_key, stable_sort_by_key,
    Candidate,
};

verus! {

/// The number of leading entries of `s`, among its first `limit`, whose
/// keys are at most `bound`.
pub open spec fn spared_count(s: Seq<Candidate>, limit: nat, bound: u64) -> nat
    decreases s.len(),
{
    if s.len() == 0 || limit == 0 {
        0
    } else if s[0].1 <= bound {
        1 + spared_count(s.drop_first(), (limit - 1) as nat, bound)
    } else {
        0
    }
}

/// `s` rotated right `r` times: each rotation moves the last entry to the front.
pub open spec fn rotate_right(s: Seq<Candidate>, r: nat) -> Seq<Candidate>
    decreases r,
{
    if r == 0 || s.len() == 0 {
        s
    } else {
        let t = rotate_right(s, (r - 1) as nat);
        seq![t.last()] + t.drop_last()
    }
}

/// What is left of a key-sorted `s` when, from the `limit`-th entry down to
/// the first, every entry whose key is at most `bound` is swapped with the
/// last entry and removed: the entries after the spared prefix, rotated
/// once per spared entry.
pub open spec fn spare_small(s: Seq<Candidate>, limit: nat, bound: u64) -> Seq<Candidate> {
    let c = spared_count(s, limit, bound);
    rotate_right(s.skip(c as int), c)
}

/// The outliers among `candidates`: those whose keys exceed `kappa`,
/// ordered by ascending key, less the up to `limit` smallest of them
/// whose keys do not exceed `k_005`.
pub open spec fn outlier_selection(
    candidates: Seq<Candidate>,
    kappa: u64,
    k_005: u64,
    limit: nat,
) -> Seq<Candidate> {
    spare_small(stable_sort_by_key(candidates.filter(key_above(kappa))), limit, k_005)
}

proof fn lemma_spared_count(s: Seq<Candidate>, limit: nat, bound: u64)
    ensures
        spared_count(s, limit, bound) <= s.len(),
        spared_count(s, limit, bound) <= limit,
        forall|q: int| 0 <= q < spared_count(s, limit, bound) ==> #[trigger] s[q].1 <= bound,
        spared_count(s, limit, bound) < s.len() && spared_count(s, limit, bound) < limit
            ==> s[spared_count(s, limit, bound) as int].1 > bound,
    decreases s.len(),
{
    if s.len() > 0 && limit > 0 && s[0].1 <= bound {
        lemma_spared_count(s.drop_first(), (limit - 1) as nat, bound);
        assert forall|q: int| 0 <= q < spared_count(s, limit, bound) implies #[trigger] s[q].1
            <= bound by {
            if q > 0 {
                assert(s[q] == s.drop_first()[q - 1]);
            }
        }
    }
}

/// In a sorted sequence, the entries among the first `limit` that are not
/// spared have keys above `bound`.
proof fn lemma_spared_count_sorted(s: Seq<Candidate>, limit: nat, bound: u64)
    requires
        sorted_by_key(s),
    ensures
        spared_count(s, limit, bound) <= s.len(),
        spared_count(s, limit, bound) <= limit,
        forall|q: int| 0 <= q < spared_count(s, limit, bound) ==> #[trigger] s[q].1 <= bound,
        forall|q: int|
            spared_count(s, limit, bound) <= q < s.len() && q < limit ==> #[trigger] s[q].1 > bound,
{
    lemma_spared_count(s, limit, bound);
    let c = spared_count(s, limit, bound) as int;
    assert forall|q: int| c <= q < s.len() && q < limit implies #[trigger] s[q].1 > bound by {
        if q > c {
            assert(s[c].1 <= s[q].1);
        }
    }
}

proof fn lemma_rotate_right(s: Seq<Candidate>, r: nat)
    ensures
        rotate_right(s, r).len() == s.len(),
        rotate_right(s, r).to_multiset() == s.to_multiset(),
    decreases r,
{
    broadcast use group_to_multiset_ensures;

    if r > 0 && s.len() > 0 {
        let t = rotate_right(s, (r - 1) as nat);
        lemma_rotate_right(s, (r - 1) as nat);
        let u = seq![t.last()] + t.drop_last();
        assert(u =~= t.drop_last().insert(0, t.last()));
        assert(t.drop_last().push(t.last()) =~= t);
        assert(t.drop_last().push(t.last()) =~= t.drop_last().insert(
            t.drop_last().len() as int,
            t.last(),
        ));
    }
}

/// Removes, from the `limit`-th entry down to the first, every entry whose
/// key is at most `bound`, by swapping it with the last entry.
fn spare_small_exec(v: &mut Vec<Candidate>, limit: usize, bound: u64)
    requires
        sorted_by_key(old(v)@),
    ensures
        final(v)@ == spare_small(old(v)@, limit as nat, bound),
{
    let ghost s = v@;
    let ghost c = spared_count(s, limit as nat, bound) as int;
    proof {
        lemma_spared_count_sorted(s, limit as nat, bound);
        assert(s.take(c) + s.skip(c) =~= s);
    }
    let len = if limit < v.len() {
        limit
    } else {
        v.len()
    };
    let mut j = len;
    while j > 0
        invariant
            s.len() == old(v)@.len(),
            sorted_by_key(s),
            c == spared_count(s, limit as nat, bound),
            c <= len,
            len <= s.len(),
            len <= limit,
            j <= len,
            forall|q: int| 0 <= q < c ==> #[trigger] s[q].1 <= bound,
            forall|q: int| c <= q < s.len() && q < limit ==> #[trigger] s[q].1 > bound,
            j >= c ==> v@ == s,
            j < c ==> v@ == s.take(j as int) + rotate_right(s.skip(c), (c - j) as nat),
        decreases j,
    {
        j = j - 1;
        proof {
            if (j as int) < c {
                lemma_rotate_right(s.skip(c), (c - j - 1) as nat);
                if j + 1 == c {
                    assert(rotate_right(s.skip(c), 0) == s.skip(c));
                }
                assert(v@ =~= s.take(j + 1) + rotate_right(s.skip(c), (c - j - 1) as nat));
            }
            assert(v@[j as int] == s[j as int]);
        }
        if v[j].1 <= bound {
            let ghost r = rotate_right(s.skip(c), (c - j - 1) as nat);
            let ghost before = v@;
            proof {
                lemma_rotate_right(s.skip(c), (c - j - 1) as nat);
                assert(before =~= s.take(j + 1) + r);
            }
            v.swap_remove(j);
            proof {
                if r.len() > 0 {
                    assert(before.last() == r.last());
                    assert(rotate_right(s.skip(c), (c - j) as nat) == seq![r.last()]
                        + r.drop_last());
                    assert(v@ =~= s.take(j as int) + (seq![r.last()] + r.drop_last()));
                } else {
                    assert(rotate_right(s.skip(c), (c - j) as nat) =~= Seq::<Candidate>::empty());
                    assert(v@ =~= s.take(j as int));
                    assert(v@ =~= s.take(j as int) + rotate_right(s.skip(c), (c - j) as nat));
                }
            }
        }
    }
    proof {
        if c == 0 {
            assert(s.skip(0) =~= s);
        }
        assert(s.take(0) + rotate_right(s.skip(c), c as nat) =~= rotate_right(s.skip(c), c as nat));
    }
}

/// Selects the outliers among `candidates`: those whose keys exceed
/// `kappa`, sorted by ascending key, after sparing the up to `limit`
/// smallest of them whose keys do not exceed `k_005`.
pub fn select_outliers(candidates: &Vec<Candidate>, kappa: u64, k_005: u64, limit: usize) -> (out:
    Vec<Candidate>)
    ensures
        out@ == outlier_selection(candidates@, kappa, k_005, limit as nat),
{
    let above = keep_above(candidates, kappa);
    let mut sorted = sort_by_key(&above);
    proof {
        lemma_stable_sort_by_key(above@);
    }
    spare_small_exec(&mut sorted, limit, k_005);
    sorted
}

/// Two sequences with the same multiset hold the same entries.
proof fn lemma_same_multiset_contains(a: Seq<Candidate>, b: Seq<Candidate>, x: Candidate)
    requires
        a.to_multiset() == b.to_multiset(),
    ensures
        a.contains(x) <==> b.contains(x),
{
    to_multiset_contains(a, x);
    to_multiset_contains(b, x);
}

/// The selection holds, as a multiset, the sorted candidates above
/// `kappa` after the spared prefix.
proof fn lemma_selection_parts(candidates: Seq<Candidate>, kappa: u64, k_005: u64, limit: nat)
    ensures
        ({
            let f = candidates.filter(key_above(kappa));
            let t = stable_sort_by_key(f);
            let c = spared_count(t, limit, k_005);
            &&& sorted_by_key(t)
            &&& t.to_multiset() == f.to_multiset()
            &&& t.len() == f.len()
            &&& c <= t.len()
            &&& c <= limit
            &&& forall|q: int| 0 <= q < c ==> #[trigger] t[q].1 <= k_005
            &&& forall|q: int| c <= q < t.len() && q < limit ==> #[trigger] t[q].1 > k_005
            &&& outlier_selection(candidates, kappa, k_005, limit).to_multiset() == t.skip(
                c as int,
            ).to_multiset()
            &&& outlier_selection(candidates, kappa, k_005, limit).len() == t.len() - c
        }),
{
    let f = candidates.filter(key_above(kappa));
    let t = stable_sort_by_key(f);
    let c = spared_count(t, limit, k_005);
    lemma_stable_sort_by_key(f);
    lemma_spared_count_sorted(t, limit, k_005);
    lemma_rotate_right(t.skip(c as int), c);
}

/// Every selected outlier is one of the candidates, and its key exceeds `kappa`.
pub proof fn lemma_selected_are_candidates_above_kappa(
    candidates: Seq<Candidate>,
    kappa: u64,
    k_005: u64,
    limit: nat,
    x: Candidate,
)
    requires
        outlier_selection(candidates, kappa, k_005, limit).contains(x),
    ensures
        candidates.contains(x),
        x.1 > kappa,
{
    broadcast use group_filter_ensures;

    let f = candidates.filter(key_above(kappa));
    let t = stable_sort_by_key(f);
    let c = spared_count(t, limit, k_005);
    lemma_selection_parts(candidates, kappa, k_005, limit);
    lemma_same_multiset_contains(outlier_selection(candidates, kappa, k_005, limit), t.skip(c as int), x);
    assert(t.contains(x)) by {
        let q = choose|q: int| 0 <= q < t.skip(c as int).len() && t.skip(c as int)[q] == x;
        assert(t[c + q] == x);
    }
    lemma_same_multiset_contains(t, f, x);
    candidates.lemma_filter_contains_rev(key_above(kappa), x);
    let i = choose|i: int| 0 <= i < f.len() && f[i] == x;
    assert(key_above(kappa)(f[i]));
}

/// A candidate whose key exceeds both `kappa` and `k_005` is always selected:
/// only candidates with keys at most `k_005` can be spared.
pub proof fn lemma_large_candidates_selected(
    candidates: Seq<Candidate>,
    kappa: u64,
    k_005: u64,
    limit: nat,
    x: Candidate,
)
    requires
        candidates.contains(x),
        x.1 > kappa,
        x.1 > k_005,
    ensures
        outlier_selection(candidates, kappa, k_005, limit).contains(x),
{
    broadcast use group_filter_ensures;

    let f = candidates.filter(key_above(kappa));
    let t = stable_sort_by_key(f);
    let c = spared_count(t, limit, k_005);
    lemma_selection_parts(candidates, kappa, k_005, limit);
    let i = choose|i: int| 0 <= i < candidates.len() && candidates[i] == x;
    assert(key_above(kappa)(candidates[i]));
    assert(f.contains(x));
    lemma_same_multiset_contains(t, f, x);
    let q = choose|q: int| 0 <= q < t.len() && t[q] == x;
    if q < c {
        assert(t[q].1 <= k_005);
    }
    assert(t.skip(c as int)[q - c] == x);
    assert(t.skip(c as int).contains(x));
    lemma_same_multiset_contains(outlier_selection(candidates, kappa, k_005, limit), t.skip(c as int), x);
}

/// Of the candidates whose keys exceed `kappa`, at most `limit` are spared;
/// none is added.
pub proof fn lemma_at_most_limit_spared(
    candidates: Seq<Candidate>,
    kappa: u64,
    k_005: u64,
    limit: nat,
)
    ensures
        outlier_selection(candidates, kappa, k_005, limit).len() <= candidates.filter(
            key_above(kappa),
        ).len(),
        candidates.filter(key_above(kappa)).len() <= outlier_selection(
            candidates,
            kappa,
            k_005,
            limit,
        ).len() + limit,
{
    lemma_selection_parts(candidates, kappa, k_005, limit);
}

/// Of the candidates whose keys exceed `kappa`, exactly as many are
/// spared as the smaller of `limit` and the number of them whose keys do
/// not exceed `k_005`; all others are selected.
pub proof fn lemma_spared_exactly(candidates: Seq<Candidate>, kappa: u64, k_005: u64, limit: nat)
    ensures
        ({
            let f = candidates.filter(key_above(kappa));
            let small = f.filter(key_at_most(k_005)).len();
            outlier_selection(candidates, kappa, k_005, limit).len() + if limit < small {
                limit
            } else {
                small
            } == f.len()
        }),
{
    broadcast use Seq::filter_distributes_over_add;

    let f = candidates.filter(key_above(kappa));
    let t = stable_sort_by_key(f);
    let c = spared_count(t, limit, k_005);
    lemma_selection_parts(candidates, kappa, k_005, limit);
    lemma_stable_sort_filter_len(f, key_at_most(k_005));
    // the number of keys at most k_005 in the sorted sequence
    let q: int = if c < limit {
        c as int
    } else {
        lemma_sorted_prefix_at_most(t, k_005, c as int)
    };
    if c < limit && c < t.len() {
        assert forall|x: int| c <= x < t.len() implies #[trigger] t[x].1 > k_005 by {
            if x > c {
                assert(t[c as int].1 <= t[x].1);
            }
        }
    }
    assert(forall|x: int| 0 <= x < q ==> #[trigger] t[x].1 <= k_005);
    assert(forall|x: int| q <= x < t.len() ==> #[trigger] t[x].1 > k_005);
    assert(t =~= t.take(q) + t.skip(q));
    assert forall|x: int| 0 <= x < t.take(q).len() implies key_at_most(k_005)(#[trigger] t.take(q)[x]) by {
        assert(t.take(q)[x] == t[x]);
    }
    lemma_filter_all(t.take(q), key_at_most(k_005));
    assert forall|x: int| 0 <= x < t.skip(q).len() implies !key_at_most(k_005)(#[trigger] t.skip(q)[x]) by {
        assert(t.skip(q)[x] == t[q + x]);
    }
    t.skip(q).lemma_all_neg_filter_empty(key_at_most(k_005));
    assert(t.filter(key_at_most(k_005)).len() == q);
}

/// In a sorted sequence whose first `c` keys are at most `bound`, the keys
/// at most `bound` form a prefix at least `c` long.
proof fn lemma_sorted_prefix_at_most(t: Seq<Candidate>, bound: u64, c: int) -> (qq: int)
    requires
        sorted_by_key(t),
        0 <= c <= t.len(),
        forall|x: int| 0 <= x < c ==> #[trigger] t[x].1 <= bound,
    ensures
        c <= qq <= t.len(),
        forall|x: int| 0 <= x < qq ==> #[trigger] t[x].1 <= bound,
        forall|x: int| qq <= x < t.len() ==> #[trigger] t[x].1 > bound,
    decreases t.len() - c,
{
    if c == t.len() {
        c
    } else if t[c].1 > bound {
        assert forall|x: int| c <= x < t.len() implies #[trigger] t[x].1 > bound by {
            if x > c {
                assert(t[c].1 <= t[x].1);
            }
        }
        c
    } else {
        lemma_sorted_prefix_at_most(t, bound, c + 1)
    }
}

} // verus!
