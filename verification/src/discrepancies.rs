use vstd::prelude::*;
use vstd::seq_lib::*;

use crate::ordering::{keep_above, key_above, Candidate};
use crate::outliers::{
    discrepancy_column, lemma_marked, lemma_round_candidate, lemma_round_candidates_agree, marked,
    mask_grows, not_outlier, paired_len, round_candidates, OneDimensionalOutliers,
};

verus! {

/// `i` is the first position of the smallest of the keys below `bound`.
pub open spec fn is_first_minimum_below(keys: Seq<u64>, bound: u64, i: int) -> bool {
    &&& 0 <= i < keys.len()
    &&& keys[i] < bound
    &&& forall|j: int| 0 <= j < i ==> #[trigger] keys[j] > keys[i]
    &&& forall|j: int| i < j < keys.len() ==> #[trigger] keys[j] >= keys[i]
}

/// The keys of the candidates, in order.
pub open spec fn candidate_keys(s: Seq<Candidate>) -> Seq<u64> {
    Seq::new(s.len(), |i: int| s[i].1)
}

/// The first position of the smallest key, if some key is below `bound`.
pub fn first_minimum_below(keys: &Vec<u64>, bound: u64) -> (found: Option<usize>)
    ensures
        found matches Some(i) ==> is_first_minimum_below(keys@, bound, i as int),
        found is None ==> forall|j: int| 0 <= j < keys@.len() ==> #[trigger] keys@[j] >= bound,
{
    let mut best: Option<usize> = None;
    let mut smallest = bound;
    let mut j: usize = 0;
    while j < keys.len()
        invariant
            j <= keys.len(),
            best is None ==> smallest == bound && forall|k: int| 0 <= k < j ==> #[trigger] keys@[k]
                >= bound,
            best matches Some(i) ==> i < j && smallest == keys@[i as int] && is_first_minimum_below(
                keys@.take(j as int),
                bound,
                i as int,
            ),
        decreases keys.len() - j,
    {
        if keys[j] < smallest {
            best = Some(j);
            smallest = keys[j];
        }
        j = j + 1;
    }
    assert(keys@.take(keys.len() as int) =~= keys@);
    best
}

proof fn lemma_first_minimum_unique(keys: Seq<u64>, bound: u64, i: int, k: int)
    requires
        is_first_minimum_below(keys, bound, i),
        is_first_minimum_below(keys, bound, k),
    ensures
        i == k,
{
    if i < k {
        assert(keys[i] > keys[k]);
    }
    if k < i {
        assert(keys[k] > keys[i]);
    }
}

/// The outliers a round of the discrepancy check finds among
/// `candidates`: those whose keys exceed `k_1`, except that the first of
/// the smallest of them (among keys below `bound`) is swapped with the
/// last and removed when its key does not exceed `k_005`.
pub open spec fn discrepancy_selection(
    candidates: Seq<Candidate>,
    k_1: u64,
    k_005: u64,
    bound: u64,
) -> Seq<Candidate> {
    let f = candidates.filter(key_above(k_1));
    if exists|i: int| is_first_minimum_below(candidate_keys(f), bound, i) {
        let i = choose|i: int| is_first_minimum_below(candidate_keys(f), bound, i);
        if f[i].1 <= k_005 {
            f.update(i, f.last()).drop_last()
        } else {
            f
        }
    } else {
        f
    }
}

/// One round of the discrepancy check for the `m`-th discrepancy.
pub open spec fn discrepancy_round(
    mask: Seq<bool>,
    rel: Seq<[u64; 4]>,
    m: nat,
    k_1: u64,
    k_005: u64,
    bound: u64,
) -> (Seq<bool>, Seq<(usize, usize, u64)>) {
    let selected = discrepancy_selection(
        round_candidates(mask, discrepancy_column(rel, m as int)),
        k_1,
        k_005,
        bound,
    );
    (marked(mask, selected), selected.map_values(|c: Candidate| (m as usize, c.0, c.1)))
}

/// The first `rounds` rounds of the discrepancy check.
pub open spec fn discrepancy_rounds(
    mask: Seq<bool>,
    rel: Seq<[u64; 4]>,
    rounds: nat,
    k_1: u64,
    k_005: u64,
    bound: u64,
) -> (Seq<bool>, Seq<(usize, usize, u64)>)
    decreases rounds,
{
    if rounds == 0 {
        (mask, Seq::empty())
    } else {
        let before = discrepancy_rounds(mask, rel, (rounds - 1) as nat, k_1, k_005, bound);
        let round = discrepancy_round(before.0, rel, (rounds - 1) as nat, k_1, k_005, bound);
        (round.0, before.1 + round.1)
    }
}

/// Selects the outliers of one round of the discrepancy check.
pub fn select_discrepancy_outliers(
    candidates: &Vec<Candidate>,
    k_1: u64,
    k_005: u64,
    bound: u64,
) -> (out: Vec<Candidate>)
    ensures
        out@ == discrepancy_selection(candidates@, k_1, k_005, bound),
{
    let mut above = keep_above(candidates, k_1);
    let mut keys: Vec<u64> = Vec::new();
    let mut j: usize = 0;
    while j < above.len()
        invariant
            j <= above.len(),
            keys@.len() == j,
            forall|k: int| 0 <= k < j ==> #[trigger] keys@[k] == above@[k].1,
        decreases above.len() - j,
    {
        keys.push(above[j].1);
        j = j + 1;
    }
    assert(keys@ =~= candidate_keys(above@));
    let smallest = first_minimum_below(&keys, bound);
    match smallest {
        Some(i) => {
            proof {
                assert forall|k: int| is_first_minimum_below(candidate_keys(above@), bound, k)
                    implies k == i by {
                    lemma_first_minimum_unique(candidate_keys(above@), bound, i as int, k);
                }
            }
            if above[i].1 <= k_005 {
                above.swap_remove(i);
            }
        },
        None => {},
    }
    above
}

/// Every outlier a round of the discrepancy check selects is a candidate
/// whose key exceeds `k_1`, and at most one such candidate is spared.
pub proof fn lemma_discrepancy_selection(
    candidates: Seq<Candidate>,
    k_1: u64,
    k_005: u64,
    bound: u64,
)
    ensures
        ({
            let sel = discrepancy_selection(candidates, k_1, k_005, bound);
            let f = candidates.filter(key_above(k_1));
            &&& sel.len() <= f.len() <= sel.len() + 1
            &&& forall|j: int|
                0 <= j < sel.len() ==> candidates.contains(#[trigger] sel[j]) && sel[j].1 > k_1
        }),
{
    broadcast use group_filter_ensures;

    let f = candidates.filter(key_above(k_1));
    let sel = discrepancy_selection(candidates, k_1, k_005, bound);
    assert forall|j: int| 0 <= j < sel.len() implies candidates.contains(#[trigger] sel[j])
        && sel[j].1 > k_1 by {
        let q = if sel =~= f {
            j
        } else {
            let i = choose|i: int| is_first_minimum_below(candidate_keys(f), bound, i);
            if j == i {
                f.len() - 1
            } else {
                j
            }
        };
        assert(sel[j] == f[q]);
        assert(key_above(k_1)(f[q]));
        assert(f.contains(f[q]));
        candidates.lemma_filter_contains_rev(key_above(k_1), f[q]);
    }
}

/// Some key below `bound` makes a first smallest one exist.
proof fn lemma_first_minimum_exists(keys: Seq<u64>, bound: u64, j: int)
    requires
        0 <= j < keys.len(),
        keys[j] < bound,
    ensures
        exists|i: int| is_first_minimum_below(keys, bound, i),
    decreases keys.len(),
{
    let pre = keys.drop_last();
    let last = keys.len() - 1;
    if exists|k: int| 0 <= k < pre.len() && #[trigger] pre[k] < bound {
        let k = choose|k: int| 0 <= k < pre.len() && #[trigger] pre[k] < bound;
        lemma_first_minimum_exists(pre, bound, k);
        let i = choose|i: int| is_first_minimum_below(pre, bound, i);
        if keys[last] < keys[i] {
            assert forall|q: int| 0 <= q < last implies #[trigger] keys[q] > keys[last] by {
                assert(pre[q] == keys[q]);
                if q != i && q < i {
                    assert(pre[q] > pre[i]);
                } else if q > i {
                    assert(pre[q] >= pre[i]);
                }
            }
            assert(is_first_minimum_below(keys, bound, last));
        } else {
            assert forall|q: int| i < q < keys.len() implies #[trigger] keys[q] >= keys[i] by {
                if q < last {
                    assert(pre[q] == keys[q]);
                }
            }
            assert forall|q: int| 0 <= q < i implies #[trigger] keys[q] > keys[i] by {
                assert(pre[q] == keys[q]);
            }
            assert(is_first_minimum_below(keys, bound, i));
        }
    } else {
        if j < last {
            assert(pre[j] == keys[j]);
        }
        assert(j == last);
        assert forall|q: int| 0 <= q < last implies #[trigger] keys[q] > keys[last] by {
            assert(pre[q] == keys[q]);
            assert(!(pre[q] < bound));
        }
        assert(is_first_minimum_below(keys, bound, last));
    }
}

/// `sel` is `f` less its `i`-th entry, the first of its smallest keys,
/// which is at most `k_005`; the last entry of `f` takes its place.
pub open spec fn spares_first_smallest(
    f: Seq<Candidate>,
    sel: Seq<Candidate>,
    k_005: u64,
    i: int,
) -> bool {
    &&& 0 <= i < f.len()
    &&& f[i].1 <= k_005
    &&& forall|y: int| 0 <= y < f.len() ==> f[i].1 <= #[trigger] f[y].1
    &&& forall|y: int| 0 <= y < i ==> f[i].1 < #[trigger] f[y].1
    &&& sel.len() + 1 == f.len()
    &&& sel.to_multiset() == f.to_multiset().remove(f[i])
    &&& forall|q: int| 0 <= q < sel.len() && q != i ==> #[trigger] sel[q] == f[q]
    &&& i < sel.len() ==> sel[i] == f.last()
}

/// A round of the discrepancy check spares exactly one candidate above
/// `k_1` when one of them has a key below `bound` and at most `k_005`
/// (whatever their number): the first of those whose key is the smallest,
/// whose place the last candidate takes, the rest keeping theirs.
/// Otherwise it selects every candidate above `k_1`.
pub proof fn lemma_discrepancy_spares_smallest(
    candidates: Seq<Candidate>,
    k_1: u64,
    k_005: u64,
    bound: u64,
)
    ensures
        ({
            let f = candidates.filter(key_above(k_1));
            let sel = discrepancy_selection(candidates, k_1, k_005, bound);
            &&& (exists|j: int| 0 <= j < f.len() && #[trigger] f[j].1 <= k_005 && f[j].1 < bound)
                ==> {
                &&& sel.len() + 1 == f.len()
                &&& exists|i: int| #[trigger] spares_first_smallest(f, sel, k_005, i)
            }
            &&& (forall|j: int| 0 <= j < f.len() ==> #[trigger] f[j].1 > k_005 || f[j].1 >= bound)
                ==> sel == f
        }),
{
    broadcast use group_to_multiset_ensures, vstd::multiset::group_multiset_axioms;

    let f = candidates.filter(key_above(k_1));
    let keys = candidate_keys(f);
    let sel = discrepancy_selection(candidates, k_1, k_005, bound);
    if exists|j: int| 0 <= j < f.len() && #[trigger] f[j].1 <= k_005 && f[j].1 < bound {
        let j = choose|j: int| 0 <= j < f.len() && #[trigger] f[j].1 <= k_005 && f[j].1 < bound;
        assert(keys[j] == f[j].1);
        lemma_first_minimum_exists(keys, bound, j);
        let i = choose|i: int| is_first_minimum_below(keys, bound, i);
        assert(keys[i] == f[i].1);
        if j < i {
            assert(keys[j] > keys[i]);
        } else if j > i {
            assert(keys[j] >= keys[i]);
        }
        assert(f[i].1 <= k_005);
        assert forall|y: int| 0 <= y < f.len() implies f[i].1 <= #[trigger] f[y].1 by {
            assert(keys[y] == f[y].1);
            if y < i {
                assert(keys[y] > keys[i]);
            } else if y > i {
                assert(keys[y] >= keys[i]);
            }
        }
        let u = f.update(i, f.last());
        assert(sel == u.drop_last());
        assert(u.drop_last().push(u.last()) =~= u);
        assert(u.last() == f.last());
        assert(u.to_multiset() == f.to_multiset().insert(f.last()).remove(f[i]));
        assert(sel.to_multiset().insert(f.last()) == u.to_multiset());
        assert(f.to_multiset().count(f[i]) > 0);
        assert forall|x: Candidate| #[trigger] sel.to_multiset().count(x) == f.to_multiset().remove(
            f[i],
        ).count(x) by {
            assert(sel.to_multiset().insert(f.last()).count(x) == u.to_multiset().count(x));
        }
        assert(sel.to_multiset() =~= f.to_multiset().remove(f[i]));
        assert forall|y: int| 0 <= y < i implies f[i].1 < #[trigger] f[y].1 by {
            assert(keys[y] == f[y].1);
            assert(keys[y] > keys[i]);
        }
        assert forall|q: int| 0 <= q < sel.len() && q != i implies #[trigger] sel[q] == f[q] by {
            assert(sel[q] == u[q]);
        }
        if i < sel.len() {
            assert(sel[i] == u[i]);
        }
        assert(spares_first_smallest(f, sel, k_005, i));
    } else {
        if exists|i: int| is_first_minimum_below(keys, bound, i) {
            let i = choose|i: int| is_first_minimum_below(keys, bound, i);
            assert(keys[i] == f[i].1);
            assert(!(f[i].1 <= k_005 && f[i].1 < bound));
        }
    }
}

/// Checks the estimates for discrepancies: for each of the four
/// discrepancies in turn, the objects that are not yet outliers and whose
/// discrepancy key exceeds `k_1` are marked as outliers, except the first
/// of the smallest of them when its key does not exceed `k_005`. Keys at
/// or above `bound` never count as the smallest.
pub fn check_discrepancies(
    outliers: &mut Vec<bool>,
    rel: &Vec<[u64; 4]>,
    k_1: u64,
    k_005: u64,
    bound: u64,
) -> (found: OneDimensionalOutliers<u64>)
    ensures
        final(outliers)@ == discrepancy_rounds(old(outliers)@, rel@, 4, k_1, k_005, bound).0,
        found.vec@ == discrepancy_rounds(old(outliers)@, rel@, 4, k_1, k_005, bound).1,
        found.kappa == k_1,
        found.k_005 == k_005,
{
    let mut all: Vec<(usize, usize, u64)> = Vec::new();
    let mut m: usize = 0;
    while m < 4
        invariant
            m <= 4,
            outliers@.len() == old(outliers)@.len(),
            (outliers@, all@) == discrepancy_rounds(
                old(outliers)@,
                rel@,
                m as nat,
                k_1,
                k_005,
                bound,
            ),
        decreases 4 - m,
    {
        let keys = crate::outliers::column(rel, m);
        let candidates = crate::outliers::collect_candidates(outliers, &keys);
        let selected = select_discrepancy_outliers(&candidates, k_1, k_005, bound);
        let n_objects = outliers.len();
        proof {
            assert(outliers@.len() == n_objects);
            lemma_discrepancy_selection(candidates@, k_1, k_005, bound);
            assert forall|j: int| 0 <= j < selected@.len() implies #[trigger] selected@[j].0
                < outliers@.len() by {
                crate::outliers::lemma_round_candidate(outliers@, keys@, selected@[j]);
            }
        }
        crate::outliers::mark_outliers(outliers, &selected);
        let ghost before = all@;
        let mut j: usize = 0;
        while j < selected.len()
            invariant
                j <= selected@.len(),
                all@ == before + selected@.take(j as int).map_values(
                    |c: Candidate| (m as usize, c.0, c.1),
                ),
            decreases selected.len() - j,
        {
            let c = selected[j];
            all.push((m, c.0, c.1));
            proof {
                assert(selected@.take(j + 1).map_values(|c: Candidate| (m as usize, c.0, c.1))
                    =~= selected@.take(j as int).map_values(
                    |c: Candidate| (m as usize, c.0, c.1),
                ).push((m, c.0, c.1)));
            }
            j = j + 1;
        }
        assert(selected@.take(selected.len() as int) =~= selected@);
        m = m + 1;
    }
    OneDimensionalOutliers { vec: all, kappa: k_1, k_005 }
}

/// The discrepancy check only adds outliers.
pub proof fn lemma_discrepancy_rounds_grow(
    mask: Seq<bool>,
    rel: Seq<[u64; 4]>,
    rounds: nat,
    k_1: u64,
    k_005: u64,
    bound: u64,
)
    ensures
        mask_grows(mask, discrepancy_rounds(mask, rel, rounds, k_1, k_005, bound).0),
    decreases rounds,
{
    if rounds > 0 {
        let before = discrepancy_rounds(mask, rel, (rounds - 1) as nat, k_1, k_005, bound);
        lemma_discrepancy_rounds_grow(mask, rel, (rounds - 1) as nat, k_1, k_005, bound);
        let r = discrepancy_rounds(mask, rel, rounds, k_1, k_005, bound);
        assert forall|i: int| 0 <= i < mask.len() && #[trigger] mask[i] implies r.0[i] by {
            assert(before.0[i]);
        }
    }
}

/// Each outlier the first `n` rounds of the discrepancy check report
/// belongs to one of those rounds and is an outlier after them.
pub proof fn lemma_discrepancy_rounds_reports(
    mask: Seq<bool>,
    rel: Seq<[u64; 4]>,
    n: nat,
    k_1: u64,
    k_005: u64,
    bound: u64,
)
    requires
        mask.len() <= usize::MAX,
        n <= 4,
    ensures
        ({
            let r = discrepancy_rounds(mask, rel, n, k_1, k_005, bound);
            forall|j: int|
                0 <= j < r.1.len() ==> {
                    let e = #[trigger] r.1[j];
                    &&& e.0 < n
                    &&& e.1 < mask.len()
                    &&& r.0[e.1 as int]
                }
        }),
    decreases n,
{
    if n > 0 {
        let m = (n - 1) as nat;
        lemma_discrepancy_rounds_reports(mask, rel, m, k_1, k_005, bound);
        lemma_discrepancy_rounds_grow(mask, rel, m, k_1, k_005, bound);
        let before = discrepancy_rounds(mask, rel, m, k_1, k_005, bound);
        let keys = discrepancy_column(rel, m as int);
        let cands = round_candidates(before.0, keys);
        let sel = discrepancy_selection(cands, k_1, k_005, bound);
        let round = discrepancy_round(before.0, rel, m, k_1, k_005, bound);
        let r = discrepancy_rounds(mask, rel, n, k_1, k_005, bound);
        lemma_marked(before.0, sel);
        lemma_discrepancy_selection(cands, k_1, k_005, bound);
        assert forall|j: int| 0 <= j < r.1.len() implies {
            let e = #[trigger] r.1[j];
            &&& e.0 < n
            &&& e.1 < mask.len()
            &&& r.0[e.1 as int]
        } by {
            if j < before.1.len() {
                assert(r.1[j] == before.1[j]);
                assert(before.0[before.1[j].1 as int]);
            } else {
                let q = j - before.1.len();
                assert(r.1[j] == round.1[q]);
                assert(round.1[q] == (m as usize, sel[q].0, sel[q].1));
                assert(cands.contains(sel[q]));
                lemma_round_candidate(before.0, keys, sel[q]);
            }
        }
    }
}

/// Each outlier the discrepancy check reports for the `m`-th discrepancy
/// is an object that was not an outlier before the check, nor after the
/// rounds before the `m`-th, and is one after the `m`-th round; its key is
/// its `m`-th discrepancy and exceeds `k_1`. So no later round reports an
/// object that an earlier one marked.
pub proof fn lemma_discrepancy_reports_fresh(
    mask: Seq<bool>,
    rel: Seq<[u64; 4]>,
    n: nat,
    k_1: u64,
    k_005: u64,
    bound: u64,
)
    requires
        mask.len() <= usize::MAX,
        n <= 4,
    ensures
        ({
            let r = discrepancy_rounds(mask, rel, n, k_1, k_005, bound);
            forall|j: int|
                0 <= j < r.1.len() ==> {
                    let e = #[trigger] r.1[j];
                    &&& e.0 < n
                    &&& e.1 < mask.len()
                    &&& e.1 < rel.len()
                    &&& !mask[e.1 as int]
                    &&& !discrepancy_rounds(mask, rel, e.0 as nat, k_1, k_005, bound).0[e.1 as int]
                    &&& discrepancy_rounds(mask, rel, (e.0 + 1) as nat, k_1, k_005, bound).0[e.1 as int]
                    &&& e.2 == rel[e.1 as int][e.0 as int]
                    &&& e.2 > k_1
                }
        }),
    decreases n,
{
    if n > 0 {
        let m = (n - 1) as nat;
        lemma_discrepancy_reports_fresh(mask, rel, m, k_1, k_005, bound);
        lemma_discrepancy_rounds_grow(mask, rel, m, k_1, k_005, bound);
        let before = discrepancy_rounds(mask, rel, m, k_1, k_005, bound);
        let keys = discrepancy_column(rel, m as int);
        let cands = round_candidates(before.0, keys);
        let sel = discrepancy_selection(cands, k_1, k_005, bound);
        let round = discrepancy_round(before.0, rel, m, k_1, k_005, bound);
        let r = discrepancy_rounds(mask, rel, n, k_1, k_005, bound);
        lemma_marked(before.0, sel);
        lemma_discrepancy_selection(cands, k_1, k_005, bound);
        assert forall|j: int| 0 <= j < r.1.len() implies {
            let e = #[trigger] r.1[j];
            &&& e.0 < n
            &&& e.1 < mask.len()
            &&& e.1 < rel.len()
            &&& !mask[e.1 as int]
            &&& !discrepancy_rounds(mask, rel, e.0 as nat, k_1, k_005, bound).0[e.1 as int]
            &&& discrepancy_rounds(mask, rel, (e.0 + 1) as nat, k_1, k_005, bound).0[e.1 as int]
            &&& e.2 == rel[e.1 as int][e.0 as int]
            &&& e.2 > k_1
        } by {
            if j < before.1.len() {
                assert(r.1[j] == before.1[j]);
            } else {
                let q = j - before.1.len();
                assert(r.1[j] == round.1[q]);
                assert(round.1[q] == (m as usize, sel[q].0, sel[q].1));
                assert(cands.contains(sel[q]));
                lemma_round_candidate(before.0, keys, sel[q]);
                assert(keys[sel[q].0 as int] == rel[sel[q].0 as int][m as int]);
                assert(!mask[sel[q].0 as int]);
                assert((m as usize) as nat == m);
                assert(((m as usize) + 1) as nat == n);
            }
        }
    }
}

/// The objects of `s` come in strictly ascending order.
spec fn ascending_objects(s: Seq<Candidate>) -> bool {
    forall|a: int, b: int| 0 <= a < b < s.len() ==> #[trigger] s[a].0 < #[trigger] s[b].0
}

/// No object occurs twice in `s`.
pub open spec fn distinct_objects(s: Seq<Candidate>) -> bool {
    forall|a: int, b: int| 0 <= a < b < s.len() ==> #[trigger] s[a].0 != #[trigger] s[b].0
}

proof fn lemma_filter_ascending(s: Seq<Candidate>, pred: spec_fn(Candidate) -> bool)
    requires
        ascending_objects(s),
    ensures
        ascending_objects(s.filter(pred)),
    decreases s.len(),
{
    if s.len() > 0 {
        let pre = s.drop_last();
        let e = s.last();
        assert(pre.push(e) =~= s);
        lemma_filter_ascending(pre, pred);
        pre.lemma_filter_push(e, pred);
        let fp = pre.filter(pred);
        if pred(e) {
            assert forall|a: int| 0 <= a < fp.len() implies #[trigger] fp[a].0 < e.0 by {
                assert(fp.contains(fp[a]));
                pre.lemma_filter_contains_rev(pred, fp[a]);
                let idx = choose|idx: int| 0 <= idx < pre.len() && pre[idx] == fp[a];
                assert(s[idx] == pre[idx]);
            }
            let g = fp.push(e);
            assert forall|a: int, b: int| 0 <= a < b < g.len() implies #[trigger] g[a].0
                < #[trigger] g[b].0 by {
                assert(g[a] == fp[a]);
                if b < fp.len() {
                    assert(g[b] == fp[b]);
                }
            }
        }
    }
}

/// The candidates of a round hold each object at most once.
proof fn lemma_round_candidates_distinct(mask: Seq<bool>, keys: Seq<u64>)
    requires
        mask.len() <= usize::MAX,
    ensures
        ascending_objects(round_candidates(mask, keys)),
{
    let all = Seq::new(paired_len(mask, keys), |i: int| (i as usize, keys[i]));
    assert forall|a: int, b: int| 0 <= a < b < all.len() implies #[trigger] all[a].0
        < #[trigger] all[b].0 by {}
    lemma_filter_ascending(all, not_outlier(mask));
}

/// A round of the discrepancy check selects each object at most once when
/// its candidates hold each object at most once.
proof fn lemma_discrepancy_selection_distinct(
    candidates: Seq<Candidate>,
    k_1: u64,
    k_005: u64,
    bound: u64,
)
    requires
        ascending_objects(candidates),
    ensures
        distinct_objects(discrepancy_selection(candidates, k_1, k_005, bound)),
{
    let f = candidates.filter(key_above(k_1));
    lemma_filter_ascending(candidates, key_above(k_1));
    let sel = discrepancy_selection(candidates, k_1, k_005, bound);
    if exists|i: int| is_first_minimum_below(candidate_keys(f), bound, i) {
        let i = choose|i: int| is_first_minimum_below(candidate_keys(f), bound, i);
        if f[i].1 <= k_005 {
            assert forall|a: int, b: int| 0 <= a < b < sel.len() implies #[trigger] sel[a].0
                != #[trigger] sel[b].0 by {
                let qa = if a == i { f.len() - 1 } else { a };
                let qb = if b == i { f.len() - 1 } else { b };
                assert(sel[a] == f[qa]);
                assert(sel[b] == f[qb]);
                if qa < qb {
                    assert(f[qa].0 < f[qb].0);
                } else {
                    assert(f[qb].0 < f[qa].0);
                }
            }
        }
    }
}

/// The marks of the discrepancy check after `k1` rounds stay set after
/// `k2` rounds, for `k1 <= k2`.
proof fn lemma_discrepancy_rounds_grow_between(
    mask: Seq<bool>,
    rel: Seq<[u64; 4]>,
    k1: nat,
    k2: nat,
    k_1: u64,
    k_005: u64,
    bound: u64,
)
    requires
        k1 <= k2,
    ensures
        mask_grows(
            discrepancy_rounds(mask, rel, k1, k_1, k_005, bound).0,
            discrepancy_rounds(mask, rel, k2, k_1, k_005, bound).0,
        ),
    decreases k2,
{
    if k2 > k1 {
        let m = (k2 - 1) as nat;
        lemma_discrepancy_rounds_grow_between(mask, rel, k1, m, k_1, k_005, bound);
        let before = discrepancy_rounds(mask, rel, m, k_1, k_005, bound);
        let sel = discrepancy_selection(
            round_candidates(before.0, discrepancy_column(rel, m as int)),
            k_1,
            k_005,
            bound,
        );
        lemma_marked(before.0, sel);
    }
}

/// The discrepancy check reports no object twice: the objects of its
/// reported outliers are pairwise different.
pub proof fn lemma_discrepancy_reports_distinct(
    mask: Seq<bool>,
    rel: Seq<[u64; 4]>,
    n: nat,
    k_1: u64,
    k_005: u64,
    bound: u64,
)
    requires
        mask.len() <= usize::MAX,
        n <= 4,
    ensures
        ({
            let r = discrepancy_rounds(mask, rel, n, k_1, k_005, bound);
            forall|a: int, b: int| 0 <= a < b < r.1.len() ==> #[trigger] r.1[a].1 != #[trigger] r.1[b].1
        }),
    decreases n,
{
    if n > 0 {
        let m = (n - 1) as nat;
        lemma_discrepancy_reports_distinct(mask, rel, m, k_1, k_005, bound);
        lemma_discrepancy_reports_fresh(mask, rel, m, k_1, k_005, bound);
        lemma_discrepancy_reports_fresh(mask, rel, n, k_1, k_005, bound);
        let before = discrepancy_rounds(mask, rel, m, k_1, k_005, bound);
        let keys = discrepancy_column(rel, m as int);
        let cands = round_candidates(before.0, keys);
        let sel = discrepancy_selection(cands, k_1, k_005, bound);
        let round = discrepancy_round(before.0, rel, m, k_1, k_005, bound);
        let r = discrepancy_rounds(mask, rel, n, k_1, k_005, bound);
        lemma_discrepancy_rounds_grow(mask, rel, m, k_1, k_005, bound);
        lemma_round_candidates_distinct(before.0, keys);
        lemma_discrepancy_selection_distinct(cands, k_1, k_005, bound);
        assert forall|a: int, b: int| 0 <= a < b < r.1.len() implies #[trigger] r.1[a].1
            != #[trigger] r.1[b].1 by {
            let nb = before.1.len() as int;
            if b < nb {
                assert(r.1[a] == before.1[a]);
                assert(r.1[b] == before.1[b]);
            } else if a >= nb {
                assert(r.1[a] == round.1[a - nb]);
                assert(r.1[b] == round.1[b - nb]);
                assert(round.1[a - nb].1 == sel[a - nb].0);
                assert(round.1[b - nb].1 == sel[b - nb].0);
            } else {
                assert(r.1[a] == before.1[a]);
                let ea = before.1[a];
                let eb = r.1[b];
                assert(r.1[b] == round.1[b - nb]);
                assert(eb.0 == m);
                assert(ea.0 < m);
                lemma_discrepancy_rounds_grow_between(mask, rel, (ea.0 + 1) as nat, m, k_1, k_005, bound);
                assert(discrepancy_rounds(mask, rel, (ea.0 + 1) as nat, k_1, k_005, bound).0[ea.1 as int]);
                assert(before.0[ea.1 as int]);
                assert(!discrepancy_rounds(mask, rel, eb.0 as nat, k_1, k_005, bound).0[eb.1 as int]);
            }
        }
    }
}

/// The outliers reported by the first `k` rounds of the discrepancy check
/// come first among those of more rounds; the later ones belong to rounds
/// `k` and after.
proof fn lemma_discrepancy_rounds_prefix(
    mask: Seq<bool>,
    rel: Seq<[u64; 4]>,
    k: nat,
    n: nat,
    k_1: u64,
    k_005: u64,
    bound: u64,
)
    requires
        k <= n <= 4,
    ensures
        ({
            let rk = discrepancy_rounds(mask, rel, k, k_1, k_005, bound);
            let rn = discrepancy_rounds(mask, rel, n, k_1, k_005, bound);
            &&& rk.1.len() <= rn.1.len()
            &&& forall|j: int| 0 <= j < rk.1.len() ==> #[trigger] rn.1[j] == rk.1[j]
            &&& forall|j: int| rk.1.len() <= j < rn.1.len() ==> #[trigger] rn.1[j].0 >= k
        }),
    decreases n,
{
    if n > k {
        lemma_discrepancy_rounds_prefix(mask, rel, k, (n - 1) as nat, k_1, k_005, bound);
        let rk = discrepancy_rounds(mask, rel, k, k_1, k_005, bound);
        let before = discrepancy_rounds(mask, rel, (n - 1) as nat, k_1, k_005, bound);
        let rn = discrepancy_rounds(mask, rel, n, k_1, k_005, bound);
        let round = discrepancy_round(before.0, rel, (n - 1) as nat, k_1, k_005, bound);
        assert forall|j: int| rk.1.len() <= j < rn.1.len() implies #[trigger] rn.1[j].0 >= k by {
            if j >= before.1.len() {
                assert(rn.1[j] == round.1[j - before.1.len()]);
            } else {
                assert(rn.1[j] == before.1[j]);
            }
        }
        assert forall|j: int| 0 <= j < rk.1.len() implies #[trigger] rn.1[j] == rk.1[j] by {
            assert(rn.1[j] == before.1[j]);
        }
    }
}

proof fn lemma_discrepancy_rounds_agree(
    mask: Seq<bool>,
    rel: Seq<[u64; 4]>,
    rel2: Seq<[u64; 4]>,
    k: nat,
    k_1: u64,
    k_005: u64,
    bound: u64,
)
    requires
        k <= 4,
        mask.len() <= usize::MAX,
        rel.len() == rel2.len(),
        forall|i: int, m: int|
            0 <= i < mask.len() && i < rel.len() && 0 <= m < 4 && #[trigger] rel[i][m] != #[trigger] rel2[i][m]
                ==> mask[i] || exists|j: int|
                0 <= j < discrepancy_rounds(mask, rel, 4, k_1, k_005, bound).1.len() && {
                    let e = #[trigger] discrepancy_rounds(mask, rel, 4, k_1, k_005, bound).1[j];
                    e.0 < m && e.1 == i
                },
    ensures
        discrepancy_rounds(mask, rel2, k, k_1, k_005, bound) == discrepancy_rounds(
            mask,
            rel,
            k,
            k_1,
            k_005,
            bound,
        ),
    decreases k,
{
    if k > 0 {
        let m = (k - 1) as nat;
        lemma_discrepancy_rounds_agree(mask, rel, rel2, m, k_1, k_005, bound);
        let before = discrepancy_rounds(mask, rel, m, k_1, k_005, bound);
        let r4 = discrepancy_rounds(mask, rel, 4, k_1, k_005, bound);
        lemma_discrepancy_rounds_reports(mask, rel, m, k_1, k_005, bound);
        lemma_discrepancy_rounds_grow(mask, rel, m, k_1, k_005, bound);
        lemma_discrepancy_rounds_prefix(mask, rel, m, 4, k_1, k_005, bound);
        let col = discrepancy_column(rel, m as int);
        let col2 = discrepancy_column(rel2, m as int);
        assert forall|i: int| 0 <= i < before.0.len() && i < col.len() && !before.0[i] implies #[trigger] col[i]
            == col2[i] by {
            assert(col[i] == rel[i][m as int] && col2[i] == rel2[i][m as int]);
            if rel[i][m as int] != rel2[i][m as int] {
                if mask[i] {
                    assert(before.0[i]);
                } else {
                    let j = choose|j: int|
                        0 <= j < r4.1.len() && {
                            let e = #[trigger] r4.1[j];
                            e.0 < m && e.1 == i
                        };
                    assert(j < before.1.len());
                    assert(r4.1[j] == before.1[j]);
                    assert(before.0[before.1[j].1 as int]);
                }
            }
        }
        lemma_round_candidates_agree(before.0, col, col2);
    }
}

/// An object plays no part in the discrepancy check once it is an
/// outlier: changing the `m`-th discrepancy of objects that were outliers
/// before the check, or that a round before the `m`-th reported, changes
/// nothing. Each round sees only the objects that no earlier round marked.
pub proof fn lemma_discrepancy_rounds_ignore_outliers(
    mask: Seq<bool>,
    rel: Seq<[u64; 4]>,
    rel2: Seq<[u64; 4]>,
    k_1: u64,
    k_005: u64,
    bound: u64,
)
    requires
        mask.len() <= usize::MAX,
        rel.len() == rel2.len(),
        forall|i: int, m: int|
            0 <= i < mask.len() && i < rel.len() && 0 <= m < 4 && #[trigger] rel[i][m] != #[trigger] rel2[i][m]
                ==> mask[i] || exists|j: int|
                0 <= j < discrepancy_rounds(mask, rel, 4, k_1, k_005, bound).1.len() && {
                    let e = #[trigger] discrepancy_rounds(mask, rel, 4, k_1, k_005, bound).1[j];
                    e.0 < m && e.1 == i
                },
    ensures
        discrepancy_rounds(mask, rel2, 4, k_1, k_005, bound) == discrepancy_rounds(
            mask,
            rel,
            4,
            k_1,
            k_005,
            bound,
        ),
{
    lemma_discrepancy_rounds_agree(mask, rel, rel2, 4, k_1, k_005, bound);
}

} // verus!
