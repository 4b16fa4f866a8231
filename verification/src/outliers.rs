use vstd::prelude::*;
use vstd::seq_lib::*;

use crate::ordering::Candidate;
use crate::selection::{
    lemma_selected_are_candidates_above_kappa, outlier_selection, select_outliers,
};

verus! {

/// Outliers found by the one-dimensional algorithm
pub struct OneDimensionalOutliers<F> {
    /// (m, i, rel_discrepancy): the index of the discrepancy, the index of
    /// the object and the relative discrepancy
    pub vec: Vec<(usize, usize, F)>,
    /// The threshold above which a discrepancy is suspicious
    pub kappa: F,
    /// The threshold at or below which the smallest suspicious ones are spared
    pub k_005: F,
}

/// Outliers found by the four-dimensional algorithm
pub struct FourDimensionalOutliers<F> {
    /// (i, summed_rel_discrepancy): the index of the object and its
    /// summed relative discrepancy
    pub vec: Vec<(usize, F)>,
    /// The threshold above which a summed discrepancy is suspicious
    pub kappa: F,
    /// The threshold at or below which the smallest suspicious ones are spared
    pub k_005: F,
}

/// The number of entries of the mask that are not outliers.
pub open spec fn non_outlier_count(mask: Seq<bool>) -> nat
    decreases mask.len(),
{
    if mask.len() == 0 {
        0
    } else {
        non_outlier_count(mask.drop_last()) + if mask.last() {
            0nat
        } else {
            1nat
        }
    }
}

/// The number of entries that `keys` and `mask` both have.
pub open spec fn paired_len(mask: Seq<bool>, keys: Seq<u64>) -> nat {
    if mask.len() < keys.len() {
        mask.len()
    } else {
        keys.len()
    }
}

/// The predicate "the candidate's object is not an outlier in `mask`".
pub open spec fn not_outlier(mask: Seq<bool>) -> spec_fn(Candidate) -> bool {
    |c: Candidate| !mask[c.0 as int]
}

/// The candidates of a round: each object that is not yet an outlier,
/// in order, paired with its key.
pub open spec fn round_candidates(mask: Seq<bool>, keys: Seq<u64>) -> Seq<Candidate> {
    Seq::new(paired_len(mask, keys), |i: int| (i as usize, keys[i])).filter(not_outlier(mask))
}

/// `mask` with every object of `selected` marked as an outlier.
pub open spec fn marked(mask: Seq<bool>, selected: Seq<Candidate>) -> Seq<bool> {
    Seq::new(
        mask.len(),
        |k: int| mask[k] || exists|j: int| 0 <= j < selected.len() && (#[trigger] selected[j]).0 == k,
    )
}

/// The keys of the `m`-th discrepancy of every object.
pub open spec fn discrepancy_column(rel: Seq<[u64; 4]>, m: int) -> Seq<u64> {
    Seq::new(rel.len(), |i: int| rel[i][m])
}

/// One round of the one-dimensional algorithm for the `m`-th discrepancy:
/// the new mask and the outliers found, as (m, i, key).
pub open spec fn one_dimensional_round(
    mask: Seq<bool>,
    rel: Seq<[u64; 4]>,
    m: nat,
    kappa: u64,
    k_005: u64,
    limit: nat,
) -> (Seq<bool>, Seq<(usize, usize, u64)>) {
    let selected = outlier_selection(
        round_candidates(mask, discrepancy_column(rel, m as int)),
        kappa,
        k_005,
        limit,
    );
    (marked(mask, selected), selected.map_values(|c: Candidate| (m as usize, c.0, c.1)))
}

/// The first `rounds` rounds of the one-dimensional algorithm, each
/// seeing the outliers marked by the earlier ones.
pub open spec fn one_dimensional_rounds(
    mask: Seq<bool>,
    rel: Seq<[u64; 4]>,
    rounds: nat,
    kappa: u64,
    k_005: u64,
    limit: nat,
) -> (Seq<bool>, Seq<(usize, usize, u64)>)
    decreases rounds,
{
    if rounds == 0 {
        (mask, Seq::empty())
    } else {
        let before = one_dimensional_rounds(mask, rel, (rounds - 1) as nat, kappa, k_005, limit);
        let round = one_dimensional_round(before.0, rel, (rounds - 1) as nat, kappa, k_005, limit);
        (round.0, before.1 + round.1)
    }
}

/// The four-dimensional algorithm: the new mask and the outliers found.
pub open spec fn four_dimensional_round(
    mask: Seq<bool>,
    summed: Seq<u64>,
    kappa: u64,
    k_005: u64,
    limit: nat,
) -> (Seq<bool>, Seq<Candidate>) {
    let selected = outlier_selection(round_candidates(mask, summed), kappa, k_005, limit);
    (marked(mask, selected), selected)
}

/// Every entry that is an outlier in `a` is one in `b` too.
pub open spec fn mask_grows(a: Seq<bool>, b: Seq<bool>) -> bool {
    &&& a.len() == b.len()
    &&& forall|i: int| 0 <= i < a.len() && #[trigger] a[i] ==> b[i]
}

/// Counts the objects that are not outliers.
pub fn count_non_outliers(outliers: &Vec<bool>) -> (count: usize)
    ensures
        count == non_outlier_count(outliers@),
{
    let mut count: usize = 0;
    let mut i: usize = 0;
    while i < outliers.len()
        invariant
            i <= outliers.len(),
            count == non_outlier_count(outliers@.take(i as int)),
            count <= i,
        decreases outliers.len() - i,
    {
        assert(outliers@.take(i + 1).drop_last() =~= outliers@.take(i as int));
        if !outliers[i] {
            count = count + 1;
        }
        i = i + 1;
    }
    assert(outliers@.take(outliers.len() as int) =~= outliers@);
    count
}

/// Applies the outliers mask of another model: every object that has an
/// entry in `mask` takes it over; the rest keep theirs.
pub fn apply_outliers_mask(outliers: &mut Vec<bool>, mask: &Vec<bool>)
    ensures
        final(outliers)@.len() == old(outliers)@.len(),
        forall|i: int|
            0 <= i < old(outliers)@.len() ==> #[trigger] final(outliers)@[i] == if i < mask@.len() {
                mask@[i]
            } else {
                old(outliers)@[i]
            },
{
    let mut i: usize = 0;
    while i < outliers.len() && i < mask.len()
        invariant
            outliers@.len() == old(outliers)@.len(),
            i <= outliers@.len(),
            i <= mask@.len(),
            forall|k: int| 0 <= k < i ==> #[trigger] outliers@[k] == mask@[k],
            forall|k: int| i <= k < outliers@.len() ==> #[trigger] outliers@[k] == old(outliers)@[k],
        decreases outliers.len() - i,
    {
        outliers.set(i, mask[i]);
        i = i + 1;
    }
}

/// Collects the candidates of a round: the objects that are not outliers,
/// each with its key.
pub(crate) fn collect_candidates(outliers: &Vec<bool>, keys: &Vec<u64>) -> (out: Vec<Candidate>)
    ensures
        out@ == round_candidates(outliers@, keys@),
{
    let n = if outliers.len() < keys.len() {
        outliers.len()
    } else {
        keys.len()
    };
    let ghost all = Seq::new(n as nat, |i: int| (i as usize, keys@[i]));
    let mut out: Vec<Candidate> = Vec::new();
    let mut i: usize = 0;
    while i < n
        invariant
            i <= n,
            n == paired_len(outliers@, keys@),
            all == Seq::new(n as nat, |i: int| (i as usize, keys@[i])),
            out@ == all.take(i as int).filter(not_outlier(outliers@)),
        decreases n - i,
    {
        proof {
            assert(all.take(i + 1) =~= all.take(i as int).push(all[i as int]));
            all.take(i as int).lemma_filter_push(all[i as int], not_outlier(outliers@));
        }
        if !outliers[i] {
            out.push((i, keys[i]));
        }
        i = i + 1;
    }
    assert(all.take(n as int) =~= all);
    out
}

/// Every candidate of a round is an object within both sequences that is
/// not an outlier, paired with its key.
pub(crate) proof fn lemma_round_candidate(mask: Seq<bool>, keys: Seq<u64>, c: Candidate)
    requires
        round_candidates(mask, keys).contains(c),
        mask.len() <= usize::MAX,
    ensures
        c.0 < mask.len(),
        c.0 < keys.len(),
        !mask[c.0 as int],
        c.1 == keys[c.0 as int],
{
    broadcast use group_filter_ensures;

    let all = Seq::new(paired_len(mask, keys), |i: int| (i as usize, keys[i]));
    all.lemma_filter_contains_rev(not_outlier(mask), c);
    let f = all.filter(not_outlier(mask));
    let j = choose|j: int| 0 <= j < f.len() && f[j] == c;
    assert(not_outlier(mask)(f[j]));
    let i = choose|i: int| 0 <= i < all.len() && all[i] == c;
}

/// Marks every selected object as an outlier.
pub(crate) fn mark_outliers(outliers: &mut Vec<bool>, selected: &Vec<Candidate>)
    requires
        forall|j: int| 0 <= j < selected@.len() ==> #[trigger] selected@[j].0 < old(outliers)@.len(),
    ensures
        final(outliers)@ == marked(old(outliers)@, selected@),
{
    let mut j: usize = 0;
    while j < selected.len()
        invariant
            j <= selected.len(),
            forall|k: int| 0 <= k < selected@.len() ==> #[trigger] selected@[k].0 < old(outliers)@.len(),
            outliers@ == marked(old(outliers)@, selected@.take(j as int)),
        decreases selected.len() - j,
    {
        let i = selected[j].0;
        let ghost before = outliers@;
        outliers.set(i, true);
        proof {
            let next = marked(old(outliers)@, selected@.take(j + 1));
            assert forall|k: int| 0 <= k < next.len() implies #[trigger] next[k] == outliers@[k] by {
                if k == i {
                    assert(selected@.take(j + 1)[j as int].0 == k);
                } else {
                    if exists|q: int| 0 <= q < j + 1 && (#[trigger] selected@.take(j + 1)[q]).0 == k {
                        let q = choose|q: int| 0 <= q < j + 1 && (#[trigger] selected@.take(j + 1)[q]).0 == k;
                        assert(q != j);
                        assert(selected@.take(j as int)[q].0 == k);
                    }
                    if exists|q: int| 0 <= q < j && (#[trigger] selected@.take(j as int)[q]).0 == k {
                        let q = choose|q: int| 0 <= q < j && (#[trigger] selected@.take(j as int)[q]).0 == k;
                        assert(selected@.take(j + 1)[q].0 == k);
                    }
                }
            }
            assert(next =~= outliers@);
        }
        j = j + 1;
    }
    assert(selected@.take(selected.len() as int) =~= selected@);
}

/// The objects a round selects are within the mask.
proof fn lemma_selected_in_mask(
    mask: Seq<bool>,
    keys: Seq<u64>,
    kappa: u64,
    k_005: u64,
    limit: nat,
)
    requires
        mask.len() <= usize::MAX,
    ensures
        forall|j: int|
            0 <= j < outlier_selection(round_candidates(mask, keys), kappa, k_005, limit).len()
                ==> #[trigger] outlier_selection(
                round_candidates(mask, keys),
                kappa,
                k_005,
                limit,
            )[j].0 < mask.len(),
{
    let sel = outlier_selection(round_candidates(mask, keys), kappa, k_005, limit);
    assert forall|j: int| 0 <= j < sel.len() implies #[trigger] sel[j].0 < mask.len() by {
        assert(sel.contains(sel[j]));
        lemma_selected_are_candidates_above_kappa(
            round_candidates(mask, keys),
            kappa,
            k_005,
            limit,
            sel[j],
        );
        lemma_round_candidate(mask, keys, sel[j]);
    }
}

/// The keys of the `m`-th discrepancy of every object.
pub(crate) fn column(rel: &Vec<[u64; 4]>, m: usize) -> (out: Vec<u64>)
    requires
        m < 4,
    ensures
        out@ == discrepancy_column(rel@, m as int),
{
    let mut out: Vec<u64> = Vec::new();
    let mut i: usize = 0;
    while i < rel.len()
        invariant
            i <= rel.len(),
            m < 4,
            out@.len() == i,
            forall|k: int| 0 <= k < i ==> #[trigger] out@[k] == rel@[k][m as int],
        decreases rel.len() - i,
    {
        let r = rel[i];
        out.push(r[m]);
        i = i + 1;
    }
    assert(out@ =~= discrepancy_column(rel@, m as int));
    out
}

/// Checks the objects for outliers with the one-dimensional algorithm:
/// for each of the four discrepancies in turn, the objects that are not
/// yet outliers and whose discrepancy key exceeds `kappa` are marked as
/// outliers, except for up to `l_stroke` of the smallest of them whose
/// keys do not exceed `k_005`.
pub fn find_one_dimensional_outliers(
    outliers: &mut Vec<bool>,
    rel: &Vec<[u64; 4]>,
    kappa: u64,
    k_005: u64,
    l_stroke: usize,
) -> (found: OneDimensionalOutliers<u64>)
    ensures
        final(outliers)@ == one_dimensional_rounds(
            old(outliers)@,
            rel@,
            4,
            kappa,
            k_005,
            l_stroke as nat,
        ).0,
        found.vec@ == one_dimensional_rounds(
            old(outliers)@,
            rel@,
            4,
            kappa,
            k_005,
            l_stroke as nat,
        ).1,
        found.kappa == kappa,
        found.k_005 == k_005,
{
    let mut all: Vec<(usize, usize, u64)> = Vec::new();
    let mut m: usize = 0;
    while m < 4
        invariant
            m <= 4,
            outliers@.len() == old(outliers)@.len(),
            (outliers@, all@) == one_dimensional_rounds(
                old(outliers)@,
                rel@,
                m as nat,
                kappa,
                k_005,
                l_stroke as nat,
            ),
        decreases 4 - m,
    {
        let keys = column(rel, m);
        let candidates = collect_candidates(outliers, &keys);
        let selected = select_outliers(&candidates, kappa, k_005, l_stroke);
        let n_objects = outliers.len();
        proof {
            assert(outliers@.len() == n_objects);
            lemma_selected_in_mask(outliers@, keys@, kappa, k_005, l_stroke as nat);
        }
        mark_outliers(outliers, &selected);
        let ghost before = all@;
        let mut j: usize = 0;
        while j < selected.len()
            invariant
                j <= selected@.len(),
                all@ == before + selected@.take(j as int).map_values(
                    |c: Candidate| (m as usize, c.0, c.1),
                ),
            decreases selected.len() - j,
        {
            let c = selected[j];
            all.push((m, c.0, c.1));
            proof {
                assert(selected@.take(j + 1).map_values(|c: Candidate| (m as usize, c.0, c.1))
                    =~= selected@.take(j as int).map_values(
                    |c: Candidate| (m as usize, c.0, c.1),
                ).push((m, c.0, c.1)));
            }
            j = j + 1;
        }
        assert(selected@.take(selected.len() as int) =~= selected@);
        m = m + 1;
    }
    OneDimensionalOutliers { vec: all, kappa, k_005 }
}

/// Checks the objects for outliers with the four-dimensional algorithm:
/// the objects that are not yet outliers and whose summed discrepancy key
/// exceeds `kappa` are marked as outliers, except for up to `l_stroke` of
/// the smallest of them whose keys do not exceed `k_005`.
pub fn find_four_dimensional_outliers(
    outliers: &mut Vec<bool>,
    summed: &Vec<u64>,
    kappa: u64,
    k_005: u64,
    l_stroke: usize,
) -> (found: FourDimensionalOutliers<u64>)
    ensures
        final(outliers)@ == four_dimensional_round(
            old(outliers)@,
            summed@,
            kappa,
            k_005,
            l_stroke as nat,
        ).0,
        found.vec@ == four_dimensional_round(
            old(outliers)@,
            summed@,
            kappa,
            k_005,
            l_stroke as nat,
        ).1,
        found.kappa == kappa,
        found.k_005 == k_005,
{
    let candidates = collect_candidates(outliers, summed);
    let selected = select_outliers(&candidates, kappa, k_005, l_stroke);
    let n_objects = outliers.len();
    proof {
        assert(outliers@.len() == n_objects);
        lemma_selected_in_mask(outliers@, summed@, kappa, k_005, l_stroke as nat);
    }
    mark_outliers(outliers, &selected);
    FourDimensionalOutliers { vec: selected, kappa, k_005 }
}

/// The whole check for outliers: the one-dimensional algorithm over the
/// four discrepancies, then the four-dimensional one on what it leaves.
/// The new mask and the outliers each algorithm found.
pub open spec fn outlier_check(
    mask: Seq<bool>,
    rel: Seq<[u64; 4]>,
    summed: Seq<u64>,
    kappa_1: u64,
    k_005_1: u64,
    kappa_4: u64,
    k_005_4: u64,
    limit: nat,
) -> (Seq<bool>, Seq<(usize, usize, u64)>, Seq<Candidate>) {
    let one = one_dimensional_rounds(mask, rel, 4, kappa_1, k_005_1, limit);
    let four = four_dimensional_round(one.0, summed, kappa_4, k_005_4, limit);
    (four.0, one.1, four.1)
}

/// Checks the objects for outliers: first with the one-dimensional
/// algorithm, then, on the objects it leaves, with the four-dimensional
/// one. `rel` holds the keys of the four relative discrepancies of each
/// object, `summed` the key of its summed relative discrepancy.
pub fn find_outliers(
    outliers: &mut Vec<bool>,
    rel: &Vec<[u64; 4]>,
    summed: &Vec<u64>,
    kappa_1: u64,
    k_005_1: u64,
    kappa_4: u64,
    k_005_4: u64,
    l_stroke: usize,
) -> (found: (OneDimensionalOutliers<u64>, FourDimensionalOutliers<u64>))
    ensures
        ({
            let check = outlier_check(
                old(outliers)@,
                rel@,
                summed@,
                kappa_1,
                k_005_1,
                kappa_4,
                k_005_4,
                l_stroke as nat,
            );
            &&& final(outliers)@ == check.0
            &&& found.0.vec@ == check.1
            &&& found.1.vec@ == check.2
            &&& found.0.kappa == kappa_1
            &&& found.0.k_005 == k_005_1
            &&& found.1.kappa == kappa_4
            &&& found.1.k_005 == k_005_4
        }),
{
    let one = find_one_dimensional_outliers(outliers, rel, kappa_1, k_005_1, l_stroke);
    let four = find_four_dimensional_outliers(outliers, summed, kappa_4, k_005_4, l_stroke);
    (one, four)
}

proof fn lemma_count_grows(a: Seq<bool>, b: Seq<bool>)
    requires
        mask_grows(a, b),
    ensures
        non_outlier_count(b) <= non_outlier_count(a),
        (exists|i: int| 0 <= i < a.len() && !a[i] && #[trigger] b[i]) ==> non_outlier_count(b)
            < non_outlier_count(a),
    decreases a.len(),
{
    if a.len() > 0 {
        let a2 = a.drop_last();
        let b2 = b.drop_last();
        assert forall|i: int| 0 <= i < a2.len() && #[trigger] a2[i] implies b2[i] by {
            assert(a[i] && b[i]);
        }
        lemma_count_grows(a2, b2);
        if exists|i: int| 0 <= i < a.len() && !a[i] && #[trigger] b[i] {
            let i = choose|i: int| 0 <= i < a.len() && !a[i] && #[trigger] b[i];
            if i < a.len() - 1 {
                assert(!a2[i] && b2[i]);
            }
        }
    }
}

pub(crate) proof fn lemma_marked(mask: Seq<bool>, selected: Seq<Candidate>)
    ensures
        mask_grows(mask, marked(mask, selected)),
        selected.len() == 0 ==> marked(mask, selected) == mask,
        forall|j: int|
            0 <= j < selected.len() && #[trigger] selected[j].0 < mask.len()
                ==> marked(mask, selected)[selected[j].0 as int],
{
    if selected.len() == 0 {
        assert(marked(mask, selected) =~= mask);
    }
}

/// What a round reports: objects that were not outliers before it, are
/// outliers after it, with keys above `kappa` taken from `keys`.
proof fn lemma_round_reports(
    mask: Seq<bool>,
    keys: Seq<u64>,
    kappa: u64,
    k_005: u64,
    limit: nat,
    j: int,
)
    requires
        mask.len() <= usize::MAX,
        0 <= j < outlier_selection(round_candidates(mask, keys), kappa, k_005, limit).len(),
    ensures
        ({
            let c = outlier_selection(round_candidates(mask, keys), kappa, k_005, limit)[j];
            &&& c.0 < mask.len()
            &&& c.0 < keys.len()
            &&& !mask[c.0 as int]
            &&& c.1 == keys[c.0 as int]
            &&& c.1 > kappa
            &&& marked(
                mask,
                outlier_selection(round_candidates(mask, keys), kappa, k_005, limit),
            )[c.0 as int]
        }),
{
    let sel = outlier_selection(round_candidates(mask, keys), kappa, k_005, limit);
    assert(sel.contains(sel[j]));
    lemma_selected_are_candidates_above_kappa(round_candidates(mask, keys), kappa, k_005, limit, sel[j]);
    lemma_round_candidate(mask, keys, sel[j]);
    lemma_marked(mask, sel);
}

/// The one-dimensional rounds only add outliers; each outlier they report
/// was not one before and is one after, with a key above `kappa` taken
/// from the discrepancy it names; they report none exactly when they
/// leave the mask as it was, and otherwise leave fewer non-outliers.
pub proof fn lemma_one_dimensional_rounds(
    mask: Seq<bool>,
    rel: Seq<[u64; 4]>,
    rounds: nat,
    kappa: u64,
    k_005: u64,
    limit: nat,
)
    requires
        mask.len() <= usize::MAX,
        rounds <= 4,
    ensures
        ({
            let r = one_dimensional_rounds(mask, rel, rounds, kappa, k_005, limit);
            &&& mask_grows(mask, r.0)
            &&& r.1.len() == 0 ==> r.0 == mask
            &&& r.1.len() > 0 ==> non_outlier_count(r.0) < non_outlier_count(mask)
            &&& forall|j: int|
                0 <= j < r.1.len() ==> {
                    let e = #[trigger] r.1[j];
                    &&& e.0 < rounds
                    &&& e.1 < mask.len()
                    &&& e.1 < rel.len()
                    &&& !mask[e.1 as int]
                    &&& r.0[e.1 as int]
                    &&& e.2 == rel[e.1 as int][e.0 as int]
                    &&& e.2 > kappa
                }
        }),
    decreases rounds,
{
    if rounds > 0 {
        let k = (rounds - 1) as nat;
        let before = one_dimensional_rounds(mask, rel, k, kappa, k_005, limit);
        lemma_one_dimensional_rounds(mask, rel, k, kappa, k_005, limit);
        let keys = discrepancy_column(rel, k as int);
        let sel = outlier_selection(round_candidates(before.0, keys), kappa, k_005, limit);
        let round = one_dimensional_round(before.0, rel, k, kappa, k_005, limit);
        let r = one_dimensional_rounds(mask, rel, rounds, kappa, k_005, limit);
        lemma_marked(before.0, sel);
        assert(round.1.len() == sel.len());
        assert forall|i: int| 0 <= i < mask.len() && #[trigger] mask[i] implies r.0[i] by {
            assert(before.0[i]);
        }
        if r.1.len() == 0 {
            assert(before.1.len() == 0);
            assert(sel.len() == 0);
        }
        if sel.len() > 0 {
            lemma_round_reports(before.0, keys, kappa, k_005, limit, 0);
            lemma_count_grows(before.0, round.0);
            lemma_count_grows(mask, before.0);
        } else if before.1.len() > 0 {
            lemma_count_grows(before.0, round.0);
        }
        assert forall|j: int| 0 <= j < r.1.len() implies {
            let e = #[trigger] r.1[j];
            &&& e.0 < rounds
            &&& e.1 < mask.len()
            &&& e.1 < rel.len()
            &&& !mask[e.1 as int]
            &&& r.0[e.1 as int]
            &&& e.2 == rel[e.1 as int][e.0 as int]
            &&& e.2 > kappa
        } by {
            if j < before.1.len() {
                assert(r.1[j] == before.1[j]);
            } else {
                let q = j - before.1.len();
                assert(r.1[j] == round.1[q]);
                lemma_round_reports(before.0, keys, kappa, k_005, limit, q);
                assert(!mask[sel[q].0 as int]);
            }
        }
    }
}

/// The four-dimensional round only adds outliers; each outlier it reports
/// was not one before and is one after, with a key above `kappa` taken
/// from `summed`; it reports none exactly when it leaves the mask as it
/// was, and otherwise leaves fewer non-outliers.
pub proof fn lemma_four_dimensional_round(
    mask: Seq<bool>,
    summed: Seq<u64>,
    kappa: u64,
    k_005: u64,
    limit: nat,
)
    requires
        mask.len() <= usize::MAX,
    ensures
        ({
            let r = four_dimensional_round(mask, summed, kappa, k_005, limit);
            &&& mask_grows(mask, r.0)
            &&& r.1.len() == 0 ==> r.0 == mask
            &&& r.1.len() > 0 ==> non_outlier_count(r.0) < non_outlier_count(mask)
            &&& forall|j: int|
                0 <= j < r.1.len() ==> {
                    let c = #[trigger] r.1[j];
                    &&& c.0 < mask.len()
                    &&& c.0 < summed.len()
                    &&& !mask[c.0 as int]
                    &&& r.0[c.0 as int]
                    &&& c.1 == summed[c.0 as int]
                    &&& c.1 > kappa
                }
        }),
{
    let sel = outlier_selection(round_candidates(mask, summed), kappa, k_005, limit);
    let r = four_dimensional_round(mask, summed, kappa, k_005, limit);
    lemma_marked(mask, sel);
    if sel.len() > 0 {
        lemma_round_reports(mask, summed, kappa, k_005, limit, 0);
        lemma_count_grows(mask, r.0);
    }
    assert forall|j: int| 0 <= j < r.1.len() implies {
        let c = #[trigger] r.1[j];
        &&& c.0 < mask.len()
        &&& c.0 < summed.len()
        &&& !mask[c.0 as int]
        &&& r.0[c.0 as int]
        &&& c.1 == summed[c.0 as int]
        &&& c.1 > kappa
    } by {
        lemma_round_reports(mask, summed, kappa, k_005, limit, j);
    }
}

/// A check for outliers that reports none leaves the mask as it was; one
/// that reports some leaves strictly fewer non-outliers. The loop that
/// repeats the fit until no outliers are found therefore ends.
pub proof fn lemma_outlier_check_progress(
    mask: Seq<bool>,
    rel: Seq<[u64; 4]>,
    summed: Seq<u64>,
    kappa_1: u64,
    k_005_1: u64,
    kappa_4: u64,
    k_005_4: u64,
    limit: nat,
)
    requires
        mask.len() <= usize::MAX,
    ensures
        ({
            let check = outlier_check(mask, rel, summed, kappa_1, k_005_1, kappa_4, k_005_4, limit);
            &&& mask_grows(mask, check.0)
            &&& (check.1.len() == 0 && check.2.len() == 0) ==> check.0 == mask
            &&& (check.1.len() > 0 || check.2.len() > 0) ==> non_outlier_count(check.0)
                < non_outlier_count(mask)
        }),
{
    let one = one_dimensional_rounds(mask, rel, 4, kappa_1, k_005_1, limit);
    lemma_one_dimensional_rounds(mask, rel, 4, kappa_1, k_005_1, limit);
    lemma_four_dimensional_round(one.0, summed, kappa_4, k_005_4, limit);
    let check = outlier_check(mask, rel, summed, kappa_1, k_005_1, kappa_4, k_005_4, limit);
    assert forall|i: int| 0 <= i < mask.len() && #[trigger] mask[i] implies check.0[i] by {
        assert(one.0[i]);
    }
    if check.1.len() > 0 || check.2.len() > 0 {
        lemma_count_grows(one.0, check.0);
    }
}

/// Two sequences that agree wherever the predicate holds, and on where it
/// holds, filter to the same sequence.
proof fn lemma_filter_agree(a: Seq<Candidate>, b: Seq<Candidate>, pred: spec_fn(Candidate) -> bool)
    requires
        a.len() == b.len(),
        forall|i: int| 0 <= i < a.len() ==> pred(#[trigger] a[i]) == pred(b[i]),
        forall|i: int| 0 <= i < a.len() && pred(#[trigger] a[i]) ==> a[i] == b[i],
    ensures
        a.filter(pred) == b.filter(pred),
    decreases a.len(),
{
    reveal(Seq::filter);
    if a.len() > 0 {
        let a2 = a.drop_last();
        let b2 = b.drop_last();
        assert forall|i: int| 0 <= i < a2.len() implies pred(#[trigger] a2[i]) == pred(b2[i]) by {
            assert(a2[i] == a[i] && b2[i] == b[i]);
        }
        assert forall|i: int| 0 <= i < a2.len() && pred(#[trigger] a2[i]) implies a2[i] == b2[i] by {
            assert(a2[i] == a[i] && b2[i] == b[i]);
        }
        lemma_filter_agree(a2, b2, pred);
        assert(pred(a.last()) == pred(b.last()));
    }
}

/// The candidates of a round depend on the keys of the objects that are
/// not outliers only.
pub(crate) proof fn lemma_round_candidates_agree(mask: Seq<bool>, keys: Seq<u64>, keys2: Seq<u64>)
    requires
        mask.len() <= usize::MAX,
        keys.len() == keys2.len(),
        forall|i: int| 0 <= i < mask.len() && i < keys.len() && !mask[i] ==> #[trigger] keys[i] == keys2[i],
    ensures
        round_candidates(mask, keys) == round_candidates(mask, keys2),
{
    let n = paired_len(mask, keys);
    let a = Seq::new(n, |i: int| (i as usize, keys[i]));
    let b = Seq::new(n, |i: int| (i as usize, keys2[i]));
    let pred = not_outlier(mask);
    assert forall|i: int| 0 <= i < a.len() implies pred(#[trigger] a[i]) == pred(b[i]) by {}
    assert forall|i: int| 0 <= i < a.len() && pred(#[trigger] a[i]) implies a[i] == b[i] by {
        assert(!mask[i]);
        assert(keys[i] == keys2[i]);
    }
    lemma_filter_agree(a, b, pred);
}

/// The outliers reported by the first `k` rounds come first among those of
/// more rounds; the later ones belong to rounds `k` and after.
proof fn lemma_one_dimensional_rounds_prefix(
    mask: Seq<bool>,
    rel: Seq<[u64; 4]>,
    k: nat,
    n: nat,
    kappa: u64,
    k_005: u64,
    limit: nat,
)
    requires
        k <= n <= 4,
    ensures
        ({
            let rk = one_dimensional_rounds(mask, rel, k, kappa, k_005, limit);
            let rn = one_dimensional_rounds(mask, rel, n, kappa, k_005, limit);
            &&& rk.1.len() <= rn.1.len()
            &&& forall|j: int| 0 <= j < rk.1.len() ==> #[trigger] rn.1[j] == rk.1[j]
            &&& forall|j: int| rk.1.len() <= j < rn.1.len() ==> #[trigger] rn.1[j].0 >= k
        }),
    decreases n,
{
    if n > k {
        lemma_one_dimensional_rounds_prefix(mask, rel, k, (n - 1) as nat, kappa, k_005, limit);
        let rk = one_dimensional_rounds(mask, rel, k, kappa, k_005, limit);
        let before = one_dimensional_rounds(mask, rel, (n - 1) as nat, kappa, k_005, limit);
        let rn = one_dimensional_rounds(mask, rel, n, kappa, k_005, limit);
        let round = one_dimensional_round(before.0, rel, (n - 1) as nat, kappa, k_005, limit);
        assert forall|j: int| rk.1.len() <= j < rn.1.len() implies #[trigger] rn.1[j].0 >= k by {
            if j >= before.1.len() {
                assert(rn.1[j] == round.1[j - before.1.len()]);
            } else {
                assert(rn.1[j] == before.1[j]);
            }
        }
        assert forall|j: int| 0 <= j < rk.1.len() implies #[trigger] rn.1[j] == rk.1[j] by {
            assert(rn.1[j] == before.1[j]);
        }
    }
}

/// The keys of the objects that are outliers play no part in the rounds
/// after they became outliers: changing the `m`-th discrepancy of objects
/// that were outliers before the check, or that an earlier round reported,
/// changes nothing.
pub proof fn lemma_one_dimensional_rounds_ignore_outliers(
    mask: Seq<bool>,
    rel: Seq<[u64; 4]>,
    rel2: Seq<[u64; 4]>,
    kappa: u64,
    k_005: u64,
    limit: nat,
)
    requires
        mask.len() <= usize::MAX,
        rel.len() == rel2.len(),
        forall|i: int, m: int|
            0 <= i < mask.len() && i < rel.len() && 0 <= m < 4 && #[trigger] rel[i][m] != #[trigger] rel2[i][m]
                ==> mask[i] || exists|j: int|
                0 <= j < one_dimensional_rounds(mask, rel, 4, kappa, k_005, limit).1.len() && {
                    let e = #[trigger] one_dimensional_rounds(mask, rel, 4, kappa, k_005, limit).1[j];
                    e.0 < m && e.1 == i
                },
    ensures
        one_dimensional_rounds(mask, rel2, 4, kappa, k_005, limit) == one_dimensional_rounds(
            mask,
            rel,
            4,
            kappa,
            k_005,
            limit,
        ),
{
    lemma_one_dimensional_rounds_agree(mask, rel, rel2, 4, kappa, k_005, limit);
}

proof fn lemma_one_dimensional_rounds_agree(
    mask: Seq<bool>,
    rel: Seq<[u64; 4]>,
    rel2: Seq<[u64; 4]>,
    k: nat,
    kappa: u64,
    k_005: u64,
    limit: nat,
)
    requires
        k <= 4,
        mask.len() <= usize::MAX,
        rel.len() == rel2.len(),
        forall|i: int, m: int|
            0 <= i < mask.len() && i < rel.len() && 0 <= m < 4 && #[trigger] rel[i][m] != #[trigger] rel2[i][m]
                ==> mask[i] || exists|j: int|
                0 <= j < one_dimensional_rounds(mask, rel, 4, kappa, k_005, limit).1.len() && {
                    let e = #[trigger] one_dimensional_rounds(mask, rel, 4, kappa, k_005, limit).1[j];
                    e.0 < m && e.1 == i
                },
    ensures
        one_dimensional_rounds(mask, rel2, k, kappa, k_005, limit) == one_dimensional_rounds(
            mask,
            rel,
            k,
            kappa,
            k_005,
            limit,
        ),
    decreases k,
{
    if k > 0 {
        let m = (k - 1) as nat;
        lemma_one_dimensional_rounds_agree(mask, rel, rel2, m, kappa, k_005, limit);
        let before = one_dimensional_rounds(mask, rel, m, kappa, k_005, limit);
        let r4 = one_dimensional_rounds(mask, rel, 4, kappa, k_005, limit);
        lemma_one_dimensional_rounds(mask, rel, m, kappa, k_005, limit);
        lemma_one_dimensional_rounds_prefix(mask, rel, m, 4, kappa, k_005, limit);
        let col = discrepancy_column(rel, m as int);
        let col2 = discrepancy_column(rel2, m as int);
        assert forall|i: int| 0 <= i < before.0.len() && i < col.len() && !before.0[i] implies #[trigger] col[i]
            == col2[i] by {
            assert(col[i] == rel[i][m as int] && col2[i] == rel2[i][m as int]);
            if rel[i][m as int] != rel2[i][m as int] {
                if mask[i] {
                    assert(before.0[i]);
                } else {
                    let j = choose|j: int|
                        0 <= j < r4.1.len() && {
                            let e = #[trigger] r4.1[j];
                            e.0 < m && e.1 == i
                        };
                    assert(j < before.1.len());
                    assert(r4.1[j] == before.1[j]);
                    assert(before.0[before.1[j].1 as int]);
                }
            }
        }
        lemma_round_candidates_agree(before.0, col, col2);
    }
}

/// Each outlier the one-dimensional algorithm reports for the `m`-th
/// discrepancy is an object that the rounds before the `m`-th left
/// unmarked and that the `m`-th round marks: no later round reports an
/// object that an earlier one marked.
pub proof fn lemma_one_dimensional_reports_fresh(
    mask: Seq<bool>,
    rel: Seq<[u64; 4]>,
    n: nat,
    kappa: u64,
    k_005: u64,
    limit: nat,
)
    requires
        mask.len() <= usize::MAX,
        n <= 4,
    ensures
        ({
            let r = one_dimensional_rounds(mask, rel, n, kappa, k_005, limit);
            forall|j: int|
                0 <= j < r.1.len() ==> {
                    let e = #[trigger] r.1[j];
                    &&& e.0 < n
                    &&& !one_dimensional_rounds(mask, rel, e.0 as nat, kappa, k_005, limit).0[e.1 as int]
                    &&& one_dimensional_rounds(mask, rel, (e.0 + 1) as nat, kappa, k_005, limit).0[e.1 as int]
                }
        }),
    decreases n,
{
    if n > 0 {
        let m = (n - 1) as nat;
        lemma_one_dimensional_reports_fresh(mask, rel, m, kappa, k_005, limit);
        lemma_one_dimensional_rounds(mask, rel, m, kappa, k_005, limit);
        let before = one_dimensional_rounds(mask, rel, m, kappa, k_005, limit);
        let keys = discrepancy_column(rel, m as int);
        let sel = outlier_selection(round_candidates(before.0, keys), kappa, k_005, limit);
        let round = one_dimensional_round(before.0, rel, m, kappa, k_005, limit);
        let r = one_dimensional_rounds(mask, rel, n, kappa, k_005, limit);
        assert forall|j: int| 0 <= j < r.1.len() implies {
            let e = #[trigger] r.1[j];
            &&& e.0 < n
            &&& !one_dimensional_rounds(mask, rel, e.0 as nat, kappa, k_005, limit).0[e.1 as int]
            &&& one_dimensional_rounds(mask, rel, (e.0 + 1) as nat, kappa, k_005, limit).0[e.1 as int]
        } by {
            if j < before.1.len() {
                assert(r.1[j] == before.1[j]);
            } else {
                let q = j - before.1.len();
                assert(r.1[j] == round.1[q]);
                assert(round.1[q] == (m as usize, sel[q].0, sel[q].1));
                lemma_round_reports(before.0, keys, kappa, k_005, limit, q);
                assert((m as usize) as nat == m);
                assert(((m as usize) + 1) as nat == n);
            }
        }
    }
}

/// The four-dimensional algorithm works on what the one-dimensional one
/// leaves: it reports no object that was an outlier before the check or
/// that the one-dimensional algorithm reported.
pub proof fn lemma_outlier_check_four_after_one(
    mask: Seq<bool>,
    rel: Seq<[u64; 4]>,
    summed: Seq<u64>,
    kappa_1: u64,
    k_005_1: u64,
    kappa_4: u64,
    k_005_4: u64,
    limit: nat,
)
    requires
        mask.len() <= usize::MAX,
    ensures
        ({
            let check = outlier_check(mask, rel, summed, kappa_1, k_005_1, kappa_4, k_005_4, limit);
            &&& forall|k: int| 0 <= k < check.2.len() ==> !mask[#[trigger] check.2[k].0 as int]
            &&& forall|j: int, k: int|
                0 <= j < check.1.len() && 0 <= k < check.2.len() ==> #[trigger] check.1[j].1
                    != #[trigger] check.2[k].0
        }),
{
    let one = one_dimensional_rounds(mask, rel, 4, kappa_1, k_005_1, limit);
    lemma_one_dimensional_rounds(mask, rel, 4, kappa_1, k_005_1, limit);
    lemma_four_dimensional_round(one.0, summed, kappa_4, k_005_4, limit);
    let check = outlier_check(mask, rel, summed, kappa_1, k_005_1, kappa_4, k_005_4, limit);
    assert forall|k: int| 0 <= k < check.2.len() implies !mask[#[trigger] check.2[k].0 as int] by {
        let c = check.2[k];
        assert(!one.0[c.0 as int]);
    }
    assert forall|j: int, k: int|
        0 <= j < check.1.len() && 0 <= k < check.2.len() implies #[trigger] check.1[j].1
            != #[trigger] check.2[k].0 by {
        let e = check.1[j];
        assert(one.0[e.1 as int]);
        assert(!one.0[check.2[k].0 as int]);
    }
}

/// The summed discrepancies of the objects that are outliers once the
/// one-dimensional algorithm is done play no part in the check: changing
/// them changes neither the mask nor the outliers found.
pub proof fn lemma_outlier_check_ignores_summed_of_outliers(
    mask: Seq<bool>,
    rel: Seq<[u64; 4]>,
    summed: Seq<u64>,
    summed2: Seq<u64>,
    kappa_1: u64,
    k_005_1: u64,
    kappa_4: u64,
    k_005_4: u64,
    limit: nat,
)
    requires
        mask.len() <= usize::MAX,
        summed.len() == summed2.len(),
        forall|i: int|
            0 <= i < mask.len() && i < summed.len() && #[trigger] summed[i] != #[trigger] summed2[i]
                ==> one_dimensional_rounds(mask, rel, 4, kappa_1, k_005_1, limit).0[i],
    ensures
        outlier_check(mask, rel, summed2, kappa_1, k_005_1, kappa_4, k_005_4, limit)
            == outlier_check(mask, rel, summed, kappa_1, k_005_1, kappa_4, k_005_4, limit),
{
    let one = one_dimensional_rounds(mask, rel, 4, kappa_1, k_005_1, limit);
    lemma_one_dimensional_rounds(mask, rel, 4, kappa_1, k_005_1, limit);
    assert forall|i: int| 0 <= i < one.0.len() && i < summed.len() && !one.0[i] implies #[trigger] summed[i]
        == summed2[i] by {}
    lemma_round_candidates_agree(one.0, summed, summed2);
}

} // verus!
