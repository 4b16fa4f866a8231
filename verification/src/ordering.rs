use vstd::prelude::*;
use vstd::seq_lib::*;

verus! {

/// A candidate: the index of an object together with the order key
/// of the value that ranks it (a larger key stands for a larger value).
pub type Candidate = (usize, u64);

/// Every key of `s` is at most the key of every later entry.
pub open spec fn sorted_by_key(s: Seq<Candidate>) -> bool {
    forall|i: int, j: int| 0 <= i < j < s.len() ==> #[trigger] s[i].1 <= #[trigger] s[j].1
}

/// The predicate "the candidate has key `k`".
pub open spec fn has_key(k: u64) -> spec_fn(Candidate) -> bool {
    |c: Candidate| c.1 == k
}

/// The predicate "the candidate's key is greater than `bound`".
pub open spec fn key_above(bound: u64) -> spec_fn(Candidate) -> bool {
    |c: Candidate| c.1 > bound
}

/// The number of leading entries of `s` whose keys are at most `k`:
/// the place where a new entry with key `k` goes after all its equals.
pub open spec fn insertion_point(s: Seq<Candidate>, k: u64) -> nat
    decreases s.len(),
{
    if s.len() == 0 {
        0
    } else if s[0].1 <= k {
        1 + insertion_point(s.drop_first(), k)
    } else {
        0
    }
}

/// `s` with `c` inserted after every leading entry whose key is at most `c`'s.
pub open spec fn insert_by_key(s: Seq<Candidate>, c: Candidate) -> Seq<Candidate> {
    s.insert(insertion_point(s, c.1) as int, c)
}

/// The stable ordering of `s` by ascending key: entries with equal keys
/// keep the order in which they occur in `s`.
pub open spec fn stable_sort_by_key(s: Seq<Candidate>) -> Seq<Candidate>
    decreases s.len(),
{
    if s.len() == 0 {
        s
    } else {
        insert_by_key(stable_sort_by_key(s.drop_last()), s.last())
    }
}

proof fn lemma_insertion_point(s: Seq<Candidate>, k: u64)
    ensures
        insertion_point(s, k) <= s.len(),
        forall|q: int| 0 <= q < insertion_point(s, k) ==> #[trigger] s[q].1 <= k,
        insertion_point(s, k) < s.len() ==> s[insertion_point(s, k) as int].1 > k,
    decreases s.len(),
{
    if s.len() > 0 && s[0].1 <= k {
        lemma_insertion_point(s.drop_first(), k);
        assert forall|q: int| 0 <= q < insertion_point(s, k) implies #[trigger] s[q].1 <= k by {
            if q > 0 {
                assert(s[q] == s.drop_first()[q - 1]);
            }
        }
    }
}

/// In a sorted sequence, the insertion point splits the entries into
/// those with keys at most `k` and those with keys above `k`.
proof fn lemma_insertion_point_sorted(s: Seq<Candidate>, k: u64)
    requires
        sorted_by_key(s),
    ensures
        insertion_point(s, k) <= s.len(),
        forall|q: int| 0 <= q < insertion_point(s, k) ==> #[trigger] s[q].1 <= k,
        forall|q: int| insertion_point(s, k) <= q < s.len() ==> #[trigger] s[q].1 > k,
{
    lemma_insertion_point(s, k);
    let p = insertion_point(s, k) as int;
    assert forall|q: int| p <= q < s.len() implies #[trigger] s[q].1 > k by {
        if q > p {
            assert(s[p].1 <= s[q].1);
        }
    }
}

/// A scan that stops at the first key above `k` finds the insertion point.
proof fn lemma_insertion_point_scan(s: Seq<Candidate>, k: u64, p: int)
    requires
        0 <= p <= s.len(),
        forall|q: int| 0 <= q < p ==> #[trigger] s[q].1 <= k,
        p == s.len() || s[p].1 > k,
    ensures
        insertion_point(s, k) == p,
{
    lemma_insertion_point(s, k);
    let ip = insertion_point(s, k) as int;
    if ip < p {
        assert(s[ip].1 <= k);
    }
    if ip > p {
        assert(s[p].1 <= k);
    }
}

proof fn lemma_insert_by_key_sorted(s: Seq<Candidate>, c: Candidate)
    requires
        sorted_by_key(s),
    ensures
        sorted_by_key(insert_by_key(s, c)),
        insert_by_key(s, c).len() == s.len() + 1,
{
    lemma_insertion_point_sorted(s, c.1);
    let p = insertion_point(s, c.1) as int;
    let t = insert_by_key(s, c);
    assert forall|i: int, j: int| 0 <= i < j < t.len() implies #[trigger] t[i].1 <= #[trigger] t[j].1 by {
        if j < p {
            assert(t[i] == s[i] && t[j] == s[j]);
        } else if j == p {
            assert(t[j] == c);
            assert(t[i] == s[i]);
        } else if i < p {
            assert(t[i] == s[i] && t[j] == s[j - 1]);
        } else if i == p {
            assert(t[i] == c && t[j] == s[j - 1]);
        } else {
            assert(t[i] == s[i - 1] && t[j] == s[j - 1]);
        }
    }
}

/// The stable ordering is sorted, as long as its input, and holds the same
/// entries as it.
pub proof fn lemma_stable_sort_by_key(s: Seq<Candidate>)
    ensures
        sorted_by_key(stable_sort_by_key(s)),
        stable_sort_by_key(s).len() == s.len(),
        stable_sort_by_key(s).to_multiset() == s.to_multiset(),
    decreases s.len(),
{
    broadcast use group_to_multiset_ensures;

    if s.len() > 0 {
        let r = stable_sort_by_key(s.drop_last());
        lemma_stable_sort_by_key(s.drop_last());
        lemma_insert_by_key_sorted(r, s.last());
        lemma_insertion_point(r, s.last().1);
        assert(s.drop_last().push(s.last()) =~= s);
    }
}

/// Entries with equal keys keep their relative order: for every key, the
/// entries with that key occur in the stable ordering exactly as in `s`.
pub proof fn lemma_stable_sort_keeps_order_of_equals(s: Seq<Candidate>, k: u64)
    ensures
        stable_sort_by_key(s).filter(has_key(k)) == s.filter(has_key(k)),
    decreases s.len(),
{
    broadcast use Seq::lemma_filter_push, Seq::filter_distributes_over_add;

    if s.len() > 0 {
        let pre = s.drop_last();
        let e = s.last();
        let r = stable_sort_by_key(pre);
        lemma_stable_sort_keeps_order_of_equals(pre, k);
        lemma_stable_sort_by_key(pre);
        lemma_insertion_point_sorted(r, e.1);
        let p = insertion_point(r, e.1) as int;
        let pred = has_key(k);
        assert(r.insert(p, e) =~= r.take(p) + seq![e] + r.skip(p));
        assert(r =~= r.take(p) + r.skip(p));
        assert(pre.push(e) =~= s);
        assert(seq![e] =~= Seq::<Candidate>::empty().push(e));
        reveal_with_fuel(Seq::filter, 2);
        if e.1 == k {
            assert forall|q: int| 0 <= q < r.skip(p).len() implies !pred(#[trigger] r.skip(p)[q]) by {
                assert(r.skip(p)[q] == r[p + q]);
            }
            r.skip(p).lemma_all_neg_filter_empty(pred);
        }
    }
}

/// The predicate "the candidate's key is at most `bound`".
pub open spec fn key_at_most(bound: u64) -> spec_fn(Candidate) -> bool {
    |c: Candidate| c.1 <= bound
}

/// The stable ordering holds as many entries satisfying a predicate as its input.
pub proof fn lemma_stable_sort_filter_len(s: Seq<Candidate>, pred: spec_fn(Candidate) -> bool)
    ensures
        stable_sort_by_key(s).filter(pred).len() == s.filter(pred).len(),
    decreases s.len(),
{
    broadcast use Seq::lemma_filter_push, Seq::filter_distributes_over_add;

    if s.len() > 0 {
        let pre = s.drop_last();
        let e = s.last();
        let r = stable_sort_by_key(pre);
        lemma_stable_sort_filter_len(pre, pred);
        lemma_insertion_point(r, e.1);
        let p = insertion_point(r, e.1) as int;
        assert(r.insert(p, e) =~= r.take(p) + seq![e] + r.skip(p));
        assert(r =~= r.take(p) + r.skip(p));
        assert(pre.push(e) =~= s);
        assert(seq![e] =~= Seq::<Candidate>::empty().push(e));
        reveal_with_fuel(Seq::filter, 2);
    }
}

/// Filtering a sequence whose entries all satisfy the predicate keeps it whole.
pub proof fn lemma_filter_all(s: Seq<Candidate>, pred: spec_fn(Candidate) -> bool)
    requires
        forall|i: int| 0 <= i < s.len() ==> pred(#[trigger] s[i]),
    ensures
        s.filter(pred) == s,
    decreases s.len(),
{
    reveal(Seq::filter);
    if s.len() > 0 {
        let pre = s.drop_last();
        assert forall|i: int| 0 <= i < pre.len() implies pred(#[trigger] pre[i]) by {
            assert(pre[i] == s[i]);
        }
        lemma_filter_all(pre, pred);
        assert(pred(s.last()));
        assert(pre.push(s.last()) =~= s);
    }
}

/// Sorts candidates by ascending key; candidates with equal keys keep
/// their order.
pub fn sort_by_key(v: &Vec<Candidate>) -> (out: Vec<Candidate>)
    ensures
        out@ == stable_sort_by_key(v@),
{
    let mut out: Vec<Candidate> = Vec::new();
    let mut i: usize = 0;
    while i < v.len()
        invariant
            i <= v.len(),
            out@ == stable_sort_by_key(v@.take(i as int)),
        decreases v.len() - i,
    {
        let c = v[i];
        let mut p: usize = 0;
        while p < out.len() && out[p].1 <= c.1
            invariant
                p <= out.len(),
                forall|q: int| 0 <= q < p ==> #[trigger] out@[q].1 <= c.1,
            decreases out.len() - p,
        {
            p = p + 1;
        }
        proof {
            lemma_insertion_point_scan(out@, c.1, p as int);
            assert(v@.take(i + 1).drop_last() =~= v@.take(i as int));
            assert(v@.take(i + 1).last() == c);
        }
        out.insert(p, c);
        i = i + 1;
    }
    assert(v@.take(v.len() as int) =~= v@);
    out
}

/// Keeps the candidates whose keys are greater than `bound`, in order.
pub fn keep_above(v: &Vec<Candidate>, bound: u64) -> (out: Vec<Candidate>)
    ensures
        out@ == v@.filter(key_above(bound)),
{
    let mut out: Vec<Candidate> = Vec::new();
    let mut i: usize = 0;
    while i < v.len()
        invariant
            i <= v.len(),
            out@ == v@.take(i as int).filter(key_above(bound)),
        decreases v.len() - i,
    {
        assert(v@.take(i + 1) =~= v@.take(i as int).push(v@[i as int]));
        proof {
            v@.take(i as int).lemma_filter_push(v@[i as int], key_above(bound));
        }
        if v[i].1 > bound {
            out.push(v[i]);
        }
        i = i + 1;
    }
    assert(v@.take(v.len() as int) =~= v@);
    out
}

} // verus!
