use vstd::prelude::*;

verus! {

/// A triple of the discrepancy: an observed value, its model value and
/// the error of the observation
#[derive(Debug)]
pub struct Triple<F> {
    /// Observed value
    pub observed: F,
    /// Model value
    pub model: F,
    /// Error of the observed value
    pub error: F,
}

/// Between the sampled points `j` and `j + 1` the function turns from
/// falling to rising: the sign of its derivative is negative at `j` and
/// positive at `j + 1`.
pub open spec fn is_minimum_bracket(signs: Seq<i8>, j: int) -> bool {
    &&& 0 <= j
    &&& j + 1 < signs.len()
    &&& signs[j] < 0
    &&& signs[j + 1] > 0
}

/// Finds the subintervals that hold a local minimum of a function, given
/// the signs of its derivative at consecutive sample points (-1, 0 or 1;
/// 0 also where the sign is unknown): the positions `j` where the sign is
/// negative at `j` and positive at `j + 1`, in increasing order.
pub fn local_minimum_brackets(signs: &Vec<i8>) -> (brackets: Vec<usize>)
    ensures
        forall|k: int| 0 <= k < brackets@.len() ==> is_minimum_bracket(signs@, #[trigger] brackets@[k] as int),
        forall|k: int, l: int| 0 <= k < l < brackets@.len() ==> #[trigger] brackets@[k] < #[trigger] brackets@[l],
        forall|j: int| #[trigger] is_minimum_bracket(signs@, j) ==> brackets@.contains(j as usize),
{
    let mut brackets: Vec<usize> = Vec::new();
    let n = signs.len();
    if n < 2 {
        return brackets;
    }
    let mut j: usize = 0;
    while j + 1 < n
        invariant
            n == signs@.len(),
            n >= 2,
            j < n,
            forall|k: int| 0 <= k < brackets@.len() ==> is_minimum_bracket(signs@, #[trigger] brackets@[k] as int),
            forall|k: int| 0 <= k < brackets@.len() ==> #[trigger] brackets@[k] < j,
            forall|k: int, l: int| 0 <= k < l < brackets@.len() ==> #[trigger] brackets@[k] < #[trigger] brackets@[l],
            forall|q: int| 0 <= q < j && #[trigger] is_minimum_bracket(signs@, q) ==> brackets@.contains(q as usize),
        decreases signs.len() - j,
    {
        if signs[j] < 0 && signs[j + 1] > 0 {
            let ghost before = brackets@;
            brackets.push(j);
            proof {
                assert forall|q: int| 0 <= q < j + 1 && #[trigger] is_minimum_bracket(signs@, q) implies brackets@.contains(q as usize) by {
                    if q == j {
                        assert(brackets@[brackets@.len() - 1] == j);
                    } else {
                        let k = choose|k: int| 0 <= k < before.len() && before[k] == q as usize;
                        assert(brackets@[k] == q as usize);
                    }
                }
            }
        } else {
            proof {
                assert forall|q: int| 0 <= q < j + 1 && #[trigger] is_minimum_bracket(signs@, q) implies brackets@.contains(q as usize) by {
                    if q == j {
                        assert(false);
                    }
                }
            }
        }
        j = j + 1;
    }
    brackets
}

/// A function sampled with the given derivative signs has more than one
/// local minimum.
pub fn has_several_minima(signs: &Vec<i8>) -> (several: bool)
    ensures
        several <==> exists|j: int, k: int|
            j < k && #[trigger] is_minimum_bracket(signs@, j) && #[trigger] is_minimum_bracket(signs@, k),
{
    let brackets = local_minimum_brackets(signs);
    let n = signs.len();
    proof {
        assert(signs@.len() == n);
        if exists|j: int, k: int|
            j < k && #[trigger] is_minimum_bracket(signs@, j) && #[trigger] is_minimum_bracket(signs@, k) {
            let (j, k) = choose|j: int, k: int|
                j < k && #[trigger] is_minimum_bracket(signs@, j) && #[trigger] is_minimum_bracket(signs@, k);
            let a = choose|a: int| 0 <= a < brackets@.len() && brackets@[a] == j as usize;
            let b = choose|b: int| 0 <= b < brackets@.len() && brackets@[b] == k as usize;
            assert(a != b);
        }
        if brackets@.len() > 1 {
            assert(is_minimum_bracket(signs@, brackets@[0] as int));
            assert(is_minimum_bracket(signs@, brackets@[1] as int));
            assert(brackets@[0] < brackets@[1]);
        }
    }
    brackets.len() > 1
}

} // verus!
