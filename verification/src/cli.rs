use vstd::prelude::*;
use vstd::string::{StrSliceExecFns, StringExecFns};

verus! {

/// The separator `..` starts at position `p` of `s`.
pub open spec fn separator_at(s: Seq<char>, p: int) -> bool {
    &&& 0 <= p
    &&& p + 1 < s.len()
    &&& s[p] == '.'
    &&& s[p + 1] == '.'
}

/// `p` is the first position of the separator in `s`.
pub open spec fn first_separator_at(s: Seq<char>, p: int) -> bool {
    &&& separator_at(s, p)
    &&& forall|q: int| 0 <= q < p ==> !#[trigger] separator_at(s, q)
}

/// The two bounds of a range written as `begin..end`: the text splits on
/// `..`, taken from the left without overlaps, into exactly two parts.
pub open spec fn range_bounds(s: Seq<char>) -> Option<(Seq<char>, Seq<char>)> {
    if exists|p: int| first_separator_at(s, p) {
        let p = choose|p: int| first_separator_at(s, p);
        if exists|q: int| #[trigger] separator_at(s.skip(p + 2), q) {
            None
        } else {
            Some((s.take(p), s.skip(p + 2)))
        }
    } else {
        None
    }
}

/// The first position at or after `from` where the separator starts.
fn find_separator(s: &str, len: usize, from: usize) -> (found: Option<usize>)
    requires
        len == s@.len(),
        from <= len,
    ensures
        found matches Some(p) ==> from <= p && separator_at(s@, p as int) && forall|q: int|
            from <= q < p ==> !#[trigger] separator_at(s@, q),
        found is None ==> forall|q: int| from <= q ==> !#[trigger] separator_at(s@, q),
{
    let mut p = from;
    while p < len && p + 1 < len
        invariant
            len == s@.len(),
            from <= p <= len,
            forall|q: int| from <= q < p ==> !#[trigger] separator_at(s@, q),
        decreases len - p,
    {
        if s.get_char(p) == '.' && s.get_char(p + 1) == '.' {
            return Some(p);
        }
        p = p + 1;
    }
    None
}

/// Splits the text of a range, `begin..end`, into its two bounds; `None`
/// unless splitting on `..` gives exactly two parts.
pub fn split_range_bounds(s: &str) -> (bounds: Option<(String, String)>)
    ensures
        bounds matches Some((begin, end)) ==> range_bounds(s@) == Some((begin@, end@)),
        bounds is None ==> range_bounds(s@) is None,
{
    let len = s.unicode_len();
    match find_separator(s, len, 0) {
        None => {
            assert(!exists|p: int| first_separator_at(s@, p));
            None
        },
        Some(p) => {
            proof {
                assert(first_separator_at(s@, p as int));
                assert forall|k: int| first_separator_at(s@, k) implies k == p by {
                    if k < p {
                        assert(!separator_at(s@, k));
                    }
                    if k > p {
                        assert(!separator_at(s@, p as int));
                    }
                }
            }
            match find_separator(s, len, p + 2) {
                Some(r) => {
                    proof {
                        assert(separator_at(s@.skip(p + 2), r - p - 2));
                    }
                    None
                },
                None => {
                    proof {
                        assert forall|q: int| !#[trigger] separator_at(s@.skip(p + 2), q) by {
                            if separator_at(s@.skip(p + 2), q) {
                                assert(separator_at(s@, q + p + 2));
                            }
                        }
                    }
                    let begin = String::from_str(s.substring_char(0, p));
                    let end = String::from_str(s.substring_char(p + 2, len));
                    assert(s@.subrange(0, p as int) =~= s@.take(p as int));
                    assert(s@.subrange(p + 2, len as int) =~= s@.skip(p + 2));
                    Some((begin, end))
                },
            }
        },
    }
}

} // verus!
