use vstd::prelude::*;

verus! {

/// The position of the first natural dispersion (`sigma_R`) in the full
/// vector of parameters; `sigma_theta` and `sigma_Z` follow it.
pub const SIGMA_POSITION: usize = 6;

/// The number of the natural dispersions in the vector of parameters.
pub const SIGMAS_N: usize = 3;

/// The position, in a vector of parameters, of the parameter that has
/// position `index` in the full vector: in the `l_stroke == 1` runs the
/// three natural dispersions are left out of the vector, so the
/// parameters after them move three places down.
pub open spec fn frozen_position(l_stroke: nat, index: nat) -> nat {
    if l_stroke == 1 && index >= SIGMA_POSITION {
        (index - SIGMAS_N) as nat
    } else {
        index
    }
}

/// `p` with the natural dispersions put back at their positions.
pub open spec fn with_sigmas<T>(p: Seq<T>, sigma_r: T, sigma_theta: T, sigma_z: T) -> Seq<T> {
    p.take(SIGMA_POSITION as int) + seq![sigma_r, sigma_theta, sigma_z] + p.skip(
        SIGMA_POSITION as int,
    )
}

/// The position, in the vector of parameters of a run, of the parameter
/// that has position `index` in the full vector.
pub fn frozen_param_index(l_stroke: usize, index: usize) -> (position: usize)
    ensures
        position == frozen_position(l_stroke as nat, index as nat),
{
    if l_stroke == 1 {
        if index < SIGMA_POSITION {
            index
        } else {
            index - SIGMAS_N
        }
    } else {
        index
    }
}

/// Removes the frozen parameter (given by its position in the full
/// vector) from the vector of parameters of a run, and returns it.
pub fn remove_frozen_param<T>(p: &mut Vec<T>, l_stroke: usize, index: usize) -> (frozen: T)
    requires
        frozen_position(l_stroke as nat, index as nat) < old(p)@.len(),
    ensures
        frozen == old(p)@[frozen_position(l_stroke as nat, index as nat) as int],
        final(p)@ == old(p)@.remove(frozen_position(l_stroke as nat, index as nat) as int),
{
    let position = frozen_param_index(l_stroke, index);
    p.remove(position)
}

/// Puts the natural dispersions back into a vector of parameters that
/// lacks them, at their positions.
pub fn insert_sigmas<T>(p: &mut Vec<T>, sigma_r: T, sigma_theta: T, sigma_z: T)
    requires
        old(p)@.len() >= SIGMA_POSITION,
    ensures
        final(p)@ == with_sigmas(old(p)@, sigma_r, sigma_theta, sigma_z),
{
    let ghost before = p@;
    p.insert(SIGMA_POSITION, sigma_r);
    p.insert(SIGMA_POSITION + 1, sigma_theta);
    p.insert(SIGMA_POSITION + 2, sigma_z);
    assert(p@ =~= with_sigmas(before, sigma_r, sigma_theta, sigma_z));
}

/// A parameter other than the natural dispersions has, in a vector that
/// lacks the dispersions, the position that `frozen_position` gives for
/// the `l_stroke == 1` runs: putting the dispersions back moves it to its
/// position in the full vector.
pub proof fn lemma_frozen_position_skips_sigmas<T>(
    p: Seq<T>,
    sigma_r: T,
    sigma_theta: T,
    sigma_z: T,
    index: nat,
)
    requires
        p.len() >= SIGMA_POSITION,
        index < p.len() + SIGMAS_N,
        index < SIGMA_POSITION || index >= SIGMA_POSITION + SIGMAS_N,
    ensures
        with_sigmas(p, sigma_r, sigma_theta, sigma_z)[index as int] == p[frozen_position(
            1,
            index,
        ) as int],
{
}

/// Taking the natural dispersions back out of the vector they were put
/// into gives the vector as it was.
pub proof fn lemma_sigmas_removed_back<T>(p: Seq<T>, sigma_r: T, sigma_theta: T, sigma_z: T)
    requires
        p.len() >= SIGMA_POSITION,
    ensures
        with_sigmas(p, sigma_r, sigma_theta, sigma_z).remove(SIGMA_POSITION as int).remove(
            SIGMA_POSITION as int,
        ).remove(SIGMA_POSITION as int) == p,
{
    assert(with_sigmas(p, sigma_r, sigma_theta, sigma_z).remove(SIGMA_POSITION as int).remove(
        SIGMA_POSITION as int,
    ).remove(SIGMA_POSITION as int) =~= p);
}

/// Only the runs with `L'` = 1 leave the natural dispersions out of the
/// vector of parameters: in any other run the position of a parameter is
/// its position in the full vector, in every run the parameters before
/// the dispersions keep their positions, and in an `L'` = 1 run every
/// position from the dispersions' on moves three places down.
pub proof fn lemma_frozen_position_full_vector(l_stroke: nat, index: nat)
    ensures
        l_stroke != 1 ==> frozen_position(l_stroke, index) == index,
        index < SIGMA_POSITION ==> frozen_position(l_stroke, index) == index,
        l_stroke == 1 && index >= SIGMA_POSITION ==> frozen_position(l_stroke, index) + SIGMAS_N
            == index,
{
}

} // verus!
