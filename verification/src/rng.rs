//! Random choices, through the `rand` crate.
//!
//! Generation is deliberately non-reproducible (a thread-local generator), so
//! no contract here pins a value; each wrapper states only what holds of every
//! outcome.

use vstd::prelude::*;
use rand::Rng;
use rand::seq::SliceRandom;
use crate::geometry::Pos;

verus! {

#[verifier::external_type_specification]
#[verifier::external_body]
pub struct ExThreadRng(rand::rngs::ThreadRng);

/// Relies on rand::thread_rng: a handle to the thread-local generator.
#[verifier::external_body]
pub fn new_rng() -> rand::rngs::ThreadRng {
    rand::thread_rng()
}

/// Relies on rand::Rng::gen_range over `lo..hi`: a value of the non-empty
/// range. The call panics on an empty range, which the precondition rules out.
#[verifier::external_body]
pub fn rand_range(rng: &mut rand::rngs::ThreadRng, lo: i32, hi: i32) -> (r: i32)
    requires
        lo < hi,
    ensures
        lo <= r < hi,
{
    rng.gen_range(lo..hi)
}

/// Relies on rand::Rng::gen_range over `0..n`: an index below `n`. The call
/// panics on an empty range, which the precondition rules out.
#[verifier::external_body]
pub fn rand_index(rng: &mut rand::rngs::ThreadRng, n: usize) -> (r: usize)
    requires
        n >= 1,
    ensures
        r < n,
{
    rng.gen_range(0..n)
}

/// Relies on rand::Rng::gen_ratio: true with probability `num/den`. A ratio of
/// one is always true and a ratio of zero always false; otherwise nothing is
/// promised of the outcome. The call panics when `den` is zero or `num > den`,
/// which the precondition rules out.
#[verifier::external_body]
pub fn rand_ratio(rng: &mut rand::rngs::ThreadRng, num: u32, den: u32) -> (r: bool)
    requires
        1 <= den,
        num <= den,
    ensures
        num == den ==> r,
        num == 0 ==> !r,
{
    rng.gen_ratio(num, den)
}

/// The values of `r` are the values of `v` read at pairwise-distinct indices.
pub open spec fn is_sample_of(r: Seq<Pos>, v: Seq<Pos>) -> bool {
    exists|idx: Seq<int>|
        {
            &&& idx.len() == r.len()
            &&& (forall|a: int, b: int| 0 <= a < b < idx.len() ==> idx[a] != idx[b])
            &&& (forall|a: int|
                0 <= a < idx.len() ==> 0 <= #[trigger] idx[a] < v.len() && r[a] == v[idx[a]])
        }
}

/// Relies on rand::seq::SliceRandom::choose_multiple: a sample without
/// replacement, i.e. the values at `min(amount, len)` pairwise-distinct
/// indices of the slice.
#[verifier::external_body]
pub fn choose_multiple(rng: &mut rand::rngs::ThreadRng, v: &Vec<Pos>, amount: usize) -> (r: Vec<Pos>)
    ensures
        amount <= v@.len() ==> r@.len() == amount,
        amount > v@.len() ==> r@.len() == v@.len(),
        is_sample_of(r@, v@),
{
    v.as_slice().choose_multiple(rng, amount).cloned().collect()
}

/// A sequence without repeated values.
pub open spec fn distinct_seq(s: Seq<Pos>) -> bool {
    forall|a: int, b: int| 0 <= a < b < s.len() ==> s[a] != s[b]
}

/// A sample taken at distinct indices of a duplicate-free vector has
/// duplicate-free values, each a value of the vector.
pub proof fn lemma_sample_distinct(v: Seq<Pos>, r: Seq<Pos>)
    requires
        is_sample_of(r, v),
        distinct_seq(v),
    ensures
        distinct_seq(r),
        forall|a: int| 0 <= a < r.len() ==> v.contains(#[trigger] r[a]),
{
    let idx = choose|idx: Seq<int>|
        {
            &&& idx.len() == r.len()
            &&& (forall|a: int, b: int| 0 <= a < b < idx.len() ==> idx[a] != idx[b])
            &&& (forall|a: int|
                0 <= a < idx.len() ==> 0 <= #[trigger] idx[a] < v.len() && r[a] == v[idx[a]])
        };
    assert forall|a: int, b: int| 0 <= a < b < r.len() implies r[a] != r[b] by {
        if idx[a] < idx[b] {
            assert(v[idx[a]] != v[idx[b]]);
        } else {
            assert(v[idx[b]] != v[idx[a]]);
        }
    }
    assert forall|a: int| 0 <= a < r.len() implies v.contains(#[trigger] r[a]) by {
        assert(v[idx[a]] == r[a]);
    }
}

} // verus!
