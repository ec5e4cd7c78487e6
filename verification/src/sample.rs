//! Uniform random sampling from a token pool, and the generation of a
//! whole passphrase: `count` independent draws joined by a separator.

use vstd::prelude::*;
use vstd::string::*;

use crate::pool::TokenData;

verus! {

#[verifier::external_type_specification]
#[verifier::external_body]
pub struct ExThreadRng(rand::rngs::ThreadRng);

/// Relies on rand::Rng::gen_range over `0..n`: a uniformly drawn index
/// below `n`. It panics only on an empty range, which `n >= 1` rules out.
#[verifier::external_body]
fn rand_index(rng: &mut rand::rngs::ThreadRng, n: usize) -> (i: usize)
    requires
        n >= 1,
    ensures
        i < n,
{
    rand::Rng::gen_range(rng, 0..n)
}

impl TokenData {
    /// One token drawn from the pool: always an element of the pool.
    pub fn sample<'a>(&'a self, rng: &mut rand::rngs::ThreadRng) -> (t: &'a str)
        requires
            self@.len() >= 1,
        ensures
            exists|i: int| 0 <= i < self@.len() && t@ == self@[i],
    {
        let n = self.len();
        let i = rand_index(rng, n);
        let t = self.get(i);
        proof {
            assert(0 <= i < self@.len() && t@ == self@[i as int]);
        }
        t
    }
}

/// The text of the tokens at `idxs`, joined by `sep`, with no separator
/// before the first token or after the last.
pub open spec fn joined(pool: Seq<Seq<char>>, idxs: Seq<int>, sep: Seq<char>) -> Seq<char>
    decreases idxs.len(),
{
    if idxs.len() == 0 {
        Seq::empty()
    } else if idxs.len() == 1 {
        pool[idxs[0]]
    } else {
        joined(pool, idxs.drop_last(), sep) + sep + pool[idxs.last()]
    }
}

/// A passphrase: `count` independent draws from the pool, joined by
/// `sep`. The result is the join of some sequence of `count` valid
/// indices.
pub fn generate(
    pool: &TokenData,
    count: u32,
    sep: &str,
    rng: &mut rand::rngs::ThreadRng,
) -> (r: String)
    requires
        pool@.len() >= 1,
    ensures
        exists|idxs: Seq<int>|
            idxs.len() == count && (forall|j: int|
                0 <= j < idxs.len() ==> 0 <= #[trigger] idxs[j] < pool@.len()) && r@ == joined(
                pool@,
                idxs,
                sep@,
            ),
{
    let mut out = String::new();
    let ghost mut idxs: Seq<int> = Seq::empty();
    let mut k: u32 = 0;
    while k < count
        invariant
            pool@.len() >= 1,
            k <= count,
            idxs.len() == k,
            forall|j: int| 0 <= j < idxs.len() ==> 0 <= #[trigger] idxs[j] < pool@.len(),
            out@ == joined(pool@, idxs, sep@),
        decreases count - k,
    {
        if k > 0 {
            out.append(sep);
        }
        let n = pool.len();
        let i = rand_index(rng, n);
        let t = pool.get(i);
        out.append(t);
        proof {
            let prev = idxs;
            idxs = idxs.push(i as int);
            assert(idxs.drop_last() =~= prev);
            assert(idxs.last() == i as int);
            assert(out@ =~= joined(pool@, idxs, sep@));
        }
        k = k + 1;
    }
    out
}

} // verus!
