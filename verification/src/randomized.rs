use vstd::prelude::*;

use crate::graph::Graph;

verus! {

/// Relies on rand::random::<bool>: a fair draw from the standard
/// distribution on bool; nothing can be promised of the outcome.
#[verifier::external_body]
pub(crate) fn random_bool() -> bool {
    rand::random::<bool>()
}

/// Relies on rand::Rng::gen_range: a draw from `0..n`, which panics on an
/// empty range, so `n` must be positive; the draw always lies below `n`.
#[verifier::external_body]
pub(crate) fn random_index(n: usize) -> (r: usize)
    requires
        n > 0,
    ensures
        r < n,
{
    let mut rng = rand::thread_rng();
    rand::Rng::gen_range(&mut rng, 0..n)
}

/// Relies on rand::seq::SliceRandom::choose_multiple: `min(k, len)`
/// elements drawn without repetition of positions, in unspecified order.
#[verifier::external_body]
pub(crate) fn sample_vertices(v: &Vec<i32>, k: usize) -> (r: Vec<i32>)
    ensures
        r@.len() == if k <= v@.len() {
            k as int
        } else {
            v@.len() as int
        },
        forall|j: int| 0 <= j < r@.len() ==> v@.contains(#[trigger] r@[j]),
        v@.no_duplicates() ==> r@.no_duplicates(),
{
    let mut rng = rand::thread_rng();
    rand::seq::SliceRandom::choose_multiple(v.as_slice(), &mut rng, k).copied().collect()
}

impl Graph {
    /// Randomized clique search: draws up to `tries` samples of `k`
    /// distinct vertices and returns the first sample that is pairwise
    /// connected; `None` when no draw succeeded.
    pub fn random_clique(&self, k: usize, tries: usize) -> (r: Option<Vec<i32>>)
        requires
            self.wf(),
        ensures
            tries > 0 && k == 0 ==> r is Some,
            tries > 0 && k == 1 && self.vertices@.len() > 0 ==> r is Some,
            match r {
                Some(v) => {
                    &&& v@.no_duplicates()
                    &&& v@.len() == if k <= self.vertices@.len() {
                        k as int
                    } else {
                        self.vertices@.len() as int
                    }
                    &&& forall|j: int|
                        0 <= j < v@.len() ==> self.vertices@.contains(#[trigger] v@[j])
                    &&& forall|a: int, b: int|
                        0 <= a < b < v@.len() ==> self.has_edge(v@[a], v@[b])
                },
                None => true,
            },
    {
        let mut t: usize = 0;
        while t < tries
            invariant
                self.wf(),
                k == 0 ==> t == 0,
                k == 1 && self.vertices@.len() > 0 ==> t == 0,
            decreases tries - t,
        {
            let guess = sample_vertices(&self.vertices, k);
            if self.is_clique(&guess) {
                return Some(guess);
            }
            proof {
                assert(guess@.len() > 1);
            }
            t = t + 1;
        }
        None
    }
}

} // verus!
