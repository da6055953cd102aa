//! A hash index from relative paths to the positions that hold them, so
//! that finding an entry by its path does not scan every entry.
use vstd::prelude::*;
use std::collections::HashMap;

verus! {

/// The modulus of the path hash, the Mersenne prime 2^61 - 1.
pub const HASH_MODULUS: u64 = 2305843009213693951;

/// A polynomial hash of a byte string: each byte is folded in as
/// `h * 31 + byte`, modulo `HASH_MODULUS`.
pub open spec fn path_hash(path: Seq<u8>) -> u64
    decreases path.len(),
{
    if path.len() == 0 {
        0
    } else {
        ((path_hash(path.drop_last()) * 31 + path.last()) % (HASH_MODULUS as int)) as u64
    }
}

/// Computes `path_hash`.
pub fn hash_path(path: &[u8]) -> (h: u64)
    ensures
        h == path_hash(path@),
{
    let mut h: u64 = 0;
    let mut i: usize = 0;
    while i < path.len()
        invariant
            i <= path@.len(),
            h == path_hash(path@.take(i as int)),
            h < HASH_MODULUS,
        decreases path.len() - i,
    {
        assert(path@.take(i + 1).drop_last() =~= path@.take(i as int));
        assert(path@.take(i + 1).last() == path@[i as int]);
        let next: u128 = (h as u128 * 31 + path[i] as u128) % (HASH_MODULUS as u128);
        h = next as u64;
        i = i + 1;
    }
    assert(path@.take(path@.len() as int) =~= path@);
    h
}

/// Positions of a sequence of paths, grouped by the hash of the path.
pub(crate) struct PathBuckets {
    map: HashMap<u64, Vec<usize>>,
}

impl PathBuckets {
    /// Position `i` is listed under the hash of its path.
    pub(crate) closed spec fn listed(&self, paths: Seq<Seq<u8>>, i: int) -> bool {
        let h = path_hash(paths[i]);
        self.map@.contains_key(h) && self.map@[h]@.contains(i as usize)
    }

    /// Every position of `paths` is listed under the hash of its path, and
    /// every listed position is a position of `paths`.
    pub(crate) closed spec fn covers(&self, paths: Seq<Seq<u8>>) -> bool {
        &&& forall|i: int| 0 <= i < paths.len() ==> #[trigger] self.listed(paths, i)
        &&& forall|h: u64, j: int|
            self.map@.contains_key(h) && 0 <= j < self.map@[h]@.len() ==> (#[trigger] self.map@[h]@[j])
                < paths.len()
    }

    /// An index of no paths.
    pub(crate) fn new() -> (b: Self)
        ensures
            b.covers(Seq::empty()),
    {
        PathBuckets { map: HashMap::new() }
    }

    /// Lists position `pos`, which holds `path`, after the positions of
    /// `paths`.
    pub(crate) fn add(&mut self, paths: Ghost<Seq<Seq<u8>>>, pos: usize, path: &[u8])
        requires
            old(self).covers(paths@),
            pos == paths@.len(),
        ensures
            final(self).covers(paths@.push(path@)),
    {
        broadcast use vstd::std_specs::hash::group_hash_axioms;

        let ghost old_map = self.map@;
        let h = hash_path(path);
        let mut bucket = match self.map.remove(&h) {
            Some(b) => b,
            None => Vec::new(),
        };
        let ghost before = bucket@;
        proof {
            assert(old_map.contains_key(h) ==> before == old_map[h]@);
            assert(!old_map.contains_key(h) ==> before == Seq::<usize>::empty());
        }
        bucket.push(pos);
        self.map.insert(h, bucket);
        proof {
            let np = paths@.push(path@);
            assert forall|i: int| 0 <= i < np.len() implies #[trigger] self.listed(np, i) by {
                if i < paths@.len() {
                    assert(np[i] == paths@[i]);
                    assert(old(self).listed(paths@, i));
                    let hi = path_hash(paths@[i]);
                    if hi == h {
                        let k = choose|k: int| 0 <= k < before.len() && before[k] == i as usize;
                        assert(self.map@[h]@[k] == i as usize);
                    }
                } else {
                    assert(np[i] == path@);
                    assert(self.map@[h]@[before.len() as int] == pos);
                }
            }
            assert forall|g: u64, j: int|
                self.map@.contains_key(g) && 0 <= j < self.map@[g]@.len() implies (#[trigger] self.map@[g]@[j])
                < np.len() by {
                if g == h {
                    if j < before.len() {
                        assert(self.map@[g]@[j] == old_map[h]@[j]);
                    }
                } else {
                    assert(self.map@[g] == old_map[g]);
                }
            }
        }
    }

    /// The positions that may hold `path`: every position of `paths` that
    /// holds it is among them, and all of them are positions of `paths`.
    /// There are none when no position holds it.
    pub(crate) fn candidates(&self, paths: Ghost<Seq<Seq<u8>>>, path: &[u8]) -> (c: Option<&Vec<usize>>)
        requires
            self.covers(paths@),
        ensures
            match c {
                Some(b) => {
                    &&& forall|i: int| 0 <= i < paths@.len() && paths@[i] == path@ ==> b@.contains(i as usize)
                    &&& forall|j: int| 0 <= j < b@.len() ==> (#[trigger] b@[j]) < paths@.len()
                },
                None => forall|i: int| 0 <= i < paths@.len() ==> paths@[i] != path@,
            },
    {
        broadcast use vstd::std_specs::hash::group_hash_axioms;

        let h = hash_path(path);
        let found = self.map.get(&h);
        proof {
            assert forall|i: int| 0 <= i < paths@.len() && paths@[i] == path@ implies self.map@.contains_key(h)
                && self.map@[h]@.contains(i as usize) by {
                assert(self.listed(paths@, i));
            }
        }
        found
    }
}

} // verus!
