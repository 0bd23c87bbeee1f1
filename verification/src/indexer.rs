//! Dense numbering of node names in order of first appearance.
use std::collections::HashMap;
use vstd::prelude::*;

verus! {

/// The modulus of the name hash, a prime below 2^32.
pub const HASH_MODULUS: u64 = 4294967291;

/// The hash under which a name is filed: its bytes read as the digits of a
/// number to base 131, modulo `HASH_MODULUS`.
pub open spec fn name_hash(name: Seq<u8>) -> u64
    decreases name.len(),
{
    if name.len() == 0 {
        0
    } else {
        ((name_hash(name.drop_last()) * 131 + name.last()) % (HASH_MODULUS as int)) as u64
    }
}

/// The names in `names` are pairwise different.
pub open spec fn distinct(names: Seq<Vec<u8>>) -> bool {
    forall|i: int, j: int|
        0 <= i < names.len() && 0 <= j < names.len() && i != j ==> (#[trigger] names[i])@
            != (#[trigger] names[j])@
}

/// Whether `name` is one of `names`.
pub open spec fn known(names: Seq<Vec<u8>>, name: Seq<u8>) -> bool {
    exists|i: int| 0 <= i < names.len() && (#[trigger] names[i])@ == name
}

/// Assigns ids to node names: the first name seen gets id 0, the next new
/// name id 1, and so on. `names[id]` is the name of `id`; `map` files each id
/// under the hash of its name.
pub struct NodeIndexer {
    pub names: Vec<Vec<u8>>,
    pub map: HashMap<u64, Vec<usize>>,
    pub next: usize,
}

/// Whether two byte strings are equal.
pub fn bytes_eq(a: &[u8], b: &[u8]) -> (same: bool)
    ensures
        same == (a@ == b@),
{
    if a.len() != b.len() {
        return false;
    }
    let mut i: usize = 0;
    while i < a.len()
        invariant
            i <= a.len(),
            a.len() == b.len(),
            forall|k: int| 0 <= k < i ==> a@[k] == b@[k],
        decreases a.len() - i,
    {
        if a[i] != b[i] {
            return false;
        }
        i += 1;
    }
    assert(a@ =~= b@);
    true
}

/// A vector with the bytes of `s`.
pub fn copy_bytes(s: &[u8]) -> (v: Vec<u8>)
    ensures
        v@ == s@,
{
    let mut v: Vec<u8> = Vec::new();
    let mut i: usize = 0;
    while i < s.len()
        invariant
            i <= s.len(),
            v@ == s@.take(i as int),
        decreases s.len() - i,
    {
        v.push(s[i]);
        proof {
            assert(s@.take(i + 1) =~= s@.take(i as int).push(s@[i as int]));
        }
        i += 1;
    }
    assert(s@.take(i as int) =~= s@);
    v
}

/// Computes the hash of a name.
pub fn hash_name(name: &[u8]) -> (h: u64)
    ensures
        h == name_hash(name@),
        h < HASH_MODULUS,
{
    let mut h: u64 = 0;
    let mut i: usize = 0;
    assert(name@.take(0) =~= Seq::empty());
    while i < name.len()
        invariant
            i <= name.len(),
            h < HASH_MODULUS,
            h == name_hash(name@.take(i as int)),
        decreases name.len() - i,
    {
        proof {
            assert(name@.take(i + 1).drop_last() =~= name@.take(i as int));
        }
        h = (h * 131 + name[i] as u64) % HASH_MODULUS;
        i += 1;
    }
    assert(name@.take(i as int) =~= name@);
    h
}

impl NodeIndexer {
    /// The indexer is consistent: `next` is the number of names, the names are
    /// pairwise different, every id is filed under the hash of its name, and
    /// only ids are filed.
    pub open spec fn wf(&self) -> bool {
        &&& self.next == self.names@.len()
        &&& distinct(self.names@)
        &&& forall|id: int|
            0 <= id < self.names@.len() ==> self.map@.contains_key(
                name_hash((#[trigger] self.names@[id])@),
            ) && self.map@[name_hash(self.names@[id]@)]@.contains(id as usize)
        &&& forall|h: u64, k: int|
            self.map@.contains_key(h) && 0 <= k < self.map@[h]@.len() ==> (#[trigger] self.map@[h]@[k])
                < self.names@.len()
    }

    /// An indexer without names.
    pub fn new() -> (indexer: Self)
        ensures
            indexer.wf(),
            indexer.names@.len() == 0,
    {
        Self { names: Vec::new(), map: HashMap::new(), next: 0 }
    }

    /// The id of node name `s`, if it has one.
    pub fn lookup(&self, s: &[u8]) -> (id: Option<usize>)
        requires
            self.wf(),
        ensures
            id matches Some(i) ==> i < self.names@.len() && self.names@[i as int]@ == s@,
            id is None ==> !known(self.names@, s@),
    {
        broadcast use vstd::std_specs::hash::group_hash_axioms;

        let h = hash_name(s);
        match self.map.get(&h) {
            Some(bucket) => {
                let mut k: usize = 0;
                while k < bucket.len()
                    invariant
                        k <= bucket.len(),
                        self.wf(),
                        self.map@.contains_key(h),
                        bucket == self.map@[h],
                        forall|j: int| 0 <= j < k ==> self.names@[bucket@[j] as int]@ != s@,
                    decreases bucket.len() - k,
                {
                    let candidate = bucket[k];
                    if bytes_eq(self.names[candidate].as_slice(), s) {
                        return Some(candidate);
                    }
                    k += 1;
                }
                proof {
                    if known(self.names@, s@) {
                        let i = choose|i: int|
                            0 <= i < self.names@.len() && (#[trigger] self.names@[i])@ == s@;
                        let j = choose|j: int| 0 <= j < bucket@.len() && bucket@[j] == i as usize;
                        assert(self.names@[bucket@[j] as int]@ != s@);
                    }
                }
                None
            },
            None => {
                proof {
                    if known(self.names@, s@) {
                        let i = choose|i: int|
                            0 <= i < self.names@.len() && (#[trigger] self.names@[i])@ == s@;
                        assert(self.map@.contains_key(name_hash(self.names@[i]@)));
                    }
                }
                None
            },
        }
    }

    /// The id of node name `s`: the id it was given before, or else the next
    /// free id, under which the name is then recorded.
    pub fn id_for(&mut self, s: &[u8]) -> (id: usize)
        requires
            old(self).wf(),
        ensures
            final(self).wf(),
            id < final(self).names@.len(),
            final(self).names@[id as int]@ == s@,
            known(old(self).names@, s@) ==> final(self).names@ == old(self).names@,
            !known(old(self).names@, s@) ==> id == old(self).names@.len() && final(self).names@
                == old(self).names@.push(final(self).names@[id as int]),
    {
        broadcast use vstd::std_specs::hash::group_hash_axioms;

        let h = hash_name(s);
        let mut bucket: Vec<usize> = match self.map.remove(&h) {
            Some(b) => b,
            None => Vec::new(),
        };
        let ghost rest = self.map@;
        let mut k: usize = 0;
        let mut found: Option<usize> = None;
        while k < bucket.len() && found.is_none()
            invariant
                k <= bucket.len(),
                forall|j: int| 0 <= j < bucket@.len() ==> (#[trigger] bucket@[j]) < self.names@.len(),
                forall|j: int| 0 <= j < k && found.is_none() ==> self.names@[bucket@[j] as int]@ != s@,
                found matches Some(id) ==> id < self.names@.len() && self.names@[id as int]@ == s@,
            decreases bucket.len() - k + if found.is_none() { 1int } else { 0int },
        {
            let candidate = bucket[k];
            if bytes_eq(self.names[candidate].as_slice(), s) {
                found = Some(candidate);
            } else {
                k += 1;
            }
        }
        match found {
            Some(id) => {
                self.map.insert(h, bucket);
                proof {
                    assert(self.map@ =~= old(self).map@);
                    assert(known(old(self).names@, s@));
                }
                id
            },
            None => {
                let id = self.names.len();
                proof {
                    if known(old(self).names@, s@) {
                        let i = choose|i: int|
                            0 <= i < old(self).names@.len() && (#[trigger] old(self).names@[i])@ == s@;
                        let j = choose|j: int|
                            0 <= j < bucket@.len() && bucket@[j] == i as usize;
                        assert(self.names@[bucket@[j] as int]@ != s@);
                    }
                }
                self.names.push(copy_bytes(s));
                bucket.push(id);
                self.map.insert(h, bucket);
                self.next = self.names.len();
                proof {
                    assert forall|x: int| 0 <= x < self.names@.len() implies self.map@.contains_key(
                        name_hash((#[trigger] self.names@[x])@),
                    ) && self.map@[name_hash(self.names@[x]@)]@.contains(x as usize) by {
                        if x == id {
                            assert(self.map@[h]@[bucket@.len() - 1] == id);
                        } else {
                            let hx = name_hash(old(self).names@[x]@);
                            let b = old(self).map@[hx]@;
                            let j = choose|j: int| 0 <= j < b.len() && b[j] == x as usize;
                            if hx == h {
                                assert(self.map@[h]@[j] == x as usize);
                            } else {
                                assert(self.map@[hx] == old(self).map@[hx]);
                            }
                        }
                    }
                    assert forall|g: u64, j: int|
                        self.map@.contains_key(g) && 0 <= j < self.map@[g]@.len() implies (
                    #[trigger] self.map@[g]@[j]) < self.names@.len() by {
                        if g == h {
                            if j < bucket@.len() - 1 {
                                assert(self.map@[g]@[j] == old(self).map@[h]@[j]);
                            }
                        } else {
                            assert(self.map@[g] == old(self).map@[g]);
                        }
                    }
                    assert(distinct(self.names@));
                }
                id
            },
        }
    }
}

/// The position of `name` among `names`, or their number if it is not among
/// them.
pub open spec fn slot(names: Seq<Seq<u8>>, name: Seq<u8>) -> int {
    if exists|i: int| 0 <= i < names.len() && #[trigger] names[i] == name {
        choose|i: int| 0 <= i < names.len() && #[trigger] names[i] == name
    } else {
        names.len() as int
    }
}

/// The indexer files exactly `names`, each under its position.
pub open spec fn filed(index: NodeIndexer, names: Seq<Seq<u8>>) -> bool {
    &&& index.wf()
    &&& index.names@.len() == names.len()
    &&& forall|i: int| 0 <= i < names.len() ==> (#[trigger] index.names@[i])@ == names[i]
}

/// Where an indexer files `names` and knows `name` under `id`, that is its
/// position among them; where it does not know it, the position is their
/// number.
pub proof fn lemma_slot(index: NodeIndexer, names: Seq<Seq<u8>>, name: Seq<u8>, id: int)
    requires
        filed(index, names),
    ensures
        0 <= id < names.len() && names[id] == name ==> slot(names, name) == id,
        !known(index.names@, name) ==> slot(names, name) == names.len(),
        known(index.names@, name) ==> 0 <= slot(names, name) < names.len(),
{
    if 0 <= id < names.len() && names[id] == name {
        let k = slot(names, name);
        assert(names[k] == name);
        if k != id {
            assert(index.names@[k]@ != index.names@[id]@);
        }
    }
    if !known(index.names@, name) {
        if exists|i: int| 0 <= i < names.len() && #[trigger] names[i] == name {
            let i = choose|i: int| 0 <= i < names.len() && #[trigger] names[i] == name;
            assert(index.names@[i]@ == name);
        }
    }
    if known(index.names@, name) {
        let i = choose|i: int| 0 <= i < index.names@.len() && (#[trigger] index.names@[i])@ == name;
        assert(names[i] == name);
    }
}

} // verus!
