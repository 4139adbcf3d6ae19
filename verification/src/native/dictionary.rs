//! The dictionary of a `LowCardinality` column: distinct keys in the order of
//! their first use, found again by a digest of their bytes.

use std::collections::HashMap;

use vstd::prelude::*;

use crate::native::encode::{cells_of, position};

verus! {

broadcast use vstd::std_specs::hash::group_hash_axioms;

/// The modulus of the digest, a prime.
pub const DIGEST_MODULUS: u64 = 2_305_843_009_213_693_951;

/// The base of the digest.
pub const DIGEST_BASE: u64 = 1_099_511_628_211;

/// A number that equal keys share and different keys rarely do.
#[verifier::opaque]
pub open spec fn digest(key: Seq<u8>) -> nat
    decreases key.len(),
{
    if key.len() == 0 {
        0
    } else {
        (digest(key.drop_last()) * DIGEST_BASE + key.last() + 1) as nat % DIGEST_MODULUS as nat
    }
}

/// Compute the digest of `key`.
fn digest_of(key: &[u8]) -> (d: u64)
    ensures
        d == digest(key@),
        d < DIGEST_MODULUS,
{
    let mut d: u64 = 0;
    let mut i: usize = 0;
    proof {
        reveal(digest);
    }
    while i < key.len()
        invariant
            i <= key.len(),
            d < DIGEST_MODULUS,
            d == digest(key@.take(i as int)),
        decreases key.len() - i,
    {
        proof {
            reveal(digest);
            assert(key@.take(i + 1).drop_last() =~= key@.take(i as int));
        }
        let x: u128 = d as u128 * DIGEST_BASE as u128 + key[i] as u128 + 1;
        d = (x % DIGEST_MODULUS as u128) as u64;
        i = i + 1;
    }
    assert(key@.take(i as int) =~= key@);
    d
}

/// Whether two byte strings are equal.
pub fn same_bytes(a: &[u8], b: &[u8]) -> (yes: bool)
    ensures
        yes == (a@ == b@),
{
    if a.len() != b.len() {
        return false;
    }
    let mut i: usize = 0;
    while i < a.len()
        invariant
            i <= a.len(),
            a@.len() == b@.len(),
            forall|k: int| 0 <= k < i ==> a@[k] == b@[k],
        decreases a.len() - i,
    {
        if a[i] != b[i] {
            return false;
        }
        i = i + 1;
    }
    assert(a@ =~= b@);
    true
}

/// Distinct keys, in the order of their first use.
pub struct Dictionary<'a> {
    keys: Vec<&'a [u8]>,
    places: HashMap<u64, Vec<usize>>,
}

impl<'a> View for Dictionary<'a> {
    type V = Seq<Seq<u8>>;

    closed spec fn view(&self) -> Seq<Seq<u8>> {
        cells_of(self.keys@)
    }
}

/// A key that occurs once stands at its first place.
proof fn lemma_position_unique(dict: Seq<Seq<u8>>, i: int)
    requires
        0 <= i < dict.len(),
        forall|j: int, k: int| 0 <= j < k < dict.len() ==> dict[j] != dict[k],
    ensures
        position(dict, dict[i]) == Some(i as nat),
    decreases dict.len(),
{
    let before = dict.drop_last();
    if i == dict.len() - 1 {
        lemma_position_absent(before, dict[i]);
    } else {
        assert(before[i] == dict[i]);
        lemma_position_unique(before, i);
    }
}

/// A key that does not occur has no place.
proof fn lemma_position_absent(dict: Seq<Seq<u8>>, key: Seq<u8>)
    requires
        forall|i: int| 0 <= i < dict.len() ==> dict[i] != key,
    ensures
        position(dict, key) is None,
    decreases dict.len(),
{
    if dict.len() > 0 {
        lemma_position_absent(dict.drop_last(), key);
    }
}

impl<'a> Dictionary<'a> {
    /// The keys are distinct, and every one is listed under its digest.
    pub closed spec fn wf(&self) -> bool {
        &&& forall|j: int, k: int| 0 <= j < k < self@.len() ==> self@[j] != self@[k]
        &&& forall|i: int|
            #![trigger self@[i]]
            0 <= i < self@.len() ==> self.places@.contains_key(digest(self@[i]) as u64)
                && self.places@[digest(self@[i]) as u64]@.contains(i as usize)
        &&& forall|d: u64, n: int|
            #![trigger self.places@[d]@[n]]
            self.places@.contains_key(d) && 0 <= n < self.places@[d]@.len()
                ==> self.places@[d]@[n] < self@.len()
    }

    /// A dictionary without keys.
    pub fn new() -> (out: Self)
        ensures
            out.wf(),
            out@ == Seq::<Seq<u8>>::empty(),
    {
        let out = Dictionary { keys: Vec::new(), places: HashMap::new() };
        assert(out@ =~= Seq::<Seq<u8>>::empty());
        out
    }

    /// The number of keys.
    pub fn len(&self) -> (n: usize)
        ensures
            n == self@.len(),
    {
        self.keys.len()
    }

    /// The keys.
    pub fn keys(&self) -> (out: &Vec<&'a [u8]>)
        ensures
            cells_of(out@) == self@,
    {
        &self.keys
    }

    /// The place of `key`.
    fn find(&self, key: &[u8], d: u64) -> (out: Option<usize>)
        requires
            self.wf(),
            d == digest(key@),
        ensures
            match out {
                Some(i) => position(self@, key@) == Some(i as nat) && i < self@.len(),
                None => position(self@, key@) is None && forall|i: int|
                    0 <= i < self@.len() ==> self@[i] != key@,
            },
    {
        match self.places.get(&d) {
            Some(list) => {
                let mut n: usize = 0;
                while n < list.len()
                    invariant
                        n <= list.len(),
                        self.wf(),
                        self.places@.contains_key(d),
                        self.places@[d] == *list,
                        forall|m: int|
                            #![trigger list@[m]]
                            0 <= m < n ==> self@[list@[m] as int] != key@,
                    decreases list.len() - n,
                {
                    let i: usize = list[n];
                    assert(self.places@[d]@[n as int] < self@.len());
                    if same_bytes(self.keys[i], key) {
                        proof {
                            assert(self@[i as int] == key@);
                            lemma_position_unique(self@, i as int);
                        }
                        return Some(i);
                    }
                    n = n + 1;
                }
                let count: usize = self.keys.len();
                proof {
                    assert forall|i: int| 0 <= i < self@.len() implies self@[i] != key@ by {
                        if self@[i] == key@ {
                            assert(i < count);
                            assert(list@.contains(i as usize));
                            let m = choose|m: int| 0 <= m < list@.len() && list@[m] == i as usize;
                            assert(self@[list@[m] as int] != key@);
                        }
                    }
                    lemma_position_absent(self@, key@);
                }
                None
            },
            None => {
                proof {
                    assert forall|i: int| 0 <= i < self@.len() implies self@[i] != key@ by {
                        if self@[i] == key@ {
                            assert(self.places@.contains_key(d));
                        }
                    }
                    lemma_position_absent(self@, key@);
                }
                None
            },
        }
    }

    /// The place of `key`, which is added at the end where it is new.
    pub fn intern(&mut self, key: &'a [u8]) -> (place: usize)
        requires
            old(self).wf(),
        ensures
            final(self).wf(),
            match position(old(self)@, key@) {
                Some(i) => final(self)@ == old(self)@ && place == i,
                None => final(self)@ == old(self)@.push(key@) && place == old(self)@.len(),
            },
    {
        let d: u64 = digest_of(key);
        if let Some(i) = self.find(key, d) {
            return i;
        }
        let ghost before = *self;
        let place: usize = self.keys.len();
        let mut list: Vec<usize> = match self.places.remove(&d) {
            Some(list) => list,
            None => Vec::new(),
        };
        let ghost listed = list@;
        list.push(place);
        self.places.insert(d, list);
        self.keys.push(key);
        proof {
            assert(self@ =~= before@.push(key@));
            assert(self.places@[d]@ == listed.push(place));
            assert(forall|e: u64|
                e != d && before.places@.contains_key(e) ==> self.places@.contains_key(e)
                    && self.places@[e] == before.places@[e]);
            assert(before.places@.contains_key(d) ==> before.places@[d]@ == listed);
            assert forall|i: int|
                #![trigger self@[i]]
                0 <= i < self@.len() implies self.places@.contains_key(digest(self@[i]) as u64)
                && self.places@[digest(self@[i]) as u64]@.contains(i as usize) by {
                if i < before@.len() {
                    assert(self@[i] == before@[i]);
                    let e = digest(before@[i]) as u64;
                    if e == d {
                        assert(listed.contains(i as usize));
                        let m = choose|m: int| 0 <= m < listed.len() && listed[m] == i as usize;
                        assert(listed.push(place)[m] == i as usize);
                    }
                } else {
                    assert(listed.push(place)[listed.len() as int] == place);
                }
            }
            assert forall|e: u64, n: int|
                #![trigger self.places@[e]@[n]]
                self.places@.contains_key(e) && 0 <= n < self.places@[e]@.len() implies self.places@[e]@[n]
                < self@.len() by {
                if e == d {
                    if n < listed.len() {
                        assert(before.places@.contains_key(d));
                        assert(before.places@[d]@[n] < before@.len());
                    }
                } else {
                    assert(before.places@.contains_key(e));
                    assert(before.places@[e]@[n] < before@.len());
                }
            }
        }
        place
    }
}

} // verus!
