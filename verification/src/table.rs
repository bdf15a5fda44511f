//! Interning of texts: each distinct text gets the next index and is found again through a
//! hash of its UTF-8 bytes.
use vstd::prelude::*;
use vstd::utf8::encode_utf8;
use std::collections::HashMap;

verus! {

/// The modulus of the text hash, the Mersenne prime 2^61 - 1.
pub const HASH_MODULUS: u64 = 0x1fff_ffff_ffff_ffff;

/// Polynomial hash of a byte string, taken modulo [`HASH_MODULUS`].
pub open spec fn bytes_hash(b: Seq<u8>) -> u64
    decreases b.len(),
{
    if b.len() == 0 {
        0
    } else {
        ((bytes_hash(b.drop_last()) as int * 131 + b.last() as int) % HASH_MODULUS as int) as u64
    }
}

/// Hash of a text: the hash of its UTF-8 encoding.
pub open spec fn text_hash(t: Seq<char>) -> u64 {
    bytes_hash(encode_utf8(t))
}

/// Hash of the text of `key`.
pub fn hash_text(key: &String) -> (h: u64)
    ensures
        h == text_hash(key@),
{
    let bytes = key.as_str().as_bytes();
    let mut h: u64 = 0;
    let mut i: usize = 0;
    while i < bytes.len()
        invariant
            bytes@ == encode_utf8(key@),
            i <= bytes@.len(),
            h < HASH_MODULUS,
            h == bytes_hash(bytes@.take(i as int)),
        decreases bytes@.len() - i,
    {
        proof {
            assert(bytes@.take(i + 1).drop_last() =~= bytes@.take(i as int));
        }
        h = ((h as u128 * 131 + bytes[i] as u128) % (HASH_MODULUS as u128)) as u64;
        i += 1;
    }
    assert(bytes@.take(bytes@.len() as int) =~= bytes@);
    h
}

/// A sequence of distinct texts, each found again by its index.
pub struct TextTable {
    keys: Vec<String>,
    /// For each key, the latest earlier key with the same hash.
    previous: Vec<Option<usize>>,
    /// For each hash, the latest key with that hash.
    heads: HashMap<u64, usize>,
}

impl TextTable {
    /// The texts, in the order in which they were added.
    pub closed spec fn keys(&self) -> Seq<Seq<char>> {
        self.keys@.map_values(|s: String| s@)
    }

    spec fn key_hash(&self, i: int) -> u64 {
        text_hash(self.keys@[i]@)
    }

    /// The table's internal invariant: the texts are distinct and every hash chain is complete.
    pub closed spec fn wf(&self) -> bool {
        let n = self.keys@.len();
        &&& self.previous@.len() == n
        &&& forall|i: int, j: int| 0 <= i < j < n ==> self.keys@[i]@ != self.keys@[j]@
        &&& forall|i: int|
            #![trigger self.previous@[i]]
            0 <= i < n ==> match self.previous@[i] {
                Some(j) => {
                    &&& j < i
                    &&& self.key_hash(j as int) == self.key_hash(i)
                    &&& forall|k: int| j < k < i ==> self.key_hash(k) != self.key_hash(i)
                },
                None => forall|k: int| 0 <= k < i ==> self.key_hash(k) != self.key_hash(i),
            }
        &&& forall|h: u64|
            #![trigger self.heads@.contains_key(h)]
            self.heads@.contains_key(h) ==> {
                &&& self.heads@[h] < n
                &&& self.key_hash(self.heads@[h] as int) == h
                &&& forall|k: int| self.heads@[h] < k < n ==> self.key_hash(k) != h
            }
        &&& forall|i: int| 0 <= i < n ==> self.heads@.contains_key(#[trigger] self.key_hash(i))
    }

    /// The texts of a well-formed table are distinct.
    pub proof fn lemma_distinct(&self)
        requires
            self.wf(),
        ensures
            forall|i: int, j: int|
                0 <= i < j < self.keys().len() ==> self.keys()[i] != self.keys()[j],
    {
    }

    /// An empty table.
    pub fn new() -> (t: TextTable)
        ensures
            t.wf(),
            t.keys() == Seq::<Seq<char>>::empty(),
    {
        let t = TextTable { keys: Vec::new(), previous: Vec::new(), heads: HashMap::new() };
        assert(t.keys() =~= Seq::<Seq<char>>::empty());
        t
    }

    /// The number of texts.
    pub fn len(&self) -> (n: usize)
        ensures
            n == self.keys().len(),
    {
        self.keys.len()
    }

    /// The text at index `i`.
    pub fn get(&self, i: usize) -> (s: &String)
        requires
            i < self.keys().len(),
        ensures
            s@ == self.keys()[i as int],
    {
        &self.keys[i]
    }

    /// The index of `key`, if the table holds it.
    pub fn find(&self, key: &String) -> (r: Option<usize>)
        requires
            self.wf(),
        ensures
            match r {
                Some(i) => i < self.keys().len() && self.keys()[i as int] == key@,
                None => !self.keys().contains(key@),
            },
    {
        let h = hash_text(key);
        let ghost n = self.keys@.len();
        let mut current: Option<usize> = match self.heads.get(&h) {
            Some(head) => Some(*head),
            None => None,
        };
        let ghost mut bound: int = match current {
            Some(i) => i + 1,
            None => 0,
        };
        if current.is_none() {
            assert forall|k: int| 0 <= k < n implies self.keys@[k]@ != key@ by {
                assert(self.heads@.contains_key(self.key_hash(k)));
            }
        }
        while current.is_some()
            invariant
                self.wf(),
                n == self.keys@.len(),
                h == text_hash(key@),
                0 <= bound <= n,
                forall|k: int| bound <= k < n && self.key_hash(k) == h ==> self.keys@[k]@ != key@,
                match current {
                    Some(i) => i < n && bound == i + 1 && self.key_hash(i as int) == h,
                    None => bound == 0,
                },
            decreases bound,
        {
            let i = current.unwrap();
            if self.keys[i] == *key {
                assert(self.keys()[i as int] == key@);
                return Some(i);
            }
            current = self.previous[i];
            proof {
                bound = match current {
                    Some(j) => j + 1,
                    None => 0,
                };
            }
        }
        assert forall|k: int| 0 <= k < n implies self.keys()[k] != key@ by {
            if self.keys@[k]@ == key@ {
                assert(self.key_hash(k) == h);
            }
        }
        None
    }

    /// Adds a text that the table does not hold yet; it gets the next index.
    pub fn insert(&mut self, key: String) -> (i: usize)
        requires
            old(self).wf(),
            !old(self).keys().contains(key@),
        ensures
            final(self).wf(),
            final(self).keys() == old(self).keys().push(key@),
            i == old(self).keys().len(),
    {
        let h = hash_text(&key);
        let i = self.keys.len();
        let previous = match self.heads.get(&h) {
            Some(head) => Some(*head),
            None => None,
        };
        let ghost old_keys = self.keys@;
        proof {
            assert forall|j: int| 0 <= j < i implies old_keys[j]@ != key@ by {
                assert(old(self).keys()[j] == old_keys[j]@);
            }
        }
        self.keys.push(key);
        self.previous.push(previous);
        self.heads.insert(h, i);
        proof {
            let n = self.keys@.len();
            assert(self.key_hash(i as int) == h);
            assert forall|j: int| 0 <= j < i implies #[trigger] self.key_hash(j) == old(
                self,
            ).key_hash(j) by {}
            assert forall|a: int, b: int| 0 <= a < b < n implies self.keys@[a]@ != self.keys@[b]@ by {
                if b < i {
                    assert(old(self).keys@[a]@ != old(self).keys@[b]@);
                }
            }
            assert forall|j: int|
                #![trigger self.previous@[j]]
                0 <= j < n implies match self.previous@[j] {
                    Some(p) => {
                        &&& p < j
                        &&& self.key_hash(p as int) == self.key_hash(j)
                        &&& forall|k: int| p < k < j ==> self.key_hash(k) != self.key_hash(j)
                    },
                    None => forall|k: int| 0 <= k < j ==> self.key_hash(k) != self.key_hash(j),
                } by {
                if j < i {
                    assert(old(self).previous@[j] == self.previous@[j]);
                } else {
                    match previous {
                        Some(p) => {
                            assert(old(self).heads@.contains_key(h));
                        },
                        None => {
                            assert forall|k: int| 0 <= k < j implies self.key_hash(k)
                                != self.key_hash(j) by {
                                assert(old(self).heads@.contains_key(old(self).key_hash(k)));
                            }
                        },
                    }
                }
            }
            assert forall|g: u64|
                #![trigger self.heads@.contains_key(g)]
                self.heads@.contains_key(g) implies {
                    &&& self.heads@[g] < n
                    &&& self.key_hash(self.heads@[g] as int) == g
                    &&& forall|k: int| self.heads@[g] < k < n ==> self.key_hash(k) != g
                } by {
                if g != h {
                    assert(old(self).heads@.contains_key(g));
                }
            }
            assert forall|j: int| 0 <= j < n implies self.heads@.contains_key(
                #[trigger] self.key_hash(j),
            ) by {
                if j < i {
                    assert(old(self).heads@.contains_key(old(self).key_hash(j)));
                }
            }
            assert(self.keys() =~= old(self).keys().push(self.keys@[i as int]@));
        }
        i
    }
}

} // verus!
