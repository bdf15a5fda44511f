//! Sorted sets of texts (in the byte order of their UTF-8 encoding, as `String` orders them)
//! and of identifiers.
use vstd::prelude::*;
use vstd::utf8::{decode_utf8, encode_utf8, encode_utf8_decode_utf8};
use std::collections::BTreeSet;
use vstd::std_specs::btree::{axiom_increasing_seq_meaning, increasing_seq, spec_btree_keys_iter};
use vstd::std_specs::cmp::OrdSpec;
use vstd::std_specs::iter::IteratorSpec;

verus! {

/// Lexicographic order of byte strings: `a` sorts strictly before `b`.
pub open spec fn bytes_lt(a: Seq<u8>, b: Seq<u8>) -> bool
    decreases a.len(),
{
    if b.len() == 0 {
        false
    } else if a.len() == 0 {
        true
    } else if a[0] != b[0] {
        a[0] < b[0]
    } else {
        bytes_lt(a.drop_first(), b.drop_first())
    }
}

/// `a` sorts strictly before `b` in the order of `String`: the byte order of UTF-8.
pub open spec fn text_lt(a: Seq<char>, b: Seq<char>) -> bool {
    bytes_lt(encode_utf8(a), encode_utf8(b))
}

pub proof fn lemma_bytes_lt_irreflexive(a: Seq<u8>)
    ensures
        !bytes_lt(a, a),
    decreases a.len(),
{
    if a.len() > 0 {
        lemma_bytes_lt_irreflexive(a.drop_first());
    }
}

pub proof fn lemma_bytes_lt_transitive(a: Seq<u8>, b: Seq<u8>, c: Seq<u8>)
    requires
        bytes_lt(a, b),
        bytes_lt(b, c),
    ensures
        bytes_lt(a, c),
    decreases a.len(),
{
    if a.len() > 0 && b.len() > 0 && c.len() > 0 && a[0] == b[0] && b[0] == c[0] {
        lemma_bytes_lt_transitive(a.drop_first(), b.drop_first(), c.drop_first());
    }
}

pub proof fn lemma_bytes_lt_total(a: Seq<u8>, b: Seq<u8>)
    ensures
        a == b || bytes_lt(a, b) || bytes_lt(b, a),
    decreases a.len(),
{
    if a.len() > 0 && b.len() > 0 && a[0] == b[0] {
        lemma_bytes_lt_total(a.drop_first(), b.drop_first());
        if a.drop_first() == b.drop_first() {
            assert(a =~= seq![a[0]] + a.drop_first());
            assert(b =~= seq![b[0]] + b.drop_first());
        }
    } else if a.len() == 0 && b.len() == 0 {
        assert(a =~= b);
    }
}

pub proof fn lemma_bytes_lt_asymmetric(a: Seq<u8>, b: Seq<u8>)
    requires
        bytes_lt(a, b),
    ensures
        !bytes_lt(b, a),
{
    if bytes_lt(b, a) {
        lemma_bytes_lt_transitive(a, b, a);
        lemma_bytes_lt_irreflexive(a);
    }
}

/// Two texts are equal exactly when their encodings are.
pub proof fn lemma_encode_injective(a: Seq<char>, b: Seq<char>)
    ensures
        encode_utf8(a) == encode_utf8(b) <==> a == b,
{
    encode_utf8_decode_utf8(a);
    encode_utf8_decode_utf8(b);
}

pub proof fn lemma_text_lt_transitive(a: Seq<char>, b: Seq<char>, c: Seq<char>)
    requires
        text_lt(a, b),
        text_lt(b, c),
    ensures
        text_lt(a, c),
{
    lemma_bytes_lt_transitive(encode_utf8(a), encode_utf8(b), encode_utf8(c));
}

pub proof fn lemma_text_lt_total(a: Seq<char>, b: Seq<char>)
    ensures
        a == b || text_lt(a, b) || text_lt(b, a),
{
    lemma_bytes_lt_total(encode_utf8(a), encode_utf8(b));
    lemma_encode_injective(a, b);
}

pub proof fn lemma_text_lt_irreflexive(a: Seq<char>)
    ensures
        !text_lt(a, a),
{
    lemma_bytes_lt_irreflexive(encode_utf8(a));
}

pub proof fn lemma_text_lt_asymmetric(a: Seq<char>, b: Seq<char>)
    requires
        text_lt(a, b),
    ensures
        !text_lt(b, a),
{
    lemma_bytes_lt_asymmetric(encode_utf8(a), encode_utf8(b));
}

proof fn lemma_bytes_lt_skip(a: Seq<u8>, b: Seq<u8>, i: int)
    requires
        0 <= i <= a.len(),
        i <= b.len(),
        a.take(i) == b.take(i),
    ensures
        bytes_lt(a, b) == bytes_lt(a.skip(i), b.skip(i)),
    decreases i,
{
    if i > 0 {
        assert(a[0] == a.take(i)[0]);
        assert(b[0] == b.take(i)[0]);
        assert(a.drop_first().take(i - 1) =~= a.take(i).drop_first());
        assert(b.drop_first().take(i - 1) =~= b.take(i).drop_first());
        lemma_bytes_lt_skip(a.drop_first(), b.drop_first(), i - 1);
        assert(a.drop_first().skip(i - 1) =~= a.skip(i));
        assert(b.drop_first().skip(i - 1) =~= b.skip(i));
    } else {
        assert(a.skip(0) =~= a);
        assert(b.skip(0) =~= b);
    }
}

/// Whether `a` sorts strictly before `b`.
pub fn text_less(a: &String, b: &String) -> (r: bool)
    ensures
        r == text_lt(a@, b@),
{
    let x = a.as_str().as_bytes();
    let y = b.as_str().as_bytes();
    let mut i: usize = 0;
    while i < x.len() && i < y.len()
        invariant
            x@ == encode_utf8(a@),
            y@ == encode_utf8(b@),
            i <= x@.len(),
            i <= y@.len(),
            x@.take(i as int) == y@.take(i as int),
        decreases x@.len() - i,
    {
        if x[i] != y[i] {
            proof {
                lemma_bytes_lt_skip(x@, y@, i as int);
                assert(x@.skip(i as int)[0] == x@[i as int]);
                assert(y@.skip(i as int)[0] == y@[i as int]);
            }
            return x[i] < y[i];
        }
        assert(x@.take(i + 1) =~= x@.take(i as int).push(x@[i as int]));
        assert(y@.take(i + 1) =~= y@.take(i as int).push(y@[i as int]));
        i += 1;
    }
    proof {
        lemma_bytes_lt_skip(x@, y@, i as int);
    }
    i < y.len()
}

/// Texts in strictly increasing order.
pub open spec fn sorted_texts(s: Seq<Seq<char>>) -> bool {
    forall|i: int, j: int| 0 <= i < j < s.len() ==> text_lt(s[i], s[j])
}

/// A set of texts kept in strictly increasing order.
pub struct TextSet {
    items: Vec<String>,
}

impl TextSet {
    /// The texts in increasing order.
    pub closed spec fn items(&self) -> Seq<Seq<char>> {
        self.items@.map_values(|s: String| s@)
    }

    pub closed spec fn wf(&self) -> bool {
        forall|i: int, j: int| 0 <= i < j < self.items@.len() ==> text_lt(self.items@[i]@, self.items@[j]@)
    }

    /// The texts of a well-formed set are in strictly increasing order.
    pub proof fn lemma_sorted(&self)
        requires
            self.wf(),
        ensures
            sorted_texts(self.items()),
    {
    }

    /// An empty set.
    pub fn new() -> (s: TextSet)
        ensures
            s.wf(),
            s.items() == Seq::<Seq<char>>::empty(),
    {
        let s = TextSet { items: Vec::new() };
        assert(s.items() =~= Seq::<Seq<char>>::empty());
        s
    }

    pub fn len(&self) -> (n: usize)
        ensures
            n == self.items().len(),
    {
        self.items.len()
    }

    pub fn get(&self, i: usize) -> (s: &String)
        requires
            i < self.items().len(),
        ensures
            s@ == self.items()[i as int],
    {
        &self.items[i]
    }

    /// Adds `text` unless the set holds it; the order stays strictly increasing.
    pub fn insert(&mut self, text: String)
        requires
            old(self).wf(),
        ensures
            final(self).wf(),
            final(self).items().to_set() == old(self).items().to_set().insert(text@),
    {
        let mut p: usize = 0;
        let ghost n = self.items@.len();
        while p < self.items.len() && text_less(&self.items[p], &text)
            invariant
                self.wf(),
                n == self.items@.len(),
                p <= n,
                forall|i: int| 0 <= i < p ==> text_lt(self.items@[i]@, text@),
            decreases n - p,
        {
            p += 1;
        }
        if p < self.items.len() && self.items[p] == text {
            assert(self.items()[p as int] == text@);
            assert(self.items().to_set().insert(text@) =~= self.items().to_set());
            return;
        }
        let ghost before = self.items();
        let ghost bv = self.items@;
        proof {
            if p < n {
                lemma_text_lt_total(bv[p as int]@, text@);
            }
        }
        self.items.insert(p, text);
        proof {
            let m = self.items@.len();
            assert(self.items@ == bv.insert(p as int, self.items@[p as int]));
            assert forall|i: int, j: int| 0 <= i < j < m implies text_lt(
                self.items@[i]@,
                self.items@[j]@,
            ) by {
                if j < p {
                    assert(self.items@[i] == bv[i] && self.items@[j] == bv[j]);
                } else if j == p {
                    assert(self.items@[i] == bv[i]);
                } else if i == p {
                    assert(self.items@[j] == bv[j - 1]);
                    if j - 1 > p {
                        lemma_text_lt_transitive(text@, bv[p as int]@, bv[j - 1]@);
                    }
                } else if i < p {
                    assert(self.items@[i] == bv[i]);
                    assert(self.items@[j] == bv[j - 1]);
                    if j - 1 > p {
                        lemma_text_lt_transitive(text@, bv[p as int]@, bv[j - 1]@);
                    }
                    lemma_text_lt_transitive(bv[i]@, text@, bv[j - 1]@);
                } else {
                    assert(self.items@[i] == bv[i - 1]);
                    assert(self.items@[j] == bv[j - 1]);
                }
            }
            assert(self.items() =~= before.insert(p as int, text@));
            assert forall|x: Seq<char>| self.items().contains(x) <==> before.contains(x) || x == text@ by {
                if self.items().contains(x) {
                    let k = choose|k: int| 0 <= k < self.items().len() && self.items()[k] == x;
                    if k < p {
                        assert(before[k] == x);
                    } else if k > p {
                        assert(before[k - 1] == x);
                    }
                }
                if before.contains(x) {
                    let k = choose|k: int| 0 <= k < before.len() && before[k] == x;
                    if k < p {
                        assert(self.items()[k] == x);
                    } else {
                        assert(self.items()[k + 1] == x);
                    }
                }
                if x == text@ {
                    assert(self.items()[p as int] == x);
                }
            }
            assert forall|x: Seq<char>| #[trigger] self.items().to_set().contains(x)
                == before.to_set().insert(text@).contains(x) by {
                assert(self.items().contains(x) <==> before.contains(x) || x == text@);
            }
            assert(self.items().to_set() =~= before.to_set().insert(text@));
        }
    }

    /// A copy of the texts, in increasing order.
    pub fn to_vec(&self) -> (v: Vec<String>)
        ensures
            v.deep_view() == self.items(),
    {
        let mut v: Vec<String> = Vec::new();
        let mut i: usize = 0;
        while i < self.items.len()
            invariant
                i <= self.items@.len(),
                v.deep_view() == self.items().take(i as int),
            decreases self.items@.len() - i,
        {
            let c = self.items[i].clone();
            let ghost prev = v.deep_view();
            v.push(c);
            assert(v.deep_view() =~= prev.push(c@));
            assert(self.items().take(i + 1) =~= self.items().take(i as int).push(self.items@[i as int]@));
            i += 1;
        }
        assert(self.items().take(i as int) =~= self.items());
        v
    }
}

/// A set of identifiers, listed in increasing order.
pub struct IdSet {
    set: BTreeSet<u64>,
}

impl IdSet {
    /// The identifiers.
    pub closed spec fn ids(&self) -> Set<u64> {
        self.set@
    }

    pub fn new() -> (s: IdSet)
        ensures
            s.ids() == Set::<u64>::empty(),
    {
        IdSet { set: BTreeSet::new() }
    }

    pub fn len(&self) -> (n: usize)
        ensures
            n == self.ids().len(),
    {
        broadcast use vstd::std_specs::btree::group_btree_axioms;
        broadcast use vstd::laws_cmp::group_laws_cmp;

        assert(vstd::laws_cmp::obeys_cmp::<u64>());
        self.set.len()
    }

    /// Adds `id` unless the set holds it.
    pub fn insert(&mut self, id: u64)
        ensures
            final(self).ids() == old(self).ids().insert(id),
    {
        broadcast use vstd::laws_cmp::group_laws_cmp;

        assert(vstd::laws_cmp::obeys_cmp::<u64>());
        self.set.insert(id);
    }

    /// The identifiers in strictly increasing order.
    pub fn to_vec(&self) -> (v: Vec<u64>)
        ensures
            forall|i: int, j: int| 0 <= i < j < v@.len() ==> v@[i] < v@[j],
            v@.to_set() == self.ids(),
            v@.len() == self.ids().len(),
    {
        broadcast use vstd::std_specs::btree::group_btree_axioms;
        broadcast use vstd::laws_cmp::group_laws_cmp;

        assert(vstd::laws_cmp::obeys_cmp::<u64>());
        assert(vstd::laws_cmp::obeys_cmp::<&u64>());
        let ghost keys = IteratorSpec::remaining(&spec_btree_keys_iter(&self.set));
        let mut v: Vec<u64> = Vec::new();
        for x in it: self.set.iter()
            invariant
                it.seq() == keys,
                v@.len() == it.index(),
                forall|k: int| 0 <= k < it.index() ==> v@[k] == *keys[k],
        {
            v.push(*x);
        }
        assert(v@ =~= keys.unref());
        proof {
            assert(increasing_seq(keys));
            axiom_increasing_seq_meaning(keys);
            assert forall|i: int, j: int| 0 <= i < j < v@.len() implies v@[i] < v@[j] by {
                assert(OrdSpec::cmp_spec(&keys[i], &keys[j]) is Less);
            }
            assert(v@.no_duplicates());
            v@.unique_seq_to_set();
        }
        v
    }
}

} // verus!
