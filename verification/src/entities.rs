//! Host entities: addresses grouped by the associations that captures reveal, with traffic
//! counters. Groups are kept as a union-find forest whose roots name the entities.
use vstd::prelude::*;
use crate::sets::{sorted_texts, IdSet, TextSet};
use vstd::string::StrSliceExecFns;
use crate::table::TextTable;

verus! {

/// `a + b` wrapped around at 2^64, as unchecked `u64` addition does in a release build.
pub open spec fn wrapping(a: u64, b: u64) -> u64 {
    if a + b <= u64::MAX {
        (a + b) as u64
    } else {
        (a + b - 0x1_0000_0000_0000_0000) as u64
    }
}

/// `a + b` wrapped around at 2^64.
pub fn add_wrapping(a: u64, b: u64) -> (r: u64)
    ensures
        r == wrapping(a, b),
{
    if a <= u64::MAX - b {
        a + b
    } else {
        b - (u64::MAX - a) - 1
    }
}

/// The root reached from `id` by following parent links that point to smaller ids; an id
/// outside the forest is its own root.
pub open spec fn root_of(parent: Seq<usize>, id: int) -> int
    decreases id,
{
    if 0 <= id < parent.len() && parent[id] < id {
        root_of(parent, parent[id] as int)
    } else {
        id
    }
}

/// The number of roots: ids whose parent is themselves.
pub open spec fn count_roots(parent: Seq<usize>) -> nat
    decreases parent.len(),
{
    if parent.len() == 0 {
        0
    } else {
        count_roots(parent.drop_last()) + if parent.last() == (parent.len() - 1) as usize {
            1nat
        } else {
            0nat
        }
    }
}

/// Every parent link points to the id itself or to a smaller one.
pub open spec fn forest(parent: Seq<usize>) -> bool {
    forall|i: int| 0 <= i < parent.len() ==> parent[i] <= i
}

/// What one entity holds.
pub struct EntityModel {
    pub addresses: Set<Seq<char>>,
    pub packets_in: u64,
    pub packets_out: u64,
    pub bytes_in: u64,
    pub bytes_out: u64,
    pub flow_ids: Set<u64>,
}

pub open spec fn empty_entity() -> EntityModel {
    EntityModel {
        addresses: Set::empty(),
        packets_in: 0,
        packets_out: 0,
        bytes_in: 0,
        bytes_out: 0,
        flow_ids: Set::empty(),
    }
}

/// The entity that a merge keeps: addresses and flows united, counters added.
pub open spec fn combine(keep: EntityModel, removed: EntityModel) -> EntityModel {
    EntityModel {
        addresses: keep.addresses.union(removed.addresses),
        packets_in: wrapping(keep.packets_in, removed.packets_in),
        packets_out: wrapping(keep.packets_out, removed.packets_out),
        bytes_in: wrapping(keep.bytes_in, removed.bytes_in),
        bytes_out: wrapping(keep.bytes_out, removed.bytes_out),
        flow_ids: keep.flow_ids.union(removed.flow_ids),
    }
}

/// A packet leaving an entity.
pub open spec fn sent(e: EntityModel, bytes: u64, flow_id: Option<u64>) -> EntityModel {
    EntityModel {
        packets_out: wrapping(e.packets_out, 1),
        bytes_out: wrapping(e.bytes_out, bytes),
        flow_ids: match flow_id {
            Some(f) => e.flow_ids.insert(f),
            None => e.flow_ids,
        },
        ..e
    }
}

/// A packet reaching an entity.
pub open spec fn received(e: EntityModel, bytes: u64, flow_id: Option<u64>) -> EntityModel {
    EntityModel {
        packets_in: wrapping(e.packets_in, 1),
        bytes_in: wrapping(e.bytes_in, bytes),
        flow_ids: match flow_id {
            Some(f) => e.flow_ids.insert(f),
            None => e.flow_ids,
        },
        ..e
    }
}

/// The state of an entity store.
pub struct StoreModel {
    /// Entities by id; an id that was merged into another keeps an empty entity.
    pub entities: Seq<EntityModel>,
    /// Union-find links between ids.
    pub parent: Seq<usize>,
    /// The id each address was last given.
    pub address_map: Map<Seq<char>, usize>,
    /// The number of entities that have not been merged away.
    pub active: nat,
}

impl StoreModel {
    pub open spec fn wf(self) -> bool {
        &&& self.entities.len() == self.parent.len()
        &&& forest(self.parent)
        &&& self.active == count_roots(self.parent)
        &&& forall|a: Seq<char>|
            #[trigger] self.address_map.contains_key(a) ==> self.address_map[a] < self.parent.len()
    }

    pub open spec fn root(self, id: int) -> int {
        root_of(self.parent, id)
    }

    /// The entity an address belongs to, created on first sight.
    pub open spec fn entity_for(self, address: Seq<char>) -> (StoreModel, usize) {
        if self.address_map.contains_key(address) {
            (self, self.root(self.address_map[address] as int) as usize)
        } else {
            let id = self.entities.len() as usize;
            (
                StoreModel {
                    entities: self.entities.push(
                        EntityModel { addresses: Set::empty().insert(address), ..empty_entity() },
                    ),
                    parent: self.parent.push(id),
                    address_map: self.address_map.insert(address, id),
                    active: self.active + 1,
                },
                id,
            )
        }
    }

    /// Joins the entities of `left` and `right` into the smaller root.
    pub open spec fn merge(self, left: usize, right: usize) -> StoreModel {
        let l = self.root(left as int);
        let r = self.root(right as int);
        if l == r {
            self
        } else {
            let keep = if l < r { l } else { r };
            let remove = if l < r { r } else { l };
            let removed = self.entities[remove];
            StoreModel {
                entities: self.entities.update(remove, empty_entity()).update(
                    keep,
                    combine(self.entities[keep], removed),
                ),
                parent: self.parent.update(remove, keep as usize),
                address_map: Map::new(
                    |a: Seq<char>| self.address_map.contains_key(a) || removed.addresses.contains(a),
                    |a: Seq<char>|
                        if removed.addresses.contains(a) {
                            keep as usize
                        } else {
                            self.address_map[a]
                        },
                ),
                active: (self.active - 1) as nat,
            }
        }
    }

    /// Counts a packet of `bytes` bytes from `source` to `destination` (each taken to its root).
    pub open spec fn record(
        self,
        source: Option<usize>,
        destination: Option<usize>,
        bytes: u64,
        flow_id: Option<u64>,
    ) -> StoreModel {
        let m = match source {
            Some(s) => {
                let r = self.root(s as int);
                StoreModel {
                    entities: self.entities.update(r, sent(self.entities[r], bytes, flow_id)),
                    ..self
                }
            },
            None => self,
        };
        match destination {
            Some(d) => {
                let r = m.root(d as int);
                StoreModel {
                    entities: m.entities.update(r, received(m.entities[r], bytes, flow_id)),
                    ..m
                }
            },
            None => m,
        }
    }

    /// Gives `address` to entity `id`.
    pub open spec fn assign(self, address: Seq<char>, id: usize) -> StoreModel {
        StoreModel {
            entities: self.entities.update(
                id as int,
                EntityModel {
                    addresses: self.entities[id as int].addresses.insert(address),
                    ..self.entities[id as int]
                },
            ),
            address_map: self.address_map.insert(address, id),
            ..self
        }
    }
}

/// The smallest id of a non-empty list.
pub open spec fn seq_min(ids: Seq<usize>) -> usize
    decreases ids.len(),
{
    if ids.len() <= 1 {
        ids[0]
    } else {
        let m = seq_min(ids.drop_last());
        if ids.last() < m {
            ids.last()
        } else {
            m
        }
    }
}

impl StoreModel {
    /// The entities of the non-empty addresses, in order, created as needed.
    pub open spec fn collect(self, addresses: Seq<Seq<char>>) -> (StoreModel, Seq<usize>)
        decreases addresses.len(),
    {
        if addresses.len() == 0 {
            (self, Seq::empty())
        } else {
            let (m, ids) = self.collect(addresses.drop_last());
            let a = addresses.last();
            if a.len() == 0 {
                (m, ids)
            } else {
                let (m2, id) = m.entity_for(a);
                (m2, ids.push(id))
            }
        }
    }

    /// Merges each of `ids` into `root`, in order.
    pub open spec fn merge_into(self, root: usize, ids: Seq<usize>) -> StoreModel
        decreases ids.len(),
    {
        if ids.len() == 0 {
            self
        } else {
            self.merge_into(root, ids.drop_last()).merge(root, ids.last())
        }
    }

    /// Gives each non-empty address to `root`.
    pub open spec fn assign_all(self, addresses: Seq<Seq<char>>, root: usize) -> StoreModel
        decreases addresses.len(),
    {
        if addresses.len() == 0 {
            self
        } else {
            let m = self.assign_all(addresses.drop_last(), root);
            if addresses.last().len() == 0 {
                m
            } else {
                m.assign(addresses.last(), root)
            }
        }
    }

    /// Puts the non-empty addresses into one entity, the one with the smallest id among
    /// theirs, and gives every address to it; `None` when no address is non-empty.
    pub open spec fn associate(self, addresses: Seq<Seq<char>>) -> (StoreModel, Option<usize>) {
        let (m, ids) = self.collect(addresses);
        if ids.len() == 0 {
            (m, None)
        } else {
            let root = seq_min(ids);
            (m.merge_into(root, ids).assign_all(addresses, root), Some(root))
        }
    }
}

pub proof fn lemma_root(parent: Seq<usize>, id: int)
    requires
        forest(parent),
        0 <= id < parent.len(),
    ensures
        0 <= root_of(parent, id) <= id,
        parent[root_of(parent, id)] == root_of(parent, id),
    decreases id,
{
    if parent[id] < id {
        lemma_root(parent, parent[id] as int);
    }
}

pub proof fn lemma_count_roots_bound(parent: Seq<usize>)
    ensures
        count_roots(parent) <= parent.len(),
    decreases parent.len(),
{
    if parent.len() > 0 {
        lemma_count_roots_bound(parent.drop_last());
    }
}

pub proof fn lemma_count_roots_push(parent: Seq<usize>)
    ensures
        count_roots(parent.push(parent.len() as usize)) == count_roots(parent) + 1,
{
    assert(parent.push(parent.len() as usize).drop_last() =~= parent);
}

pub proof fn lemma_count_roots_unlink(parent: Seq<usize>, r: int, k: usize)
    requires
        0 <= r < parent.len(),
        parent[r] == r,
        k != r,
    ensures
        count_roots(parent) >= 1,
        count_roots(parent.update(r, k)) == count_roots(parent) - 1,
    decreases parent.len(),
{
    let q = parent.update(r, k);
    if r == parent.len() - 1 {
        assert(q.drop_last() =~= parent.drop_last());
    } else {
        lemma_count_roots_unlink(parent.drop_last(), r, k);
        assert(q.drop_last() =~= parent.drop_last().update(r, k));
    }
}

/// The text-to-value map that a table of distinct keys and a parallel list of values form.
pub open spec fn table_map(keys: Seq<Seq<char>>, values: Seq<usize>) -> Map<Seq<char>, usize> {
    Map::new(
        |a: Seq<char>| keys.contains(a),
        |a: Seq<char>| values[choose|i: int| 0 <= i < keys.len() && keys[i] == a],
    )
}

pub open spec fn distinct(keys: Seq<Seq<char>>) -> bool {
    forall|i: int, j: int| 0 <= i < j < keys.len() ==> keys[i] != keys[j]
}

proof fn lemma_table_map_at(keys: Seq<Seq<char>>, values: Seq<usize>, k: int)
    requires
        distinct(keys),
        0 <= k < keys.len(),
    ensures
        table_map(keys, values).contains_key(keys[k]),
        table_map(keys, values)[keys[k]] == values[k],
{
    let a = keys[k];
    assert(keys.contains(a));
    let c = choose|i: int| 0 <= i < keys.len() && keys[i] == a;
    if c < k {
        assert(keys[c] != keys[k]);
    } else if c > k {
        assert(keys[k] != keys[c]);
    }
}

proof fn lemma_table_map_push(keys: Seq<Seq<char>>, values: Seq<usize>, a: Seq<char>, v: usize)
    requires
        distinct(keys),
        !keys.contains(a),
        keys.len() == values.len(),
    ensures
        distinct(keys.push(a)),
        table_map(keys.push(a), values.push(v)) == table_map(keys, values).insert(a, v),
{
    let k2 = keys.push(a);
    let v2 = values.push(v);
    assert forall|i: int, j: int| 0 <= i < j < k2.len() implies k2[i] != k2[j] by {
        if j == keys.len() {
            assert(keys.contains(k2[i]));
        }
    }
    assert forall|x: Seq<char>| #[trigger]
        table_map(k2, v2).contains_key(x) == table_map(keys, values).insert(a, v).contains_key(x) by {
        if keys.contains(x) {
            let i = choose|i: int| 0 <= i < keys.len() && keys[i] == x;
            assert(k2[i] == x);
        }
        if k2.contains(x) && x != a {
            let i = choose|i: int| 0 <= i < k2.len() && k2[i] == x;
            assert(keys[i] == x);
        }
        if x == a {
            assert(k2[keys.len() as int] == a);
        }
    }
    assert forall|x: Seq<char>| #[trigger] table_map(k2, v2).contains_key(x) implies table_map(
        k2,
        v2,
    )[x] == table_map(keys, values).insert(a, v)[x] by {
        let i = choose|i: int| 0 <= i < k2.len() && k2[i] == x;
        lemma_table_map_at(k2, v2, i);
        if i < keys.len() {
            lemma_table_map_at(keys, values, i);
        }
    }
    assert(table_map(k2, v2) =~= table_map(keys, values).insert(a, v));
}

proof fn lemma_table_map_update(keys: Seq<Seq<char>>, values: Seq<usize>, k: int, v: usize)
    requires
        distinct(keys),
        0 <= k < keys.len(),
        keys.len() == values.len(),
    ensures
        table_map(keys, values.update(k, v)) == table_map(keys, values).insert(keys[k], v),
{
    let v2 = values.update(k, v);
    assert forall|x: Seq<char>| #[trigger] table_map(keys, v2).contains_key(x) implies table_map(
        keys,
        v2,
    )[x] == table_map(keys, values).insert(keys[k], v)[x] by {
        let i = choose|i: int| 0 <= i < keys.len() && keys[i] == x;
        lemma_table_map_at(keys, v2, i);
        lemma_table_map_at(keys, values, i);
    }
    assert(keys.contains(keys[k]));
    assert(table_map(keys, v2) =~= table_map(keys, values).insert(keys[k], v));
}

/// An address that reads as a network address: dotted, or colon-separated without dashes.
pub open spec fn is_network_address(a: Seq<char>) -> bool {
    a.contains('.') || (a.contains(':') && !a.contains('-'))
}

/// The first network address of a list.
pub open spec fn first_network_address(addresses: Seq<Seq<char>>) -> Option<Seq<char>>
    decreases addresses.len(),
{
    if addresses.len() == 0 {
        None
    } else if is_network_address(addresses[0]) {
        Some(addresses[0])
    } else {
        first_network_address(addresses.drop_first())
    }
}

/// The label of an entity with the given ordered addresses: its first network address, or else
/// its first address.
pub open spec fn entity_label(addresses: Seq<Seq<char>>) -> Seq<char> {
    match first_network_address(addresses) {
        Some(a) => a,
        None => addresses[0],
    }
}

/// Identifiers in strictly increasing order.
pub open spec fn sorted_ids(s: Seq<u64>) -> bool {
    forall|i: int, j: int| 0 <= i < j < s.len() ==> s[i] < s[j]
}

/// The entity that `id` belongs to exists and has addresses.
pub open spec fn has_summary(store: StoreModel, id: int) -> bool {
    let root = store.root(id);
    0 <= root < store.entities.len() && !store.entities[root].addresses.is_empty()
}

/// `s` tells of the entity that `id` belongs to: its root id, its addresses in increasing
/// order, its label, its counters and the number of its flows.
pub open spec fn describes(store: StoreModel, id: int, s: EntitySummary) -> bool {
    let root = store.root(id);
    let e = store.entities[root];
    let addresses = s.addresses.deep_view();
    &&& 0 <= root < store.entities.len()
    &&& s.id == root
    &&& sorted_texts(addresses)
    &&& addresses.to_set() == e.addresses
    &&& addresses.len() > 0
    &&& s.label@ == entity_label(addresses)
    &&& s.packets_in == e.packets_in
    &&& s.packets_out == e.packets_out
    &&& s.bytes_in == e.bytes_in
    &&& s.bytes_out == e.bytes_out
    &&& s.flow_count == e.flow_ids.len()
}

/// What the store tells of one entity.
#[derive(Clone, Debug)]
pub struct EntitySummary {
    pub id: u64,
    pub label: String,
    pub addresses: Vec<String>,
    pub packets_in: u64,
    pub packets_out: u64,
    pub bytes_in: u64,
    pub bytes_out: u64,
    pub flow_count: u64,
}

fn has_char(s: &String, c: char) -> (r: bool)
    ensures
        r == s@.contains(c),
{
    let text = s.as_str();
    let n = text.unicode_len();
    let mut i: usize = 0;
    while i < n
        invariant
            n == s@.len(),
            text@ == s@,
            i <= n,
            forall|j: int| 0 <= j < i ==> s@[j] != c,
        decreases n - i,
    {
        if text.get_char(i) == c {
            return true;
        }
        i += 1;
    }
    false
}

/// One entity: its addresses in order and its traffic counters.
pub struct Entity {
    addresses: TextSet,
    packets_in: u64,
    packets_out: u64,
    bytes_in: u64,
    bytes_out: u64,
    flow_ids: IdSet,
}

impl Entity {
    pub closed spec fn wf(&self) -> bool {
        self.addresses.wf()
    }

    pub closed spec fn model(&self) -> EntityModel {
        EntityModel {
            addresses: self.addresses.items().to_set(),
            packets_in: self.packets_in,
            packets_out: self.packets_out,
            bytes_in: self.bytes_in,
            bytes_out: self.bytes_out,
            flow_ids: self.flow_ids.ids(),
        }
    }

    /// The addresses in increasing order.
    pub closed spec fn address_list(&self) -> Seq<Seq<char>> {
        self.addresses.items()
    }

    fn new() -> (e: Entity)
        ensures
            e.wf(),
            e.model() == empty_entity(),
    {
        let e = Entity {
            addresses: TextSet::new(),
            packets_in: 0,
            packets_out: 0,
            bytes_in: 0,
            bytes_out: 0,
            flow_ids: IdSet::new(),
        };
        assert(e.model().addresses =~= Set::<Seq<char>>::empty());
        assert(e.model().flow_ids =~= Set::<u64>::empty());
        e
    }
}

/// Entities of a capture, found by address.
pub struct EntityStore {
    entities: Vec<Entity>,
    parent: Vec<usize>,
    address_index: TextTable,
    address_entity: Vec<usize>,
    active_entity_count: usize,
}

impl View for EntityStore {
    type V = StoreModel;

    closed spec fn view(&self) -> StoreModel {
        StoreModel {
            entities: self.entities@.map_values(|e: Entity| e.model()),
            parent: self.parent@,
            address_map: table_map(self.address_index.keys(), self.address_entity@),
            active: self.active_entity_count as nat,
        }
    }
}

impl EntityStore {
    /// The store's internal invariant, and the laws of its model.
    pub closed spec fn wf(&self) -> bool {
        &&& self.parts_wf()
        &&& store_laws(self@)
    }

    /// The store's internal invariant.
    pub closed spec fn parts_wf(&self) -> bool {
        &&& self.entities@.len() == self.parent@.len()
        &&& forest(self.parent@)
        &&& forall|i: int| 0 <= i < self.entities@.len() ==> (#[trigger] self.entities@[i]).wf()
        &&& self.address_index.wf()
        &&& self.address_entity@.len() == self.address_index.keys().len()
        &&& forall|k: int|
            0 <= k < self.address_entity@.len() ==> #[trigger] self.address_entity@[k]
                < self.parent@.len()
        &&& self.active_entity_count == count_roots(self.parent@)
    }

    pub proof fn lemma_wf(&self)
        requires
            self.wf(),
        ensures
            self@.wf(),
            self.parts_wf(),
            store_laws(self@),
    {
        self.address_index.lemma_distinct();
        assert forall|a: Seq<char>| #[trigger] self@.address_map.contains_key(a) implies self@.address_map[a]
            < self@.parent.len() by {
            let keys = self.address_index.keys();
            let i = choose|i: int| 0 <= i < keys.len() && keys[i] == a;
            lemma_table_map_at(keys, self.address_entity@, i);
        }
    }

    /// The flow ids of entity `id`, in increasing order.
    pub fn flow_ids(&self, id: usize) -> (v: Vec<u64>)
        requires
            id < self@.entities.len(),
        ensures
            sorted_ids(v@),
            v@.to_set() == self@.entities[id as int].flow_ids,
    {
        self.entities[id].flow_ids.to_vec()
    }

    pub fn new() -> (s: EntityStore)
        ensures
            s.wf(),
            s@.entities == Seq::<EntityModel>::empty(),
            s@.parent == Seq::<usize>::empty(),
            s@.address_map == Map::<Seq<char>, usize>::empty(),
            s@.active == 0,
    {
        let s = EntityStore {
            entities: Vec::new(),
            parent: Vec::new(),
            address_index: TextTable::new(),
            address_entity: Vec::new(),
            active_entity_count: 0,
        };
        assert(s@.entities =~= Seq::<EntityModel>::empty());
        assert(s@.address_map =~= Map::<Seq<char>, usize>::empty());
        s
    }

    /// The number of entity ids ever created.
    pub fn len(&self) -> (n: usize)
        ensures
            n == self@.entities.len(),
    {
        self.entities.len()
    }

    /// The root of `id`: the entity it has been merged into, or `id` itself.
    pub fn root(&self, id: usize) -> (r: usize)
        requires
            self.parts_wf(),
        ensures
            r == self@.root(id as int),
    {
        let mut current = id;
        while current < self.parent.len() && self.parent[current] != current
            invariant
                forest(self.parent@),
                root_of(self.parent@, current as int) == root_of(self.parent@, id as int),
            decreases current,
        {
            current = self.parent[current];
        }
        current
    }

    /// The number of entities that have not been merged into another.
    pub fn count(&self) -> (n: usize)
        ensures
            n == self@.active,
    {
        self.active_entity_count
    }

    /// Records that `address` belongs to entity `id`.
    fn set_address(&mut self, address: &String, id: usize)
        requires
            old(self).parts_wf(),
            id < old(self).parent@.len(),
        ensures
            final(self).parts_wf(),
            final(self)@ == (StoreModel {
                address_map: old(self)@.address_map.insert(address@, id),
                ..old(self)@
            }),
            final(self).entities@ == old(self).entities@,
    {
        proof {
            self.address_index.lemma_distinct();
        }
        match self.address_index.find(address) {
            Some(k) => {
                proof {
                    lemma_table_map_update(self.address_index.keys(), self.address_entity@, k as int, id);
                }
                self.address_entity[k] = id;
            },
            None => {
                proof {
                    lemma_table_map_push(self.address_index.keys(), self.address_entity@, address@, id);
                }
                self.address_index.insert(address.clone());
                self.address_entity.push(id);
            },
        }
    }

    /// The entity of `address`: the root of the id it was given, or a new entity.
    pub fn entity_for(&mut self, address: &String) -> (id: usize)
        requires
            old(self).wf(),
        ensures
            final(self).wf(),
            (final(self)@, id) == old(self)@.entity_for(address@),
            id < final(self)@.entities.len(),
            final(self)@.entities.len() >= old(self)@.entities.len(),
    {
        let id = self.find_or_create(address);
        let _n = self.entities.len();
        proof {
            lemma_entity_for_laws(old(self)@, address@);
        }
        id
    }

    /// Joins the entities of `left` and `right`: the larger root is linked under the smaller,
    /// which takes over its addresses, counters and flows.
    pub fn merge(&mut self, left: usize, right: usize)
        requires
            old(self).wf(),
            left < old(self)@.entities.len(),
            right < old(self)@.entities.len(),
        ensures
            final(self).wf(),
            final(self)@ == old(self)@.merge(left, right),
            final(self)@.entities.len() == old(self)@.entities.len(),
    {
        self.link(left, right);
        proof {
            lemma_merge_laws(old(self)@, left, right);
        }
    }

    /// Counts a packet of `bytes` bytes from the entity of `source` to that of `destination`,
    /// in the flow `flow_id` if it has one.
    pub fn record_packet(
        &mut self,
        source: Option<usize>,
        destination: Option<usize>,
        bytes: u64,
        flow_id: Option<u64>,
    )
        requires
            old(self).wf(),
            source matches Some(s) ==> s < old(self)@.entities.len(),
            destination matches Some(d) ==> d < old(self)@.entities.len(),
        ensures
            final(self).wf(),
            final(self)@ == old(self)@.record(source, destination, bytes, flow_id),
            final(self)@.entities.len() == old(self)@.entities.len(),
    {
        self.count_packet(source, destination, bytes, flow_id);
        proof {
            lemma_record_laws(old(self)@, source, destination, bytes, flow_id);
        }
    }

    /// Finds or makes the entity of `address`, apart from the laws of the store.
    fn find_or_create(&mut self, address: &String) -> (id: usize)
        requires
            old(self).parts_wf(),
        ensures
            final(self).parts_wf(),
            (final(self)@, id) == old(self)@.entity_for(address@),
            id < final(self)@.entities.len(),
            final(self)@.entities.len() >= old(self)@.entities.len(),
    {
        proof {
            self.address_index.lemma_distinct();
        }
        match self.address_index.find(address) {
            Some(k) => {
                proof {
                    lemma_table_map_at(self.address_index.keys(), self.address_entity@, k as int);
                }
                let id = self.address_entity[k];
                proof {
                    lemma_root(self.parent@, id as int);
                }
                self.root(id)
            },
            None => {
                let id = self.entities.len();
                let mut entity = Entity::new();
                entity.addresses.insert(address.clone());
                proof {
                    lemma_count_roots_bound(self.parent@);
                    lemma_count_roots_push(self.parent@);
                    lemma_table_map_push(self.address_index.keys(), self.address_entity@, address@, id);
                    assert(entity.model() == EntityModel {
                        addresses: Set::empty().insert(address@),
                        ..empty_entity()
                    }) by {
                        assert(entity.model().addresses =~= Set::empty().insert(address@));
                    }
                }
                self.entities.push(entity);
                self.parent.push(id);
                self.address_index.insert(address.clone());
                self.address_entity.push(id);
                let total = self.parent.len();
                assert(self.active_entity_count < total);
                self.active_entity_count = self.active_entity_count + 1;
                proof {
                    assert(self@.entities =~= old(self)@.entities.push(entity.model()));
                }
                id
            },
        }
    }
}

impl EntityStore {
    /// Links the entities of `left` and `right`, apart from the laws of the store.
    fn link(&mut self, left: usize, right: usize)
        requires
            old(self).parts_wf(),
            left < old(self)@.entities.len(),
            right < old(self)@.entities.len(),
        ensures
            final(self).parts_wf(),
            final(self)@ == old(self)@.merge(left, right),
            final(self)@.entities.len() == old(self)@.entities.len(),
    {
        let l = self.root(left);
        let r = self.root(right);
        if l == r {
            return;
        }
        let keep = if l < r { l } else { r };
        let remove = if l < r { r } else { l };
        let ghost m0 = self@;
        proof {
            lemma_root(self.parent@, left as int);
            lemma_root(self.parent@, right as int);
            lemma_count_roots_unlink(self.parent@, remove as int, keep);
        }
        self.parent[remove] = keep;
        self.active_entity_count = self.active_entity_count - 1;
        let mut removed = Entity::new();
        core::mem::swap(&mut removed, &mut self.entities[remove]);
        let ghost d = removed.model();
        let ghost ds = removed.address_list();
        let ghost k0 = m0.entities[keep as int];
        let ghost es1 = m0.entities.update(remove as int, empty_entity());
        proof {
            assert(d == m0.entities[remove as int]);
            assert(self@.entities =~= es1);
            assert(removed.wf());
            assert(ds.take(0).to_set() =~= Set::<Seq<char>>::empty());
            assert(k0.addresses.union(ds.take(0).to_set()) =~= k0.addresses);
            assert(es1.update(
                keep as int,
                EntityModel { addresses: k0.addresses.union(ds.take(0).to_set()), ..k0 },
            ) =~= es1);
            assert(es1[keep as int] == k0);
            assert(Map::new(
                |a: Seq<char>| m0.address_map.contains_key(a) || ds.take(0).contains(a),
                |a: Seq<char>|
                    if ds.take(0).contains(a) {
                        keep
                    } else {
                        m0.address_map[a]
                    },
            ) =~= m0.address_map);
        }
        let mut i: usize = 0;
        while i < removed.addresses.len()
            invariant
                self.parts_wf(),
                removed.wf(),
                ds == removed.address_list(),
                ds.to_set() == d.addresses,
                i <= ds.len(),
                keep < remove < self@.entities.len(),
                es1.len() == self.entities@.len(),
                self@.parent == m0.parent.update(remove as int, keep),
                self@.active == (m0.active - 1) as nat,
                self@.entities == es1.update(
                    keep as int,
                    EntityModel { addresses: k0.addresses.union(ds.take(i as int).to_set()), ..k0 },
                ),
                self@.address_map == Map::new(
                    |a: Seq<char>| m0.address_map.contains_key(a) || ds.take(i as int).contains(a),
                    |a: Seq<char>|
                        if ds.take(i as int).contains(a) {
                            keep
                        } else {
                            m0.address_map[a]
                        },
                ),
            decreases ds.len() - i,
        {
            let a = removed.addresses.get(i);
            let ghost map_before = self@.address_map;
            let ghost ent_before = self@.entities;
            self.set_address(a, keep);
            let ghost vec_before = self.entities@;
            self.entities[keep].addresses.insert(a.clone());
            proof {
                assert(self.entities@ =~= vec_before.update(keep as int, self.entities@[keep as int]));
                assert(self@.entities =~= ent_before.update(
                    keep as int,
                    self.entities@[keep as int].model(),
                ));
                let t0 = ds.take(i as int);
                let t1 = ds.take(i + 1);
                assert(t1 =~= t0.push(a@));
                assert forall|x: Seq<char>| t1.contains(x) <==> t0.contains(x) || x == a@ by {
                    if t1.contains(x) {
                        let k = choose|k: int| 0 <= k < t1.len() && t1[k] == x;
                        if k < i {
                            assert(t0[k] == x);
                        }
                    }
                    if t0.contains(x) {
                        let k = choose|k: int| 0 <= k < t0.len() && t0[k] == x;
                        assert(t1[k] == x);
                    }
                    if x == a@ {
                        assert(t1[i as int] == x);
                    }
                }
                assert(t1.to_set() =~= t0.to_set().insert(a@));
                assert(k0.addresses.union(t0.to_set()).insert(a@) =~= k0.addresses.union(t1.to_set()));
                assert(ent_before[keep as int].addresses == k0.addresses.union(t0.to_set()));
                assert(self.entities@[keep as int].model().addresses == ent_before[keep as int].addresses.insert(a@));
                assert(self.entities@[keep as int].model() == EntityModel {
                    addresses: k0.addresses.union(t1.to_set()),
                    ..k0
                });
                assert(self@.entities =~= es1.update(
                    keep as int,
                    EntityModel { addresses: k0.addresses.union(t1.to_set()), ..k0 },
                ));
                assert(self@.address_map =~= Map::new(
                    |a: Seq<char>| m0.address_map.contains_key(a) || t1.contains(a),
                    |a: Seq<char>|
                        if t1.contains(a) {
                            keep
                        } else {
                            m0.address_map[a]
                        },
                ));
            }
            i += 1;
        }
        proof {
            assert(ds.take(ds.len() as int) =~= ds);
            assert(self@.entities[keep as int].addresses == k0.addresses.union(d.addresses));
        }
        let ghost vec_mid = self.entities@;
        let ghost ent_mid = self@.entities;
        let packets_in = add_wrapping(self.entities[keep].packets_in, removed.packets_in);
        self.entities[keep].packets_in = packets_in;
        let packets_out = add_wrapping(self.entities[keep].packets_out, removed.packets_out);
        self.entities[keep].packets_out = packets_out;
        let bytes_in = add_wrapping(self.entities[keep].bytes_in, removed.bytes_in);
        self.entities[keep].bytes_in = bytes_in;
        let bytes_out = add_wrapping(self.entities[keep].bytes_out, removed.bytes_out);
        self.entities[keep].bytes_out = bytes_out;
        let removed_flows = removed.flow_ids.to_vec();
        let ghost fs = removed_flows@;
        let ghost k1 = EntityModel {
            addresses: k0.addresses.union(d.addresses),
            packets_in: packets_in,
            packets_out: packets_out,
            bytes_in: bytes_in,
            bytes_out: bytes_out,
            ..k0
        };
        proof {
            assert(self.entities@ =~= vec_mid.update(keep as int, self.entities@[keep as int]));
            assert(self@.entities =~= ent_mid.update(keep as int, self.entities@[keep as int].model()));
            assert(self.entities@[keep as int].model() == k1);
        }
        assert(self@.entities =~= es1.update(keep as int, k1));
        proof {
            assert(fs.take(0).to_set() =~= Set::<u64>::empty());
            assert(k0.flow_ids.union(fs.take(0).to_set()) =~= k0.flow_ids);
            assert(EntityModel { flow_ids: k0.flow_ids.union(fs.take(0).to_set()), ..k1 } == k1);
            assert(Map::new(
                |a: Seq<char>| m0.address_map.contains_key(a) || ds.take(ds.len() as int).contains(a),
                |a: Seq<char>|
                    if ds.take(ds.len() as int).contains(a) {
                        keep
                    } else {
                        m0.address_map[a]
                    },
            ) =~= Map::new(
                |a: Seq<char>| m0.address_map.contains_key(a) || d.addresses.contains(a),
                |a: Seq<char>|
                    if d.addresses.contains(a) {
                        keep
                    } else {
                        m0.address_map[a]
                    },
            ));
        }
        let mut j: usize = 0;
        while j < removed_flows.len()
            invariant
                self.parts_wf(),
                removed.wf(),
                removed_flows@ == fs,
                fs.to_set() == d.flow_ids,
                j <= fs.len(),
                keep < remove < self@.entities.len(),
                es1.len() == self.entities@.len(),
                self@.parent == m0.parent.update(remove as int, keep),
                self@.active == (m0.active - 1) as nat,
                self@.entities == es1.update(
                    keep as int,
                    EntityModel { flow_ids: k0.flow_ids.union(fs.take(j as int).to_set()), ..k1 },
                ),
                self@.address_map == Map::new(
                    |a: Seq<char>| m0.address_map.contains_key(a) || d.addresses.contains(a),
                    |a: Seq<char>|
                        if d.addresses.contains(a) {
                            keep
                        } else {
                            m0.address_map[a]
                        },
                ),
            decreases fs.len() - j,
        {
            let f = removed_flows[j];
            let ghost vec_before = self.entities@;
            let ghost ent_before = self@.entities;
            self.entities[keep].flow_ids.insert(f);
            proof {
                assert(self.entities@ =~= vec_before.update(keep as int, self.entities@[keep as int]));
                assert(self@.entities =~= ent_before.update(
                    keep as int,
                    self.entities@[keep as int].model(),
                ));
                let t0 = fs.take(j as int);
                let t1 = fs.take(j + 1);
                assert forall|x: u64| #[trigger] t1.to_set().contains(x) == t0.to_set().insert(f).contains(x) by {
                    if t1.contains(x) {
                        let k = choose|k: int| 0 <= k < t1.len() && t1[k] == x;
                        if k < j {
                            assert(t0[k] == x);
                        }
                    }
                    if t0.contains(x) {
                        let k = choose|k: int| 0 <= k < t0.len() && t0[k] == x;
                        assert(t1[k] == x);
                    }
                    if x == f {
                        assert(t1[j as int] == x);
                    }
                }
                assert(t1.to_set() =~= t0.to_set().insert(f));
                assert(k0.flow_ids.union(t0.to_set()).insert(f) =~= k0.flow_ids.union(t1.to_set()));
                assert(ent_before[keep as int].flow_ids == k0.flow_ids.union(t0.to_set()));
                assert(self.entities@[keep as int].model().flow_ids == ent_before[keep as int].flow_ids.insert(f));
                assert(self.entities@[keep as int].model() == EntityModel {
                    flow_ids: k0.flow_ids.union(t1.to_set()),
                    ..k1
                });
                assert(self@.entities =~= es1.update(
                    keep as int,
                    EntityModel { flow_ids: k0.flow_ids.union(t1.to_set()), ..k1 },
                ));
            }
            j += 1;
        }
        proof {
            assert(fs.take(fs.len() as int) =~= fs);
            assert(self@.entities[keep as int] == combine(k0, d));
            assert(self@.entities =~= m0.merge(left, right).entities);
            assert(self@.address_map =~= m0.merge(left, right).address_map);
        }
    }

    /// Counts a packet of `bytes` bytes from `source` to `destination`, apart from the laws of
    /// the store; each side counts for the root of its entity, and the flow, if any, joins that
    /// entity's flows.
    fn count_packet(
        &mut self,
        source: Option<usize>,
        destination: Option<usize>,
        bytes: u64,
        flow_id: Option<u64>,
    )
        requires
            old(self).parts_wf(),
            source matches Some(s) ==> s < old(self)@.entities.len(),
            destination matches Some(d) ==> d < old(self)@.entities.len(),
        ensures
            final(self).parts_wf(),
            final(self)@ == old(self)@.record(source, destination, bytes, flow_id),
            final(self)@.entities.len() == old(self)@.entities.len(),
    {
        let ghost m0 = self@;
        if let Some(s) = source {
            let r = self.root(s);
            proof {
                lemma_root(self.parent@, s as int);
            }
            let packets = add_wrapping(self.entities[r].packets_out, 1);
            self.entities[r].packets_out = packets;
            let total = add_wrapping(self.entities[r].bytes_out, bytes);
            self.entities[r].bytes_out = total;
            if let Some(f) = flow_id {
                self.entities[r].flow_ids.insert(f);
            }
            proof {
                assert(self@.entities =~= m0.entities.update(
                    r as int,
                    sent(m0.entities[r as int], bytes, flow_id),
                ));
            }
        }
        let ghost m1 = self@;
        if let Some(d) = destination {
            let r = self.root(d);
            proof {
                lemma_root(self.parent@, d as int);
            }
            let packets = add_wrapping(self.entities[r].packets_in, 1);
            self.entities[r].packets_in = packets;
            let total = add_wrapping(self.entities[r].bytes_in, bytes);
            self.entities[r].bytes_in = total;
            if let Some(f) = flow_id {
                self.entities[r].flow_ids.insert(f);
            }
            proof {
                assert(self@.entities =~= m1.entities.update(
                    r as int,
                    received(m1.entities[r as int], bytes, flow_id),
                ));
            }
        }
    }

    /// Puts the non-empty `addresses` into one entity (see [`StoreModel::associate`]).
    pub fn associate(&mut self, addresses: &Vec<String>) -> (r: Option<usize>)
        requires
            old(self).wf(),
        ensures
            final(self).wf(),
            (final(self)@, r) == old(self)@.associate(addresses.deep_view()),
            r matches Some(root) ==> root < final(self)@.entities.len(),
            final(self)@.entities.len() >= old(self)@.entities.len(),
    {
        let ghost m0 = self@;
        let ghost all = addresses.deep_view();
        let mut ids: Vec<usize> = Vec::new();
        let mut i: usize = 0;
        assert(all.take(0) =~= Seq::<Seq<char>>::empty());
        while i < addresses.len()
            invariant
                self.wf(),
                all == addresses.deep_view(),
                i <= all.len(),
                (self@, ids@) == m0.collect(all.take(i as int)),
                forall|k: int| 0 <= k < ids@.len() ==> ids@[k] < self@.entities.len(),
                self@.entities.len() >= m0.entities.len(),
            decreases all.len() - i,
        {
            let ghost before = self@;
            let ghost ids_before = ids@;
            assert(all.take(i + 1).drop_last() =~= all.take(i as int));
            assert(all.take(i + 1).last() == addresses@[i as int]@);
            if !addresses[i].as_str().is_empty() {
                proof {
                    self.lemma_wf();
                    if self@.address_map.contains_key(addresses@[i as int]@) {
                        lemma_root(self@.parent, self@.address_map[addresses@[i as int]@] as int);
                    }
                }
                let id = self.entity_for(&addresses[i]);
                ids.push(id);
            }
            i += 1;
        }
        assert(all.take(all.len() as int) =~= all);
        let ghost m1 = self@;
        let _n1 = self.entities.len();
        proof {
            lemma_associate_assigned(m0, all);
        }
        if ids.len() == 0 {
            assert(self@.entities.len() >= m0.entities.len());
            return None;
        }
        let mut root = ids[0];
        let mut k: usize = 1;
        while k < ids.len()
            invariant
                1 <= k <= ids@.len(),
                root == seq_min(ids@.take(k as int)),
                exists|t: int| 0 <= t < ids@.len() && ids@[t] == root,
            decreases ids@.len() - k,
        {
            assert(ids@.take(k + 1).drop_last() =~= ids@.take(k as int));
            if ids[k] < root {
                root = ids[k];
            }
            k += 1;
        }
        assert(ids@.take(ids@.len() as int) =~= ids@);
        let mut j: usize = 0;
        assert(ids@.take(0) =~= Seq::<usize>::empty());
        while j < ids.len()
            invariant
                self.wf(),
                j <= ids@.len(),
                root < self@.entities.len(),
                self@.entities.len() >= m0.entities.len(),
                forall|t: int| 0 <= t < ids@.len() ==> ids@[t] < self@.entities.len(),
                self@ == m1.merge_into(root, ids@.take(j as int)),
            decreases ids@.len() - j,
        {
            assert(ids@.take(j + 1).drop_last() =~= ids@.take(j as int));
            self.merge(root, ids[j]);
            j += 1;
        }
        assert(ids@.take(ids@.len() as int) =~= ids@);
        let ghost m2 = self@;
        let mut t: usize = 0;
        assert(all.take(0) =~= Seq::<Seq<char>>::empty());
        while t < addresses.len()
            invariant
                self.parts_wf(),
                all == addresses.deep_view(),
                t <= all.len(),
                root < self@.entities.len(),
                self@.entities.len() >= m0.entities.len(),
                self@ == m2.assign_all(all.take(t as int), root),
            decreases all.len() - t,
        {
            assert(all.take(t + 1).drop_last() =~= all.take(t as int));
            assert(all.take(t + 1).last() == addresses@[t as int]@);
            if !addresses[t].as_str().is_empty() {
                let ghost before = self@;
                self.set_address(&addresses[t], root);
                let ghost vec_before = self.entities@;
                let ghost ent_before = self@.entities;
                self.entities[root].addresses.insert(addresses[t].clone());
                proof {
                    assert(self.entities@ =~= vec_before.update(root as int, self.entities@[root as int]));
                    assert(self@.entities =~= ent_before.update(
                        root as int,
                        self.entities@[root as int].model(),
                    ));
                    assert(self.entities@[root as int].model() == EntityModel {
                        addresses: before.entities[root as int].addresses.insert(addresses@[t as int]@),
                        ..before.entities[root as int]
                    });
                    assert(self@ == before.assign(addresses@[t as int]@, root));
                }
            }
            t += 1;
        }
        assert(all.take(all.len() as int) =~= all);
        proof {
            lemma_assign_all_same(m2, all, root);
        }
        Some(root)
    }

    /// The summary of the entity that `id` belongs to, if that entity has addresses.
    pub fn summary(&self, id: usize) -> (r: Option<EntitySummary>)
        requires
            self.wf(),
        ensures
            r is Some <==> has_summary(self@, id as int),
            r matches Some(s) ==> describes(self@, id as int, s),
    {
        let root = self.root(id);
        if root >= self.entities.len() {
            return None;
        }
        let entity = &self.entities[root];
        proof {
            assert(entity.wf());
            entity.addresses.lemma_sorted();
        }
        assert(self@.entities[root as int] == entity.model());
        if entity.addresses.len() == 0 {
            assert(entity.model().addresses =~= Set::<Seq<char>>::empty());
            return None;
        }
        proof {
            assert(entity.model().addresses.contains(entity.address_list()[0]));
        }
        let addresses = entity.addresses.to_vec();
        let ghost list = entity.address_list();
        let mut i: usize = 0;
        let mut found: Option<usize> = None;
        assert(list.skip(0) =~= list);
        while i < addresses.len() && found.is_none()
            invariant
                addresses.deep_view() == list,
                list.len() > 0,
                i <= list.len(),
                found is None ==> first_network_address(list) == first_network_address(list.skip(i as int)),
                found matches Some(k) ==> k < list.len() && first_network_address(list) == Some(list[k as int]),
            decreases list.len() - i,
        {
            proof {
                assert(list.skip(i as int)[0] == list[i as int]);
                assert(list.skip(i as int).drop_first() =~= list.skip(i + 1));
                assert(addresses@[i as int]@ == list[i as int]);
            }
            let a = &addresses[i];
            if has_char(a, '.') || (has_char(a, ':') && !has_char(a, '-')) {
                found = Some(i);
            }
            i += 1;
        }
        let label = match found {
            Some(k) => addresses[k].clone(),
            None => {
                proof {
                    assert(list.skip(list.len() as int).len() == 0);
                    assert(first_network_address(list) is None);
                }
                addresses[0].clone()
            },
        };
        proof {
            assert(addresses@[0]@ == list[0]);
        }
        Some(
            EntitySummary {
                id: root as u64,
                label,
                addresses,
                packets_in: entity.packets_in,
                packets_out: entity.packets_out,
                bytes_in: entity.bytes_in,
                bytes_out: entity.bytes_out,
                flow_count: entity.flow_ids.len() as u64,
            },
        )
    }
}

/// Giving each non-empty address of a list to `root` leaves every one of them with `root`.
proof fn lemma_assign_all(s: StoreModel, addresses: Seq<Seq<char>>, root: usize)
    ensures
        forall|k: int|
            0 <= k < addresses.len() && addresses[k].len() > 0 ==> {
                let t = s.assign_all(addresses, root);
                &&& t.address_map.contains_key(#[trigger] addresses[k])
                &&& t.address_map[addresses[k]] == root
            },
        s.assign_all(addresses, root).parent == s.parent,
        s.assign_all(addresses, root).active == s.active,
    decreases addresses.len(),
{
    if addresses.len() > 0 {
        let init = addresses.drop_last();
        lemma_assign_all(s, init, root);
        assert forall|k: int| 0 <= k < addresses.len() && addresses[k].len() > 0 implies {
            let t = s.assign_all(addresses, root);
            &&& t.address_map.contains_key(#[trigger] addresses[k])
            &&& t.address_map[addresses[k]] == root
        } by {
            if k < addresses.len() - 1 {
                assert(init[k] == addresses[k]);
            }
        }
    }
}

/// Collecting finds an entity for each non-empty address, so none exactly when every address
/// is empty.
proof fn lemma_collect_count(s: StoreModel, addresses: Seq<Seq<char>>)
    ensures
        (s.collect(addresses).1.len() == 0) <==> (forall|k: int|
            0 <= k < addresses.len() ==> (#[trigger] addresses[k]).len() == 0),
    decreases addresses.len(),
{
    if addresses.len() > 0 {
        let init = addresses.drop_last();
        lemma_collect_count(s, init);
        if s.collect(addresses).1.len() == 0 {
            assert forall|k: int| 0 <= k < addresses.len() implies (#[trigger] addresses[k]).len() == 0 by {
                if k < addresses.len() - 1 {
                    assert(init[k] == addresses[k]);
                }
            }
        } else {
            if forall|k: int| 0 <= k < addresses.len() ==> (#[trigger] addresses[k]).len() == 0 {
                assert forall|k: int| 0 <= k < init.len() implies (#[trigger] init[k]).len() == 0 by {
                    assert(init[k] == addresses[k]);
                }
                assert(addresses[addresses.len() - 1].len() == 0);
            }
        }
    }
}

/// An association puts its non-empty addresses into one entity: it names an entity exactly
/// when one of the addresses is non-empty, every non-empty address is given that entity, and
/// looking up any two of them afterwards finds the same entity.
pub proof fn lemma_associate_joins(s: StoreModel, addresses: Seq<Seq<char>>)
    ensures
        ({
            let (t, r) = s.associate(addresses);
            &&& (r is Some <==> exists|k: int| 0 <= k < addresses.len() && (#[trigger] addresses[k]).len() > 0)
            &&& forall|k: int|
                0 <= k < addresses.len() && (#[trigger] addresses[k]).len() > 0 ==> {
                    &&& t.address_map.contains_key(addresses[k])
                    &&& t.address_map[addresses[k]] == r->0
                }
            &&& forall|j: int, k: int|
                #![trigger addresses[j], addresses[k]]
                0 <= j < addresses.len() && 0 <= k < addresses.len() && addresses[j].len() > 0
                    && addresses[k].len() > 0 ==> t.entity_for(addresses[j]).1 == t.entity_for(addresses[k]).1
        }),
{
    let (m, ids) = s.collect(addresses);
    lemma_collect_count(s, addresses);
    if ids.len() > 0 {
        let root = seq_min(ids);
        lemma_assign_all(m.merge_into(root, ids), addresses, root);
    }
}

/// Collecting addresses that all already belong to `entity` changes nothing and finds
/// `entity` for each non-empty one.
proof fn lemma_collect_known(s: StoreModel, addresses: Seq<Seq<char>>, entity: usize)
    requires
        forall|k: int|
            0 <= k < addresses.len() && (#[trigger] addresses[k]).len() > 0 ==> s.address_map.contains_key(
                addresses[k],
            ) && s.root(s.address_map[addresses[k]] as int) == entity,
    ensures
        s.collect(addresses).0 == s,
        forall|i: int| 0 <= i < s.collect(addresses).1.len() ==> #[trigger] s.collect(addresses).1[i] == entity,
    decreases addresses.len(),
{
    if addresses.len() > 0 {
        let init = addresses.drop_last();
        assert forall|k: int| 0 <= k < init.len() && (#[trigger] init[k]).len() > 0 implies s.address_map.contains_key(
            init[k],
        ) && s.root(s.address_map[init[k]] as int) == entity by {
            assert(init[k] == addresses[k]);
        }
        lemma_collect_known(s, init, entity);
    }
}

proof fn lemma_seq_min_same(ids: Seq<usize>, v: usize)
    requires
        ids.len() > 0,
        forall|i: int| 0 <= i < ids.len() ==> #[trigger] ids[i] == v,
    ensures
        seq_min(ids) == v,
    decreases ids.len(),
{
    if ids.len() > 1 {
        let init = ids.drop_last();
        assert forall|i: int| 0 <= i < init.len() implies #[trigger] init[i] == v by {
            assert(init[i] == ids[i]);
        }
        lemma_seq_min_same(init, v);
    }
}

proof fn lemma_merge_into_same(s: StoreModel, root: usize, ids: Seq<usize>)
    requires
        forall|i: int| 0 <= i < ids.len() ==> #[trigger] ids[i] == root,
    ensures
        s.merge_into(root, ids) == s,
    decreases ids.len(),
{
    if ids.len() > 0 {
        let init = ids.drop_last();
        assert forall|i: int| 0 <= i < init.len() implies #[trigger] init[i] == root by {
            assert(init[i] == ids[i]);
        }
        lemma_merge_into_same(s, root, init);
    }
}

/// Associating addresses that already belong to one entity merges nothing: the links between
/// entities and the number of entities stay as they were.
pub proof fn lemma_associate_known(s: StoreModel, addresses: Seq<Seq<char>>, entity: usize)
    requires
        forall|k: int|
            0 <= k < addresses.len() && (#[trigger] addresses[k]).len() > 0 ==> s.address_map.contains_key(
                addresses[k],
            ) && s.root(s.address_map[addresses[k]] as int) == entity,
    ensures
        s.associate(addresses).0.parent == s.parent,
        s.associate(addresses).0.active == s.active,
{
    lemma_collect_known(s, addresses, entity);
    let (m, ids) = s.collect(addresses);
    if ids.len() > 0 {
        lemma_seq_min_same(ids, entity);
        lemma_merge_into_same(m, entity, ids);
        lemma_assign_all(m, addresses, entity);
    }
}

proof fn lemma_root_range(parent: Seq<usize>, id: int)
    requires
        0 <= id,
    ensures
        0 <= root_of(parent, id) <= id,
    decreases id,
{
    if 0 <= id < parent.len() && parent[id] < id {
        lemma_root_range(parent, parent[id] as int);
    }
}

/// Associating the same addresses a second time changes no entity count.
pub proof fn lemma_associate_twice(s: StoreModel, addresses: Seq<Seq<char>>)
    ensures
        ({
            let t = s.associate(addresses).0;
            &&& t.associate(addresses).0.active == t.active
            &&& t.associate(addresses).0.parent == t.parent
        }),
{
    lemma_associate_joins(s, addresses);
    let (t, r) = s.associate(addresses);
    if r is Some {
        let entity = t.root(r->0 as int) as usize;
        lemma_root_range(t.parent, r->0 as int);
        assert forall|k: int|
            0 <= k < addresses.len() && (#[trigger] addresses[k]).len() > 0 implies t.address_map.contains_key(
            addresses[k],
        ) && t.root(t.address_map[addresses[k]] as int) == entity by {
        }
        lemma_associate_known(t, addresses, entity);
    } else {
        lemma_associate_known(t, addresses, 0);
    }
}

/// What holds of every store that its operations build: an entity merged into another is left
/// empty, and an address is mapped to exactly the entity that holds it, which is a root.
pub open spec fn store_laws(s: StoreModel) -> bool {
    &&& s.wf()
    &&& forall|i: int|
        0 <= i < s.parent.len() && s.parent[i] != i ==> #[trigger] s.entities[i] == empty_entity()
    &&& forall|a: Seq<char>|
        #[trigger] s.address_map.contains_key(a) ==> {
            let x = s.address_map[a] as int;
            &&& s.entities[x].addresses.contains(a)
            &&& s.parent[x] == x
        }
    &&& forall|x: int, a: Seq<char>|
        0 <= x < s.entities.len() && #[trigger] s.entities[x].addresses.contains(a)
            ==> s.address_map.contains_key(a) && s.address_map[a] == x
}

/// Linking root `remove` under root `keep` sends to `keep` exactly the ids whose root was
/// `remove`.
proof fn lemma_link_root(parent: Seq<usize>, remove: int, keep: int, i: int)
    requires
        forest(parent),
        0 <= keep < remove < parent.len(),
        parent[remove] == remove,
        parent[keep] == keep,
        0 <= i < parent.len(),
    ensures
        root_of(parent.update(remove, keep as usize), i) == if root_of(parent, i) == remove {
            keep
        } else {
            root_of(parent, i)
        },
    decreases i,
{
    let q = parent.update(remove, keep as usize);
    if i == remove {
        assert(q[keep] == keep);
        assert(root_of(q, keep) == keep);
        assert(root_of(q, i) == root_of(q, keep));
    } else {
        assert(q[i] == parent[i]);
        if parent[i] < i {
            lemma_link_root(parent, remove, keep, parent[i] as int);
        }
    }
}

/// A merge keeps the laws of a store. Afterwards the root of every id depends only on its
/// root before, the two merged ids share a root, a root that was not merged away stays, and an
/// address is mapped to the new root of the entity it was mapped to.
pub proof fn lemma_merge_laws(s: StoreModel, left: usize, right: usize)
    requires
        store_laws(s),
        left < s.entities.len(),
        right < s.entities.len(),
    ensures
        ({
            let t = s.merge(left, right);
            let l = s.root(left as int);
            let r = s.root(right as int);
            let keep = if l < r { l } else { r };
            &&& store_laws(t)
            &&& t.entities.len() == s.entities.len()
            &&& t.root(left as int) == t.root(right as int)
            &&& forall|i: int|
                0 <= i < s.entities.len() ==> #[trigger] t.root(i) == if s.root(i) == l || s.root(i) == r {
                    keep
                } else {
                    s.root(i)
                }
            &&& forall|a: Seq<char>| #[trigger] t.address_map.contains_key(a) == s.address_map.contains_key(a)
            &&& forall|a: Seq<char>|
                #[trigger] s.address_map.contains_key(a) ==> t.address_map[a] == t.root(
                    s.address_map[a] as int,
                )
        }),
{
    let t = s.merge(left, right);
    let l = s.root(left as int);
    let r = s.root(right as int);
    lemma_root(s.parent, left as int);
    lemma_root(s.parent, right as int);
    assert forall|a: Seq<char>| #[trigger] s.address_map.contains_key(a) implies s.root(
        s.address_map[a] as int,
    ) == s.address_map[a] by {}
    if l != r {
        let keep = if l < r { l } else { r };
        let remove = if l < r { r } else { l };
        let removed = s.entities[remove];
        lemma_count_roots_unlink(s.parent, remove, keep as usize);
        assert forall|i: int| 0 <= i < s.entities.len() implies #[trigger] t.root(i) == if s.root(i) == l
            || s.root(i) == r {
            keep
        } else {
            s.root(i)
        } by {
            lemma_link_root(s.parent, remove, keep, i);
            lemma_root(s.parent, i);
            if s.root(i) == keep {
                assert(t.parent[keep] == keep);
            }
        }
        assert(t.root(left as int) == t.root(right as int));
        assert forall|i: int|
            0 <= i < t.parent.len() && t.parent[i] != i implies #[trigger] t.entities[i] == empty_entity() by {
            if i != remove {
                assert(s.parent[i] != i);
            }
        }
        assert forall|a: Seq<char>| #[trigger] t.address_map.contains_key(a) implies {
            let x = t.address_map[a] as int;
            &&& t.entities[x].addresses.contains(a)
            &&& t.parent[x] == x
        } by {
            if !removed.addresses.contains(a) {
                let x = s.address_map[a] as int;
                assert(x != remove);
            }
        }
        assert forall|x: int, a: Seq<char>|
            0 <= x < t.entities.len() && #[trigger] t.entities[x].addresses.contains(a) implies t.address_map.contains_key(a)
            && t.address_map[a] == x by {
            if x == keep && !removed.addresses.contains(a) {
                assert(s.entities[keep].addresses.contains(a));
            }
        }
        assert forall|a: Seq<char>| #[trigger] s.address_map.contains_key(a) implies t.address_map[a] == t.root(
            s.address_map[a] as int,
        ) by {
            let x = s.address_map[a] as int;
            lemma_link_root(s.parent, remove, keep, x);
            if x == remove {
                assert(removed.addresses.contains(a));
            } else {
                assert(!removed.addresses.contains(a));
            }
        }
    }
}

/// A merge of each of `ids` into `root` keeps the laws of a store. Afterwards the root of every
/// id depends only on its root before, every id of the list shares the root of `root`, and an
/// address is mapped to the new root of the entity it was mapped to. When `root` is a root no
/// larger than the root of any id of the list, it stays a root and every other root either
/// stays or becomes `root`.
#[verifier::rlimit(50)]
proof fn lemma_merge_into_laws(s: StoreModel, root: usize, ids: Seq<usize>)
    requires
        store_laws(s),
        root < s.entities.len(),
        forall|j: int| 0 <= j < ids.len() ==> #[trigger] ids[j] < s.entities.len(),
    ensures
        ({
            let t = s.merge_into(root, ids);
            &&& store_laws(t)
            &&& t.entities.len() == s.entities.len()
            &&& forall|i: int| 0 <= i < s.entities.len() ==> #[trigger] t.root(i) == t.root(s.root(i))
            &&& forall|a: Seq<char>| #[trigger] t.address_map.contains_key(a) == s.address_map.contains_key(a)
            &&& forall|a: Seq<char>|
                #[trigger] s.address_map.contains_key(a) ==> t.address_map[a] == t.root(
                    s.address_map[a] as int,
                )
            &&& forall|j: int| 0 <= j < ids.len() ==> t.root(#[trigger] ids[j] as int) == t.root(root as int)
            &&& (s.root(root as int) == root && forall|j: int|
                0 <= j < ids.len() ==> s.root(#[trigger] ids[j] as int) >= root) ==> {
                &&& t.root(root as int) == root
                &&& forall|i: int|
                    0 <= i < s.entities.len() ==> #[trigger] t.root(i) == s.root(i) || t.root(i) == root
            }
        }),
    decreases ids.len(),
{
    if ids.len() > 0 {
        let init = ids.drop_last();
        let last = ids.last();
        assert forall|j: int| 0 <= j < init.len() implies #[trigger] init[j] < s.entities.len() by {
            assert(init[j] == ids[j]);
        }
        lemma_merge_into_laws(s, root, init);
        let s1 = s.merge_into(root, init);
        assert(last == ids[ids.len() - 1]);
        lemma_merge_laws(s1, root, last);
        let t = s.merge_into(root, ids);
        assert(t == s1.merge(root, last));
        let l = s1.root(root as int);
        let r = s1.root(last as int);
        let keep = if l < r { l } else { r };
        assert forall|i: int| 0 <= i < s.entities.len() implies #[trigger] t.root(i) == t.root(s.root(i)) by {
            lemma_root(s.parent, i);
            lemma_root(s1.parent, i);
            lemma_root(s1.parent, s.root(i));
            assert(s1.root(i) == s1.root(s.root(i)));
        }
        assert forall|a: Seq<char>| #[trigger] s.address_map.contains_key(a) implies t.address_map[a] == t.root(
            s.address_map[a] as int,
        ) by {
            let x = s.address_map[a] as int;
            assert(s1.address_map.contains_key(a));
            lemma_root(s1.parent, x);
            let y = s1.root(x);
            lemma_root(s1.parent, y);
            assert(s1.root(y) == y);
        }
        assert forall|j: int| 0 <= j < ids.len() implies t.root(#[trigger] ids[j] as int) == t.root(root as int) by {
            if j < init.len() {
                assert(init[j] == ids[j]);
                assert(s1.root(ids[j] as int) == s1.root(root as int));
            }
        }
        if s.root(root as int) == root && forall|j: int|
            0 <= j < ids.len() ==> s.root(#[trigger] ids[j] as int) >= root {
            assert forall|j: int| 0 <= j < init.len() implies s.root(#[trigger] init[j] as int) >= root by {
                assert(init[j] == ids[j]);
            }
            assert(s.root(ids[ids.len() - 1] as int) >= root);
            assert(l == root);
            assert(s1.root(last as int) == s.root(last as int) || s1.root(last as int) == root);
            assert(keep == root);
            assert forall|i: int| 0 <= i < s.entities.len() implies #[trigger] t.root(i) == s.root(i) || t.root(i)
                == root by {
                assert(s1.root(i) == s.root(i) || s1.root(i) == root);
            }
            assert(t.root(root as int) == root);
        }
    } else {
        assert forall|i: int| 0 <= i < s.entities.len() implies #[trigger] s.root(i) == s.root(s.root(i)) by {
            lemma_root(s.parent, i);
        }
        assert forall|a: Seq<char>| #[trigger] s.address_map.contains_key(a) implies s.address_map[a] == s.root(
            s.address_map[a] as int,
        ) by {}
    }
}

/// Finding or making the entity of an address keeps the laws of a store: the entity is a root
/// that the address is mapped to, and no existing link or mapping changes.
pub proof fn lemma_entity_for_laws(s: StoreModel, a: Seq<char>)
    requires
        store_laws(s),
        s.entity_for(a).0.entities.len() <= usize::MAX,
    ensures
        ({
            let (t, id) = s.entity_for(a);
            &&& store_laws(t)
            &&& id < t.entities.len()
            &&& t.parent[id as int] == id
            &&& t.address_map.contains_key(a)
            &&& t.address_map[a] == id
            &&& t.entities.len() >= s.entities.len()
            &&& forall|i: int| 0 <= i < s.entities.len() ==> #[trigger] t.parent[i] == s.parent[i]
            &&& forall|b: Seq<char>|
                #[trigger] s.address_map.contains_key(b) ==> t.address_map.contains_key(b) && t.address_map[b]
                    == s.address_map[b]
        }),
{
    if s.address_map.contains_key(a) {
        let x = s.address_map[a] as int;
        assert(s.root(x) == x);
    } else {
        let (t, id) = s.entity_for(a);
        lemma_count_roots_push(s.parent);
        assert forall|x: int, b: Seq<char>|
            0 <= x < t.entities.len() && #[trigger] t.entities[x].addresses.contains(b) implies t.address_map.contains_key(b)
            && t.address_map[b] == x by {
            if x < s.entities.len() {
                assert(t.entities[x] == s.entities[x]);
                assert(s.entities[x].addresses.contains(b));
                assert(s.address_map.contains_key(b));
                assert(b != a);
            } else {
                assert(x == id);
                assert(b == a);
            }
        }
        assert forall|i: int|
            0 <= i < t.parent.len() && t.parent[i] != i implies #[trigger] t.entities[i] == empty_entity() by {
            if i == s.parent.len() {
                assert(t.parent[i] == id);
            } else {
                assert(t.parent[i] == s.parent[i]);
                assert(t.entities[i] == s.entities[i]);
            }
        }
    }
}

/// Collecting the entities of addresses keeps the laws of a store; every entity found is a
/// root, and every non-empty address is mapped to one of them.
proof fn lemma_collect_laws(s: StoreModel, addresses: Seq<Seq<char>>)
    requires
        store_laws(s),
        s.collect(addresses).0.entities.len() <= usize::MAX,
    ensures
        ({
            let (m, ids) = s.collect(addresses);
            &&& store_laws(m)
            &&& s.entities.len() <= m.entities.len()
            &&& forall|j: int|
                0 <= j < ids.len() ==> #[trigger] ids[j] < m.entities.len() && m.parent[ids[j] as int] == ids[j]
            &&& forall|k: int|
                0 <= k < addresses.len() && (#[trigger] addresses[k]).len() > 0 ==> m.address_map.contains_key(
                    addresses[k],
                ) && ids.contains(m.address_map[addresses[k]])
        }),
    decreases addresses.len(),
{
    if addresses.len() > 0 {
        let init = addresses.drop_last();
        let (m1, ids1) = s.collect(init);
        let a = addresses.last();
        assert(m1.entities.len() <= s.collect(addresses).0.entities.len());
        lemma_collect_laws(s, init);
        if a.len() > 0 {
            lemma_entity_for_laws(m1, a);
            let (m2, id) = m1.entity_for(a);
            let ids = ids1.push(id);
            assert forall|j: int|
                0 <= j < ids.len() implies #[trigger] ids[j] < m2.entities.len() && m2.parent[ids[j] as int] == ids[j] by {
                if j < ids1.len() {
                    assert(ids[j] == ids1[j]);
                }
            }
            assert forall|k: int|
                0 <= k < addresses.len() && (#[trigger] addresses[k]).len() > 0 implies m2.address_map.contains_key(
                addresses[k],
            ) && ids.contains(m2.address_map[addresses[k]]) by {
                if k < init.len() {
                    assert(init[k] == addresses[k]);
                    let j = choose|j: int| 0 <= j < ids1.len() && ids1[j] == m1.address_map[addresses[k]];
                    assert(ids[j] == ids1[j]);
                } else {
                    assert(ids[ids.len() - 1] == id);
                }
            }
        } else {
            assert forall|k: int|
                0 <= k < addresses.len() && (#[trigger] addresses[k]).len() > 0 implies m1.address_map.contains_key(
                addresses[k],
            ) && ids1.contains(m1.address_map[addresses[k]]) by {
                assert(k < init.len());
                assert(init[k] == addresses[k]);
            }
        }
    }
}

/// Giving addresses to the entity that already holds them changes nothing.
proof fn lemma_assign_all_same(s: StoreModel, addresses: Seq<Seq<char>>, root: usize)
    requires
        root < s.entities.len(),
        forall|k: int|
            0 <= k < addresses.len() && (#[trigger] addresses[k]).len() > 0 ==> s.address_map.contains_key(
                addresses[k],
            ) && s.address_map[addresses[k]] == root && s.entities[root as int].addresses.contains(addresses[k]),
    ensures
        s.assign_all(addresses, root) == s,
    decreases addresses.len(),
{
    if addresses.len() > 0 {
        let init = addresses.drop_last();
        assert forall|k: int|
            0 <= k < init.len() && (#[trigger] init[k]).len() > 0 implies s.address_map.contains_key(init[k])
            && s.address_map[init[k]] == root && s.entities[root as int].addresses.contains(init[k]) by {
            assert(init[k] == addresses[k]);
        }
        lemma_assign_all_same(s, init, root);
        let a = addresses.last();
        if a.len() > 0 {
            assert(a == addresses[addresses.len() - 1]);
            let e = s.entities[root as int];
            assert(e.addresses.insert(a) =~= e.addresses);
            assert(s.entities.update(root as int, EntityModel { addresses: e.addresses.insert(a), ..e })
                =~= s.entities);
            assert(s.address_map.insert(a, root) =~= s.address_map);
        }
    }
}

/// The smallest id of a non-empty list is one of its ids and no larger than any.
proof fn lemma_seq_min(ids: Seq<usize>)
    requires
        ids.len() > 0,
    ensures
        ids.contains(seq_min(ids)),
        forall|j: int| 0 <= j < ids.len() ==> seq_min(ids) <= #[trigger] ids[j],
    decreases ids.len(),
{
    if ids.len() > 1 {
        let init = ids.drop_last();
        lemma_seq_min(init);
        assert forall|j: int| 0 <= j < ids.len() implies seq_min(ids) <= #[trigger] ids[j] by {
            if j < init.len() {
                assert(init[j] == ids[j]);
            }
        }
        if seq_min(ids) != ids.last() {
            let j = choose|j: int| 0 <= j < init.len() && init[j] == seq_min(init);
            assert(ids[j] == init[j]);
        } else {
            assert(ids[ids.len() - 1] == ids.last());
        }
    } else {
        assert(ids[0] == seq_min(ids));
    }
}

/// An empty store keeps the laws of a store.
pub proof fn lemma_empty_store_laws()
    ensures
        store_laws(
            StoreModel { entities: Seq::empty(), parent: Seq::empty(), address_map: Map::empty(), active: 0 },
        ),
{
}

/// Counting a packet keeps the laws of a store: only the counters and flows of roots change.
pub proof fn lemma_record_laws(
    s: StoreModel,
    source: Option<usize>,
    destination: Option<usize>,
    bytes: u64,
    flow_id: Option<u64>,
)
    requires
        store_laws(s),
        source matches Some(x) ==> x < s.entities.len(),
        destination matches Some(x) ==> x < s.entities.len(),
    ensures
        store_laws(s.record(source, destination, bytes, flow_id)),
        s.record(source, destination, bytes, flow_id).parent == s.parent,
        s.record(source, destination, bytes, flow_id).address_map == s.address_map,
{
    let t = s.record(source, destination, bytes, flow_id);
    if let Some(x) = source {
        lemma_root(s.parent, x as int);
    }
    if let Some(x) = destination {
        lemma_root(s.parent, x as int);
    }
    assert forall|i: int| 0 <= i < t.entities.len() implies #[trigger] t.entities[i].addresses == s.entities[
        i
    ].addresses by {}
    assert forall|i: int|
        0 <= i < t.parent.len() && t.parent[i] != i implies #[trigger] t.entities[i] == empty_entity() by {
        assert(s.entities[i] == empty_entity());
    }
    assert forall|x: int, a: Seq<char>|
        0 <= x < t.entities.len() && #[trigger] t.entities[x].addresses.contains(a) implies t.address_map.contains_key(a)
        && t.address_map[a] == x by {
        assert(s.entities[x].addresses.contains(a));
    }
}

/// After the merges of an association, every non-empty address of it is held by the entity
/// the association keeps, and mapped to it.
proof fn lemma_associate_assigned(s: StoreModel, addresses: Seq<Seq<char>>)
    requires
        store_laws(s),
        s.collect(addresses).0.entities.len() <= usize::MAX,
    ensures
        ({
            let (m, ids) = s.collect(addresses);
            &&& store_laws(m)
            &&& ids.len() > 0 ==> {
                let root = seq_min(ids);
                let t = m.merge_into(root, ids);
                &&& store_laws(t)
                &&& root < t.entities.len()
                &&& forall|k: int|
                    0 <= k < addresses.len() && (#[trigger] addresses[k]).len() > 0 ==> t.address_map.contains_key(
                        addresses[k],
                    ) && t.address_map[addresses[k]] == root && t.entities[root as int].addresses.contains(
                        addresses[k],
                    )
            }
        }),
{
    lemma_collect_laws(s, addresses);
    let (m, ids) = s.collect(addresses);
    if ids.len() > 0 {
        let root = seq_min(ids);
        lemma_seq_min(ids);
        assert forall|j: int| 0 <= j < ids.len() implies m.root(#[trigger] ids[j] as int) >= root by {
            assert(m.parent[ids[j] as int] == ids[j]);
        }
        let j0 = choose|j: int| 0 <= j < ids.len() && ids[j] == root;
        assert(m.parent[root as int] == root);
        lemma_merge_into_laws(m, root, ids);
        let t = m.merge_into(root, ids);
        assert forall|k: int|
            0 <= k < addresses.len() && (#[trigger] addresses[k]).len() > 0 implies t.address_map.contains_key(
            addresses[k],
        ) && t.address_map[addresses[k]] == root && t.entities[root as int].addresses.contains(addresses[k]) by {
            let a = addresses[k];
            let j = choose|j: int| 0 <= j < ids.len() && ids[j] == m.address_map[a];
            assert(t.root(ids[j] as int) == t.root(root as int));
            assert(t.address_map[a] == t.root(m.address_map[a] as int));
        }
    }
}

/// An association keeps the laws of a store.
pub proof fn lemma_associate_laws(s: StoreModel, addresses: Seq<Seq<char>>)
    requires
        store_laws(s),
        s.collect(addresses).0.entities.len() <= usize::MAX,
    ensures
        store_laws(s.associate(addresses).0),
{
    lemma_associate_assigned(s, addresses);
    let (m, ids) = s.collect(addresses);
    if ids.len() > 0 {
        let root = seq_min(ids);
        lemma_assign_all_same(m.merge_into(root, ids), addresses, root);
    }
}

impl Default for EntityStore {
    /// An empty store.
    fn default() -> (s: EntityStore)
        ensures
            s.wf(),
            s@.entities == Seq::<EntityModel>::empty(),
            s@.parent == Seq::<usize>::empty(),
            s@.address_map == Map::<Seq<char>, usize>::empty(),
            s@.active == 0,
    {
        EntityStore::new()
    }
}

/// Recording a packet counts it once on each side, modulo 2^64: the entity the destination
/// belongs to gains one received packet and the packet's bytes, the entity the source belongs to
/// one sent packet and the bytes, and no other counter of any entity changes.
pub proof fn lemma_record_counts(
    s: StoreModel,
    source: Option<usize>,
    destination: Option<usize>,
    bytes: u64,
    flow_id: Option<u64>,
)
    requires
        s.wf(),
        source matches Some(x) ==> x < s.entities.len(),
        destination matches Some(x) ==> x < s.entities.len(),
    ensures
        ({
            let t = s.record(source, destination, bytes, flow_id);
            let m = 0x1_0000_0000_0000_0000int;
            let r_in = match destination {
                Some(x) => s.root(x as int),
                None => -1,
            };
            let r_out = match source {
                Some(x) => s.root(x as int),
                None => -1,
            };
            &&& t.entities.len() == s.entities.len()
            &&& forall|i: int|
                0 <= i < s.entities.len() ==> {
                    &&& (#[trigger] t.entities[i]).packets_in == if i == r_in {
                        (s.entities[i].packets_in + 1) % m
                    } else {
                        s.entities[i].packets_in as int
                    }
                    &&& t.entities[i].bytes_in == if i == r_in {
                        (s.entities[i].bytes_in + bytes) % m
                    } else {
                        s.entities[i].bytes_in as int
                    }
                    &&& t.entities[i].packets_out == if i == r_out {
                        (s.entities[i].packets_out + 1) % m
                    } else {
                        s.entities[i].packets_out as int
                    }
                    &&& t.entities[i].bytes_out == if i == r_out {
                        (s.entities[i].bytes_out + bytes) % m
                    } else {
                        s.entities[i].bytes_out as int
                    }
                    &&& t.entities[i].addresses == s.entities[i].addresses
                }
        }),
{
    if let Some(x) = source {
        lemma_root(s.parent, x as int);
    }
    if let Some(x) = destination {
        lemma_root(s.parent, x as int);
    }
}

} // verus!
