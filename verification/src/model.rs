//! The capture index: packet rows in capture order, bidirectional transport flows, host
//! entities, and paged queries over them.
use vstd::prelude::*;
use crate::decode::{DecodedPacket, DecodedView, Transport, TransportInfo};
use crate::entities::{add_wrapping, describes, has_summary, sorted_ids, wrapping, EntityStore, StoreModel};
use crate::table::TextTable;
use crate::text::{push_char, push_decimal};
use crate::sets::text_less;
use std::collections::HashMap;
use crate::sets::{lemma_text_lt_asymmetric, lemma_text_lt_irreflexive, lemma_text_lt_total, text_lt};
use crate::text::decimal;

pub use crate::entities::EntitySummary;

verus! {

pub type PacketId = u64;

pub type FlowId = u64;

pub type EntityId = u64;

/// The most rows that one page of packets holds.
pub const ROW_PAGE_LIMIT: usize = 2000;

/// The most flows that one page of an entity's flows holds.
pub const FLOW_PAGE_LIMIT: usize = 500;

/// One packet of the capture. Timestamps are in nanoseconds since the Unix epoch; a packet
/// whose capture format records no time has none.
#[derive(Debug)]
pub struct PacketRow {
    pub id: PacketId,
    pub file_offset: u64,
    pub timestamp_nanos: Option<i128>,
    pub captured_len: u32,
    pub wire_len: u32,
    pub protocol: String,
    pub source: String,
    pub destination: String,
    pub summary: String,
    pub flow_id: Option<FlowId>,
    pub source_entity: Option<EntityId>,
    pub destination_entity: Option<EntityId>,
}

pub struct RowModel {
    pub id: PacketId,
    pub file_offset: u64,
    pub timestamp_nanos: Option<i128>,
    pub captured_len: u32,
    pub wire_len: u32,
    pub protocol: Seq<char>,
    pub source: Seq<char>,
    pub destination: Seq<char>,
    pub summary: Seq<char>,
    pub flow_id: Option<FlowId>,
    pub source_entity: Option<EntityId>,
    pub destination_entity: Option<EntityId>,
}

impl View for PacketRow {
    type V = RowModel;

    open spec fn view(&self) -> RowModel {
        RowModel {
            id: self.id,
            file_offset: self.file_offset,
            timestamp_nanos: self.timestamp_nanos,
            captured_len: self.captured_len,
            wire_len: self.wire_len,
            protocol: self.protocol@,
            source: self.source@,
            destination: self.destination@,
            summary: self.summary@,
            flow_id: self.flow_id,
            source_entity: self.source_entity,
            destination_entity: self.destination_entity,
        }
    }
}

/// What a flow query returns.
#[derive(Debug)]
pub struct FlowView {
    pub id: FlowId,
    pub transport: String,
    pub application: String,
    pub endpoint_a: String,
    pub endpoint_b: String,
    pub started_nanos: Option<i128>,
    pub ended_nanos: Option<i128>,
    pub packet_count: u64,
    pub bytes_a_to_b: u64,
    pub bytes_b_to_a: u64,
}

/// One bidirectional transport conversation between two endpoints (`address:port`), with
/// `endpoint_a` the one that sorts first.
pub struct FlowModel {
    pub id: FlowId,
    pub transport: Transport,
    pub application: Seq<char>,
    pub endpoint_a: Seq<char>,
    pub endpoint_b: Seq<char>,
    pub started_nanos: Option<i128>,
    pub ended_nanos: Option<i128>,
    pub bytes_a_to_b: u64,
    pub bytes_b_to_a: u64,
    pub packet_ids: Seq<PacketId>,
}

/// Counters over the whole capture.
#[derive(Clone, Copy, Debug, PartialEq, Eq, Structural)]
pub struct IndexStats {
    pub packets: u64,
    pub flows: u64,
    pub entities: u64,
    pub captured_bytes: u64,
    pub malformed_packets: u64,
}

/// The state of a capture index.
pub struct IndexModel {
    pub rows: Seq<RowModel>,
    pub flows: Seq<FlowModel>,
    pub entities: StoreModel,
    pub stats: IndexStats,
}

/// The endpoint text `address:port`.
pub open spec fn endpoint(address: Seq<char>, port: u16) -> Seq<char> {
    address.push(':') + decimal(port as nat)
}

pub open spec fn has_key(f: FlowModel, transport: Transport, a: Seq<char>, b: Seq<char>) -> bool {
    f.transport == transport && f.endpoint_a == a && f.endpoint_b == b
}

/// The index of the flow with the given key, if there is one.
pub open spec fn flow_index(flows: Seq<FlowModel>, transport: Transport, a: Seq<char>, b: Seq<char>) -> Option<int> {
    if exists|i: int| 0 <= i < flows.len() && has_key(flows[i], transport, a, b) {
        Some(choose|i: int| 0 <= i < flows.len() && has_key(flows[i], transport, a, b))
    } else {
        None
    }
}

/// The earliest of a bound and a timestamp; a missing timestamp leaves the bound as it is.
pub open spec fn earliest(bound: Option<i128>, t: Option<i128>) -> Option<i128> {
    match t {
        None => bound,
        Some(x) => match bound {
            Some(b) if b <= x => Some(b),
            _ => Some(x),
        },
    }
}

/// The latest of a bound and a timestamp; a missing timestamp leaves the bound as it is.
pub open spec fn latest(bound: Option<i128>, t: Option<i128>) -> Option<i128> {
    match t {
        None => bound,
        Some(x) => match bound {
            Some(b) if b >= x => Some(b),
            _ => Some(x),
        },
    }
}

/// A new flow, before its first packet is counted.
pub open spec fn new_flow(
    id: FlowId,
    transport: Transport,
    application: Seq<char>,
    a: Seq<char>,
    b: Seq<char>,
    timestamp: Option<i128>,
) -> FlowModel {
    FlowModel {
        id: id,
        transport: transport,
        application: application,
        endpoint_a: a,
        endpoint_b: b,
        started_nanos: timestamp,
        ended_nanos: timestamp,
        bytes_a_to_b: 0,
        bytes_b_to_a: 0,
        packet_ids: Seq::empty(),
    }
}

/// A flow after one more packet: time bounds widened, a bare transport label replaced by a
/// more specific application, bytes counted in the packet's direction.
pub open spec fn flow_step(
    f: FlowModel,
    timestamp: Option<i128>,
    application: Seq<char>,
    a_to_b: bool,
    wire_len: u32,
    packet_id: PacketId,
) -> FlowModel {
    FlowModel {
        started_nanos: earliest(f.started_nanos, timestamp),
        ended_nanos: latest(f.ended_nanos, timestamp),
        application: if f.application == f.transport.label_text() && application != f.application {
            application
        } else {
            f.application
        },
        bytes_a_to_b: if a_to_b {
            wrapping(f.bytes_a_to_b, wire_len as u64)
        } else {
            f.bytes_a_to_b
        },
        bytes_b_to_a: if a_to_b {
            f.bytes_b_to_a
        } else {
            wrapping(f.bytes_b_to_a, wire_len as u64)
        },
        packet_ids: f.packet_ids.push(packet_id),
        ..f
    }
}

/// Applies each association of addresses in turn.
pub open spec fn associate_all(store: StoreModel, groups: Seq<Seq<Seq<char>>>) -> StoreModel
    decreases groups.len(),
{
    if groups.len() == 0 {
        store
    } else {
        associate_all(store, groups.drop_last()).associate(groups.last()).0
    }
}

/// The entity of the first address of a list, if the list has one.
pub open spec fn first_entity(store: StoreModel, addresses: Seq<Seq<char>>) -> (StoreModel, Option<usize>) {
    if addresses.len() == 0 {
        (store, None)
    } else {
        let (s, id) = store.entity_for(addresses[0]);
        (s, Some(id))
    }
}

/// An entity id taken to its current root.
pub open spec fn rooted(store: StoreModel, id: Option<u64>) -> Option<u64> {
    match id {
        Some(e) => Some(store.root(e as int) as u64),
        None => None,
    }
}

pub open spec fn rooted_usize(store: StoreModel, id: Option<usize>) -> Option<u64> {
    match id {
        Some(e) => Some(store.root(e as int) as u64),
        None => None,
    }
}

/// The row of a packet that could not be decoded.
pub open spec fn malformed_row(id: PacketId, file_offset: u64, timestamp: Option<i128>, captured_len: u32, wire_len: u32) -> RowModel {
    RowModel {
        id: id,
        file_offset: file_offset,
        timestamp_nanos: timestamp,
        captured_len: captured_len,
        wire_len: wire_len,
        protocol: "Unknown"@,
        source: "—"@,
        destination: "—"@,
        summary: "Unsupported or truncated packet"@,
        flow_id: None,
        source_entity: None,
        destination_entity: None,
    }
}

/// The flows after a packet with the given transport: its flow found by key or created, then
/// stepped; with the id of the flow.
pub open spec fn flows_after(
    flows: Seq<FlowModel>,
    d: DecodedView,
    timestamp: Option<i128>,
    wire_len: u32,
    packet_id: PacketId,
) -> (Seq<FlowModel>, Option<FlowId>) {
    match d.transport {
        None => (flows, None),
        Some(t) => {
            let source = endpoint(d.source, t.source_port);
            let destination = endpoint(d.destination, t.destination_port);
            let a_to_b = !text_lt(destination, source);
            let a = if a_to_b { source } else { destination };
            let b = if a_to_b { destination } else { source };
            let (found, id) = match flow_index(flows, t.kind, a, b) {
                Some(i) => (flows, i),
                None => (
                    flows.push(new_flow(flows.len() as u64, t.kind, d.application, a, b, timestamp)),
                    flows.len() as int,
                ),
            };
            (
                found.update(id, flow_step(found[id], timestamp, d.application, a_to_b, wire_len, packet_id)),
                Some(id as u64),
            )
        },
    }
}

impl IndexModel {
    /// The index after one more packet.
    pub open spec fn add(
        self,
        timestamp: Option<i128>,
        file_offset: u64,
        captured_len: u32,
        wire_len: u32,
        decoded: Option<DecodedView>,
    ) -> IndexModel {
        let packet_id = self.rows.len() as u64;
        let packets = (self.stats.packets + 1) as u64;
        let captured = wrapping(self.stats.captured_bytes, captured_len as u64);
        match decoded {
            None => IndexModel {
                rows: self.rows.push(malformed_row(packet_id, file_offset, timestamp, captured_len, wire_len)),
                stats: IndexStats {
                    packets: packets,
                    captured_bytes: captured,
                    malformed_packets: (self.stats.malformed_packets + 1) as u64,
                    ..self.stats
                },
                ..self
            },
            Some(d) => {
                let s1 = associate_all(self.entities, d.address_associations);
                let (s2, source_entity) = first_entity(s1, d.source_addresses);
                let (s3, destination_entity) = first_entity(s2, d.destination_addresses);
                let (flows, flow_id) = flows_after(self.flows, d, timestamp, wire_len, packet_id);
                let s4 = s3.record(source_entity, destination_entity, wire_len as u64, flow_id);
                IndexModel {
                    rows: self.rows.push(
                        RowModel {
                            id: packet_id,
                            file_offset: file_offset,
                            timestamp_nanos: timestamp,
                            captured_len: captured_len,
                            wire_len: wire_len,
                            protocol: d.application,
                            source: d.source,
                            destination: d.destination,
                            summary: d.summary,
                            flow_id: flow_id,
                            source_entity: rooted_usize(s4, source_entity),
                            destination_entity: rooted_usize(s4, destination_entity),
                        },
                    ),
                    flows: flows,
                    entities: s4,
                    stats: IndexStats {
                        packets: packets,
                        flows: flows.len() as u64,
                        entities: s4.active as u64,
                        captured_bytes: captured,
                        malformed_packets: self.stats.malformed_packets,
                    },
                }
            },
        }
    }
}

/// Where a page that starts at `start` ends: after at most `count` items, at most `limit`
/// items, and at most at the end `len`.
pub open spec fn page_end(len: int, start: int, count: int, limit: int) -> int {
    let n = if count < limit { count } else { limit };
    if start + n < len { start + n } else { len }
}

/// The part of `s` from `start` holding at most `count` items, and at most `limit`.
pub open spec fn page<T>(s: Seq<T>, start: int, count: int, limit: int) -> Seq<T> {
    if start >= s.len() {
        Seq::empty()
    } else {
        s.subrange(start, page_end(s.len() as int, start, count, limit))
    }
}

/// Whether row `a` comes after row `b` in time order: rows with a time come by time, and
/// every row with a time comes before every row without one.
pub open spec fn later(a: RowModel, b: RowModel) -> bool {
    match (a.timestamp_nanos, b.timestamp_nanos) {
        (Some(x), Some(y)) => x > y,
        (None, Some(_)) => true,
        _ => false,
    }
}

/// The ids of `order` with `id` placed after the last row that is not later than row `id`.
pub open spec fn insert_in_time(rows: Seq<RowModel>, order: Seq<PacketId>, id: PacketId) -> Seq<PacketId>
    decreases order.len(),
{
    if order.len() == 0 {
        seq![id]
    } else if later(rows[order.last() as int], rows[id as int]) {
        insert_in_time(rows, order.drop_last(), id).push(order.last())
    } else {
        order.push(id)
    }
}

/// The ids of the first `n` rows in time order. Rows with equal times, and rows without a
/// time, keep their capture order.
pub open spec fn time_order(rows: Seq<RowModel>, n: nat) -> Seq<PacketId>
    decreases n,
{
    if n == 0 {
        Seq::empty()
    } else {
        insert_in_time(rows, time_order(rows, (n - 1) as nat), (n - 1) as PacketId)
    }
}

/// The rows in time order.
pub open spec fn time_rows(rows: Seq<RowModel>) -> Seq<RowModel> {
    time_order(rows, rows.len()).map_values(|id: PacketId| rows[id as int])
}

/// Ids listed in time order: no row comes after a row that is later than it.
pub open spec fn in_time_order(rows: Seq<RowModel>, order: Seq<PacketId>) -> bool {
    forall|i: int, j: int|
        #![trigger order[i], order[j]]
        0 <= i < j < order.len() ==> !later(rows[order[i] as int], rows[order[j] as int])
}

proof fn lemma_insert_in_time(rows: Seq<RowModel>, order: Seq<PacketId>, id: PacketId)
    requires
        in_time_order(rows, order),
    ensures
        ({
            let r = insert_in_time(rows, order, id);
            &&& r.len() == order.len() + 1
            &&& in_time_order(rows, r)
            &&& r.contains(id)
            &&& forall|x: PacketId| order.contains(x) ==> r.contains(x)
            &&& forall|k: int| 0 <= k < r.len() ==> #[trigger] r[k] == id || order.contains(r[k])
        }),
    decreases order.len(),
{
    let r = insert_in_time(rows, order, id);
    if order.len() == 0 {
        assert(r[0] == id);
    } else {
        let init = order.drop_last();
        let last = order.last();
        assert(in_time_order(rows, init)) by {
            assert forall|i: int, j: int| 0 <= i < j < init.len() implies !later(
                rows[init[i] as int],
                rows[init[j] as int],
            ) by {
                assert(init[i] == order[i] && init[j] == order[j]);
            }
        }
        assert(last == order[order.len() - 1]);
        if later(rows[last as int], rows[id as int]) {
            lemma_insert_in_time(rows, init, id);
            let q = insert_in_time(rows, init, id);
            assert(r == q.push(last));
            assert forall|k: int| 0 <= k < q.len() implies !later(rows[q[k] as int], rows[last as int]) by {
                if q[k] != id {
                    let m = choose|m: int| 0 <= m < init.len() && init[m] == q[k];
                    assert(order[m] == q[k]);
                }
            }
            assert forall|i: int, j: int| 0 <= i < j < r.len() implies !later(
                rows[r[i] as int],
                rows[r[j] as int],
            ) by {
                assert(r[i] == q[i]);
                if j < q.len() {
                    assert(r[j] == q[j]);
                }
            }
            assert forall|x: PacketId| order.contains(x) implies r.contains(x) by {
                let m = choose|m: int| 0 <= m < order.len() && order[m] == x;
                if m < init.len() {
                    assert(init[m] == x);
                    assert(q.contains(x));
                    let p = choose|p: int| 0 <= p < q.len() && q[p] == x;
                    assert(r[p] == x);
                } else {
                    assert(r[r.len() - 1] == x);
                }
            }
            let p = choose|p: int| 0 <= p < q.len() && q[p] == id;
            assert(r[p] == id);
            assert forall|k: int| 0 <= k < r.len() implies #[trigger] r[k] == id || order.contains(r[k]) by {
                if k < q.len() {
                    assert(r[k] == q[k]);
                    if q[k] != id {
                        let m = choose|m: int| 0 <= m < init.len() && init[m] == q[k];
                        assert(order[m] == q[k]);
                    }
                } else {
                    assert(order[order.len() - 1] == r[k]);
                }
            }
        } else {
            assert(r == order.push(id));
            assert forall|i: int, j: int| 0 <= i < j < r.len() implies !later(
                rows[r[i] as int],
                rows[r[j] as int],
            ) by {
                assert(r[i] == order[i]);
                if j < order.len() {
                    assert(r[j] == order[j]);
                } else if i < order.len() - 1 {
                    assert(!later(rows[order[i] as int], rows[last as int]));
                }
            }
            assert(r[r.len() - 1] == id);
            assert forall|x: PacketId| order.contains(x) implies r.contains(x) by {
                let m = choose|m: int| 0 <= m < order.len() && order[m] == x;
                assert(r[m] == x);
            }
            assert forall|k: int| 0 <= k < r.len() implies #[trigger] r[k] == id || order.contains(r[k]) by {
                if k < order.len() {
                    assert(r[k] == order[k]);
                }
            }
        }
    }
}

/// The time order lists every row exactly once (its `n` ids are the ids below `n`) and no
/// row after a row that is later than it.
pub proof fn lemma_time_order(rows: Seq<RowModel>, n: nat)
    ensures
        ({
            let o = time_order(rows, n);
            &&& o.len() == n
            &&& forall|k: int| 0 <= k < o.len() ==> #[trigger] o[k] < n
            &&& forall|id: PacketId| id < n ==> o.contains(id)
            &&& in_time_order(rows, o)
        }),
    decreases n,
{
    if n > 0 {
        let m = (n - 1) as nat;
        lemma_time_order(rows, m);
        lemma_insert_in_time(rows, time_order(rows, m), m as PacketId);
        let o = time_order(rows, n);
        assert forall|k: int| 0 <= k < o.len() implies #[trigger] o[k] < n by {
            if o[k] != m as PacketId {
                let p = choose|p: int| 0 <= p < time_order(rows, m).len() && time_order(rows, m)[p] == o[k];
            }
        }
    }
}

/// The time order of the first `n` rows depends on those rows alone.
proof fn lemma_time_order_prefix(a: Seq<RowModel>, b: Seq<RowModel>, n: nat)
    requires
        n <= a.len(),
        n <= b.len(),
        forall|i: int| 0 <= i < n ==> a[i] == b[i],
    ensures
        time_order(a, n) == time_order(b, n),
    decreases n,
{
    if n > 0 {
        let m = (n - 1) as nat;
        lemma_time_order_prefix(a, b, m);
        lemma_time_order(a, m);
        lemma_insert_same(a, b, time_order(a, m), m as PacketId, n);
    }
}

proof fn lemma_insert_same(a: Seq<RowModel>, b: Seq<RowModel>, order: Seq<PacketId>, id: PacketId, n: nat)
    requires
        id < n,
        n <= a.len(),
        n <= b.len(),
        forall|i: int| 0 <= i < n ==> a[i] == b[i],
        forall|k: int| 0 <= k < order.len() ==> #[trigger] order[k] < n,
    ensures
        insert_in_time(a, order, id) == insert_in_time(b, order, id),
    decreases order.len(),
{
    if order.len() > 0 {
        let init = order.drop_last();
        assert forall|k: int| 0 <= k < init.len() implies #[trigger] init[k] < n by {
            assert(init[k] == order[k]);
        }
        lemma_insert_same(a, b, init, id, n);
        assert(order.last() == order[order.len() - 1]);
    }
}

/// The rows of the given packet ids that exist, as queries return them.
pub open spec fn rows_of(store: StoreModel, rows: Seq<RowModel>, ids: Seq<PacketId>) -> Seq<RowModel>
    decreases ids.len(),
{
    if ids.len() == 0 {
        Seq::empty()
    } else {
        let front = rows_of(store, rows, ids.drop_last());
        if ids.last() < rows.len() {
            front.push(rerooted(store, rows[ids.last() as int]))
        } else {
            front
        }
    }
}

/// What a flow query tells of a flow.
pub struct FlowViewModel {
    pub id: FlowId,
    pub transport: Seq<char>,
    pub application: Seq<char>,
    pub endpoint_a: Seq<char>,
    pub endpoint_b: Seq<char>,
    pub started_nanos: Option<i128>,
    pub ended_nanos: Option<i128>,
    pub packet_count: u64,
    pub bytes_a_to_b: u64,
    pub bytes_b_to_a: u64,
}

impl View for FlowView {
    type V = FlowViewModel;

    open spec fn view(&self) -> FlowViewModel {
        FlowViewModel {
            id: self.id,
            transport: self.transport@,
            application: self.application@,
            endpoint_a: self.endpoint_a@,
            endpoint_b: self.endpoint_b@,
            started_nanos: self.started_nanos,
            ended_nanos: self.ended_nanos,
            packet_count: self.packet_count,
            bytes_a_to_b: self.bytes_a_to_b,
            bytes_b_to_a: self.bytes_b_to_a,
        }
    }
}

pub open spec fn flow_view_of(f: FlowModel) -> FlowViewModel {
    FlowViewModel {
        id: f.id,
        transport: f.transport.label_text(),
        application: f.application,
        endpoint_a: f.endpoint_a,
        endpoint_b: f.endpoint_b,
        started_nanos: f.started_nanos,
        ended_nanos: f.ended_nanos,
        packet_count: f.packet_ids.len() as u64,
        bytes_a_to_b: f.bytes_a_to_b,
        bytes_b_to_a: f.bytes_b_to_a,
    }
}

/// The flows of the given ids that exist, as flow queries return them.
pub open spec fn flows_of(flows: Seq<FlowModel>, ids: Seq<FlowId>) -> Seq<FlowViewModel>
    decreases ids.len(),
{
    if ids.len() == 0 {
        Seq::empty()
    } else {
        let front = flows_of(flows, ids.drop_last());
        if ids.last() < flows.len() {
            front.push(flow_view_of(flows[ids.last() as int]))
        } else {
            front
        }
    }
}

fn page_end_of(len: usize, start: usize, count: usize, limit: usize) -> (end: usize)
    requires
        start < len,
    ensures
        end == page_end(len as int, start as int, count as int, limit as int),
        start <= end <= len,
{
    let n = if count < limit { count } else { limit };
    if n < len - start {
        start + n
    } else {
        len
    }
}

/// A row as a query returns it: entity ids taken to their current roots.
pub open spec fn rerooted(store: StoreModel, row: RowModel) -> RowModel {
    RowModel {
        source_entity: rooted(store, row.source_entity),
        destination_entity: rooted(store, row.destination_entity),
        ..row
    }
}

/// The key of a pair of endpoint indices in a flow lookup table.
pub open spec fn pair_key(a: int, b: int) -> int {
    a * 0x1_0000_0000_0000_0000 + b
}

/// The index of a text in a sequence of distinct texts.
pub open spec fn key_index(keys: Seq<Seq<char>>, t: Seq<char>) -> int {
    choose|i: int| 0 <= i < keys.len() && keys[i] == t
}

proof fn lemma_pair_key_injective(a: int, b: int, c: int, d: int)
    requires
        0 <= b < 0x1_0000_0000_0000_0000,
        0 <= d < 0x1_0000_0000_0000_0000,
        pair_key(a, b) == pair_key(c, d),
    ensures
        a == c,
        b == d,
{
    if a < c {
        assert(pair_key(a, b) < pair_key(c, d));
    } else if a > c {
        assert(pair_key(a, b) > pair_key(c, d));
    }
}

proof fn lemma_key_index(keys: Seq<Seq<char>>, i: int)
    requires
        forall|x: int, y: int| 0 <= x < y < keys.len() ==> keys[x] != keys[y],
        0 <= i < keys.len(),
    ensures
        key_index(keys, keys[i]) == i,
{
    let c = key_index(keys, keys[i]);
    assert(keys.contains(keys[i]));
    if c < i {
        assert(keys[c] != keys[i]);
    } else if c > i {
        assert(keys[i] != keys[c]);
    }
}

/// Keys that stay in a table keep their index when texts are appended.
proof fn lemma_key_index_stable(keys: Seq<Seq<char>>, more: Seq<Seq<char>>, t: Seq<char>)
    requires
        forall|x: int, y: int| 0 <= x < y < more.len() ==> more[x] != more[y],
        keys.len() <= more.len(),
        forall|x: int| 0 <= x < keys.len() ==> more[x] == keys[x],
        keys.contains(t),
    ensures
        key_index(more, t) == key_index(keys, t),
        0 <= key_index(keys, t) < keys.len(),
{
    let i = key_index(keys, t);
    assert(keys[i] == t);
    assert(more[i] == t);
    assert forall|x: int, y: int| 0 <= x < y < keys.len() implies keys[x] != keys[y] by {
        assert(more[x] != more[y]);
    }
    lemma_key_index(keys, i);
    lemma_key_index(more, i);
}

struct Flow {
    id: FlowId,
    transport: Transport,
    application: String,
    endpoint_a: String,
    endpoint_b: String,
    started_nanos: Option<i128>,
    ended_nanos: Option<i128>,
    bytes_a_to_b: u64,
    bytes_b_to_a: u64,
    packet_ids: Vec<PacketId>,
}

impl Flow {
    closed spec fn model(&self) -> FlowModel {
        FlowModel {
            id: self.id,
            transport: self.transport,
            application: self.application@,
            endpoint_a: self.endpoint_a@,
            endpoint_b: self.endpoint_b@,
            started_nanos: self.started_nanos,
            ended_nanos: self.ended_nanos,
            bytes_a_to_b: self.bytes_a_to_b,
            bytes_b_to_a: self.bytes_b_to_a,
            packet_ids: self.packet_ids@,
        }
    }
}

/// Packets, flows and entities of one capture.
pub struct CaptureIndex {
    rows: Vec<PacketRow>,
    flows: Vec<Flow>,
    /// The endpoints of all flows.
    endpoints: TextTable,
    /// TCP flows by the indices of their two endpoints.
    tcp_flows: HashMap<u128, u64>,
    /// UDP flows by the indices of their two endpoints.
    udp_flows: HashMap<u128, u64>,
    entities: EntityStore,
    stats: IndexStats,
    /// The ids of the rows in time order.
    order: Vec<PacketId>,
}

impl View for CaptureIndex {
    type V = IndexModel;

    closed spec fn view(&self) -> IndexModel {
        IndexModel {
            rows: self.rows@.map_values(|r: PacketRow| r@),
            flows: self.flows@.map_values(|f: Flow| f.model()),
            entities: self.entities@,
            stats: self.stats,
        }
    }
}

/// Whether row `a` comes after row `b` in time order.
fn later_row(a: &PacketRow, b: &PacketRow) -> (r: bool)
    ensures
        r == later(a@, b@),
{
    match (a.timestamp_nanos, b.timestamp_nanos) {
        (Some(x), Some(y)) => x > y,
        (None, Some(_)) => true,
        _ => false,
    }
}

/// Puts row `id` into a list of row ids in time order, after the last row not later than it.
fn insert_row_in_time(rows: &Vec<PacketRow>, order: &mut Vec<PacketId>, id: usize)
    requires
        id < rows@.len(),
        forall|k: int| 0 <= k < old(order)@.len() ==> #[trigger] old(order)@[k] < rows@.len(),
    ensures
        final(order)@ == insert_in_time(rows@.map_values(|r: PacketRow| r@), old(order)@, id as PacketId),
{
    let ghost rs = rows@.map_values(|r: PacketRow| r@);
    let ghost o = order@;
    let ghost target = insert_in_time(rs, o, id as PacketId);
    let mut k = order.len();
    let nrows = rows.len();
    assert(o.take(o.len() as int) =~= o);
    assert(o.skip(o.len() as int) =~= Seq::<PacketId>::empty());
    assert(target =~= insert_in_time(rs, o.take(k as int), id as PacketId) + o.skip(k as int));
    while k > 0 && later_row(&rows[order[k - 1] as usize], &rows[id])
        invariant
            k <= o.len(),
            order@ == o,
            id < rows@.len(),
            nrows == rows@.len(),
            rs == rows@.map_values(|r: PacketRow| r@),
            forall|j: int| 0 <= j < o.len() ==> #[trigger] o[j] < rows@.len(),
            target == insert_in_time(rs, o, id as PacketId),
            target == insert_in_time(rs, o.take(k as int), id as PacketId) + o.skip(k as int),
        decreases k,
    {
        proof {
            let t = o.take(k as int);
            assert(t.last() == o[k - 1]);
            assert(t.drop_last() =~= o.take(k - 1));
            assert(rs[o[k - 1] as int] == rows@[o[k - 1] as int]@);
            assert(rs[id as int] == rows@[id as int]@);
            assert(t.len() == k);
            assert(later(rs[t.last() as int], rs[id as int]));
            assert(insert_in_time(rs, t, id as PacketId) == insert_in_time(rs, o.take(k - 1), id as PacketId).push(
                o[k - 1],
            ));
            assert(insert_in_time(rs, o.take(k - 1), id as PacketId).push(o[k - 1]) + o.skip(k as int)
                =~= insert_in_time(rs, o.take(k - 1), id as PacketId) + o.skip(k - 1));
        }
        k -= 1;
    }
    proof {
        if k == 0 {
            assert(o.take(0) =~= Seq::<PacketId>::empty());
            assert(target =~= o.insert(0, id as PacketId));
        } else {
            let t = o.take(k as int);
            assert(t.last() == o[k - 1]);
            assert(rs[o[k - 1] as int] == rows@[o[k - 1] as int]@);
            assert(rs[id as int] == rows@[id as int]@);
            assert(insert_in_time(rs, t, id as PacketId) == t.push(id as PacketId));
            assert(target =~= o.insert(k as int, id as PacketId));
        }
    }
    order.insert(k, id as PacketId);
}

impl CaptureIndex {
    closed spec fn lookup(&self, transport: Transport) -> Map<u128, u64> {
        match transport {
            Transport::Tcp => self.tcp_flows@,
            Transport::Udp => self.udp_flows@,
        }
    }

    closed spec fn flow_key(&self, i: int) -> u128 {
        let f = self.flows@[i];
        pair_key(
            key_index(self.endpoints.keys(), f.endpoint_a@),
            key_index(self.endpoints.keys(), f.endpoint_b@),
        ) as u128
    }

    closed spec fn lookup_wf(&self) -> bool {
        let keys = self.endpoints.keys();
        &&& self.endpoints.wf()
        &&& forall|i: int|
            #![trigger self.flows@[i]]
            0 <= i < self.flows@.len() ==> {
                &&& keys.contains(self.flows@[i].endpoint_a@)
                &&& keys.contains(self.flows@[i].endpoint_b@)
                &&& self.lookup(self.flows@[i].transport).contains_key(self.flow_key(i))
                &&& self.lookup(self.flows@[i].transport)[self.flow_key(i)] == i
            }
        &&& forall|t: Transport, k: u128|
            #[trigger] self.lookup(t).contains_key(k) ==> {
                let i = self.lookup(t)[k] as int;
                &&& 0 <= i < self.flows@.len()
                &&& self.flows@[i].transport == t
                &&& self.flow_key(i) == k
            }
    }

    closed spec fn parts_wf(&self) -> bool {
        &&& self.entities.wf()
        &&& self.lookup_wf()
        &&& self.stats.packets == self.rows@.len()
        &&& self.stats.malformed_packets <= self.stats.packets
    }

    /// The index's internal invariant.
    pub closed spec fn wf(&self) -> bool {
        &&& self.parts_wf()
        &&& flow_records(self@)
        &&& self.order@ == time_order(self@.rows, self@.rows.len())
    }

    /// An empty index.
    pub fn new() -> (index: CaptureIndex)
        ensures
            index.wf(),
            index@.rows == Seq::<RowModel>::empty(),
            index@.flows == Seq::<FlowModel>::empty(),
            index@.entities.entities.len() == 0,
            index@.entities.parent.len() == 0,
            index@.entities.address_map == Map::<Seq<char>, usize>::empty(),
            index@.entities.active == 0,
            index@.stats == (IndexStats {
                packets: 0,
                flows: 0,
                entities: 0,
                captured_bytes: 0,
                malformed_packets: 0,
            }),
    {
        let index = CaptureIndex {
            rows: Vec::new(),
            flows: Vec::new(),
            endpoints: TextTable::new(),
            tcp_flows: HashMap::new(),
            udp_flows: HashMap::new(),
            entities: EntityStore::new(),
            stats: IndexStats {
                packets: 0,
                flows: 0,
                entities: 0,
                captured_bytes: 0,
                malformed_packets: 0,
            },
            order: Vec::new(),
        };
        assert(index@.rows =~= Seq::<RowModel>::empty());
        assert(index.order@ =~= Seq::<PacketId>::empty());
        assert(index@.flows =~= Seq::<FlowModel>::empty());
        index
    }

    proof fn lemma_lookup_frame(a: CaptureIndex, b: CaptureIndex)
        requires
            a.lookup_wf(),
            a.flows == b.flows,
            a.endpoints == b.endpoints,
            a.tcp_flows == b.tcp_flows,
            a.udp_flows == b.udp_flows,
        ensures
            b.lookup_wf(),
    {
        assert forall|t: Transport| #[trigger] b.lookup(t) == a.lookup(t) by {}
        assert forall|i: int| 0 <= i < b.flows@.len() implies #[trigger] b.flow_key(i) == a.flow_key(i) by {}
    }

    /// The counters of the whole capture, with the current number of entities.
    pub fn stats(&self) -> (s: IndexStats)
        ensures
            s == (IndexStats { entities: self@.entities.active as u64, ..self@.stats }),
    {
        let mut s = self.stats;
        s.entities = self.entities.count() as u64;
        s
    }

    /// The current root of entity id `id`.
    fn root_id(&self, id: u64) -> (r: u64)
        requires
            self.entities.wf(),
        ensures
            r == self@.entities.root(id as int) as u64,
    {
        proof {
            self.entities.lemma_wf();
        }
        if id < self.entities.len() as u64 {
            let r = self.entities.root(id as usize);
            proof {
                crate::entities::lemma_root(self@.entities.parent, id as int);
            }
            r as u64
        } else {
            id
        }
    }

    fn copy_row(&self, row: &PacketRow) -> (r: PacketRow)
        requires
            self.entities.wf(),
        ensures
            r@ == rerooted(self@.entities, row@),
    {
        let source_entity = match row.source_entity {
            Some(e) => Some(self.root_id(e)),
            None => None,
        };
        let destination_entity = match row.destination_entity {
            Some(e) => Some(self.root_id(e)),
            None => None,
        };
        PacketRow {
            id: row.id,
            file_offset: row.file_offset,
            timestamp_nanos: row.timestamp_nanos,
            captured_len: row.captured_len,
            wire_len: row.wire_len,
            protocol: row.protocol.clone(),
            source: row.source.clone(),
            destination: row.destination.clone(),
            summary: row.summary.clone(),
            flow_id: row.flow_id,
            source_entity,
            destination_entity,
        }
    }

    /// At most `count` rows (and at most 2000) from the `start`-th row in time order on. Rows
    /// with a time come by time and before the rows without one; rows with equal times, and rows
    /// without a time, keep their capture order.
    pub fn rows(&self, start: usize, count: usize) -> (r: Vec<PacketRow>)
        requires
            self.wf(),
        ensures
            r@.map_values(|row: PacketRow| row@) == page(time_rows(self@.rows), start as int, count as int, 2000).map_values(
                |row: RowModel| rerooted(self@.entities, row),
            ),
            forall|i: int, j: int| 0 <= i < j < r@.len() ==> !later(#[trigger] r@[i]@, #[trigger] r@[j]@),
    {
        let ghost rows = self@.rows;
        let ghost o = self.order@;
        proof {
            lemma_time_order(rows, rows.len());
        }
        let ghost sorted = time_rows(rows);
        let mut out: Vec<PacketRow> = Vec::new();
        let n = self.order.len();
        let nrows = self.rows.len();
        if start >= n {
            assert(out@.map_values(|row: PacketRow| row@) =~= Seq::<RowModel>::empty());
            return out;
        }
        let end = page_end_of(n, start, count, ROW_PAGE_LIMIT);
        let ghost want = sorted.subrange(start as int, end as int).map_values(
            |row: RowModel| rerooted(self@.entities, row),
        );
        let mut i = start;
        while i < end
            invariant
                self.wf(),
                rows == self@.rows,
                o == self.order@,
                o == time_order(rows, rows.len()),
                sorted == time_rows(rows),
                forall|k: int| 0 <= k < o.len() ==> #[trigger] o[k] < rows.len(),
                start <= i <= end <= n,
                n == o.len(),
                nrows == rows.len(),
                want == sorted.subrange(start as int, end as int).map_values(
                    |row: RowModel| rerooted(self@.entities, row),
                ),
                out@.map_values(|row: PacketRow| row@) == want.take(i - start),
            decreases end - i,
        {
            let id = self.order[i];
            let row = self.copy_row(&self.rows[id as usize]);
            let ghost before = out@.map_values(|row: PacketRow| row@);
            out.push(row);
            proof {
                assert(out@.map_values(|row: PacketRow| row@) =~= before.push(row@));
                assert(want.take(i + 1 - start) =~= want.take(i - start).push(want[i - start]));
                assert(self@.rows[id as int] == self.rows@[id as int]@);
                assert(sorted[i as int] == rows[o[i as int] as int]);
            }
            i += 1;
        }
        assert(want.take(end - start) =~= want);
        assert forall|i: int, j: int| 0 <= i < j < out@.len() implies !later(#[trigger] out@[i]@, #[trigger] out@[j]@) by {
            assert(out@[i]@ == want[i]);
            assert(out@[j]@ == want[j]);
            assert(sorted[start + i] == rows[o[start + i] as int]);
            assert(sorted[start + j] == rows[o[start + j] as int]);
            assert(!later(rows[o[start + i] as int], rows[o[start + j] as int]));
        }
        out
    }

    fn flow_view(&self, i: usize) -> (v: FlowView)
        requires
            i < self@.flows.len(),
        ensures
            v@ == flow_view_of(self@.flows[i as int]),
    {
        let f = &self.flows[i];
        assert(self@.flows[i as int] == f.model());
        FlowView {
            id: f.id,
            transport: crate::text::text(f.transport.label()),
            application: f.application.clone(),
            endpoint_a: f.endpoint_a.clone(),
            endpoint_b: f.endpoint_b.clone(),
            started_nanos: f.started_nanos,
            ended_nanos: f.ended_nanos,
            packet_count: f.packet_ids.len() as u64,
            bytes_a_to_b: f.bytes_a_to_b,
            bytes_b_to_a: f.bytes_b_to_a,
        }
    }

    /// The flow with id `id`, if there is one.
    pub fn flow(&self, id: u64) -> (r: Option<FlowView>)
        ensures
            match r {
                Some(v) => id < self@.flows.len() && v@ == flow_view_of(self@.flows[id as int]),
                None => id >= self@.flows.len(),
            },
    {
        if id < self.flows.len() as u64 {
            Some(self.flow_view(id as usize))
        } else {
            None
        }
    }

    /// At most `count` rows (and at most 2000) of flow `id`, from its `start`-th packet on.
    pub fn flow_rows(&self, id: u64, start: usize, count: usize) -> (r: Vec<PacketRow>)
        requires
            self.wf(),
        ensures
            r@.map_values(|row: PacketRow| row@) == if id < self@.flows.len() {
                rows_of(
                    self@.entities,
                    self@.rows,
                    page(self@.flows[id as int].packet_ids, start as int, count as int, 2000),
                )
            } else {
                Seq::empty()
            },
            forall|i: int| 0 <= i < r@.len() ==> (#[trigger] r@[i]).flow_id == Some(id),
    {
        let mut out: Vec<PacketRow> = Vec::new();
        if id >= self.flows.len() as u64 {
            assert(out@.map_values(|row: PacketRow| row@) =~= Seq::<RowModel>::empty());
            return out;
        }
        let f = &self.flows[id as usize];
        assert(self@.flows[id as int] == f.model());
        let n = f.packet_ids.len();
        if start >= n {
            assert(out@.map_values(|row: PacketRow| row@) =~= Seq::<RowModel>::empty());
            return out;
        }
        let end = page_end_of(n, start, count, ROW_PAGE_LIMIT);
        let ghost ids = f.packet_ids@.subrange(start as int, end as int);
        let mut i = start;
        assert(ids.take(0) =~= Seq::<u64>::empty());
        while i < end
            invariant
                self.wf(),
                start <= i <= end <= n,
                n == f.packet_ids@.len(),
                ids == f.packet_ids@.subrange(start as int, end as int),
                out@.map_values(|row: PacketRow| row@) == rows_of(self@.entities, self@.rows, ids.take(i - start)),
                id < self@.flows.len(),
                self@.flows[id as int] == f.model(),
                forall|k: int| 0 <= k < out@.len() ==> (#[trigger] out@[k]).flow_id == Some(id),
            decreases end - i,
        {
            let p = f.packet_ids[i];
            proof {
                assert(flow_matches(self@.rows, self@.flows[id as int], id as int));
                assert(f.packet_ids@[i as int] == self@.flows[id as int].packet_ids[i as int]);
            }
            proof {
                assert(ids.take(i + 1 - start).drop_last() =~= ids.take(i - start));
                assert(ids.take(i + 1 - start).last() == p);
            }
            if p < self.rows.len() as u64 {
                let row = self.copy_row(&self.rows[p as usize]);
                let ghost before = out@.map_values(|row: PacketRow| row@);
                out.push(row);
                proof {
                    assert(out@.map_values(|row: PacketRow| row@) =~= before.push(row@));
                    assert(self@.rows[p as int] == self.rows@[p as int]@);
                }
            }
            i += 1;
        }
        assert(ids.take(end - start) =~= ids);
        out
    }

    /// The summary of the entity that `id` belongs to, if it has addresses.
    pub fn entity(&self, id: EntityId) -> (r: Option<EntitySummary>)
        requires
            self.wf(),
        ensures
            r is Some <==> has_summary(self@.entities, id as int),
            r matches Some(s) ==> describes(self@.entities, id as int, s),
    {
        proof {
            self.entities.lemma_wf();
        }
        if id < self.entities.len() as u64 {
            self.entities.summary(id as usize)
        } else {
            None
        }
    }

    /// At most `count` flows (and at most 500) of the entity that `id` belongs to, in increasing
    /// id order, from its `start`-th flow on.
    pub fn entity_flows(&self, id: EntityId, start: usize, count: usize) -> (r: Vec<FlowView>)
        requires
            self.wf(),
        ensures
            ({
                let root = self@.entities.root(id as int);
                if 0 <= root < self@.entities.entities.len() {
                    exists|list: Seq<u64>|
                        #![trigger sorted_ids(list)]
                        sorted_ids(list) && list.to_set() == self@.entities.entities[root].flow_ids
                            && r@.map_values(|v: FlowView| v@) == flows_of(
                            self@.flows,
                            page(list, start as int, count as int, 500),
                        )
                } else {
                    r@.len() == 0
                }
            }),
    {
        let mut out: Vec<FlowView> = Vec::new();
        proof {
            self.entities.lemma_wf();
            if 0 <= id < self@.entities.entities.len() {
                crate::entities::lemma_root(self@.entities.parent, id as int);
            }
        }
        let root = self.root_id(id);
        if root >= self.entities.len() as u64 {
            return out;
        }
        let root = root as usize;
        let flow_ids = self.entities.flow_ids(root);
        let ghost list = flow_ids@;
        let n = flow_ids.len();
        if start >= n {
            assert(out@.map_values(|v: FlowView| v@) =~= Seq::<FlowViewModel>::empty());
            assert(sorted_ids(list));
            assert(page(list, start as int, count as int, 500) =~= Seq::<u64>::empty());
            return out;
        }
        let end = page_end_of(n, start, count, FLOW_PAGE_LIMIT);
        let ghost ids = list.subrange(start as int, end as int);
        let mut i = start;
        assert(ids.take(0) =~= Seq::<u64>::empty());
        while i < end
            invariant
                self.wf(),
                start <= i <= end <= n,
                root < self@.entities.entities.len(),
                flow_ids@ == list,
                sorted_ids(list),
                list.to_set() == self@.entities.entities[root as int].flow_ids,
                n == list.len(),
                ids == list.subrange(start as int, end as int),
                out@.map_values(|v: FlowView| v@) == flows_of(self@.flows, ids.take(i - start)),
            decreases end - i,
        {
            let f = flow_ids[i];
            proof {
                assert(ids.take(i + 1 - start).drop_last() =~= ids.take(i - start));
                assert(ids.take(i + 1 - start).last() == f);
            }
            if let Some(v) = self.flow(f) {
                let ghost before = out@.map_values(|v: FlowView| v@);
                out.push(v);
                assert(out@.map_values(|v: FlowView| v@) =~= before.push(v@));
            }
            i += 1;
        }
        assert(ids.take(end - start) =~= ids);
        assert(sorted_ids(list));
        assert(page(list, start as int, count as int, 500) == ids);
        out
    }

    /// Adds one packet: its row, its flow when it has a transport, and the entities of its
    /// addresses. A packet that could not be decoded gets a row of its own and no flow.
    pub fn add_packet(
        &mut self,
        timestamp_nanos: Option<i128>,
        file_offset: u64,
        captured_len: u32,
        wire_len: u32,
        decoded: Option<DecodedPacket>,
    )
        requires
            old(self).wf(),
        ensures
            final(self).wf(),
            final(self)@ == old(self)@.add(
                timestamp_nanos,
                file_offset,
                captured_len,
                wire_len,
                crate::decode::decoded_view(decoded),
            ),
            adds_to_flow(old(self)@, final(self)@, timestamp_nanos, wire_len, crate::decode::decoded_view(decoded)),
    {
        let ghost before = self@;
        let ghost view = crate::decode::decoded_view(decoded);
        let ghost start = *self;
        let mut order: Vec<PacketId> = Vec::new();
        std::mem::swap(&mut order, &mut self.order);
        proof {
            Self::lemma_lookup_frame(start, *self);
        }
        match decoded {
            None => self.add_malformed(timestamp_nanos, file_offset, captured_len, wire_len),
            Some(decoded) => self.add_decoded(timestamp_nanos, file_offset, captured_len, wire_len, decoded),
        }
        let n = self.rows.len();
        proof {
            assert(self@.rows.len() == before.rows.len() + 1);
            assert(self@.rows == before.rows.push(self@.rows.last()));
            lemma_add_keeps_records(before, timestamp_nanos, file_offset, captured_len, wire_len, view);
            lemma_add_flow(before, timestamp_nanos, file_offset, captured_len, wire_len, view);
            lemma_time_order(before.rows, before.rows.len());
            lemma_time_order_prefix(self@.rows, before.rows, before.rows.len());
        }
        insert_row_in_time(&self.rows, &mut order, n - 1);
        let ghost mid = *self;
        self.order = order;
        proof {
            Self::lemma_lookup_frame(mid, *self);
            assert(self@ == mid@);
            assert(self.order@ == time_order(self@.rows, self@.rows.len()));
        }
    }

    fn add_malformed(&mut self, timestamp_nanos: Option<i128>, file_offset: u64, captured_len: u32, wire_len: u32)
        requires
            old(self).parts_wf(),
        ensures
            final(self).parts_wf(),
            final(self)@ == old(self)@.add(timestamp_nanos, file_offset, captured_len, wire_len, None),
    {
        let ghost before = *self;
        let packet_id = self.rows.len() as u64;
        let captured = add_wrapping(self.stats.captured_bytes, captured_len as u64);
        let row = PacketRow {
            id: packet_id,
            file_offset,
            timestamp_nanos,
            captured_len,
            wire_len,
            protocol: crate::text::text("Unknown"),
            source: crate::text::text("—"),
            destination: crate::text::text("—"),
            summary: crate::text::text("Unsupported or truncated packet"),
            flow_id: None,
            source_entity: None,
            destination_entity: None,
        };
        self.rows.push(row);
        self.stats.packets = self.rows.len() as u64;
        self.stats.captured_bytes = captured;
        self.stats.malformed_packets = self.stats.malformed_packets + 1;
        proof {
            Self::lemma_lookup_frame(before, *self);
            assert(self@.rows =~= old(self)@.rows.push(row@));
        }
    }

    /// Applies the address associations of a packet.
    fn associate_groups(&mut self, groups: &Vec<Vec<String>>)
        requires
            old(self).parts_wf(),
        ensures
            final(self).parts_wf(),
            final(self)@ == (IndexModel {
                entities: associate_all(old(self)@.entities, groups.deep_view()),
                ..old(self)@
            }),
    {
        let ghost before = *self;
        let ghost all = groups.deep_view();
        let mut k: usize = 0;
        assert(all.take(0) =~= Seq::<Seq<Seq<char>>>::empty());
        while k < groups.len()
            invariant
                self.parts_wf(),
                before.lookup_wf(),
                self.flows == before.flows,
                self.endpoints == before.endpoints,
                self.tcp_flows == before.tcp_flows,
                self.udp_flows == before.udp_flows,
                self.rows == before.rows,
                self.stats == before.stats,
                all == groups.deep_view(),
                k <= all.len(),
                self@.entities == associate_all(before@.entities, all.take(k as int)),
            decreases all.len() - k,
        {
            assert(all.take(k + 1).drop_last() =~= all.take(k as int));
            assert(all.take(k + 1).last() == groups@[k as int].deep_view());
            self.entities.associate(&groups[k]);
            proof {
                Self::lemma_lookup_frame(before, *self);
            }
            k += 1;
        }
        assert(all.take(all.len() as int) =~= all);
    }

    /// The entity of the first of `addresses`, if there is one.
    fn first_entity(&mut self, addresses: &Vec<String>) -> (r: Option<usize>)
        requires
            old(self).parts_wf(),
        ensures
            final(self).parts_wf(),
            (final(self)@.entities, r) == first_entity(old(self)@.entities, addresses.deep_view()),
            final(self)@ == (IndexModel { entities: final(self)@.entities, ..old(self)@ }),
            r matches Some(e) ==> e < final(self)@.entities.entities.len(),
            final(self)@.entities.entities.len() >= old(self)@.entities.entities.len(),
    {
        let ghost before = *self;
        if addresses.len() > 0 {
            let e = self.entities.entity_for(&addresses[0]);
            proof {
                Self::lemma_lookup_frame(before, *self);
            }
            Some(e)
        } else {
            None
        }
    }

    /// The flow of a decoded packet, found or created, with the packet counted in it.
    fn flow_for(
        &mut self,
        source: &String,
        destination: &String,
        transport: Option<crate::decode::TransportInfo>,
        application: &String,
        timestamp_nanos: Option<i128>,
        wire_len: u32,
        packet_id: PacketId,
        d: Ghost<DecodedView>,
    ) -> (flow_id: Option<u64>)
        requires
            old(self).parts_wf(),
            d@.source == source@,
            d@.destination == destination@,
            d@.transport == transport,
            d@.application == application@,
        ensures
            final(self).parts_wf(),
            (final(self)@.flows, flow_id) == flows_after(old(self)@.flows, d@, timestamp_nanos, wire_len, packet_id),
            final(self)@ == (IndexModel { flows: final(self)@.flows, ..old(self)@ }),
            flow_id matches Some(f) ==> f < final(self)@.flows.len(),
    {
        match transport {
            None => None,
            Some(t) => {
                let mut source_endpoint = source.clone();
                push_char(&mut source_endpoint, ':');
                push_decimal(&mut source_endpoint, t.source_port as u64);
                let mut destination_endpoint = destination.clone();
                push_char(&mut destination_endpoint, ':');
                push_decimal(&mut destination_endpoint, t.destination_port as u64);
                let a_to_b = !text_less(&destination_endpoint, &source_endpoint);
                let (a, b) = if a_to_b {
                    (source_endpoint, destination_endpoint)
                } else {
                    (destination_endpoint, source_endpoint)
                };
                let id = match self.find_flow(t.kind, &a, &b) {
                    Some(i) => i,
                    None => self.create_flow(t.kind, &a, &b, application, timestamp_nanos),
                };
                self.step_flow(id, timestamp_nanos, application, a_to_b, wire_len, packet_id);
                Some(id as u64)
            },
        }
    }

    fn add_decoded(
        &mut self,
        timestamp_nanos: Option<i128>,
        file_offset: u64,
        captured_len: u32,
        wire_len: u32,
        decoded: DecodedPacket,
    )
        requires
            old(self).parts_wf(),
        ensures
            final(self).parts_wf(),
            final(self)@ == old(self)@.add(
                timestamp_nanos,
                file_offset,
                captured_len,
                wire_len,
                Some(decoded@),
            ),
    {
        let ghost m0 = self@;
        let ghost d = decoded@;
        let packet_id = self.rows.len() as u64;
        let captured = add_wrapping(self.stats.captured_bytes, captured_len as u64);
        let DecodedPacket {
            source,
            destination,
            source_addresses,
            destination_addresses,
            address_associations,
            transport,
            application,
            summary,
        } = decoded;
        self.associate_groups(&address_associations);
        let source_entity = self.first_entity(&source_addresses);
        let destination_entity = self.first_entity(&destination_addresses);
        let flow_id = self.flow_for(
            &source,
            &destination,
            transport,
            &application,
            timestamp_nanos,
            wire_len,
            packet_id,
            Ghost(d),
        );
        let ghost before = *self;
        self.entities.record_packet(source_entity, destination_entity, wire_len as u64, flow_id);
        proof {
            self.entities.lemma_wf();
        }
        let source_root = match source_entity {
            Some(e) => Some(self.entities.root(e) as u64),
            None => None,
        };
        let destination_root = match destination_entity {
            Some(e) => Some(self.entities.root(e) as u64),
            None => None,
        };
        let row = PacketRow {
            id: packet_id,
            file_offset,
            timestamp_nanos,
            captured_len,
            wire_len,
            protocol: application,
            source,
            destination,
            summary,
            flow_id,
            source_entity: source_root,
            destination_entity: destination_root,
        };
        self.rows.push(row);
        self.stats.packets = self.rows.len() as u64;
        self.stats.flows = self.flows.len() as u64;
        self.stats.entities = self.entities.count() as u64;
        self.stats.captured_bytes = captured;
        proof {
            Self::lemma_lookup_frame(before, *self);
            assert(self@.rows =~= m0.rows.push(row@));
        }
    }

    /// The index of endpoint `t`, added when it is new.
    fn intern(&mut self, t: &String) -> (i: usize)
        requires
            old(self).endpoints.wf(),
        ensures
            final(self).endpoints.wf(),
            i < final(self).endpoints.keys().len(),
            final(self).endpoints.keys()[i as int] == t@,
            old(self).endpoints.keys().len() <= final(self).endpoints.keys().len(),
            forall|x: int|
                0 <= x < old(self).endpoints.keys().len() ==> final(self).endpoints.keys()[x]
                    == old(self).endpoints.keys()[x],
            final(self).rows == old(self).rows,
            final(self).flows == old(self).flows,
            final(self).tcp_flows == old(self).tcp_flows,
            final(self).udp_flows == old(self).udp_flows,
            final(self).entities == old(self).entities,
            final(self).stats == old(self).stats,
    {
        match self.endpoints.find(t) {
            Some(i) => i,
            None => self.endpoints.insert(t.clone()),
        }
    }

    /// Adds a flow for a key that no flow has.
    fn create_flow(
        &mut self,
        transport: Transport,
        a: &String,
        b: &String,
        application: &String,
        timestamp: Option<i128>,
    ) -> (id: usize)
        requires
            old(self).lookup_wf(),
            flow_index(old(self)@.flows, transport, a@, b@) is None,
        ensures
            final(self).lookup_wf(),
            id == old(self)@.flows.len(),
            final(self)@ == (IndexModel {
                flows: old(self)@.flows.push(
                    new_flow(id as u64, transport, application@, a@, b@, timestamp),
                ),
                ..old(self)@
            }),
            final(self).rows == old(self).rows,
            final(self).entities == old(self).entities,
            final(self).stats == old(self).stats,
    {
        let ghost keys0 = self.endpoints.keys();
        let ia = self.intern(a);
        let ib = self.intern(b);
        let ghost keys = self.endpoints.keys();
        let _key_count = self.endpoints.len();
        proof {
            self.endpoints.lemma_distinct();
        }
        let id = self.flows.len();
        let key = ia as u128 * 0x1_0000_0000_0000_0000 + ib as u128;
        let ghost old_tcp = self.tcp_flows@;
        let ghost old_udp = self.udp_flows@;
        let ghost old_flows = self.flows@;
        proof {
            lemma_key_index(keys, ia as int);
            lemma_key_index(keys, ib as int);
            assert forall|i: int| 0 <= i < old_flows.len() implies key_index(keys, old_flows[i].endpoint_a@)
                == key_index(keys0, old_flows[i].endpoint_a@) && key_index(keys, old_flows[i].endpoint_b@)
                == key_index(keys0, old_flows[i].endpoint_b@) by {
                assert(old_flows[i] == old(self).flows@[i]);
                lemma_key_index_stable(keys0, keys, old_flows[i].endpoint_a@);
                lemma_key_index_stable(keys0, keys, old_flows[i].endpoint_b@);
            }
            // The new key is not taken by any flow of this transport.
            assert forall|i: int| 0 <= i < old_flows.len() && old_flows[i].transport == transport
                implies old(self).flow_key(i) != key by {
                assert(old(self).flows@[i] == old_flows[i]);
                lemma_key_index_stable(keys0, keys, old_flows[i].endpoint_a@);
                lemma_key_index_stable(keys0, keys, old_flows[i].endpoint_b@);
                let ka = key_index(keys, old_flows[i].endpoint_a@);
                let kb = key_index(keys, old_flows[i].endpoint_b@);
                if old(self).flow_key(i) == key {
                    lemma_pair_key_injective(ka, kb, ia as int, ib as int);
                    assert(old(self)@.flows[i] == old_flows[i].model());
                    assert(has_key(old(self)@.flows[i], transport, a@, b@));
                }
            }
        }
        match transport {
            Transport::Tcp => {
                self.tcp_flows.insert(key, id as u64);
            },
            Transport::Udp => {
                self.udp_flows.insert(key, id as u64);
            },
        }
        let flow = Flow {
            id: id as u64,
            transport,
            application: application.clone(),
            endpoint_a: a.clone(),
            endpoint_b: b.clone(),
            started_nanos: timestamp,
            ended_nanos: timestamp,
            bytes_a_to_b: 0,
            bytes_b_to_a: 0,
            packet_ids: Vec::new(),
        };
        self.flows.push(flow);
        proof {
            assert(flow.model() == new_flow(id as u64, transport, application@, a@, b@, timestamp)) by {
                assert(flow.packet_ids@ =~= Seq::<u64>::empty());
            }
            assert(self@.flows =~= old(self)@.flows.push(flow.model()));
            assert(self.flow_key(id as int) == key);
            assert forall|i: int| 0 <= i < old_flows.len() implies #[trigger] self.flow_key(i) == old(self).flow_key(i) by {
                assert(self.flows@[i] == old_flows[i]);
            }
            assert forall|i: int|
                #![trigger self.flows@[i]]
                0 <= i < self.flows@.len() implies {
                    &&& keys.contains(self.flows@[i].endpoint_a@)
                    &&& keys.contains(self.flows@[i].endpoint_b@)
                    &&& self.lookup(self.flows@[i].transport).contains_key(self.flow_key(i))
                    &&& self.lookup(self.flows@[i].transport)[self.flow_key(i)] == i
                } by {
                if i < old_flows.len() {
                    assert(self.flows@[i] == old_flows[i]);
                    assert(old(self).flows@[i] == old_flows[i]);
                    assert(keys0.contains(old_flows[i].endpoint_a@));
                    let x = key_index(keys0, old_flows[i].endpoint_a@);
                    assert(keys[x] == keys0[x]);
                    let y = key_index(keys0, old_flows[i].endpoint_b@);
                    assert(keys0.contains(old_flows[i].endpoint_b@));
                    assert(keys[y] == keys0[y]);
                    assert(old(self).lookup(old_flows[i].transport).contains_key(old(self).flow_key(i)));
                    assert(self.flow_key(i) == old(self).flow_key(i));
                    if old_flows[i].transport == transport {
                        assert(old(self).flow_key(i) != key);
                    }
                } else {
                    assert(keys[ia as int] == a@);
                    assert(keys[ib as int] == b@);
                }
            }
            assert forall|t: Transport, k: u128|
                #[trigger] self.lookup(t).contains_key(k) implies {
                    let i = self.lookup(t)[k] as int;
                    &&& 0 <= i < self.flows@.len()
                    &&& self.flows@[i].transport == t
                    &&& self.flow_key(i) == k
                } by {
                if t == transport && k == key {
                } else {
                    assert(old(self).lookup(t).contains_key(k));
                    let i = old(self).lookup(t)[k] as int;
                    assert(self.flows@[i] == old_flows[i]);
                }
            }
        }
        id
    }

    /// Counts one more packet in flow `id`.
    fn step_flow(
        &mut self,
        id: usize,
        timestamp: Option<i128>,
        application: &String,
        a_to_b: bool,
        wire_len: u32,
        packet_id: PacketId,
    )
        requires
            old(self).lookup_wf(),
            id < old(self)@.flows.len(),
        ensures
            final(self).lookup_wf(),
            final(self)@ == (IndexModel {
                flows: old(self)@.flows.update(
                    id as int,
                    flow_step(old(self)@.flows[id as int], timestamp, application@, a_to_b, wire_len, packet_id),
                ),
                ..old(self)@
            }),
            final(self).rows == old(self).rows,
            final(self).entities == old(self).entities,
            final(self).stats == old(self).stats,
    {
        let ghost old_flows = self.flows@;
        if let Some(t) = timestamp {
            let started = match self.flows[id].started_nanos {
                Some(b) if b <= t => b,
                _ => t,
            };
            self.flows[id].started_nanos = Some(started);
            let ended = match self.flows[id].ended_nanos {
                Some(b) if b >= t => b,
                _ => t,
            };
            self.flows[id].ended_nanos = Some(ended);
        }
        let label = crate::text::text(self.flows[id].transport.label());
        if self.flows[id].application == label && *application != self.flows[id].application {
            self.flows[id].application = application.clone();
        }
        if a_to_b {
            let total = add_wrapping(self.flows[id].bytes_a_to_b, wire_len as u64);
            self.flows[id].bytes_a_to_b = total;
        } else {
            let total = add_wrapping(self.flows[id].bytes_b_to_a, wire_len as u64);
            self.flows[id].bytes_b_to_a = total;
        }
        self.flows[id].packet_ids.push(packet_id);
        proof {
            assert(self.flows@ =~= old_flows.update(id as int, self.flows@[id as int]));
            assert(self.flows@[id as int].model() == flow_step(
                old(self)@.flows[id as int],
                timestamp,
                application@,
                a_to_b,
                wire_len,
                packet_id,
            ));
            assert(self@.flows =~= old(self)@.flows.update(
                id as int,
                flow_step(old(self)@.flows[id as int], timestamp, application@, a_to_b, wire_len, packet_id),
            ));
            assert forall|i: int| 0 <= i < self.flows@.len() implies #[trigger] self.flow_key(i) == old(self).flow_key(i)
                && self.flows@[i].transport == old_flows[i].transport
                && self.flows@[i].endpoint_a == old_flows[i].endpoint_a
                && self.flows@[i].endpoint_b == old_flows[i].endpoint_b by {
            }
            assert forall|i: int|
                #![trigger self.flows@[i]]
                0 <= i < self.flows@.len() implies {
                    &&& self.endpoints.keys().contains(self.flows@[i].endpoint_a@)
                    &&& self.endpoints.keys().contains(self.flows@[i].endpoint_b@)
                    &&& self.lookup(self.flows@[i].transport).contains_key(self.flow_key(i))
                    &&& self.lookup(self.flows@[i].transport)[self.flow_key(i)] == i
                } by {
                assert(old(self).flows@[i] == old_flows[i]);
            }
            assert forall|t: Transport, k: u128|
                #[trigger] self.lookup(t).contains_key(k) implies {
                    let i = self.lookup(t)[k] as int;
                    &&& 0 <= i < self.flows@.len()
                    &&& self.flows@[i].transport == t
                    &&& self.flow_key(i) == k
                } by {
                assert(old(self).lookup(t).contains_key(k));
                let i = old(self).lookup(t)[k] as int;
                assert(self.flow_key(i) == old(self).flow_key(i));
            }
        }
    }

    /// The flow with the given transport and endpoints, if there is one.
    fn find_flow(&self, transport: Transport, a: &String, b: &String) -> (r: Option<usize>)
        requires
            self.lookup_wf(),
        ensures
            match r {
                Some(i) => i < self@.flows.len() && has_key(self@.flows[i as int], transport, a@, b@)
                    && flow_index(self@.flows, transport, a@, b@) == Some(i as int),
                None => flow_index(self@.flows, transport, a@, b@) is None,
            },
    {
        let ghost keys = self.endpoints.keys();
        proof {
            self.endpoints.lemma_distinct();
        }
        let ia = match self.endpoints.find(a) {
            Some(i) => i,
            None => {
                assert forall|j: int| 0 <= j < self@.flows.len() implies !has_key(self@.flows[j], transport, a@, b@) by {
                    assert(self.flows@[j].endpoint_a@ == self@.flows[j].endpoint_a);
                }
                return None;
            },
        };
        let ib = match self.endpoints.find(b) {
            Some(i) => i,
            None => {
                assert forall|j: int| 0 <= j < self@.flows.len() implies !has_key(self@.flows[j], transport, a@, b@) by {
                    assert(self.flows@[j].endpoint_b@ == self@.flows[j].endpoint_b);
                }
                return None;
            },
        };
        let key_count = self.endpoints.len();
        let flow_count = self.flows.len();
        let key = ia as u128 * 0x1_0000_0000_0000_0000 + ib as u128;
        let found = match transport {
            Transport::Tcp => self.tcp_flows.get(&key),
            Transport::Udp => self.udp_flows.get(&key),
        };
        proof {
            assert(key == pair_key(ia as int, ib as int));
            assert(key_index(keys, a@) == ia) by {
                let c = key_index(keys, a@);
                assert(keys[ia as int] == a@);
                if c != ia {
                    assert(keys[c] == a@);
                }
            }
            assert(key_index(keys, b@) == ib) by {
                let c = key_index(keys, b@);
                assert(keys[ib as int] == b@);
                if c != ib {
                    assert(keys[c] == b@);
                }
            }
        }
        match found {
            Some(i) => {
                let i = *i;
                proof {
                    assert(self.lookup(transport).contains_key(key));
                    let fa = self.flows@[i as int].endpoint_a@;
                    let fb = self.flows@[i as int].endpoint_b@;
                    assert(keys.contains(fa));
                    assert(keys.contains(fb));
                    let ka = key_index(keys, fa);
                    let kb = key_index(keys, fb);
                    assert(0 <= kb < keys.len());
                    assert(0 <= ka < keys.len());
                    lemma_pair_key_injective(ka, kb, ia as int, ib as int);
                    assert(self@.flows[i as int] == self.flows@[i as int].model());
                    assert(i < flow_count);
                    assert(has_key(self@.flows[i as int], transport, a@, b@));
                    let j = choose|j: int| 0 <= j < self@.flows.len() && has_key(self@.flows[j], transport, a@, b@);
                    assert(self@.flows[j] == self.flows@[j].model());
                    assert(self.flow_key(j) == key);
                    assert(self.lookup(transport)[self.flow_key(j)] == j);
                }
                Some(i as usize)
            },
            None => {
                proof {
                    assert forall|j: int| 0 <= j < self@.flows.len() implies !has_key(self@.flows[j], transport, a@, b@) by {
                        if has_key(self@.flows[j], transport, a@, b@) {
                            assert(self@.flows[j] == self.flows@[j].model());
                            assert(self.lookup(transport).contains_key(self.flow_key(j)));
                        }
                    }
                }
                None
            },
        }
    }
}

impl Default for CaptureIndex {
    /// An empty index.
    fn default() -> (index: CaptureIndex)
        ensures
            index.wf(),
            index@.rows == Seq::<RowModel>::empty(),
            index@.flows == Seq::<FlowModel>::empty(),
            index@.entities.entities.len() == 0,
            index@.entities.parent.len() == 0,
            index@.entities.address_map == Map::<Seq<char>, usize>::empty(),
            index@.entities.active == 0,
            index@.stats == (IndexStats {
                packets: 0,
                flows: 0,
                entities: 0,
                captured_bytes: 0,
                malformed_packets: 0,
            }),
    {
        CaptureIndex::new()
    }
}

/// No two flows share a transport and a pair of endpoints.
pub open spec fn distinct_keys(flows: Seq<FlowModel>) -> bool {
    forall|i: int, j: int|
        #![trigger flows[i], flows[j]]
        0 <= i < flows.len() && 0 <= j < flows.len() && i != j ==> !has_key(
            flows[i],
            flows[j].transport,
            flows[j].endpoint_a,
            flows[j].endpoint_b,
        )
}

/// The time bounds of a flow: both missing, or the first no later than the last.
pub open spec fn bounded(f: FlowModel) -> bool {
    match (f.started_nanos, f.ended_nanos) {
        (None, None) => true,
        (Some(s), Some(e)) => s <= e,
        _ => false,
    }
}

pub open spec fn all_bounded(flows: Seq<FlowModel>) -> bool {
    forall|i: int| 0 <= i < flows.len() ==> #[trigger] bounded(flows[i])
}

/// Whether `r` answers `d`: the same transport with addresses and ports swapped.
pub open spec fn is_reply(d: DecodedView, r: DecodedView) -> bool {
    &&& d.transport matches Some(t)
    &&& r.transport == Some(
        TransportInfo { kind: t.kind, source_port: t.destination_port, destination_port: t.source_port },
    )
    &&& r.source == d.destination
    &&& r.destination == d.source
}

/// The endpoints of a packet's flow: its source and destination endpoints, the one that sorts
/// first as `a`.
pub open spec fn flow_endpoints(d: DecodedView, t: TransportInfo) -> (Seq<char>, Seq<char>) {
    let source = endpoint(d.source, t.source_port);
    let destination = endpoint(d.destination, t.destination_port);
    if !text_lt(destination, source) {
        (source, destination)
    } else {
        (destination, source)
    }
}

/// A packet's flow, found or made, has the packet's transport and endpoints, keeps the keys
/// of all flows distinct and their time bounds in order; flows are never removed.
pub proof fn lemma_flows_after(
    flows: Seq<FlowModel>,
    d: DecodedView,
    timestamp: Option<i128>,
    wire_len: u32,
    packet_id: PacketId,
)
    requires
        distinct_keys(flows),
        all_bounded(flows),
        flows.len() < u64::MAX,
    ensures
        ({
            let (after, id) = flows_after(flows, d, timestamp, wire_len, packet_id);
            &&& distinct_keys(after)
            &&& all_bounded(after)
            &&& flows.len() <= after.len() <= flows.len() + 1
            &&& (id is Some <==> d.transport is Some)
            &&& id matches Some(k) ==> {
                let t = d.transport->0;
                let (a, b) = flow_endpoints(d, t);
                &&& 0 <= k < after.len()
                &&& has_key(after[k as int], t.kind, a, b)
            }
        }),
{
    let (after, id) = flows_after(flows, d, timestamp, wire_len, packet_id);
    match d.transport {
        None => {
            assert(after == flows && id is None);
        },
        Some(t) => {
            let source = endpoint(d.source, t.source_port);
            let destination = endpoint(d.destination, t.destination_port);
            let a_to_b = !text_lt(destination, source);
            let a = if a_to_b { source } else { destination };
            let b = if a_to_b { destination } else { source };
            let (found, k) = match flow_index(flows, t.kind, a, b) {
                Some(i) => (flows, i),
                None => (flows.push(new_flow(flows.len() as u64, t.kind, d.application, a, b, timestamp)), flows.len() as int),
            };
            assert(has_key(found[k], t.kind, a, b));
            assert(distinct_keys(found)) by {
                if flow_index(flows, t.kind, a, b) is None {
                    assert forall|i: int, j: int|
                        #![trigger found[i], found[j]]
                        0 <= i < found.len() && 0 <= j < found.len() && i != j implies !has_key(
                        found[i],
                        found[j].transport,
                        found[j].endpoint_a,
                        found[j].endpoint_b,
                    ) by {
                        if i < flows.len() && j < flows.len() {
                            assert(flows[i] == found[i] && flows[j] == found[j]);
                        } else if i < flows.len() {
                            assert(!has_key(flows[i], t.kind, a, b));
                        } else {
                            assert(!has_key(flows[j], t.kind, a, b));
                        }
                    }
                }
            }
            let stepped = flow_step(found[k], timestamp, d.application, a_to_b, wire_len, packet_id);
            assert(bounded(stepped)) by {
                assert(bounded(found[k]));
            }
            assert forall|i: int, j: int|
                #![trigger after[i], after[j]]
                0 <= i < after.len() && 0 <= j < after.len() && i != j implies !has_key(
                after[i],
                after[j].transport,
                after[j].endpoint_a,
                after[j].endpoint_b,
            ) by {
                assert(found[i].transport == after[i].transport && found[i].endpoint_a == after[i].endpoint_a
                    && found[i].endpoint_b == after[i].endpoint_b);
                assert(found[j].transport == after[j].transport && found[j].endpoint_a == after[j].endpoint_a
                    && found[j].endpoint_b == after[j].endpoint_b);
            }
            assert forall|i: int| 0 <= i < after.len() implies #[trigger] bounded(after[i]) by {
                if i != k {
                    assert(after[i] == found[i]);
                }
            }
        },
    }
}

/// Flows are bidirectional: a reply to a packet lands in the packet's flow, and makes no new
/// flow.
pub proof fn lemma_reply_joins_flow(
    flows: Seq<FlowModel>,
    d: DecodedView,
    r: DecodedView,
    timestamp: Option<i128>,
    reply_timestamp: Option<i128>,
    wire_len: u32,
    reply_wire_len: u32,
    packet_id: PacketId,
    reply_id: PacketId,
)
    requires
        distinct_keys(flows),
        all_bounded(flows),
        flows.len() < u64::MAX,
        is_reply(d, r),
    ensures
        ({
            let (after, id) = flows_after(flows, d, timestamp, wire_len, packet_id);
            let (last, reply_flow) = flows_after(after, r, reply_timestamp, reply_wire_len, reply_id);
            &&& reply_flow == id
            &&& last.len() == after.len()
        }),
{
    lemma_flows_after(flows, d, timestamp, wire_len, packet_id);
    let (after, id) = flows_after(flows, d, timestamp, wire_len, packet_id);
    let t = d.transport->0;
    let source = endpoint(d.source, t.source_port);
    let destination = endpoint(d.destination, t.destination_port);
    let a_to_b = !text_lt(destination, source);
    let a = if a_to_b { source } else { destination };
    let b = if a_to_b { destination } else { source };
    let back = !text_lt(source, destination);
    if source != destination {
        lemma_text_lt_total(source, destination);
        if text_lt(source, destination) {
            lemma_text_lt_asymmetric(source, destination);
        } else {
            lemma_text_lt_asymmetric(destination, source);
        }
    }
    let ra = if back { destination } else { source };
    let rb = if back { source } else { destination };
    assert(ra == a && rb == b);
    let k = id->0 as int;
    let found = flow_index(after, t.kind, a, b);
    assert(found == Some(k)) by {
        let c = choose|i: int| 0 <= i < after.len() && has_key(after[i], t.kind, a, b);
        if c != k {
            assert(!has_key(after[c], after[k].transport, after[k].endpoint_a, after[k].endpoint_b));
        }
    }
}

/// Rows stay in capture order: each added packet gets the next id and a row at that position,
/// and the counters keep counting rows and flows.
pub proof fn lemma_add_row(
    m: IndexModel,
    timestamp: Option<i128>,
    file_offset: u64,
    captured_len: u32,
    wire_len: u32,
    decoded: Option<DecodedView>,
)
    requires
        forall|i: int| 0 <= i < m.rows.len() ==> (#[trigger] m.rows[i]).id == i,
        m.stats.packets == m.rows.len(),
        m.stats.flows == m.flows.len(),
        m.rows.len() < u64::MAX,
        m.flows.len() < u64::MAX,
    ensures
        ({
            let n = m.add(timestamp, file_offset, captured_len, wire_len, decoded);
            &&& n.rows.len() == m.rows.len() + 1
            &&& forall|i: int| 0 <= i < m.rows.len() ==> #[trigger] n.rows[i] == m.rows[i]
            &&& forall|i: int| 0 <= i < n.rows.len() ==> (#[trigger] n.rows[i]).id == i
            &&& n.rows.last().file_offset == file_offset
            &&& n.rows.last().timestamp_nanos == timestamp
            &&& n.stats.packets == n.rows.len()
            &&& n.stats.flows == n.flows.len()
        }),
{
    if let Some(d) = decoded {
        let packet_id = m.rows.len() as u64;
        assert(m.add(timestamp, file_offset, captured_len, wire_len, decoded).flows == flows_after(
            m.flows,
            d,
            timestamp,
            wire_len,
            packet_id,
        ).0);
    }
}

/// In an index, the row of a reply carries the flow of the packet it answers.
pub proof fn lemma_reply_row_flow(
    m: IndexModel,
    d: DecodedView,
    r: DecodedView,
    timestamp: Option<i128>,
    reply_timestamp: Option<i128>,
    file_offset: u64,
    reply_offset: u64,
    captured_len: u32,
    reply_captured_len: u32,
    wire_len: u32,
    reply_wire_len: u32,
)
    requires
        distinct_keys(m.flows),
        all_bounded(m.flows),
        m.flows.len() < u64::MAX,
        is_reply(d, r),
    ensures
        ({
            let m1 = m.add(timestamp, file_offset, captured_len, wire_len, Some(d));
            let m2 = m1.add(reply_timestamp, reply_offset, reply_captured_len, reply_wire_len, Some(r));
            &&& m1.rows.last().flow_id is Some
            &&& m2.rows.last().flow_id == m1.rows.last().flow_id
            &&& m2.flows.len() == m1.flows.len()
        }),
{
    let id1 = m.rows.len() as u64;
    let id2 = (m.rows.len() + 1) as u64;
    lemma_reply_joins_flow(m.flows, d, r, timestamp, reply_timestamp, wire_len, reply_wire_len, id1, id2);
    lemma_flows_after(m.flows, d, timestamp, wire_len, id1);
    let m1 = m.add(timestamp, file_offset, captured_len, wire_len, Some(d));
    assert(m1.flows == flows_after(m.flows, d, timestamp, wire_len, id1).0);
    assert(m1.rows.len() == m.rows.len() + 1);
}

/// The earliest timestamp of the given packets; packets without one are passed over.
pub open spec fn first_time(rows: Seq<RowModel>, ids: Seq<PacketId>) -> Option<i128>
    decreases ids.len(),
{
    if ids.len() == 0 {
        None
    } else {
        earliest(first_time(rows, ids.drop_last()), rows[ids.last() as int].timestamp_nanos)
    }
}

/// The latest timestamp of the given packets; packets without one are passed over.
pub open spec fn last_time(rows: Seq<RowModel>, ids: Seq<PacketId>) -> Option<i128>
    decreases ids.len(),
{
    if ids.len() == 0 {
        None
    } else {
        latest(last_time(rows, ids.drop_last()), rows[ids.last() as int].timestamp_nanos)
    }
}

/// What an index keeps of its `i`-th flow: its id is `i`, its packets are rows of the index,
/// and its time bounds are the earliest and latest timestamps of those packets.
pub open spec fn flow_matches(rows: Seq<RowModel>, f: FlowModel, i: int) -> bool {
    &&& f.id == i
    &&& forall|k: int| 0 <= k < f.packet_ids.len() ==> #[trigger] f.packet_ids[k] < rows.len()
    &&& forall|k: int|
        0 <= k < f.packet_ids.len() ==> rows[#[trigger] f.packet_ids[k] as int].flow_id == Some(i as FlowId)
    &&& f.started_nanos == first_time(rows, f.packet_ids)
    &&& f.ended_nanos == last_time(rows, f.packet_ids)
}

/// What holds of the flows of every index: distinct keys, ordered time bounds that are the
/// earliest and latest timestamps of each flow's packets, and a flow counter that counts them.
pub open spec fn flow_records(m: IndexModel) -> bool {
    &&& m.flows.len() <= m.rows.len()
    &&& distinct_keys(m.flows)
    &&& all_bounded(m.flows)
    &&& m.stats.flows == m.flows.len()
    &&& forall|i: int| 0 <= i < m.flows.len() ==> flow_matches(m.rows, #[trigger] m.flows[i], i)
}

proof fn lemma_times_prefix(rows: Seq<RowModel>, row: RowModel, ids: Seq<PacketId>)
    requires
        forall|k: int| 0 <= k < ids.len() ==> #[trigger] ids[k] < rows.len(),
    ensures
        first_time(rows.push(row), ids) == first_time(rows, ids),
        last_time(rows.push(row), ids) == last_time(rows, ids),
    decreases ids.len(),
{
    if ids.len() > 0 {
        let init = ids.drop_last();
        assert forall|k: int| 0 <= k < init.len() implies #[trigger] init[k] < rows.len() by {
            assert(init[k] == ids[k]);
        }
        lemma_times_prefix(rows, row, init);
        assert(ids.last() == ids[ids.len() - 1]);
    }
}

/// After a packet, every flow still matches the rows, the new row appended.
proof fn lemma_flows_after_times(
    rows: Seq<RowModel>,
    flows: Seq<FlowModel>,
    d: DecodedView,
    timestamp: Option<i128>,
    wire_len: u32,
    row: RowModel,
)
    requires
        forall|i: int| 0 <= i < flows.len() ==> flow_matches(rows, #[trigger] flows[i], i),
        row.timestamp_nanos == timestamp,
        row.flow_id == flows_after(flows, d, timestamp, wire_len, rows.len() as u64).1,
        flows.len() < u64::MAX,
        rows.len() < u64::MAX,
    ensures
        ({
            let after = flows_after(flows, d, timestamp, wire_len, rows.len() as u64).0;
            forall|i: int| 0 <= i < after.len() ==> flow_matches(rows.push(row), #[trigger] after[i], i)
        }),
{
    let next = rows.push(row);
    let pid = rows.len() as u64;
    assert forall|i: int| 0 <= i < flows.len() implies flow_matches(next, #[trigger] flows[i], i) by {
        lemma_times_prefix(rows, row, flows[i].packet_ids);
        assert forall|k: int| 0 <= k < flows[i].packet_ids.len() implies next[
            #[trigger] flows[i].packet_ids[k] as int
        ].flow_id == Some(i as FlowId) by {
            assert(next[flows[i].packet_ids[k] as int] == rows[flows[i].packet_ids[k] as int]);
        }
    }
    match d.transport {
        None => {},
        Some(t) => {
            let source = endpoint(d.source, t.source_port);
            let destination = endpoint(d.destination, t.destination_port);
            let a_to_b = !text_lt(destination, source);
            let a = if a_to_b { source } else { destination };
            let b = if a_to_b { destination } else { source };
            let (found, k) = match flow_index(flows, t.kind, a, b) {
                Some(i) => (flows, i),
                None => (flows.push(new_flow(flows.len() as u64, t.kind, d.application, a, b, timestamp)), flows.len() as int),
            };
            let after = flows_after(flows, d, timestamp, wire_len, pid).0;
            let old = found[k];
            let stepped = flow_step(old, timestamp, d.application, a_to_b, wire_len, pid);
            assert(after == found.update(k, stepped));
            assert(stepped.packet_ids.drop_last() =~= old.packet_ids);
            if flow_index(flows, t.kind, a, b) is None {
                assert(old.packet_ids =~= Seq::<PacketId>::empty());
                assert(first_time(next, old.packet_ids) == None::<i128>);
                assert(last_time(next, old.packet_ids) == None::<i128>);
            } else {
                assert(flow_matches(next, flows[k], k));
            }
            assert(next[pid as int].timestamp_nanos == timestamp);
            assert(flow_matches(next, stepped, k));
            assert forall|i: int| 0 <= i < after.len() implies flow_matches(next, #[trigger] after[i], i) by {
                if i != k {
                    assert(after[i] == found[i]);
                    assert(found[i] == flows[i]);
                }
            }
        },
    }
}

/// Adding a packet keeps the flow records of an index.
pub proof fn lemma_add_keeps_records(
    m: IndexModel,
    timestamp: Option<i128>,
    file_offset: u64,
    captured_len: u32,
    wire_len: u32,
    decoded: Option<DecodedView>,
)
    requires
        flow_records(m),
        m.rows.len() < u64::MAX,
    ensures
        flow_records(m.add(timestamp, file_offset, captured_len, wire_len, decoded)),
{
    let n = m.add(timestamp, file_offset, captured_len, wire_len, decoded);
    let pid = m.rows.len() as u64;
    let row = n.rows.last();
    assert(n.rows == m.rows.push(row));
    match decoded {
        None => {
            assert forall|i: int| 0 <= i < n.flows.len() implies flow_matches(n.rows, #[trigger] n.flows[i], i) by {
                lemma_times_prefix(m.rows, row, m.flows[i].packet_ids);
            }
        },
        Some(d) => {
            assert(n.flows == flows_after(m.flows, d, timestamp, wire_len, pid).0);
            lemma_flows_after(m.flows, d, timestamp, wire_len, pid);
            lemma_flows_after_times(m.rows, m.flows, d, timestamp, wire_len, row);
        },
    }
}

/// What one packet does to the flows of an index, from `m` to `n`. A packet that was not
/// decoded, or has no transport, touches no flow and its row names none. Otherwise its flow is
/// the one with its transport and its two endpoints (the one that sorts first as `a`), so a
/// packet and its reply share it; it is made, with the next id, only when no flow has that key.
/// The flow counts the packet, its bytes in the packet's direction and its timestamp, every
/// other flow stays as it was, and the counter of flows counts the flows.
pub open spec fn adds_to_flow(
    m: IndexModel,
    n: IndexModel,
    timestamp: Option<i128>,
    wire_len: u32,
    decoded: Option<DecodedView>,
) -> bool {
    let pid = m.rows.len() as u64;
    &&& n.stats.flows == n.flows.len()
    &&& n.rows.len() == m.rows.len() + 1
    &&& n.rows.last().id == pid
    &&& match decoded {
        Some(d) if d.transport is Some => {
            let t = d.transport->0;
            let (a, b) = flow_endpoints(d, t);
            let a_to_b = a == endpoint(d.source, t.source_port);
            let existing = flow_index(m.flows, t.kind, a, b);
            let f = n.rows.last().flow_id->0 as int;
            let before = match existing {
                Some(i) => m.flows[i],
                None => new_flow(m.flows.len() as u64, t.kind, d.application, a, b, timestamp),
            };
            &&& n.rows.last().flow_id is Some
            &&& existing matches Some(i) ==> f == i && n.flows.len() == m.flows.len()
            &&& existing is None ==> f == m.flows.len() && n.flows.len() == m.flows.len() + 1
            &&& has_key(n.flows[f], t.kind, a, b)
            &&& n.flows[f] == flow_step(before, timestamp, d.application, a_to_b, wire_len, pid)
            &&& forall|j: int| 0 <= j < m.flows.len() && j != f ==> #[trigger] n.flows[j] == m.flows[j]
        },
        _ => {
            &&& n.flows == m.flows
            &&& n.rows.last().flow_id is None
        },
    }
}

/// Adding a packet to an index does to its flows what [`adds_to_flow`] says.
pub proof fn lemma_add_flow(
    m: IndexModel,
    timestamp: Option<i128>,
    file_offset: u64,
    captured_len: u32,
    wire_len: u32,
    decoded: Option<DecodedView>,
)
    requires
        flow_records(m),
        m.rows.len() < u64::MAX,
    ensures
        adds_to_flow(m, m.add(timestamp, file_offset, captured_len, wire_len, decoded), timestamp, wire_len, decoded),
{
    lemma_add_keeps_records(m, timestamp, file_offset, captured_len, wire_len, decoded);
    let n = m.add(timestamp, file_offset, captured_len, wire_len, decoded);
    let pid = m.rows.len() as u64;
    if let Some(d) = decoded {
        assert(n.flows == flows_after(m.flows, d, timestamp, wire_len, pid).0);
        if let Some(t) = d.transport {
            let source = endpoint(d.source, t.source_port);
            let destination = endpoint(d.destination, t.destination_port);
            if text_lt(destination, source) {
                lemma_text_lt_irreflexive(source);
                assert(destination != source);
            }
        }
    }
}

impl CaptureIndex {
    /// The flows of every index keep their records: distinct keys, ordered time bounds that
    /// are the earliest and latest timestamps of their packets, and a counter that counts them.
    pub proof fn lemma_flow_records(&self)
        requires
            self.wf(),
        ensures
            flow_records(self@),
            all_bounded(self@.flows),
            self@.stats.packets == self@.rows.len(),
            crate::entities::store_laws(self@.entities),
    {
        self.entities.lemma_wf();
    }

    /// Every flow of an index has a transport and pair of endpoints of its own.
    pub proof fn lemma_flow_keys_distinct(&self)
        requires
            self.wf(),
        ensures
            distinct_keys(self@.flows),
    {
        let flows = self@.flows;
        assert forall|i: int, j: int|
            #![trigger flows[i], flows[j]]
            0 <= i < flows.len() && 0 <= j < flows.len() && i != j implies !has_key(
            flows[i],
            flows[j].transport,
            flows[j].endpoint_a,
            flows[j].endpoint_b,
        ) by {
            if has_key(flows[i], flows[j].transport, flows[j].endpoint_a, flows[j].endpoint_b) {
                assert(self.flows@[i].model() == flows[i]);
                assert(self.flows@[j].model() == flows[j]);
                assert(self.flow_key(i) == self.flow_key(j));
                assert(self.lookup(self.flows@[i].transport)[self.flow_key(i)] == i);
                assert(self.lookup(self.flows@[j].transport)[self.flow_key(j)] == j);
            }
        }
    }
}

/// A flow labelled only with its transport ("TCP" or "UDP") takes the application of the first
/// packet that names a more specific one; a flow with any other label keeps it; a new flow
/// takes the application of its first packet.
pub proof fn lemma_flow_application(
    m: IndexModel,
    timestamp: Option<i128>,
    file_offset: u64,
    captured_len: u32,
    wire_len: u32,
    d: DecodedView,
)
    requires
        flow_records(m),
        m.rows.len() < u64::MAX,
        d.transport is Some,
    ensures
        ({
            let n = m.add(timestamp, file_offset, captured_len, wire_len, Some(d));
            let t = d.transport->0;
            let (a, b) = flow_endpoints(d, t);
            match flow_index(m.flows, t.kind, a, b) {
                Some(i) => {
                    &&& (m.flows[i].application == t.kind.label_text() && d.application != m.flows[i].application)
                        ==> n.flows[i].application == d.application
                    &&& m.flows[i].application != t.kind.label_text() ==> n.flows[i].application
                        == m.flows[i].application
                    &&& d.application == m.flows[i].application ==> n.flows[i].application == m.flows[i].application
                },
                None => n.flows[m.flows.len() as int].application == d.application,
            }
        }),
{
    lemma_add_flow(m, timestamp, file_offset, captured_len, wire_len, Some(d));
    let t = d.transport->0;
    let (a, b) = flow_endpoints(d, t);
    if let Some(i) = flow_index(m.flows, t.kind, a, b) {
        assert(has_key(m.flows[i], t.kind, a, b));
    }
}

} // verus!
