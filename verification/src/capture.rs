//! Incremental framing of PCAP and PCAPNG captures: bytes arrive in chunks of any size, every
//! complete record is decoded and added to the index, and the rest waits for more bytes.
use vstd::prelude::*;
use vstd::slice::slice_subrange;
use crate::decode::{decode_packet, spec_decode_packet};
use crate::entities::{EntityModel, StoreModel};
use crate::model::{CaptureIndex, IndexModel, IndexStats};
use crate::text::{decimal, push_decimal, text};

verus! {

/// The largest block or packet a capture may hold, in bytes.
pub const MAX_BLOCK_SIZE: usize = 67108864;

/// Byte order of a capture's numbers.
#[derive(Clone, Copy, Debug, PartialEq, Eq, Structural)]
pub enum Endian {
    Little,
    Big,
}

impl Endian {
    /// The 16-bit number of the two bytes at `at`.
    pub open spec fn u16_at(self, b: Seq<u8>, at: int) -> u16 {
        match self {
            Endian::Little => (b[at] as int + b[at + 1] as int * 256) as u16,
            Endian::Big => (b[at] as int * 256 + b[at + 1] as int) as u16,
        }
    }

    /// The 32-bit number of the four bytes at `at`.
    pub open spec fn u32_at(self, b: Seq<u8>, at: int) -> u32 {
        match self {
            Endian::Little => (b[at] as int + b[at + 1] as int * 0x100 + b[at + 2] as int * 0x10000
                + b[at + 3] as int * 0x1000000) as u32,
            Endian::Big => (b[at] as int * 0x1000000 + b[at + 1] as int * 0x10000 + b[at + 2] as int
                * 0x100 + b[at + 3] as int) as u32,
        }
    }

    /// The two's-complement 64-bit number of the eight bytes at `at`.
    pub open spec fn i64_at(self, b: Seq<u8>, at: int) -> i64 {
        let (high, low) = match self {
            Endian::Little => (self.u32_at(b, at + 4), self.u32_at(b, at)),
            Endian::Big => (self.u32_at(b, at), self.u32_at(b, at + 4)),
        };
        let v = high as int * 0x1_0000_0000 + low as int;
        if v < 0x8000_0000_0000_0000 {
            v as i64
        } else {
            (v - 0x1_0000_0000_0000_0000) as i64
        }
    }

    pub fn u16(self, bytes: &[u8], at: usize) -> (v: u16)
        requires
            at + 2 <= bytes@.len(),
        ensures
            v == self.u16_at(bytes@, at as int),
    {
        match self {
            Endian::Little => bytes[at] as u16 + bytes[at + 1] as u16 * 256,
            Endian::Big => bytes[at] as u16 * 256 + bytes[at + 1] as u16,
        }
    }

    pub fn u32(self, bytes: &[u8], at: usize) -> (v: u32)
        requires
            at + 4 <= bytes@.len(),
        ensures
            v == self.u32_at(bytes@, at as int),
    {
        match self {
            Endian::Little => bytes[at] as u32 + bytes[at + 1] as u32 * 0x100 + bytes[at + 2] as u32
                * 0x10000 + bytes[at + 3] as u32 * 0x1000000,
            Endian::Big => bytes[at] as u32 * 0x1000000 + bytes[at + 1] as u32 * 0x10000 + bytes[at
                + 2] as u32 * 0x100 + bytes[at + 3] as u32,
        }
    }

    pub fn i64(self, bytes: &[u8], at: usize) -> (v: i64)
        requires
            at + 8 <= bytes@.len(),
        ensures
            v == self.i64_at(bytes@, at as int),
    {
        let _len = bytes.len();
        let (high, low) = match self {
            Endian::Little => (self.u32(bytes, at + 4), self.u32(bytes, at)),
            Endian::Big => (self.u32(bytes, at), self.u32(bytes, at + 4)),
        };
        let v = high as u64 * 0x1_0000_0000 + low as u64;
        if v < 0x8000_0000_0000_0000 {
            v as i64
        } else {
            let below = v - 0x8000_0000_0000_0000;
            (below as i64) - 0x7fff_ffff_ffff_ffff - 1
        }
    }
}

/// Whether the four bytes at `at` are `a b c d`.
pub open spec fn bytes_are(s: Seq<u8>, at: int, a: u8, b: u8, c: u8, d: u8) -> bool {
    s[at] == a && s[at + 1] == b && s[at + 2] == c && s[at + 3] == d
}

fn bytes_equal(s: &[u8], at: usize, a: u8, b: u8, c: u8, d: u8) -> (r: bool)
    requires
        at + 4 <= s@.len(),
    ensures
        r == bytes_are(s@, at as int, a, b, c, d),
{
    s[at] == a && s[at + 1] == b && s[at + 2] == c && s[at + 3] == d
}

/// The number of nanoseconds in ten to the power `k` nanoseconds, for `k` up to nine.
pub open spec fn decimal_scale(k: nat) -> nat {
    if k == 0 {
        1
    } else if k == 1 {
        10
    } else if k == 2 {
        100
    } else if k == 3 {
        1_000
    } else if k == 4 {
        10_000
    } else if k == 5 {
        100_000
    } else if k == 6 {
        1_000_000
    } else if k == 7 {
        10_000_000
    } else if k == 8 {
        100_000_000
    } else {
        1_000_000_000
    }
}

/// `n` divided `k` times by `d`, each time rounding down: `n / d^k` rounded down.
pub open spec fn divide_repeatedly(n: nat, d: nat, k: nat) -> nat
    decreases k,
{
    if k == 0 {
        n
    } else {
        divide_repeatedly(n, d, (k - 1) as nat) / d
    }
}

/// Whole nanoseconds of `ticks` ticks of a PCAPNG `if_tsresol` resolution: below 128 a tick is
/// 10^-r seconds, from 128 on it is 2^-(r - 128) seconds; fractions of a nanosecond are dropped.
pub open spec fn ticks_to_nanos(ticks: nat, resolution: u8) -> nat {
    if resolution < 128 {
        if resolution <= 9 {
            ticks * decimal_scale((9 - resolution) as nat)
        } else {
            divide_repeatedly(ticks, 10, (resolution - 9) as nat)
        }
    } else {
        divide_repeatedly(ticks * 1_000_000_000, 2, (resolution - 128) as nat)
    }
}

fn divide_loop(n: u128, d: u128, k: u8) -> (r: u128)
    requires
        d > 0,
    ensures
        r == divide_repeatedly(n as nat, d as nat, k as nat),
{
    let mut r = n;
    let mut i: u8 = 0;
    while i < k
        invariant
            d > 0,
            i <= k,
            r == divide_repeatedly(n as nat, d as nat, i as nat),
        decreases k - i,
    {
        r = r / d;
        i += 1;
    }
    r
}

/// Dividing never makes a number larger.
proof fn lemma_divide_repeatedly_bound(n: nat, d: nat, k: nat)
    requires
        d >= 1,
    ensures
        divide_repeatedly(n, d, k) <= n,
    decreases k,
{
    if k > 0 {
        lemma_divide_repeatedly_bound(n, d, (k - 1) as nat);
        let m = divide_repeatedly(n, d, (k - 1) as nat);
        assert(m / d <= m) by (nonlinear_arith)
            requires
                d >= 1,
        ;
    }
}

/// Nanoseconds of `ticks` ticks of the given resolution.
pub fn nanos_of_ticks(ticks: u64, resolution: u8) -> (r: u128)
    ensures
        r == ticks_to_nanos(ticks as nat, resolution),
        r <= 0xffff_ffff_ffff_ffff * 1_000_000_000,
{
    proof {
        lemma_divide_repeatedly_bound(ticks as nat, 10, (resolution - 9) as nat);
        lemma_divide_repeatedly_bound(ticks as nat * 1_000_000_000, 2, (resolution - 128) as nat);
    }
    if resolution < 128 {
        if resolution <= 9 {
            let k = 9 - resolution;
            let scale: u128 = if k == 0 {
                1
            } else if k == 1 {
                10
            } else if k == 2 {
                100
            } else if k == 3 {
                1_000
            } else if k == 4 {
                10_000
            } else if k == 5 {
                100_000
            } else if k == 6 {
                1_000_000
            } else if k == 7 {
                10_000_000
            } else if k == 8 {
                100_000_000
            } else {
                1_000_000_000
            };
            assert(ticks as u128 * scale <= 0xffff_ffff_ffff_ffff * 1_000_000_000) by (nonlinear_arith)
                requires
                    scale <= 1_000_000_000,
                    ticks <= 0xffff_ffff_ffff_ffff,
            ;
            ticks as u128 * scale
        } else {
            divide_loop(ticks as u128, 10, resolution - 9)
        }
    } else {
        divide_loop(ticks as u128 * 1_000_000_000, 2, resolution - 128)
    }
}


/// Whether the fraction of a PCAP timestamp counts microseconds or nanoseconds.
#[derive(Clone, Copy, Debug, PartialEq, Eq, Structural)]
pub enum TimeUnit {
    Micro,
    Nano,
}

/// What a PCAP file header says about every record after it.
#[derive(Clone, Copy, Debug, PartialEq, Eq, Structural)]
pub struct PcapConfig {
    pub endian: Endian,
    pub unit: TimeUnit,
    pub link_type: u16,
}

/// A PCAPNG interface: its link type, snapshot length, `if_tsresol` byte (6 when absent, one
/// tick per microsecond) and `if_tsoffset` in seconds (0 when absent).
#[derive(Clone, Copy, Debug, PartialEq, Eq, Structural)]
pub struct Interface {
    pub link_type: u16,
    pub snap_len: u32,
    pub resolution: u8,
    pub offset_seconds: i64,
}

/// The state of a PCAPNG section: its byte order, once a section header was read, and the
/// interfaces described since.
pub struct NgModel {
    pub endian: Option<Endian>,
    pub interfaces: Seq<Interface>,
}

/// What the parser knows of the capture's format.
pub enum FormatModel {
    Unknown,
    Pcap(PcapConfig),
    PcapNg(NgModel),
}

/// Why a capture was refused.
#[derive(Clone, Copy, Debug, PartialEq, Eq, Structural)]
pub enum CaptureError {
    AlreadyComplete,
    UnsupportedMagic,
    InvalidByteOrderMagic,
    DataBeforeSectionHeader,
    InvalidBlockLength(u32),
    SectionHeaderTooShort,
    TrailerMismatch,
    TruncatedInterfaceBlock,
    TruncatedInterfaceOption,
    TruncatedEnhancedPacket,
    MissingInterface(u32),
    InvalidCapturedLength,
    NoInterface,
    TruncatedSimplePacket,
    PcapPacketTooLarge(u32),
    UnknownFormat,
    IncompleteRecord(u64),
}

/// One step of framing at the start of the unread bytes: more bytes are needed, the capture is
/// refused, or a record was read, giving the new format state, the new index and the number of
/// bytes it took.
pub enum StepModel {
    Stop,
    Fail(CaptureError),
    Next(FormatModel, IndexModel, int),
}

/// Where framing stopped: the format state and index reached, the bytes consumed up to the
/// first incomplete record, and the error that stopped it, if one did.
pub struct Outcome {
    pub format: FormatModel,
    pub index: IndexModel,
    pub consumed: int,
    pub error: Option<CaptureError>,
}

/// The index after one packet, decoded with the given link type.
#[verifier::opaque]
pub open spec fn record(
    index: IndexModel,
    timestamp: Option<i128>,
    file_offset: int,
    captured_len: u32,
    wire_len: u32,
    link_type: u16,
    packet: Seq<u8>,
) -> IndexModel {
    index.add(timestamp, file_offset as u64, captured_len, wire_len, spec_decode_packet(link_type, packet))
}

/// An option value rounded up to whole 32-bit words.
pub open spec fn padded(length: int) -> int {
    (length + 3) / 4 * 4
}

/// The `if_tsresol` and `if_tsoffset` values of the options from `cursor` up to `end`, starting
/// from the values already seen; a later option of a kind replaces an earlier one.
pub open spec fn interface_options(
    block: Seq<u8>,
    endian: Endian,
    cursor: int,
    end: int,
    resolution: u8,
    offset: i64,
) -> Result<(u8, i64), CaptureError>
    decreases if cursor <= end { end - cursor } else { 0 },
{
    if cursor < 0 || cursor + 4 > end {
        Ok((resolution, offset))
    } else {
        let code = endian.u16_at(block, cursor);
        let length = endian.u16_at(block, cursor + 2) as int;
        let value = cursor + 4;
        proof {
            assert(padded(length) >= 0) by (nonlinear_arith)
                requires
                    length >= 0,
            ;
        }
        if code == 0 {
            Ok((resolution, offset))
        } else if value + length > end {
            Err(CaptureError::TruncatedInterfaceOption)
        } else if code == 9 && length >= 1 {
            interface_options(block, endian, value + padded(length), end, block[value], offset)
        } else if code == 14 && length == 8 {
            interface_options(block, endian, value + padded(length), end, resolution, endian.i64_at(block, value))
        } else {
            interface_options(block, endian, value + padded(length), end, resolution, offset)
        }
    }
}

/// The interface an interface description block describes.
pub open spec fn interface_block(block: Seq<u8>, endian: Endian) -> Result<Interface, CaptureError> {
    if block.len() < 20 {
        Err(CaptureError::TruncatedInterfaceBlock)
    } else {
        match interface_options(block, endian, 16, block.len() - 4, 6, 0) {
            Ok((resolution, offset)) => Ok(
                Interface {
                    link_type: endian.u16_at(block, 8),
                    snap_len: endian.u32_at(block, 12),
                    resolution: resolution,
                    offset_seconds: offset,
                },
            ),
            Err(e) => Err(e),
        }
    }
}

/// The tick count of an enhanced packet block.
pub open spec fn enhanced_ticks(block: Seq<u8>, endian: Endian) -> nat {
    (endian.u32_at(block, 12) as nat) * 0x1_0000_0000 + endian.u32_at(block, 16) as nat
}

/// The timestamp of `ticks` ticks of an interface, in nanoseconds.
pub open spec fn interface_nanos(interface: Interface, ticks: nat) -> int {
    ticks_to_nanos(ticks, interface.resolution) + interface.offset_seconds * 1_000_000_000
}

/// The index after an enhanced packet block that starts at file offset `at`.
pub open spec fn enhanced_packet(
    block: Seq<u8>,
    endian: Endian,
    config: NgModel,
    at: int,
    index: IndexModel,
) -> Result<IndexModel, CaptureError> {
    if block.len() < 32 {
        Err(CaptureError::TruncatedEnhancedPacket)
    } else {
        let id = endian.u32_at(block, 8);
        if id >= config.interfaces.len() {
            Err(CaptureError::MissingInterface(id))
        } else {
            let interface = config.interfaces[id as int];
            let captured = endian.u32_at(block, 20);
            if captured > MAX_BLOCK_SIZE || 28 + captured > block.len() - 4 {
                Err(CaptureError::InvalidCapturedLength)
            } else {
                Ok(
                    record(
                        index,
                        Some(interface_nanos(interface, enhanced_ticks(block, endian)) as i128),
                        at + 28,
                        captured,
                        endian.u32_at(block, 24),
                        interface.link_type,
                        block.subrange(28, 28 + captured),
                    ),
                )
            }
        }
    }
}

/// The bytes a simple packet block holds of its packet: what fits in the block, the wire
/// length and the first interface's snapshot length (a snapshot length of 0 means no limit).
pub open spec fn simple_captured(padded_len: int, wire_len: u32, snap_len: u32) -> int {
    let snap = if snap_len == 0 { padded_len } else { snap_len as int };
    let m = if padded_len <= wire_len { padded_len } else { wire_len as int };
    if m <= snap { m } else { snap }
}

/// The index after a simple packet block that starts at file offset `at`; it has no timestamp.
pub open spec fn simple_packet(
    block: Seq<u8>,
    endian: Endian,
    config: NgModel,
    at: int,
    index: IndexModel,
) -> Result<IndexModel, CaptureError> {
    if config.interfaces.len() == 0 {
        Err(CaptureError::NoInterface)
    } else if block.len() < 16 {
        Err(CaptureError::TruncatedSimplePacket)
    } else {
        let interface = config.interfaces[0];
        let wire_len = endian.u32_at(block, 8);
        let captured = simple_captured(block.len() - 16, wire_len, interface.snap_len);
        Ok(
            record(
                index,
                None,
                at + 12,
                captured as u32,
                wire_len,
                interface.link_type,
                block.subrange(12, 12 + captured),
            ),
        )
    }
}


/// The byte order and time unit a PCAP magic number stands for.
pub open spec fn pcap_magic(head: Seq<u8>) -> Option<(Endian, TimeUnit)> {
    if bytes_are(head, 0, 0xd4, 0xc3, 0xb2, 0xa1) {
        Some((Endian::Little, TimeUnit::Micro))
    } else if bytes_are(head, 0, 0xa1, 0xb2, 0xc3, 0xd4) {
        Some((Endian::Big, TimeUnit::Micro))
    } else if bytes_are(head, 0, 0x4d, 0x3c, 0xb2, 0xa1) {
        Some((Endian::Little, TimeUnit::Nano))
    } else if bytes_are(head, 0, 0xa1, 0xb2, 0x3c, 0x4d) {
        Some((Endian::Big, TimeUnit::Nano))
    } else {
        None
    }
}

/// Whether the four bytes at `at` are the PCAPNG section header block type.
pub open spec fn is_section_type(s: Seq<u8>, at: int) -> bool {
    bytes_are(s, at, 0x0a, 0x0d, 0x0d, 0x0a)
}

/// The first step while the format is not known: PCAPNG starts with a section header block;
/// PCAP starts with a 24-byte file header whose magic number gives the byte order and time
/// unit, and whose link type (the low 16 bits of a 32-bit field) holds for every record.
pub open spec fn detect_step(index: IndexModel, rest: Seq<u8>) -> StepModel {
    if rest.len() < 4 {
        StepModel::Stop
    } else if is_section_type(rest.take(4), 0) {
        StepModel::Next(FormatModel::PcapNg(NgModel { endian: None, interfaces: Seq::empty() }), index, 0)
    } else if rest.len() < 24 {
        StepModel::Stop
    } else {
        let head = rest.take(24);
        match pcap_magic(head) {
            None => StepModel::Fail(CaptureError::UnsupportedMagic),
            Some((endian, unit)) => StepModel::Next(
                FormatModel::Pcap(PcapConfig { endian, unit, link_type: endian.u32_at(head, 20) as u16 }),
                index,
                24,
            ),
        }
    }
}

/// A PCAP record timestamp in nanoseconds.
pub open spec fn pcap_nanos(unit: TimeUnit, seconds: u32, fraction: u32) -> int {
    seconds as int * 1_000_000_000 + fraction as int * match unit {
        TimeUnit::Micro => 1000int,
        TimeUnit::Nano => 1int,
    }
}

/// One PCAP record: a 16-byte header (seconds, fraction, captured and wire lengths) and the
/// captured bytes.
pub open spec fn pcap_step(config: PcapConfig, index: IndexModel, rest: Seq<u8>, at: int) -> StepModel {
    if rest.len() < 16 {
        StepModel::Stop
    } else {
        let head = rest.take(16);
        let e = config.endian;
        let captured = e.u32_at(head, 8);
        if captured > MAX_BLOCK_SIZE {
            StepModel::Fail(CaptureError::PcapPacketTooLarge(captured))
        } else if rest.len() < 16 + captured {
            StepModel::Stop
        } else {
            StepModel::Next(
                FormatModel::Pcap(config),
                record(
                    index,
                    Some(pcap_nanos(config.unit, e.u32_at(head, 0), e.u32_at(head, 4)) as i128),
                    at + 16,
                    captured,
                    e.u32_at(head, 12),
                    config.link_type,
                    rest.subrange(16, 16 + captured),
                ),
                16 + captured,
            )
        }
    }
}

/// The byte order of a PCAPNG block: a section header declares it with its byte-order magic,
/// every other block uses that of the current section.
pub open spec fn block_endian(config: NgModel, head: Seq<u8>) -> Result<Endian, CaptureError> {
    if is_section_type(head, 0) {
        if bytes_are(head, 8, 0x4d, 0x3c, 0x2b, 0x1a) {
            Ok(Endian::Little)
        } else if bytes_are(head, 8, 0x1a, 0x2b, 0x3c, 0x4d) {
            Ok(Endian::Big)
        } else {
            Err(CaptureError::InvalidByteOrderMagic)
        }
    } else {
        match config.endian {
            Some(e) => Ok(e),
            None => Err(CaptureError::DataBeforeSectionHeader),
        }
    }
}

/// What a complete PCAPNG block does: a section header starts a new section with no
/// interfaces, an interface description adds an interface, enhanced and simple packet blocks
/// add a packet, and other blocks are skipped.
pub open spec fn block_effect(
    config: NgModel,
    index: IndexModel,
    block_type: u32,
    block: Seq<u8>,
    endian: Endian,
    at: int,
) -> Result<(NgModel, IndexModel), CaptureError> {
    if block_type == 0x0a0d0d0a {
        Ok((NgModel { endian: Some(endian), interfaces: Seq::empty() }, index))
    } else if block_type == 1 {
        match interface_block(block, endian) {
            Ok(i) => Ok((NgModel { endian: config.endian, interfaces: config.interfaces.push(i) }, index)),
            Err(e) => Err(e),
        }
    } else if block_type == 6 {
        match enhanced_packet(block, endian, config, at, index) {
            Ok(i) => Ok((config, i)),
            Err(e) => Err(e),
        }
    } else if block_type == 3 {
        match simple_packet(block, endian, config, at, index) {
            Ok(i) => Ok((config, i)),
            Err(e) => Err(e),
        }
    } else {
        Ok((config, index))
    }
}

/// One PCAPNG block: type, total length (a multiple of 4 from 12 up to the size limit, at
/// least 28 for a section header), body, and the total length repeated at its end.
pub open spec fn pcapng_step(config: NgModel, index: IndexModel, rest: Seq<u8>, at: int) -> StepModel {
    if rest.len() < 12 {
        StepModel::Stop
    } else {
        let head = rest.take(12);
        match block_endian(config, head) {
            Err(e) => StepModel::Fail(e),
            Ok(endian) => {
                let block_len = endian.u32_at(head, 4);
                if block_len < 12 || block_len > MAX_BLOCK_SIZE || block_len % 4 != 0 {
                    StepModel::Fail(CaptureError::InvalidBlockLength(block_len))
                } else if is_section_type(head, 0) && block_len < 28 {
                    StepModel::Fail(CaptureError::SectionHeaderTooShort)
                } else if rest.len() < block_len {
                    StepModel::Stop
                } else {
                    let block = rest.take(block_len as int);
                    if endian.u32_at(block, block_len - 4) != block_len {
                        StepModel::Fail(CaptureError::TrailerMismatch)
                    } else {
                        match block_effect(config, index, endian.u32_at(head, 0), block, endian, at) {
                            Ok((c, i)) => StepModel::Next(FormatModel::PcapNg(c), i, block_len as int),
                            Err(e) => StepModel::Fail(e),
                        }
                    }
                }
            },
        }
    }
}

/// One step of framing in the given format state.
#[verifier::opaque]
pub open spec fn step(format: FormatModel, index: IndexModel, rest: Seq<u8>, at: int) -> StepModel {
    match format {
        FormatModel::Unknown => detect_step(index, rest),
        FormatModel::Pcap(config) => pcap_step(config, index, rest, at),
        FormatModel::PcapNg(config) => pcapng_step(config, index, rest, at),
    }
}

pub open spec fn rank(format: FormatModel) -> int {
    match format {
        FormatModel::Unknown => 1,
        _ => 0,
    }
}

/// Whether a step made progress: it took bytes, or it only settled the format.
pub open spec fn advances(before: FormatModel, after: FormatModel, n: int, available: int) -> bool {
    (0 < n <= available) || (n == 0 && rank(after) < rank(before))
}

/// Framing of `rest`, whose first byte lies at file offset `at`: steps are taken until more
/// bytes are needed or a step fails.
pub open spec fn run(format: FormatModel, index: IndexModel, rest: Seq<u8>, at: int) -> Outcome
    decreases rest.len(), rank(format),
{
    match step(format, index, rest, at) {
        StepModel::Stop => Outcome { format, index, consumed: 0, error: None },
        StepModel::Fail(e) => Outcome { format, index, consumed: 0, error: Some(e) },
        StepModel::Next(f, i, n) => {
            if advances(format, f, n, rest.len() as int) {
                let o = run(f, i, rest.skip(n), at + n);
                Outcome { consumed: o.consumed + n, ..o }
            } else {
                Outcome { format: f, index: i, consumed: n, error: None }
            }
        },
    }
}

proof fn lemma_step_is(format: FormatModel, index: IndexModel, rest: Seq<u8>, at: int)
    ensures
        step(format, index, rest, at) == match format {
            FormatModel::Unknown => detect_step(index, rest),
            FormatModel::Pcap(config) => pcap_step(config, index, rest, at),
            FormatModel::PcapNg(config) => pcapng_step(config, index, rest, at),
        },
{
    reveal(step);
}

/// A step that needed no more bytes takes the same course when more bytes follow.
proof fn lemma_step_prefix(format: FormatModel, index: IndexModel, rest: Seq<u8>, at: int, more: Seq<u8>)
    requires
        !(step(format, index, rest, at) is Stop),
    ensures
        step(format, index, rest + more, at) == step(format, index, rest, at),
        step(format, index, rest, at) matches StepModel::Next(f, i, n) ==> advances(format, f, n, rest.len() as int),
{
    reveal(step);
    let all = rest + more;
    assert forall|k: int| 0 <= k <= rest.len() implies #[trigger] all.take(k) == rest.take(k) by {
        assert(all.take(k) =~= rest.take(k));
    }
    match format {
        FormatModel::Unknown => {
            assert(all.take(4) == rest.take(4));
            if rest.len() >= 24 {
                assert(all.take(24) == rest.take(24));
            }
        },
        FormatModel::Pcap(config) => {
            assert(all.take(16) == rest.take(16));
            let captured = config.endian.u32_at(rest.take(16), 8);
            if rest.len() >= 16 + captured {
                assert(all.subrange(16, 16 + captured) =~= rest.subrange(16, 16 + captured));
            }
        },
        FormatModel::PcapNg(config) => {
            assert(all.take(12) == rest.take(12));
            match block_endian(config, rest.take(12)) {
                Ok(endian) => {
                    let block_len = endian.u32_at(rest.take(12), 4);
                    if rest.len() >= block_len {
                        assert(all.take(block_len as int) == rest.take(block_len as int));
                    }
                },
                Err(_) => {},
            }
        },
    }
}

/// Framing more bytes continues where framing fewer stopped: a failure stays the same failure,
/// and when framing stopped for want of bytes, framing of the longer bytes is framing of what
/// was left, from the state reached.
pub proof fn lemma_run_extend(format: FormatModel, index: IndexModel, rest: Seq<u8>, at: int, more: Seq<u8>)
    ensures
        ({
            let o = run(format, index, rest, at);
            &&& 0 <= o.consumed <= rest.len()
            &&& o.error is Some ==> run(format, index, rest + more, at) == o
            &&& o.error is None ==> run(format, index, rest + more, at) == ({
                let p = run(o.format, o.index, rest.skip(o.consumed) + more, at + o.consumed);
                Outcome { consumed: p.consumed + o.consumed, ..p }
            })
        }),
    decreases rest.len(), rank(format),
{
    let o = run(format, index, rest, at);
    match step(format, index, rest, at) {
        StepModel::Stop => {
            assert(rest.skip(0) =~= rest);
            let p = run(o.format, o.index, rest.skip(o.consumed) + more, at + o.consumed);
            assert(p == run(format, index, rest + more, at));
        },
        StepModel::Fail(e) => {
            lemma_step_prefix(format, index, rest, at, more);
        },
        StepModel::Next(f, i, n) => {
            lemma_step_prefix(format, index, rest, at, more);
            let tail = rest.skip(n);
            lemma_run_extend(f, i, tail, at + n, more);
            assert((rest + more).skip(n) =~= tail + more);
            let q = run(f, i, tail, at + n);
            if q.error is None {
                assert(tail.skip(q.consumed) =~= rest.skip(q.consumed + n));
            }
        },
    }
}


/// The text of an error, as a user sees it.
impl CaptureError {
    pub open spec fn text(self) -> Seq<char> {
        match self {
            CaptureError::AlreadyComplete => "capture is already complete"@,
            CaptureError::UnsupportedMagic => "unsupported file: expected PCAP or PCAPNG magic bytes"@,
            CaptureError::InvalidByteOrderMagic => "invalid PCAPNG byte-order magic"@,
            CaptureError::DataBeforeSectionHeader => "PCAPNG data appeared before a section header"@,
            CaptureError::InvalidBlockLength(n) => "invalid PCAPNG block length: "@ + decimal(n as nat),
            CaptureError::SectionHeaderTooShort => "PCAPNG section header is shorter than 28 bytes"@,
            CaptureError::TrailerMismatch => "PCAPNG block length trailer does not match"@,
            CaptureError::TruncatedInterfaceBlock => "truncated PCAPNG interface block"@,
            CaptureError::TruncatedInterfaceOption => "truncated PCAPNG interface option"@,
            CaptureError::TruncatedEnhancedPacket => "truncated PCAPNG enhanced packet block"@,
            CaptureError::MissingInterface(n) => "PCAPNG packet references missing interface "@ + decimal(n as nat),
            CaptureError::InvalidCapturedLength => "invalid PCAPNG captured packet length"@,
            CaptureError::NoInterface => "PCAPNG simple packet has no interface"@,
            CaptureError::TruncatedSimplePacket => "truncated PCAPNG simple packet block"@,
            CaptureError::PcapPacketTooLarge(n) => "PCAP packet is too large: "@ + decimal(n as nat) + " bytes"@,
            CaptureError::UnknownFormat => "file is too short or has an unsupported capture format"@,
            CaptureError::IncompleteRecord(n) => "capture ended with "@ + decimal(n as nat)
                + " bytes of an incomplete record"@,
        }
    }

    /// The text of the error.
    pub fn message(&self) -> (s: String)
        ensures
            s@ == self.text(),
    {
        match self {
            CaptureError::AlreadyComplete => text("capture is already complete"),
            CaptureError::UnsupportedMagic => text("unsupported file: expected PCAP or PCAPNG magic bytes"),
            CaptureError::InvalidByteOrderMagic => text("invalid PCAPNG byte-order magic"),
            CaptureError::DataBeforeSectionHeader => text("PCAPNG data appeared before a section header"),
            CaptureError::InvalidBlockLength(n) => {
                let mut s = text("invalid PCAPNG block length: ");
                push_decimal(&mut s, *n as u64);
                s
            },
            CaptureError::SectionHeaderTooShort => text("PCAPNG section header is shorter than 28 bytes"),
            CaptureError::TrailerMismatch => text("PCAPNG block length trailer does not match"),
            CaptureError::TruncatedInterfaceBlock => text("truncated PCAPNG interface block"),
            CaptureError::TruncatedInterfaceOption => text("truncated PCAPNG interface option"),
            CaptureError::TruncatedEnhancedPacket => text("truncated PCAPNG enhanced packet block"),
            CaptureError::MissingInterface(n) => {
                let mut s = text("PCAPNG packet references missing interface ");
                push_decimal(&mut s, *n as u64);
                s
            },
            CaptureError::InvalidCapturedLength => text("invalid PCAPNG captured packet length"),
            CaptureError::NoInterface => text("PCAPNG simple packet has no interface"),
            CaptureError::TruncatedSimplePacket => text("truncated PCAPNG simple packet block"),
            CaptureError::PcapPacketTooLarge(n) => {
                let mut s = text("PCAP packet is too large: ");
                push_decimal(&mut s, *n as u64);
                s.append(" bytes");
                s
            },
            CaptureError::UnknownFormat => text("file is too short or has an unsupported capture format"),
            CaptureError::IncompleteRecord(n) => {
                let mut s = text("capture ended with ");
                push_decimal(&mut s, *n);
                s.append(" bytes of an incomplete record");
                s
            },
        }
    }
}

/// How far a capture has been read.
#[derive(Clone, Debug)]
pub struct ParserProgress {
    pub format: String,
    pub received_bytes: u64,
    pub consumed_bytes: u64,
    pub total_bytes: u64,
    pub complete: bool,
    pub stats: IndexStats,
}

pub struct ProgressModel {
    pub format: Seq<char>,
    pub received_bytes: u64,
    pub consumed_bytes: u64,
    pub total_bytes: u64,
    pub complete: bool,
    pub stats: IndexStats,
}

impl View for ParserProgress {
    type V = ProgressModel;

    open spec fn view(&self) -> ProgressModel {
        ProgressModel {
            format: self.format@,
            received_bytes: self.received_bytes,
            consumed_bytes: self.consumed_bytes,
            total_bytes: self.total_bytes,
            complete: self.complete,
            stats: self.stats,
        }
    }
}

/// The state of a capture parser: the format state, the bytes received and not yet framed
/// (`buffer`, which starts at file offset `buffer_offset`), the byte counts, whether the
/// capture was finished, and the index of every record framed so far.
pub struct ParserModel {
    pub format: FormatModel,
    pub buffer: Seq<u8>,
    pub buffer_offset: u64,
    pub received_bytes: u64,
    pub total_bytes: u64,
    pub complete: bool,
    pub index: IndexModel,
}

/// An empty index.
pub open spec fn empty_index() -> IndexModel {
    IndexModel {
        rows: Seq::empty(),
        flows: Seq::empty(),
        entities: StoreModel {
            entities: Seq::empty(),
            parent: Seq::empty(),
            address_map: Map::empty(),
            active: 0,
        },
        stats: IndexStats { packets: 0, flows: 0, entities: 0, captured_bytes: 0, malformed_packets: 0 },
    }
}

/// A parser that has received nothing, for a capture of `total_bytes` bytes.
pub open spec fn fresh_parser(total_bytes: u64) -> ParserModel {
    ParserModel {
        format: FormatModel::Unknown,
        buffer: Seq::empty(),
        buffer_offset: 0,
        received_bytes: 0,
        total_bytes: total_bytes,
        complete: false,
        index: empty_index(),
    }
}

/// The name of a format state.
pub open spec fn format_label(format: FormatModel) -> Seq<char> {
    match format {
        FormatModel::Unknown => "detecting"@,
        FormatModel::Pcap(_) => "pcap"@,
        FormatModel::PcapNg(_) => "pcapng"@,
    }
}

pub open spec fn saturating(n: int) -> u64 {
    if n > u64::MAX { u64::MAX } else { n as u64 }
}

impl ParserModel {
    /// Every byte received is either framed (before `buffer_offset`) or waiting in `buffer`.
    pub open spec fn accounted(self) -> bool {
        self.received_bytes == self.buffer_offset + self.buffer.len()
    }

    /// The progress report of the state.
    pub open spec fn progress(self) -> ProgressModel {
        ProgressModel {
            format: format_label(self.format),
            received_bytes: self.received_bytes,
            consumed_bytes: self.buffer_offset,
            total_bytes: self.total_bytes,
            complete: self.complete,
            stats: IndexStats { entities: self.index.entities.active as u64, ..self.index.stats },
        }
    }

    /// The state after a chunk, and whether it was accepted. A finished capture takes no more
    /// bytes. Otherwise the chunk is appended to the waiting bytes, and every complete record is
    /// framed and indexed. If framing stops for want of bytes, the framed bytes are dropped from
    /// the buffer; if a record is refused, the records before it stay indexed and the buffer
    /// keeps all its bytes.
    pub open spec fn push(self, chunk: Seq<u8>) -> (ParserModel, Result<(), CaptureError>) {
        if self.complete {
            (self, Err(CaptureError::AlreadyComplete))
        } else {
            let buffer = self.buffer + chunk;
            let received = saturating(self.received_bytes + chunk.len());
            let o = run(self.format, self.index, buffer, self.buffer_offset as int);
            match o.error {
                Some(e) => (
                    ParserModel { format: o.format, index: o.index, buffer: buffer, received_bytes: received, ..self },
                    Err(e),
                ),
                None => (
                    ParserModel {
                        format: o.format,
                        index: o.index,
                        buffer: buffer.skip(o.consumed),
                        buffer_offset: (self.buffer_offset + o.consumed) as u64,
                        received_bytes: received,
                        ..self
                    },
                    Ok(()),
                ),
            }
        }
    }

    /// The state after the end of the capture: the format must be known and no partial record
    /// may be left over.
    pub open spec fn finish(self) -> (ParserModel, Result<(), CaptureError>) {
        if self.format is Unknown {
            (self, Err(CaptureError::UnknownFormat))
        } else if self.buffer.len() != 0 {
            (self, Err(CaptureError::IncompleteRecord(self.buffer.len() as u64)))
        } else {
            (ParserModel { complete: true, ..self }, Ok(()))
        }
    }
}

/// A capture may be cut into chunks anywhere: pushing `a` and then `b` gives what pushing the
/// bytes of both at once gives. When the first push is refused, pushing both at once is refused
/// with the same error; when it is accepted, pushing both at once is answered as the second
/// push is, reaches the same format state, index and byte count, and, when accepted, the same
/// state.
pub proof fn lemma_push_chunks(s: ParserModel, a: Seq<u8>, b: Seq<u8>)
    requires
        s.accounted(),
        s.buffer_offset + s.buffer.len() + a.len() + b.len() <= u64::MAX,
    ensures
        ({
            let (s1, r1) = s.push(a);
            let (s2, r2) = s1.push(b);
            let (s3, r3) = s.push(a + b);
            &&& r1 is Err ==> r3 == r1
            &&& r1 is Ok ==> {
                &&& r3 == r2
                &&& s3.format == s2.format
                &&& s3.index == s2.index
                &&& s3.received_bytes == s2.received_bytes
                &&& r2 is Ok ==> s3 == s2
            }
        }),
{
    if !s.complete {
        let buffer = s.buffer + a;
        assert(buffer + b =~= s.buffer + (a + b));
        lemma_run_extend(s.format, s.index, buffer, s.buffer_offset as int, b);
        let o1 = run(s.format, s.index, buffer, s.buffer_offset as int);
        if o1.error is None {
            let (s1, r1) = s.push(a);
            let rest = buffer.skip(o1.consumed);
            let o2 = run(o1.format, o1.index, rest + b, s.buffer_offset + o1.consumed);
            lemma_run_extend(o1.format, o1.index, rest + b, s.buffer_offset + o1.consumed, Seq::empty());
            if o2.error is None {
                assert((rest + b).skip(o2.consumed) =~= (s.buffer + (a + b)).skip(o2.consumed + o1.consumed));
            }
        }
    }
}


/// Every received byte is either framed or waiting in the buffer, after any push.
pub proof fn lemma_push_accounted(s: ParserModel, chunk: Seq<u8>)
    requires
        s.accounted(),
        s.received_bytes + chunk.len() <= u64::MAX,
    ensures
        s.push(chunk).0.accounted(),
        s.push(chunk).0.buffer_offset <= s.push(chunk).0.received_bytes,
{
    if !s.complete {
        lemma_run_extend(s.format, s.index, s.buffer + chunk, s.buffer_offset as int, Seq::empty());
    }
}

/// The bytes of a list of chunks, in order.
pub open spec fn concat(chunks: Seq<Seq<u8>>) -> Seq<u8>
    decreases chunks.len(),
{
    if chunks.len() == 0 {
        Seq::empty()
    } else {
        concat(chunks.drop_last()) + chunks.last()
    }
}

/// Pushes each chunk in turn, stopping at the first refusal.
pub open spec fn push_each(s: ParserModel, chunks: Seq<Seq<u8>>) -> (ParserModel, Result<(), CaptureError>)
    decreases chunks.len(),
{
    if chunks.len() == 0 {
        (s, Ok(()))
    } else {
        let (t, r) = push_each(s, chunks.drop_last());
        if r is Err {
            (t, r)
        } else {
            t.push(chunks.last())
        }
    }
}

/// Pushing a capture chunk by chunk is answered as pushing all its bytes at once: the same
/// error, or, when every chunk is accepted, the same state.
pub proof fn lemma_push_each(s: ParserModel, chunks: Seq<Seq<u8>>)
    requires
        s.accounted(),
        chunks.len() > 0,
        s.received_bytes + concat(chunks).len() <= u64::MAX,
    ensures
        push_each(s, chunks).1 == s.push(concat(chunks)).1,
        push_each(s, chunks).1 is Ok ==> push_each(s, chunks).0 == s.push(concat(chunks)).0,
    decreases chunks.len(),
{
    let init = chunks.drop_last();
    let last = chunks.last();
    if init.len() == 0 {
        assert(concat(chunks) =~= last);
    } else {
        lemma_push_each(s, init);
        lemma_push_chunks(s, concat(init), last);
    }
}

/// A parser that was just created or reset answers a capture cut into any number of chunks,
/// none included, as it answers the whole capture pushed at once.
pub proof fn lemma_fresh_push_each(total_bytes: u64, chunks: Seq<Seq<u8>>)
    requires
        concat(chunks).len() <= u64::MAX,
    ensures
        push_each(fresh_parser(total_bytes), chunks).1 == fresh_parser(total_bytes).push(concat(chunks)).1,
        push_each(fresh_parser(total_bytes), chunks).1 is Ok ==> push_each(fresh_parser(total_bytes), chunks).0
            == fresh_parser(total_bytes).push(concat(chunks)).0,
{
    let s = fresh_parser(total_bytes);
    if chunks.len() == 0 {
        let nothing = s.buffer + concat(chunks);
        assert(nothing =~= Seq::<u8>::empty());
        lemma_step_is(s.format, s.index, nothing, 0);
        assert(nothing.skip(0) =~= s.buffer);
    } else {
        lemma_push_each(s, chunks);
    }
}

/// A finished capture refuses every further chunk and stays as it was.
pub proof fn lemma_finished_refuses(s: ParserModel, chunk: Seq<u8>)
    requires
        s.finish().1 is Ok,
    ensures
        s.finish().0.complete,
        s.finish().0.push(chunk) == (s.finish().0, Err::<(), CaptureError>(CaptureError::AlreadyComplete)),
{
}

/// The timestamp of an enhanced packet block is its 64-bit tick count (the 32-bit word at
/// offset 12 times 2^32 plus the word at offset 16) in the resolution of its interface, plus the
/// interface's offset in seconds. At the default resolution a tick is a microsecond, and a
/// block whose high word is not zero is dated at least 2^32 microseconds after the epoch of its
/// offset.
pub proof fn lemma_enhanced_timestamp(
    block: Seq<u8>,
    endian: Endian,
    config: NgModel,
    at: int,
    index: IndexModel,
)
    ensures
        enhanced_packet(block, endian, config, at, index) matches Ok(n) ==> {
            let high = endian.u32_at(block, 12) as int;
            let low = endian.u32_at(block, 16) as int;
            let ticks = high * 4294967296 + low;
            let interface = config.interfaces[endian.u32_at(block, 8) as int];
            let stamp = n.rows.last().timestamp_nanos;
            &&& n.rows.len() == index.rows.len() + 1
            &&& stamp == Some(
                (ticks_to_nanos(ticks as nat, interface.resolution) + interface.offset_seconds * 1_000_000_000) as i128,
            )
            &&& interface.resolution == 6 ==> stamp == Some(
                (ticks * 1000 + interface.offset_seconds * 1_000_000_000) as i128,
            )
            &&& (interface.resolution == 6 && interface.offset_seconds == 0 && high > 0) ==> (stamp matches Some(
                t,
            ) && t >= 4294967296000)
        },
{
    reveal(record);
    if let Ok(n) = enhanced_packet(block, endian, config, at, index) {
        let high = endian.u32_at(block, 12) as int;
        let low = endian.u32_at(block, 16) as int;
        let ticks = high * 4294967296 + low;
        let interface = config.interfaces[endian.u32_at(block, 8) as int];
        let nanos = ticks_to_nanos(ticks as nat, interface.resolution) + interface.offset_seconds * 1_000_000_000;
        assert(n.rows.last().timestamp_nanos == Some(nanos as i128));
        if interface.resolution == 6 {
            assert(ticks_to_nanos(ticks as nat, 6) == ticks * 1000);
            if interface.offset_seconds == 0 && high > 0 {
                assert(ticks * 1000 >= 4294967296000);
                assert(nanos <= 0xffff_ffff_ffff_ffff * 1000);
            }
        }
    }
}

/// The state of a PCAPNG section while it is read.
struct PcapNgConfig {
    endian: Option<Endian>,
    interfaces: Vec<Interface>,
}

impl View for PcapNgConfig {
    type V = NgModel;

    closed spec fn view(&self) -> NgModel {
        NgModel { endian: self.endian, interfaces: self.interfaces@ }
    }
}

/// The format of the capture, once known.
enum Format {
    Unknown,
    Pcap(PcapConfig),
    PcapNg(PcapNgConfig),
}

impl View for Format {
    type V = FormatModel;

    closed spec fn view(&self) -> FormatModel {
        match self {
            Format::Unknown => FormatModel::Unknown,
            Format::Pcap(c) => FormatModel::Pcap(*c),
            Format::PcapNg(c) => FormatModel::PcapNg(c@),
        }
    }
}

/// The outcome `o` of framing, taken after `n` bytes that were framed before it.
pub open spec fn after(o: Outcome, n: int) -> Outcome {
    Outcome { consumed: o.consumed + n, ..o }
}

/// Decodes a packet and adds it to the index.
fn record_packet(
    index: &mut CaptureIndex,
    timestamp: Option<i128>,
    file_offset: u64,
    captured_len: u32,
    wire_len: u32,
    link_type: u16,
    packet: &[u8],
)
    requires
        old(index).wf(),
    ensures
        final(index).wf(),
        final(index)@ == record(old(index)@, timestamp, file_offset as int, captured_len, wire_len, link_type, packet@),
{
    reveal(record);
    let decoded = decode_packet(link_type, packet);
    index.add_packet(timestamp, file_offset, captured_len, wire_len, decoded);
}

/// Frames the PCAP records of `buffer`, whose first byte lies at file offset `base`.
fn parse_pcap_records(buffer: &[u8], base: u64, config: PcapConfig, index: &mut CaptureIndex) -> (r: Result<
    usize,
    CaptureError,
>)
    requires
        old(index).wf(),
        base + buffer@.len() <= u64::MAX,
    ensures
        final(index).wf(),
        ({
            let o = run(FormatModel::Pcap(config), old(index)@, buffer@, base as int);
            &&& o.format == FormatModel::Pcap(config)
            &&& final(index)@ == o.index
            &&& match r {
                Ok(c) => o.error is None && c == o.consumed,
                Err(e) => o.error == Some(e),
            }
        }),
{
    let ghost format = FormatModel::Pcap(config);
    let ghost whole = run(format, index@, buffer@, base as int);
    let mut cursor: usize = 0;
    assert(buffer@.skip(0) =~= buffer@);
    loop
        invariant
            format == FormatModel::Pcap(config),
            whole == run(format, old(index)@, buffer@, base as int),
            cursor <= buffer@.len(),
            index.wf(),
            base + buffer@.len() <= u64::MAX,
            whole == after(run(format, index@, buffer@.skip(cursor as int), base + cursor), cursor as int),
        decreases buffer@.len() - cursor,
    {
        let ghost rest = buffer@.skip(cursor as int);
        let ghost at = base + cursor;
        proof {
            lemma_step_is(format, index@, rest, at);
        }
        if buffer.len() - cursor < 16 {
            return Ok(cursor);
        }
        let header = slice_subrange(buffer, cursor, cursor + 16);
        assert(header@ =~= rest.take(16));
        let seconds = config.endian.u32(header, 0);
        let fraction = config.endian.u32(header, 4);
        let captured_len = config.endian.u32(header, 8);
        let wire_len = config.endian.u32(header, 12);
        if captured_len as usize > MAX_BLOCK_SIZE {
            return Err(CaptureError::PcapPacketTooLarge(captured_len));
        }
        let record_len = 16 + captured_len as usize;
        if buffer.len() - cursor < record_len {
            return Ok(cursor);
        }
        let packet = slice_subrange(buffer, cursor + 16, cursor + record_len);
        assert(packet@ =~= rest.subrange(16, 16 + captured_len));
        let scale: i128 = match config.unit {
            TimeUnit::Micro => 1000,
            TimeUnit::Nano => 1,
        };
        let nanos = seconds as i128 * 1_000_000_000 + fraction as i128 * scale;
        record_packet(index, Some(nanos), base + cursor as u64 + 16, captured_len, wire_len, config.link_type, packet);
        assert(rest.skip(record_len as int) =~= buffer@.skip(cursor + record_len));
        cursor += record_len;
    }
}


/// Reads an interface description block and adds its interface to the section.
fn parse_interface_block(block: &[u8], endian: Endian, config: &mut PcapNgConfig) -> (r: Result<(), CaptureError>)
    requires
        block@.len() <= MAX_BLOCK_SIZE,
    ensures
        match interface_block(block@, endian) {
            Ok(i) => r is Ok && final(config)@ == (NgModel {
                endian: old(config)@.endian,
                interfaces: old(config)@.interfaces.push(i),
            }),
            Err(e) => r == Err::<(), CaptureError>(e) && final(config)@ == old(config)@,
        },
{
    if block.len() < 20 {
        return Err(CaptureError::TruncatedInterfaceBlock);
    }
    let link_type = endian.u16(block, 8);
    let snap_len = endian.u32(block, 12);
    let mut resolution: u8 = 6;
    let mut offset_seconds: i64 = 0;
    let mut cursor: usize = 16;
    let options_end = block.len() - 4;
    let ghost end = options_end as int;
    loop
        invariant
            20 <= block@.len() <= MAX_BLOCK_SIZE,
            options_end == block@.len() - 4,
            end == options_end,
            16 <= cursor <= options_end + 3,
            interface_options(block@, endian, 16, end, 6, 0) == interface_options(
                block@,
                endian,
                cursor as int,
                end,
                resolution,
                offset_seconds,
            ),
        ensures
            interface_options(block@, endian, 16, end, 6, 0) == Ok::<(u8, i64), CaptureError>((resolution, offset_seconds)),
        decreases if cursor <= options_end { options_end - cursor } else { 0 },
    {
        if cursor + 4 > options_end {
            break;
        }
        let code = endian.u16(block, cursor);
        let length = endian.u16(block, cursor + 2) as usize;
        if code == 0 {
            break;
        }
        let value = cursor + 4;
        if value + length > options_end {
            return Err(CaptureError::TruncatedInterfaceOption);
        }
        if code == 9 && length >= 1 {
            resolution = block[value];
        } else if code == 14 && length == 8 {
            offset_seconds = endian.i64(block, value);
        }
        assert((length + 3) / 4 * 4 <= length + 3) by (nonlinear_arith);
        assert((length + 3) / 4 * 4 >= length) by (nonlinear_arith);
        cursor = value + (length + 3) / 4 * 4;
    }
    config.interfaces.push(Interface { link_type, snap_len, resolution, offset_seconds });
    Ok(())
}

/// Reads an enhanced packet block and adds its packet to the index.
fn parse_enhanced_packet(
    block: &[u8],
    endian: Endian,
    config: &PcapNgConfig,
    block_offset: u64,
    index: &mut CaptureIndex,
) -> (r: Result<(), CaptureError>)
    requires
        old(index).wf(),
        block_offset + block@.len() <= u64::MAX,
    ensures
        final(index).wf(),
        match enhanced_packet(block@, endian, config@, block_offset as int, old(index)@) {
            Ok(i) => r is Ok && final(index)@ == i,
            Err(e) => r == Err::<(), CaptureError>(e) && final(index)@ == old(index)@,
        },
{
    if block.len() < 32 {
        return Err(CaptureError::TruncatedEnhancedPacket);
    }
    let interface_id = endian.u32(block, 8);
    if interface_id as usize >= config.interfaces.len() {
        return Err(CaptureError::MissingInterface(interface_id));
    }
    let interface = config.interfaces[interface_id as usize];
    let high = endian.u32(block, 12);
    let low = endian.u32(block, 16);
    let ticks = high as u64 * 0x1_0000_0000 + low as u64;
    let captured_len = endian.u32(block, 20);
    let wire_len = endian.u32(block, 24);
    if captured_len as usize > MAX_BLOCK_SIZE || 28 + captured_len as usize > block.len() - 4 {
        return Err(CaptureError::InvalidCapturedLength);
    }
    let packet = slice_subrange(block, 28, 28 + captured_len as usize);
    let nanos = nanos_of_ticks(ticks, interface.resolution) as i128 + interface.offset_seconds as i128
        * 1_000_000_000;
    record_packet(index, Some(nanos), block_offset + 28, captured_len, wire_len, interface.link_type, packet);
    Ok(())
}

/// Reads a simple packet block and adds its packet, without a timestamp, to the index.
fn parse_simple_packet(
    block: &[u8],
    endian: Endian,
    config: &PcapNgConfig,
    block_offset: u64,
    index: &mut CaptureIndex,
) -> (r: Result<(), CaptureError>)
    requires
        old(index).wf(),
        block_offset + block@.len() <= u64::MAX,
    ensures
        final(index).wf(),
        match simple_packet(block@, endian, config@, block_offset as int, old(index)@) {
            Ok(i) => r is Ok && final(index)@ == i,
            Err(e) => r == Err::<(), CaptureError>(e) && final(index)@ == old(index)@,
        },
{
    if config.interfaces.len() == 0 {
        return Err(CaptureError::NoInterface);
    }
    let interface = config.interfaces[0];
    if block.len() < 16 {
        return Err(CaptureError::TruncatedSimplePacket);
    }
    let wire_len = endian.u32(block, 8);
    let padded_data_len = block.len() - 16;
    let snap_len = if interface.snap_len == 0 {
        padded_data_len
    } else {
        interface.snap_len as usize
    };
    let mut captured_len = if padded_data_len <= wire_len as usize {
        padded_data_len
    } else {
        wire_len as usize
    };
    if snap_len < captured_len {
        captured_len = snap_len;
    }
    let packet = slice_subrange(block, 12, 12 + captured_len);
    record_packet(index, None, block_offset + 12, captured_len as u32, wire_len, interface.link_type, packet);
    Ok(())
}


/// Applies a complete PCAPNG block to the section and the index.
fn apply_block(
    block: &[u8],
    block_type: u32,
    endian: Endian,
    config: &mut PcapNgConfig,
    block_offset: u64,
    index: &mut CaptureIndex,
) -> (r: Result<(), CaptureError>)
    requires
        old(index).wf(),
        block@.len() <= MAX_BLOCK_SIZE,
        block_offset + block@.len() <= u64::MAX,
    ensures
        final(index).wf(),
        match block_effect(old(config)@, old(index)@, block_type, block@, endian, block_offset as int) {
            Ok((c, i)) => r is Ok && final(config)@ == c && final(index)@ == i,
            Err(e) => r == Err::<(), CaptureError>(e) && final(config)@ == old(config)@ && final(index)@ == old(
                index,
            )@,
        },
{
    if block_type == 0x0a0d0d0a {
        config.endian = Some(endian);
        config.interfaces.clear();
        Ok(())
    } else if block_type == 1 {
        parse_interface_block(block, endian, config)
    } else if block_type == 6 {
        parse_enhanced_packet(block, endian, config, block_offset, index)
    } else if block_type == 3 {
        parse_simple_packet(block, endian, config, block_offset, index)
    } else {
        Ok(())
    }
}

/// Frames the PCAPNG blocks of `buffer`, whose first byte lies at file offset `base`.
#[verifier::rlimit(30)]
fn parse_pcapng_blocks(
    buffer: &[u8],
    base: u64,
    config: &mut PcapNgConfig,
    index: &mut CaptureIndex,
) -> (r: Result<usize, CaptureError>)
    requires
        old(index).wf(),
        base + buffer@.len() <= u64::MAX,
    ensures
        final(index).wf(),
        ({
            let o = run(FormatModel::PcapNg(old(config)@), old(index)@, buffer@, base as int);
            &&& o.format == FormatModel::PcapNg(final(config)@)
            &&& final(index)@ == o.index
            &&& match r {
                Ok(c) => o.error is None && c == o.consumed,
                Err(e) => o.error == Some(e),
            }
        }),
{
    let ghost whole = run(FormatModel::PcapNg(config@), index@, buffer@, base as int);
    let mut cursor: usize = 0;
    assert(buffer@.skip(0) =~= buffer@);
    loop
        invariant
            whole == run(FormatModel::PcapNg(old(config)@), old(index)@, buffer@, base as int),
            cursor <= buffer@.len(),
            index.wf(),
            base + buffer@.len() <= u64::MAX,
            whole == after(
                run(FormatModel::PcapNg(config@), index@, buffer@.skip(cursor as int), base + cursor),
                cursor as int,
            ),
        decreases buffer@.len() - cursor,
    {
        let ghost rest = buffer@.skip(cursor as int);
        let ghost at = base + cursor;
        proof {
            lemma_step_is(FormatModel::PcapNg(config@), index@, rest, at);
        }
        if buffer.len() - cursor < 12 {
            return Ok(cursor);
        }
        let head = slice_subrange(buffer, cursor, cursor + 12);
        assert(head@ =~= rest.take(12));
        let is_section = bytes_equal(head, 0, 0x0a, 0x0d, 0x0d, 0x0a);
        let endian = if is_section {
            if bytes_equal(head, 8, 0x4d, 0x3c, 0x2b, 0x1a) {
                Endian::Little
            } else if bytes_equal(head, 8, 0x1a, 0x2b, 0x3c, 0x4d) {
                Endian::Big
            } else {
                return Err(CaptureError::InvalidByteOrderMagic);
            }
        } else {
            match config.endian {
                Some(e) => e,
                None => {
                    return Err(CaptureError::DataBeforeSectionHeader);
                },
            }
        };
        let block_type = endian.u32(head, 0);
        let block_len_field = endian.u32(head, 4);
        let block_len = block_len_field as usize;
        if block_len < 12 || block_len > MAX_BLOCK_SIZE || block_len % 4 != 0 {
            return Err(CaptureError::InvalidBlockLength(block_len_field));
        }
        if is_section && block_len < 28 {
            return Err(CaptureError::SectionHeaderTooShort);
        }
        if buffer.len() - cursor < block_len {
            return Ok(cursor);
        }
        let block = slice_subrange(buffer, cursor, cursor + block_len);
        assert(block@ =~= rest.take(block_len as int));
        if endian.u32(block, block_len - 4) != block_len_field {
            return Err(CaptureError::TrailerMismatch);
        }
        let applied = apply_block(block, block_type, endian, config, base + cursor as u64, index);
        if let Err(e) = applied {
            return Err(e);
        }
        assert(rest.skip(block_len as int) =~= buffer@.skip(cursor + block_len));
        cursor += block_len;
    }
}


/// Whether an answer of the parser is the one the model gives: the progress of the new state,
/// or the text of the error.
pub open spec fn answers(r: Result<ParserProgress, String>, state: ParserModel, outcome: Result<(), CaptureError>) -> bool {
    match (r, outcome) {
        (Ok(p), Ok(_)) => p@ == state.progress(),
        (Err(text), Err(e)) => text@ == e.text(),
        _ => false,
    }
}

/// Reads a PCAP or PCAPNG capture chunk by chunk and indexes its packets.
pub struct CaptureParser {
    format: Format,
    buffer: Vec<u8>,
    buffer_offset: u64,
    received_bytes: u64,
    total_bytes: u64,
    complete: bool,
    index: CaptureIndex,
}

impl View for CaptureParser {
    type V = ParserModel;

    closed spec fn view(&self) -> ParserModel {
        ParserModel {
            format: self.format@,
            buffer: self.buffer@,
            buffer_offset: self.buffer_offset,
            received_bytes: self.received_bytes,
            total_bytes: self.total_bytes,
            complete: self.complete,
            index: self.index@,
        }
    }
}

impl CaptureParser {
    /// The parser's internal invariant.
    pub closed spec fn wf(&self) -> bool {
        &&& self.index.wf()
        &&& self@.accounted()
    }

    /// Every byte a parser received was framed or waits in its buffer.
    pub proof fn lemma_accounted(&self)
        requires
            self.wf(),
        ensures
            self@.accounted(),
            self@.progress().consumed_bytes <= self@.progress().received_bytes,
    {
    }

    /// A parser that has received nothing, for a capture of `total_bytes` bytes.
    fn fresh(total_bytes: u64) -> (p: CaptureParser)
        ensures
            p.wf(),
            p@ == fresh_parser(total_bytes),
    {
        let index = CaptureIndex::new();
        let p = CaptureParser {
            format: Format::Unknown,
            buffer: Vec::new(),
            buffer_offset: 0,
            received_bytes: 0,
            total_bytes,
            complete: false,
            index,
        };
        assert(p@.index.entities.entities =~= Seq::<EntityModel>::empty());
        assert(p@.index.entities.parent =~= Seq::<usize>::empty());
        assert(p@.buffer =~= Seq::<u8>::empty());
        p
    }

    /// Forgets everything received and starts over, for a capture of `total_bytes` bytes.
    pub fn reset(&mut self, total_bytes: u64)
        ensures
            final(self).wf(),
            final(self)@ == fresh_parser(total_bytes),
    {
        *self = CaptureParser::fresh(total_bytes);
    }

    /// Takes the next chunk of the capture: frames and indexes every record it completes.
    pub fn push(&mut self, chunk: &[u8]) -> (r: Result<ParserProgress, String>)
        requires
            old(self).wf(),
            old(self)@.complete || old(self)@.received_bytes + chunk@.len() <= u64::MAX,
        ensures
            final(self).wf(),
            final(self)@ == old(self)@.push(chunk@).0,
            answers(r, final(self)@, old(self)@.push(chunk@).1),
    {
        if self.complete {
            return Err(CaptureError::AlreadyComplete.message());
        }
        self.received_bytes = self.received_bytes.saturating_add(chunk.len() as u64);
        let ghost before = self.buffer@;
        self.buffer.extend_from_slice(chunk);
        assert(self.buffer@ =~= before + chunk@) by {
            assert forall|i: int| 0 <= i < chunk@.len() implies #[trigger] self.buffer@[before.len() + i] == chunk@[i] by {
                assert(self.buffer@[before.len() + i] == self.buffer@[before.len() + i]);
            }
        }
        proof {
            lemma_run_extend(self.format@, self.index@, self.buffer@, self.buffer_offset as int, Seq::empty());
        }
        let consumed = match self.parse_buffered() {
            Ok(c) => c,
            Err(e) => {
                return Err(e.message());
            },
        };
        if consumed > 0 {
            let rest = self.buffer.split_off(consumed);
            self.buffer = rest;
            self.buffer_offset = self.buffer_offset + consumed as u64;
        }
        assert(self.buffer@ =~= (before + chunk@).skip(consumed as int));
        Ok(self.progress())
    }

    /// Ends the capture: refused while the format is unknown or a record is incomplete.
    pub fn finish(&mut self) -> (r: Result<ParserProgress, String>)
        requires
            old(self).wf(),
        ensures
            final(self).wf(),
            final(self)@ == old(self)@.finish().0,
            answers(r, final(self)@, old(self)@.finish().1),
    {
        let unknown = match self.format {
            Format::Unknown => true,
            _ => false,
        };
        if unknown {
            return Err(CaptureError::UnknownFormat.message());
        }
        if self.buffer.len() > 0 {
            return Err(CaptureError::IncompleteRecord(self.buffer.len() as u64).message());
        }
        self.complete = true;
        Ok(self.progress())
    }

    /// How far the capture has been read.
    pub fn progress(&self) -> (p: ParserProgress)
        ensures
            p@ == self@.progress(),
    {
        let format = match self.format {
            Format::Unknown => text("detecting"),
            Format::Pcap(_) => text("pcap"),
            Format::PcapNg(_) => text("pcapng"),
        };
        ParserProgress {
            format,
            received_bytes: self.received_bytes,
            consumed_bytes: self.buffer_offset,
            total_bytes: self.total_bytes,
            complete: self.complete,
            stats: self.index.stats(),
        }
    }

    /// The index of every packet read so far.
    pub fn index(&self) -> (i: &CaptureIndex)
        ensures
            i@ == self@.index,
            self.wf() ==> i.wf(),
    {
        &self.index
    }

    /// Frames the waiting bytes in the current format state.
    fn parse_buffered(&mut self) -> (r: Result<usize, CaptureError>)
        requires
            old(self).index.wf(),
            old(self).buffer_offset + old(self).buffer@.len() <= u64::MAX,
        ensures
            final(self).index.wf(),
            final(self).buffer == old(self).buffer,
            final(self).buffer_offset == old(self).buffer_offset,
            final(self).received_bytes == old(self).received_bytes,
            final(self).total_bytes == old(self).total_bytes,
            final(self).complete == old(self).complete,
            ({
                let o = run(old(self).format@, old(self).index@, old(self).buffer@, old(self).buffer_offset as int);
                &&& final(self).format@ == o.format
                &&& final(self).index@ == o.index
                &&& match r {
                    Ok(c) => o.error is None && c == o.consumed,
                    Err(e) => o.error == Some(e),
                }
            }),
    {
        let mut format = Format::Unknown;
        std::mem::swap(&mut format, &mut self.format);
        match format {
            Format::Unknown => self.detect_and_parse(),
            Format::Pcap(config) => {
                self.format = Format::Pcap(config);
                parse_pcap_records(self.buffer.as_slice(), self.buffer_offset, config, &mut self.index)
            },
            Format::PcapNg(config) => {
                let mut config = config;
                let r = parse_pcapng_blocks(self.buffer.as_slice(), self.buffer_offset, &mut config, &mut self.index);
                self.format = Format::PcapNg(config);
                r
            },
        }
    }

    /// Recognizes the format from the first bytes, then frames what follows.
    fn detect_and_parse(&mut self) -> (r: Result<usize, CaptureError>)
        requires
            old(self).index.wf(),
            old(self).buffer_offset + old(self).buffer@.len() <= u64::MAX,
        ensures
            final(self).index.wf(),
            final(self).buffer == old(self).buffer,
            final(self).buffer_offset == old(self).buffer_offset,
            final(self).received_bytes == old(self).received_bytes,
            final(self).total_bytes == old(self).total_bytes,
            final(self).complete == old(self).complete,
            ({
                let o = run(FormatModel::Unknown, old(self).index@, old(self).buffer@, old(self).buffer_offset as int);
                &&& final(self).format@ == o.format
                &&& final(self).index@ == o.index
                &&& match r {
                    Ok(c) => o.error is None && c == o.consumed,
                    Err(e) => o.error == Some(e),
                }
            }),
    {
        let ghost buf = self.buffer@;
        let ghost at = self.buffer_offset as int;
        proof {
            lemma_step_is(FormatModel::Unknown, self.index@, buf, at);
        }
        self.format = Format::Unknown;
        if self.buffer.len() < 4 {
            return Ok(0);
        }
        let magic = slice_subrange(self.buffer.as_slice(), 0, 4);
        assert(magic@ =~= buf.take(4));
        if bytes_equal(magic, 0, 0x0a, 0x0d, 0x0d, 0x0a) {
            let mut config = PcapNgConfig { endian: None, interfaces: Vec::new() };
            assert(buf.skip(0) =~= buf);
            assert(config@.interfaces =~= Seq::<Interface>::empty());
            let r = parse_pcapng_blocks(self.buffer.as_slice(), self.buffer_offset, &mut config, &mut self.index);
            self.format = Format::PcapNg(config);
            return r;
        }
        if self.buffer.len() < 24 {
            return Ok(0);
        }
        let header = slice_subrange(self.buffer.as_slice(), 0, 24);
        assert(header@ =~= buf.take(24));
        let (endian, unit) = if bytes_equal(header, 0, 0xd4, 0xc3, 0xb2, 0xa1) {
            (Endian::Little, TimeUnit::Micro)
        } else if bytes_equal(header, 0, 0xa1, 0xb2, 0xc3, 0xd4) {
            (Endian::Big, TimeUnit::Micro)
        } else if bytes_equal(header, 0, 0x4d, 0x3c, 0xb2, 0xa1) {
            (Endian::Little, TimeUnit::Nano)
        } else if bytes_equal(header, 0, 0xa1, 0xb2, 0x3c, 0x4d) {
            (Endian::Big, TimeUnit::Nano)
        } else {
            return Err(CaptureError::UnsupportedMagic);
        };
        let link_type = endian.u32(header, 20) as u16;
        let config = PcapConfig { endian, unit, link_type };
        self.format = Format::Pcap(config);
        let rest = slice_subrange(self.buffer.as_slice(), 24, self.buffer.len());
        assert(rest@ =~= buf.skip(24));
        proof {
            lemma_run_extend(FormatModel::Pcap(config), self.index@, rest@, at + 24, Seq::empty());
        }
        match parse_pcap_records(rest, self.buffer_offset + 24, config, &mut self.index) {
            Ok(records) => Ok(24 + records),
            Err(e) => Err(e),
        }
    }
}

impl Default for CaptureParser {
    fn default() -> (p: Self)
        ensures
            p.wf(),
            p@ == fresh_parser(0),
    {
        CaptureParser::fresh(0)
    }
}

} // verus!
