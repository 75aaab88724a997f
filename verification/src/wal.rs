//! The write-ahead log format.
//!
//! A log starts with an 8-byte header (the magic `WAL1` and the format
//! version, both little-endian `u32`) followed by fixed 80-byte event slots.
//! An event slot holds its fields little-endian in declaration order, with
//! zero padding after `event_type`, after `symbol_id` and after `crc32`;
//! `crc32` is a checksum over the first 76 bytes of the slot taken with the
//! checksum field zeroed.
use vstd::prelude::*;
use crate::bytes::{u32_le_at, u64_le_at, u32_le_bytes, u64_le_bytes, read_u32_le, read_u64_le, push_u32_le, push_u64_le, lemma_u32_roundtrip, lemma_u64_roundtrip};

verus! {

pub const EVENT_SIZE: usize = 80;
/// "WAL1" read as a little-endian `u32`.
pub const WAL_MAGIC: u32 = 0x5741_4C31;
/// Size of a freshly created log file.
pub const CHUNK_SIZE: u64 = 1024 * 1024;
/// A log file never grows past this size by doubling.
pub const MAX_CAPACITY: u64 = 256 * 1024 * 1024;
pub const HEADER_SIZE: u64 = 8;

#[derive(Debug, Clone, Copy)]
pub struct WalEvent {
    pub sequence_id: u64,
    pub timestamp_ns: u64,
    pub event_type: u32,
    pub order_id: u64,
    pub account_id: u64,
    pub symbol_id: u32,
    pub price: i64,
    pub qty: u64,
    pub side: u32,
    pub order_type: u32,
    pub crc32: u32,
}

pub struct EventType;

impl EventType {
    pub const INSERT: u32 = 0;
    pub const CANCEL: u32 = 1;
    pub const REPLACE: u32 = 2;
    pub const SESSION_END: u32 = 3;
}

pub open spec fn zeros(n: nat) -> Seq<u8> {
    Seq::new(n, |i: int| 0u8)
}

/// The 80-byte slot of an event.
pub open spec fn event_bytes(e: WalEvent) -> Seq<u8> {
    u64_le_bytes(e.sequence_id) + u64_le_bytes(e.timestamp_ns) + u32_le_bytes(e.event_type) + zeros(4)
        + u64_le_bytes(e.order_id) + u64_le_bytes(e.account_id) + u32_le_bytes(e.symbol_id) + zeros(4)
        + u64_le_bytes(e.price as u64) + u64_le_bytes(e.qty) + u32_le_bytes(e.side) + u32_le_bytes(e.order_type)
        + u32_le_bytes(e.crc32) + zeros(4)
}

/// The two's-complement negation of a `u32`.
pub open spec fn neg_u32(c: u32) -> u32 {
    if c == 0 {
        0
    } else {
        (0x1_0000_0000 - c) as u32
    }
}

/// One shift-and-reduce round of the checksum.
pub open spec fn crc_round(c: u32) -> u32 {
    (c >> 1u32) ^ (0xEDB8_8320u32 & neg_u32(c))
}

pub open spec fn crc_rounds(c: u32, n: nat) -> u32
    decreases n,
{
    if n == 0 {
        c
    } else {
        crc_round(crc_rounds(c, (n - 1) as nat))
    }
}

/// The checksum register after absorbing `data`.
pub open spec fn crc_register(data: Seq<u8>) -> u32
    decreases data.len(),
{
    if data.len() == 0 {
        0xFFFF_FFFFu32
    } else {
        crc_rounds(crc_register(data.drop_last()) ^ (data.last() as u32), 8)
    }
}

/// The checksum of `data`.
pub open spec fn checksum(data: Seq<u8>) -> u32 {
    !crc_register(data)
}

/// The checksum an event's slot must carry: over its first 76 bytes with
/// the checksum field zeroed.
pub open spec fn slot_checksum(slot: Seq<u8>) -> u32 {
    checksum(slot.take(72) + zeros(4))
}

/// Whether an event carries the checksum of its own fields.
pub open spec fn sealed(e: WalEvent) -> bool {
    e.crc32 == slot_checksum(event_bytes(e))
}

/// The event an 80-byte slot holds, if its checksum is right.
pub open spec fn decode_event(b: Seq<u8>) -> Option<WalEvent> {
    if u32_le_at(b, 72) == slot_checksum(b) {
        Some(WalEvent {
            sequence_id: u64_le_at(b, 0),
            timestamp_ns: u64_le_at(b, 8),
            event_type: u32_le_at(b, 16),
            order_id: u64_le_at(b, 24),
            account_id: u64_le_at(b, 32),
            symbol_id: u32_le_at(b, 40),
            price: u64_le_at(b, 48) as i64,
            qty: u64_le_at(b, 56),
            side: u32_le_at(b, 64),
            order_type: u32_le_at(b, 68),
            crc32: u32_le_at(b, 72),
        })
    } else {
        None
    }
}

fn crc_round_exec(c: u32) -> (r: u32)
    ensures
        r == crc_round(c),
{
    let neg: u32 = if c == 0 { 0 } else { u32::MAX - c + 1 };
    (c >> 1u32) ^ (0xEDB8_8320u32 & neg)
}

/// Computes `checksum(data)`.
pub fn checksum_of(data: &[u8]) -> (r: u32)
    ensures
        r == checksum(data@),
{
    let mut crc: u32 = 0xFFFF_FFFF;
    let mut i: usize = 0;
    proof {
        assert(data@.take(0) =~= Seq::<u8>::empty());
    }
    while i < data.len()
        invariant
            i <= data@.len(),
            crc == crc_register(data@.take(i as int)),
        decreases data@.len() - i,
    {
        let c0 = crc ^ (data[i] as u32);
        crc = c0;
        let mut k: usize = 0;
        while k < 8
            invariant
                k <= 8,
                crc == crc_rounds(c0, k as nat),
            decreases 8 - k,
        {
            crc = crc_round_exec(crc);
            k = k + 1;
        }
        proof {
            assert(data@.take(i + 1).drop_last() =~= data@.take(i as int));
        }
        i = i + 1;
    }
    proof {
        assert(data@.take(data@.len() as int) =~= data@);
    }
    !crc
}

proof fn lemma_zero_bytes()
    ensures
        u32_le_bytes(0) == zeros(4),
{
    assert((0u32 >> 8u32) as u8 == 0u8) by (bit_vector);
    assert((0u32 >> 16u32) as u8 == 0u8) by (bit_vector);
    assert((0u32 >> 24u32) as u8 == 0u8) by (bit_vector);
    assert(u32_le_bytes(0) =~= zeros(4));
}

proof fn lemma_i64_u64_roundtrip(x: i64)
    ensures
        ((x as u64) as i64) == x,
{
    assert(((x as u64) as i64) == x) by (bit_vector);
}

/// A sealed event's slot decodes to the event itself.
pub proof fn lemma_event_roundtrip(e: WalEvent)
    requires
        sealed(e),
    ensures
        decode_event(event_bytes(e)) == Some(e),
{
    let b = event_bytes(e);
    assert(b.len() == 80);
    assert(b.subrange(0, 8) =~= u64_le_bytes(e.sequence_id));
    lemma_u64_roundtrip(e.sequence_id, b, 0);
    assert(b.subrange(8, 16) =~= u64_le_bytes(e.timestamp_ns));
    lemma_u64_roundtrip(e.timestamp_ns, b, 8);
    assert(b.subrange(16, 20) =~= u32_le_bytes(e.event_type));
    lemma_u32_roundtrip(e.event_type, b, 16);
    assert(b.subrange(24, 32) =~= u64_le_bytes(e.order_id));
    lemma_u64_roundtrip(e.order_id, b, 24);
    assert(b.subrange(32, 40) =~= u64_le_bytes(e.account_id));
    lemma_u64_roundtrip(e.account_id, b, 32);
    assert(b.subrange(40, 44) =~= u32_le_bytes(e.symbol_id));
    lemma_u32_roundtrip(e.symbol_id, b, 40);
    assert(b.subrange(48, 56) =~= u64_le_bytes(e.price as u64));
    lemma_u64_roundtrip(e.price as u64, b, 48);
    lemma_i64_u64_roundtrip(e.price);
    assert(b.subrange(56, 64) =~= u64_le_bytes(e.qty));
    lemma_u64_roundtrip(e.qty, b, 56);
    assert(b.subrange(64, 68) =~= u32_le_bytes(e.side));
    lemma_u32_roundtrip(e.side, b, 64);
    assert(b.subrange(68, 72) =~= u32_le_bytes(e.order_type));
    lemma_u32_roundtrip(e.order_type, b, 68);
    assert(b.subrange(72, 76) =~= u32_le_bytes(e.crc32));
    lemma_u32_roundtrip(e.crc32, b, 72);
}

/// The slot of an event with its checksum field zeroed agrees with the
/// event's slot on everything the checksum covers.
pub proof fn lemma_checksum_ignores_field(e: WalEvent)
    ensures
        slot_checksum(event_bytes(e)) == checksum(event_bytes(WalEvent { crc32: 0, ..e }).take(76)),
{
    let z = WalEvent { crc32: 0, ..e };
    lemma_zero_bytes();
    assert(event_bytes(e).take(72) + zeros(4) =~= event_bytes(z).take(76));
}

impl WalEvent {
    /// Builds the slot bytes of this event.
    fn encode(&self) -> (r: Vec<u8>)
        ensures
            r@ == event_bytes(*self),
    {
        let mut v: Vec<u8> = Vec::with_capacity(EVENT_SIZE);
        push_u64_le(&mut v, self.sequence_id);
        push_u64_le(&mut v, self.timestamp_ns);
        push_u32_le(&mut v, self.event_type);
        push_u32_le(&mut v, 0);
        push_u64_le(&mut v, self.order_id);
        push_u64_le(&mut v, self.account_id);
        push_u32_le(&mut v, self.symbol_id);
        push_u32_le(&mut v, 0);
        push_u64_le(&mut v, self.price as u64);
        push_u64_le(&mut v, self.qty);
        push_u32_le(&mut v, self.side);
        push_u32_le(&mut v, self.order_type);
        push_u32_le(&mut v, self.crc32);
        push_u32_le(&mut v, 0);
        proof {
            lemma_zero_bytes();
            assert(v@ =~= event_bytes(*self));
        }
        v
    }

    /// The checksum of this event's first 76 slot bytes, as they stand.
    fn compute_crc32(&self) -> (r: u32)
        ensures
            r == checksum(event_bytes(*self).take(76)),
    {
        let v = self.encode();
        let s = v.as_slice();
        let head = &s[0..76];
        checksum_of(head)
    }

    fn sealed_event(e: WalEvent) -> (r: WalEvent)
        requires
            e.crc32 == 0,
        ensures
            r == (WalEvent { crc32: r.crc32, ..e }),
            sealed(r),
    {
        let mut e = e;
        let c = e.compute_crc32();
        proof {
            lemma_checksum_ignores_field(WalEvent { crc32: c, ..e });
            assert(WalEvent { crc32: 0, ..WalEvent { crc32: c, ..e } } == e);
        }
        e.crc32 = c;
        e
    }

    /// An order insertion event, sealed with its checksum.
    pub fn new_insert(
        seq: u64,
        ts: u64,
        order_id: u64,
        account_id: u64,
        symbol_id: u32,
        price: i64,
        qty: u64,
        side: u32,
        order_type: u32,
    ) -> (r: Self)
        ensures
            r.sequence_id == seq,
            r.timestamp_ns == ts,
            r.event_type == EventType::INSERT,
            r.order_id == order_id,
            r.account_id == account_id,
            r.symbol_id == symbol_id,
            r.price == price,
            r.qty == qty,
            r.side == side,
            r.order_type == order_type,
            sealed(r),
    {
        Self::sealed_event(
            Self {
                sequence_id: seq,
                timestamp_ns: ts,
                event_type: EventType::INSERT,
                order_id,
                account_id,
                symbol_id,
                price,
                qty,
                side,
                order_type,
                crc32: 0,
            },
        )
    }

    /// An order cancellation event, sealed with its checksum.
    pub fn new_cancel(seq: u64, ts: u64, order_id: u64) -> (r: Self)
        ensures
            r.sequence_id == seq,
            r.timestamp_ns == ts,
            r.event_type == EventType::CANCEL,
            r.order_id == order_id,
            r.account_id == 0 && r.symbol_id == 0 && r.price == 0 && r.qty == 0,
            r.side == 0 && r.order_type == 0,
            sealed(r),
    {
        Self::sealed_event(
            Self {
                sequence_id: seq,
                timestamp_ns: ts,
                event_type: EventType::CANCEL,
                order_id,
                account_id: 0,
                symbol_id: 0,
                price: 0,
                qty: 0,
                side: 0,
                order_type: 0,
                crc32: 0,
            },
        )
    }

    /// A session end event, sealed with its checksum.
    pub fn new_session_end(seq: u64, ts: u64) -> (r: Self)
        ensures
            r.sequence_id == seq,
            r.timestamp_ns == ts,
            r.event_type == EventType::SESSION_END,
            r.order_id == 0 && r.account_id == 0 && r.symbol_id == 0 && r.price == 0 && r.qty == 0,
            r.side == 0 && r.order_type == 0,
            sealed(r),
    {
        Self::sealed_event(
            Self {
                sequence_id: seq,
                timestamp_ns: ts,
                event_type: EventType::SESSION_END,
                order_id: 0,
                account_id: 0,
                symbol_id: 0,
                price: 0,
                qty: 0,
                side: 0,
                order_type: 0,
                crc32: 0,
            },
        )
    }

    /// The event's 80-byte slot.
    pub fn to_bytes(self) -> (r: [u8; EVENT_SIZE])
        ensures
            r@ == event_bytes(self),
    {
        let v = self.encode();
        let mut buf = [0u8; EVENT_SIZE];
        let mut i: usize = 0;
        while i < EVENT_SIZE
            invariant
                i <= EVENT_SIZE,
                v@ == event_bytes(self),
                buf@.len() == EVENT_SIZE,
                forall|j: int| 0 <= j < i ==> buf@[j] == v@[j],
            decreases EVENT_SIZE - i,
        {
            buf[i] = v[i];
            i = i + 1;
        }
        assert(buf@ =~= event_bytes(self));
        buf
    }

    /// Writes the event's slot into the first 80 bytes of `dst`.
    pub fn write_to_mmap(self, dst: &mut [u8])
        requires
            old(dst)@.len() >= EVENT_SIZE,
        ensures
            final(dst)@ == event_bytes(self) + old(dst)@.skip(EVENT_SIZE as int),
    {
        let v = self.encode();
        let mut i: usize = 0;
        while i < EVENT_SIZE
            invariant
                i <= EVENT_SIZE,
                v@ == event_bytes(self),
                old(dst)@.len() >= EVENT_SIZE,
                dst@.len() == old(dst)@.len(),
                forall|j: int| 0 <= j < i ==> dst@[j] == v@[j],
                forall|j: int| i <= j < dst@.len() ==> dst@[j] == old(dst)@[j],
            decreases EVENT_SIZE - i,
        {
            dst[i] = v[i];
            i = i + 1;
        }
        assert(dst@ =~= event_bytes(self) + old(dst)@.skip(EVENT_SIZE as int));
    }

    fn decode(src: &[u8]) -> (r: Option<Self>)
        requires
            src@.len() >= EVENT_SIZE,
        ensures
            r == decode_event(src@.take(EVENT_SIZE as int)),
    {
        let ghost b = src@.take(EVENT_SIZE as int);
        let stored = read_u32_le(src, 72);
        let mut head: Vec<u8> = Vec::with_capacity(76);
        let mut i: usize = 0;
        while i < 72
            invariant
                i <= 72,
                src@.len() >= EVENT_SIZE,
                head@ == src@.take(i as int),
            decreases 72 - i,
        {
            head.push(src[i]);
            proof {
                assert(head@ =~= src@.take(i + 1));
            }
            i = i + 1;
        }
        push_u32_le(&mut head, 0);
        proof {
            lemma_zero_bytes();
            assert(head@ =~= b.take(72) + zeros(4));
            assert(u32_le_at(b, 72) == u32_le_at(src@, 72));
        }
        if stored != checksum_of(head.as_slice()) {
            return None;
        }
        proof {
            assert(forall|k: int| 0 <= k < 80 ==> b[k] == src@[k]);
        }
        Some(
            WalEvent {
                sequence_id: read_u64_le(src, 0),
                timestamp_ns: read_u64_le(src, 8),
                event_type: read_u32_le(src, 16),
                order_id: read_u64_le(src, 24),
                account_id: read_u64_le(src, 32),
                symbol_id: read_u32_le(src, 40),
                price: read_u64_le(src, 48) as i64,
                qty: read_u64_le(src, 56),
                side: read_u32_le(src, 64),
                order_type: read_u32_le(src, 68),
                crc32: stored,
            },
        )
    }

    /// The event a slot holds, or `None` when its checksum is wrong.
    pub fn from_bytes(buf: &[u8; EVENT_SIZE]) -> (r: Option<Self>)
        ensures
            r == decode_event(buf@),
    {
        let s: &[u8] = buf.as_slice();
        proof {
            assert(s@.take(EVENT_SIZE as int) =~= buf@);
        }
        Self::decode(s)
    }

    /// The event at the start of `src`, or `None` when `src` is shorter than
    /// a slot or the checksum is wrong.
    pub fn read_from_mmap(src: &[u8]) -> (r: Option<Self>)
        ensures
            src@.len() < EVENT_SIZE ==> r.is_none(),
            src@.len() >= EVENT_SIZE ==> r == decode_event(src@.take(EVENT_SIZE as int)),
    {
        if src.len() < EVENT_SIZE {
            return None;
        }
        Self::decode(src)
    }
}


/// The slots of `events`, back to back.
pub open spec fn log_bytes(events: Seq<WalEvent>) -> Seq<u8>
    decreases events.len(),
{
    if events.len() == 0 {
        seq![]
    } else {
        log_bytes(events.drop_last()) + event_bytes(events.last())
    }
}

/// The events a log yields from byte position `pos` on: slot after slot
/// until the data runs out or a slot fails its checksum.
pub open spec fn wal_events(data: Seq<u8>, pos: int) -> Seq<WalEvent>
    decreases data.len() - pos,
{
    if pos < 0 || pos + 80 > data.len() {
        seq![]
    } else {
        match decode_event(data.subrange(pos, pos + 80)) {
            None => seq![],
            Some(e) => seq![e] + wal_events(data, pos + 80),
        }
    }
}

/// Whether slot `k` of a log holds only zero bytes.
pub open spec fn slot_blank(data: Seq<u8>, k: int) -> bool {
    forall|j: int| 8 + 80 * k <= j < 8 + 80 * k + 80 ==> data[j] == 0
}

/// The number of slots in `from..to` that hold some nonzero byte.
pub open spec fn written_slots(data: Seq<u8>, from: int, to: int) -> int
    decreases to - from,
{
    if from >= to {
        0
    } else {
        written_slots(data, from, to - 1) + if slot_blank(data, to - 1) { 0int } else { 1 }
    }
}

pub proof fn lemma_wal_events_len(data: Seq<u8>, pos: int)
    requires
        0 <= pos <= data.len(),
    ensures
        wal_events(data, pos).len() <= (data.len() - pos) / 80,
    decreases data.len() - pos,
{
    if pos + 80 <= data.len() {
        if decode_event(data.subrange(pos, pos + 80)) is Some {
            lemma_wal_events_len(data, pos + 80);
        }
    }
}

/// Whether the log's header carries the magic number.
pub open spec fn header_ok(data: Seq<u8>) -> bool {
    u32_le_at(data, 0) == WAL_MAGIC
}

#[derive(Debug, Clone, Copy, PartialEq, Eq, Structural)]
pub enum WalReadError {
    /// The data ended inside the header or a slot.
    UnexpectedEof,
}

/// Reads a log's header and events from its bytes.
///
/// `pos` is the logical position checked against `end`; `cursor` is where
/// the next bytes are read from.
pub struct WalReader {
    data: Vec<u8>,
    cursor: usize,
    pos: u64,
    end: u64,
}

impl WalReader {
    pub closed spec fn data(self) -> Seq<u8> {
        self.data@
    }

    pub closed spec fn cursor(self) -> int {
        self.cursor as int
    }

    pub closed spec fn pos(self) -> int {
        self.pos as int
    }

    pub closed spec fn end(self) -> int {
        self.end as int
    }

    pub open spec fn wf(self) -> bool {
        &&& self.end() == self.data().len()
        &&& 0 <= self.cursor() <= self.data().len()
        &&& 0 <= self.pos() <= self.end()
        &&& self.data().len() <= u64::MAX
    }

    /// Whether the reader has not read anything yet.
    pub open spec fn fresh(self) -> bool {
        self.wf() && self.cursor() == 0 && self.pos() == 0
    }

    /// A reader over the bytes of a log.
    pub fn from_data(data: Vec<u8>) -> (r: Self)
        requires
            data@.len() <= u64::MAX,
        ensures
            r.fresh(),
            r.data() == data@,
    {
        let end = data.len() as u64;
        WalReader { data, cursor: 0, pos: 0, end }
    }

    /// The number of bytes the log holds.
    pub fn data_len(&self) -> (r: u64)
        requires
            self.wf(),
        ensures
            r == self.data().len(),
    {
        self.end
    }

    /// Whether slot `k` (the 80 bytes after the header and `k` slots) holds
    /// only zero bytes, as a slot that was never written does.
    pub fn slot_is_blank(&self, k: u64) -> (r: bool)
        requires
            self.wf(),
            8 + 80 * (k + 1) <= self.data().len(),
        ensures
            r == slot_blank(self.data(), k as int),
    {
        let first: u64 = 8 + 80 * k;
        let n = self.data.len();
        assert(first < n);
        let start = first as usize;
        assert(start == first);
        let mut i: usize = 0;
        while i < 80
            invariant
                i <= 80,
                start == 8 + 80 * k,
                n == self.data.len(),
                start + 80 <= n,
                forall|j: int| start <= j < start + i ==> self.data@[j] == 0,
            decreases 80 - i,
        {
            if self.data[start + i] != 0 {
                return false;
            }
            i = i + 1;
        }
        true
    }

    /// Reads the 8-byte header and reports whether it carries the magic
    /// number; on success the logical position moves to the first slot.
    pub fn read_header(&mut self) -> (r: Result<bool, WalReadError>)
        requires
            old(self).wf(),
        ensures
            final(self).wf(),
            final(self).data() == old(self).data(),
            final(self).end() == old(self).end(),
            old(self).cursor() + 8 > old(self).data().len() ==> r == Err::<bool, WalReadError>(WalReadError::UnexpectedEof)
                && *final(self) == *old(self),
            old(self).cursor() + 8 <= old(self).data().len() ==> {
                let ok = u32_le_at(old(self).data(), old(self).cursor()) == WAL_MAGIC;
                &&& r == Ok::<bool, WalReadError>(ok)
                &&& final(self).cursor() == old(self).cursor() + 8
                &&& final(self).pos() == (if ok { 8 } else { old(self).pos() })
            },
    {
        if self.data.len() < 8 || self.cursor > self.data.len() - 8 {
            return Err(WalReadError::UnexpectedEof);
        }
        let magic = read_u32_le(self.data.as_slice(), self.cursor);
        self.cursor = self.cursor + 8;
        if magic != WAL_MAGIC {
            return Ok(false);
        }
        self.pos = 8;
        Ok(true)
    }

    /// Reads the next slot: `None` at the end of the data or when the slot
    /// fails its checksum.
    pub fn next_event(&mut self) -> (r: Result<Option<WalEvent>, WalReadError>)
        requires
            old(self).wf(),
        ensures
            final(self).wf(),
            final(self).data() == old(self).data(),
            final(self).end() == old(self).end(),
            old(self).pos() + 80 > old(self).end() ==> r == Ok::<Option<WalEvent>, WalReadError>(None)
                && *final(self) == *old(self),
            old(self).pos() + 80 <= old(self).end() && old(self).cursor() + 80 > old(self).data().len()
                ==> r == Err::<Option<WalEvent>, WalReadError>(WalReadError::UnexpectedEof),
            old(self).pos() + 80 <= old(self).end() && old(self).cursor() + 80 <= old(self).data().len() ==> {
                &&& r == Ok::<Option<WalEvent>, WalReadError>(
                    decode_event(old(self).data().subrange(old(self).cursor(), old(self).cursor() + 80)),
                )
                &&& final(self).cursor() == old(self).cursor() + 80
                &&& final(self).pos() == old(self).pos() + 80
            },
    {
        if self.pos > self.end || self.end - self.pos < EVENT_SIZE as u64 {
            return Ok(None);
        }
        if self.data.len() < EVENT_SIZE || self.cursor > self.data.len() - EVENT_SIZE {
            return Err(WalReadError::UnexpectedEof);
        }
        let start = self.cursor;
        let slot = &self.data.as_slice()[start..start + EVENT_SIZE];
        proof {
            assert(slot@.take(EVENT_SIZE as int) =~= self.data@.subrange(start as int, start + 80));
        }
        let e = WalEvent::decode(slot);
        self.cursor = start + EVENT_SIZE;
        self.pos = self.pos + EVENT_SIZE as u64;
        Ok(e)
    }
}

/// Where the next append goes in a log file and how large the file is.
pub struct WalSpace {
    pub offset: u64,
    pub capacity: u64,
}

/// An append as decided before any byte is written: where it starts and,
/// when the file must grow first, its new size.
pub struct AppendPlan {
    pub start: u64,
    pub len: u64,
    pub new_capacity: Option<u64>,
}

/// The file size after growing from `cap` until `need` bytes fit: doubled
/// each time, never past `MAX_CAPACITY`.
pub open spec fn grown_capacity(cap: u64, need: u64) -> u64
    decreases MAX_CAPACITY - cap,
{
    if cap == 0 || cap >= need || cap >= MAX_CAPACITY {
        cap
    } else {
        grown_capacity(if cap * 2 <= MAX_CAPACITY { (cap * 2) as u64 } else { MAX_CAPACITY }, need)
    }
}

/// Growing a non-empty file toward a size within `MAX_CAPACITY` reaches
/// that size and stays within `MAX_CAPACITY`.
pub proof fn lemma_grown_capacity(cap: u64, need: u64)
    requires
        0 < cap <= MAX_CAPACITY,
        need <= MAX_CAPACITY,
    ensures
        grown_capacity(cap, need) >= need,
        grown_capacity(cap, need) >= cap,
        grown_capacity(cap, need) <= MAX_CAPACITY,
    decreases MAX_CAPACITY - cap,
{
    if cap < need && cap < MAX_CAPACITY {
        lemma_grown_capacity(if cap * 2 <= MAX_CAPACITY { (cap * 2) as u64 } else { MAX_CAPACITY }, need);
    }
}

impl WalSpace {
    /// The 8-byte header of a new log.
    pub fn header_bytes() -> (r: Vec<u8>)
        ensures
            r@ == u32_le_bytes(WAL_MAGIC) + u32_le_bytes(1),
    {
        let mut v: Vec<u8> = Vec::new();
        push_u32_le(&mut v, WAL_MAGIC);
        push_u32_le(&mut v, 1);
        v
    }

    /// A new log: the header is written, the file is one chunk.
    pub fn for_new_file() -> (r: Self)
        ensures
            r.offset == HEADER_SIZE,
            r.capacity == CHUNK_SIZE,
    {
        WalSpace { offset: HEADER_SIZE, capacity: CHUNK_SIZE }
    }

    /// An existing log of `file_len` bytes reopened for appending: appends
    /// go at its end and the file is at least one chunk.
    pub fn for_existing_file(file_len: u64) -> (r: Self)
        ensures
            r.offset == file_len,
            r.capacity == (if file_len >= CHUNK_SIZE { file_len } else { CHUNK_SIZE }),
    {
        let cap = if file_len >= CHUNK_SIZE { file_len } else { CHUNK_SIZE };
        WalSpace { offset: file_len, capacity: cap }
    }

    /// Plans an append of `len` bytes: it starts at the current offset, and
    /// when the bytes would not fit the file grows, doubling until they do.
    pub fn plan_append(&self, len: u64) -> (r: AppendPlan)
        requires
            self.offset + len <= u64::MAX,
            self.offset + len > self.capacity ==> 0 < self.capacity && self.offset + len <= MAX_CAPACITY,
        ensures
            r.start == self.offset,
            r.len == len,
            r.new_capacity == (if self.offset + len > self.capacity {
                Some(grown_capacity(self.capacity, (self.offset + len) as u64))
            } else {
                None::<u64>
            }),
            r.new_capacity matches Some(c) ==> self.offset + len <= c <= MAX_CAPACITY,
    {
        let need = self.offset + len;
        let new_capacity = if need > self.capacity {
            proof {
                lemma_grown_capacity(self.capacity, need);
            }
            let mut c = self.capacity;
            while c < need
                invariant
                    0 < c <= MAX_CAPACITY,
                    need <= MAX_CAPACITY,
                    grown_capacity(c, need) == grown_capacity(self.capacity, need),
                decreases MAX_CAPACITY - c,
            {
                c = if c * 2 <= MAX_CAPACITY { c * 2 } else { MAX_CAPACITY };
            }
            Some(c)
        } else {
            None
        };
        AppendPlan { start: self.offset, len, new_capacity }
    }

    /// Records a planned append once its bytes are written.
    pub fn commit(&mut self, plan: &AppendPlan)
        requires
            plan.start + plan.len <= u64::MAX,
        ensures
            final(self).offset == plan.start + plan.len,
            final(self).capacity == (match plan.new_capacity {
                Some(c) => c,
                None => old(self).capacity,
            }),
    {
        self.offset = plan.start + plan.len;
        match plan.new_capacity {
            Some(c) => self.capacity = c,
            None => {},
        }
    }

    /// The slots of `events`, back to back.
    pub fn encode_batch(events: &[WalEvent]) -> (r: Vec<u8>)
        requires
            events@.len() * 80 <= usize::MAX,
        ensures
            r@ == log_bytes(events@),
            r@.len() == events@.len() * 80,
            forall|i: int| 0 <= i < events@.len() ==> #[trigger] r@.subrange(i * 80, i * 80 + 80) == event_bytes(events@[i]),
    {
        let mut out: Vec<u8> = Vec::new();
        let mut i: usize = 0;
        while i < events.len()
            invariant
                i <= events@.len(),
                events@.len() * 80 <= usize::MAX,
                out@.len() == i * 80,
                out@ == log_bytes(events@.take(i as int)),
                forall|j: int| 0 <= j < i ==> #[trigger] out@.subrange(j * 80, j * 80 + 80) == event_bytes(events@[j]),
            decreases events@.len() - i,
        {
            let v = events[i].encode();
            let ghost before = out@;
            let mut k: usize = 0;
            while k < v.len()
                invariant
                    k <= v@.len(),
                    v@.len() == 80,
                    out@ == before + v@.take(k as int),
                decreases v@.len() - k,
            {
                out.push(v[k]);
                proof {
                    assert(out@ =~= before + v@.take(k + 1));
                }
                k = k + 1;
            }
            proof {
                assert(v@.take(80) =~= v@);
                assert(events@.take(i + 1).drop_last() =~= events@.take(i as int));
                assert(events@.take(i + 1).last() == events@[i as int]);
                assert(out@ =~= log_bytes(events@.take(i + 1)));
                assert forall|j: int| 0 <= j < i + 1 implies #[trigger] out@.subrange(j * 80, j * 80 + 80) == event_bytes(events@[j]) by {
                    if j < i {
                        assert(out@.subrange(j * 80, j * 80 + 80) =~= before.subrange(j * 80, j * 80 + 80));
                    } else {
                        assert(out@.subrange(j * 80, j * 80 + 80) =~= v@);
                    }
                }
            }
            i = i + 1;
        }
        assert(events@.take(events@.len() as int) =~= events@);
        out
    }
}

} // verus!
