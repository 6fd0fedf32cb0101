//! Allocator, writer and reader state of a version-1 container.
//!
//! The primary index holds one entry `(offset, length, fragment)` per payload
//! write and one per secondary-index flush. Each entry names the bytes that
//! it describes: a flush entry holds the flushed fragment's own offset and
//! length, and its `fragment` tag tells it apart from a payload entry.
use crate::io::codec::{
    decode_index, encode_index, encode_offsets, index_bytes, lemma_offsets_bytes_len,
    lemma_varint_len, offsets_bytes,
};
use crate::io::format::{
    le_bytes, le_value, u32_from_le, u32_to_le, BODY_START, FLUSH_EVERY, GAS_FILE_VERSION,
    INDEX_REGION_BYTES,
};
use vstd::prelude::*;

verus! {

/// Abstract state of the allocator: the next free byte, the offsets written
/// since the last flush, and the primary index.
pub struct LocState {
    pub cursor: int,
    pub pending: Seq<u64>,
    pub entries: Seq<(u64, u64, bool)>,
}

/// Bytes reserved for a payload of `len` bytes: its length, and one byte for
/// an empty payload, so that no two payloads share an offset.
pub open spec fn reserved(len: u64) -> int {
    if len == 0 {
        1
    } else {
        len as int
    }
}

/// State after reserving room for a payload of `len` bytes at the cursor.
pub open spec fn alloc_step(s: LocState, len: u64) -> LocState {
    LocState {
        cursor: s.cursor + reserved(len),
        pending: s.pending.push(s.cursor as u64),
        entries: s.entries,
    }
}

/// Whether recording a write in state `s` flushes the pending offsets first.
pub open spec fn flushes(s: LocState) -> bool {
    s.pending.len() >= FLUSH_EVERY
}

/// The offsets that a flush in state `s` serializes: the oldest thousand.
pub open spec fn flushed(s: LocState) -> Seq<u64> {
    s.pending.subrange(0, FLUSH_EVERY as int)
}

/// State after recording the completed write of `len` bytes at `offset`.
pub open spec fn record_step(s: LocState, offset: u64, len: u64) -> LocState {
    if flushes(s) {
        let n = offsets_bytes(flushed(s)).len();
        LocState {
            cursor: s.cursor + n,
            pending: s.pending.subrange(FLUSH_EVERY as int, s.pending.len() as int),
            entries: s.entries.push((s.cursor as u64, n as u64, true)).push((offset, len, false)),
        }
    } else {
        LocState { cursor: s.cursor, pending: s.pending, entries: s.entries.push((offset, len, false)) }
    }
}

/// Byte range `[r.0, r.0 + r.1)` of an index entry.
pub open spec fn range_of(e: (u64, u64, bool)) -> (u64, u64) {
    (e.0, e.1)
}

/// Bytes that the range `r` occupies in the body (see `reserved`).
pub open spec fn extent(r: (u64, u64)) -> int {
    reserved(r.1)
}

/// Two byte ranges share no byte.
pub open spec fn disjoint(a: (u64, u64), b: (u64, u64)) -> bool {
    a.0 + extent(a) <= b.0 || b.0 + extent(b) <= a.0
}

/// A byte range lies in `[lo, hi)`.
pub open spec fn in_span(r: (u64, u64), lo: int, hi: int) -> bool {
    lo <= r.0 && r.0 + extent(r) <= hi
}

/// The byte ranges of the entries `e`, in order.
pub open spec fn entry_ranges(e: Seq<(u64, u64, bool)>) -> Seq<(u64, u64)> {
    e.map_values(|x: (u64, u64, bool)| range_of(x))
}

/// No two ranges of `s` share a byte.
pub open spec fn pairwise_disjoint(s: Seq<(u64, u64)>) -> bool {
    forall|i: int, j: int|
        0 <= i < s.len() && 0 <= j < s.len() && i != j ==> #[trigger] disjoint(s[i], s[j])
}

/// Total extent of the ranges `s`.
pub open spec fn total_extent(s: Seq<(u64, u64)>) -> int
    decreases s.len(),
{
    if s.len() == 0 {
        0
    } else {
        total_extent(s.drop_last()) + extent(s.last())
    }
}

/// Number of payload entries (not fragment entries) in `e`.
pub open spec fn payload_count(e: Seq<(u64, u64, bool)>) -> nat
    decreases e.len(),
{
    if e.len() == 0 {
        0
    } else {
        payload_count(e.drop_last()) + if e.last().2 {
            0nat
        } else {
            1nat
        }
    }
}

/// Number of fragment entries in `e`.
pub open spec fn fragment_count(e: Seq<(u64, u64, bool)>) -> nat
    decreases e.len(),
{
    if e.len() == 0 {
        0
    } else {
        fragment_count(e.drop_last()) + if e.last().2 {
            1nat
        } else {
            0nat
        }
    }
}

/// The ranges `e` and `o` lie in `[lo, hi)`, none overlaps another, and
/// their extents add up to `hi - lo`: together they cover `[lo, hi)`.
pub open spec fn layout_ok(e: Seq<(u64, u64)>, o: Seq<(u64, u64)>, lo: int, hi: int) -> bool {
    &&& forall|i: int| 0 <= i < e.len() ==> #[trigger] in_span(e[i], lo, hi)
    &&& forall|i: int| 0 <= i < o.len() ==> #[trigger] in_span(o[i], lo, hi)
    &&& pairwise_disjoint(e)
    &&& pairwise_disjoint(o)
    &&& forall|i: int, j: int| 0 <= i < e.len() && 0 <= j < o.len() ==> #[trigger] disjoint(e[i], o[j])
    &&& total_extent(e) + total_extent(o) == hi - lo
}

proof fn lemma_total_len_remove(s: Seq<(u64, u64)>, i: int)
    requires
        0 <= i < s.len(),
    ensures
        total_extent(s) == total_extent(s.remove(i)) + extent(s[i]),
    decreases s.len(),
{
    if i == s.len() - 1 {
        assert(s.remove(i) =~= s.drop_last());
    } else {
        lemma_total_len_remove(s.drop_last(), i);
        assert(s.remove(i).drop_last() =~= s.drop_last().remove(i));
    }
}

proof fn lemma_entry_ranges_push(e: Seq<(u64, u64, bool)>, x: (u64, u64, bool))
    ensures
        entry_ranges(e.push(x)) == entry_ranges(e).push(range_of(x)),
{
    assert(entry_ranges(e.push(x)) =~= entry_ranges(e).push(range_of(x)));
}

/// A range placed at the top of a covered span extends the cover.
proof fn lemma_layout_grow(e: Seq<(u64, u64)>, o: Seq<(u64, u64)>, lo: int, hi: int, f: (u64, u64))
    requires
        layout_ok(e, o, lo, hi),
        lo <= hi,
        f.0 == hi,
    ensures
        layout_ok(e.push(f), o, lo, hi + extent(f)),
{
    let n = e.push(f);
    assert forall|i: int| 0 <= i < n.len() implies #[trigger] in_span(n[i], lo, hi + extent(f)) by {
        if i < e.len() {
            assert(in_span(e[i], lo, hi));
        }
    }
    assert forall|i: int| 0 <= i < o.len() implies #[trigger] in_span(o[i], lo, hi + extent(f)) by {
        assert(in_span(o[i], lo, hi));
    }
    assert forall|i: int, j: int|
        0 <= i < n.len() && 0 <= j < n.len() && i != j implies #[trigger] disjoint(n[i], n[j]) by {
        if i < e.len() && j < e.len() {
            assert(disjoint(e[i], e[j]));
        } else if i < e.len() {
            assert(in_span(e[i], lo, hi));
        } else {
            assert(in_span(e[j], lo, hi));
        }
    }
    assert forall|i: int, j: int| 0 <= i < n.len() && 0 <= j < o.len() implies #[trigger] disjoint(
        n[i],
        o[j],
    ) by {
        assert(in_span(o[j], lo, hi));
        if i < e.len() {
            assert(disjoint(e[i], o[j]));
        }
    }
    assert(n.drop_last() =~= e);
}

/// Moving an in-flight range into the index keeps the cover.
proof fn lemma_layout_move(e: Seq<(u64, u64)>, o: Seq<(u64, u64)>, lo: int, hi: int, k: int)
    requires
        layout_ok(e, o, lo, hi),
        0 <= k < o.len(),
    ensures
        layout_ok(e.push(o[k]), o.remove(k), lo, hi),
{
    let n = e.push(o[k]);
    let m = o.remove(k);
    assert forall|i: int| 0 <= i < n.len() implies #[trigger] in_span(n[i], lo, hi) by {
        if i < e.len() {
            assert(in_span(e[i], lo, hi));
        } else {
            assert(in_span(o[k], lo, hi));
        }
    }
    assert forall|i: int| 0 <= i < m.len() implies #[trigger] in_span(m[i], lo, hi) by {
        if i < k {
            assert(in_span(o[i], lo, hi));
        } else {
            assert(in_span(o[i + 1], lo, hi));
        }
    }
    assert forall|i: int, j: int|
        0 <= i < n.len() && 0 <= j < n.len() && i != j implies #[trigger] disjoint(n[i], n[j]) by {
        if i < e.len() && j < e.len() {
            assert(disjoint(e[i], e[j]));
        } else if i < e.len() {
            assert(disjoint(e[i], o[k]));
        } else {
            assert(disjoint(e[j], o[k]));
        }
    }
    assert forall|i: int, j: int|
        0 <= i < m.len() && 0 <= j < m.len() && i != j implies #[trigger] disjoint(m[i], m[j]) by {
        let a = if i < k { i } else { i + 1 };
        let b = if j < k { j } else { j + 1 };
        assert(m[i] == o[a] && m[j] == o[b]);
        assert(disjoint(o[a], o[b]));
    }
    assert forall|i: int, j: int| 0 <= i < n.len() && 0 <= j < m.len() implies #[trigger] disjoint(
        n[i],
        m[j],
    ) by {
        let b = if j < k { j } else { j + 1 };
        assert(m[j] == o[b]);
        if i < e.len() {
            assert(disjoint(e[i], o[b]));
        } else {
            assert(disjoint(o[k], o[b]));
        }
    }
    assert(n.drop_last() =~= e);
    lemma_total_len_remove(o, k);
}

/// The allocator: where the next write goes, and what the index holds.
pub struct Locations {
    cur_position: u64,
    write_positions: Vec<u64>,
    write_positions_meta: Vec<(u64, u64, bool)>,
    /// Ranges handed out by `allocate` and not yet recorded.
    outstanding: Ghost<Seq<(u64, u64)>>,
    /// Every payload range handed out so far, in the order of allocation.
    history: Ghost<Seq<(u64, u64)>>,
    /// Where the first allocation went.
    start: Ghost<int>,
}

impl View for Locations {
    type V = LocState;

    closed spec fn view(&self) -> LocState {
        LocState {
            cursor: self.cur_position as int,
            pending: self.write_positions@,
            entries: self.write_positions_meta@,
        }
    }
}

impl Locations {
    /// Ranges allocated to writers that have not recorded them yet.
    pub closed spec fn in_flight(&self) -> Seq<(u64, u64)> {
        self.outstanding@
    }

    /// Every payload range allocated so far, in the order of allocation.
    pub closed spec fn allocations(&self) -> Seq<(u64, u64)> {
        self.history@
    }

    /// Number of payload ranges allocated so far.
    pub open spec fn allocated(&self) -> nat {
        self.allocations().len()
    }

    /// The first byte that this allocator handed out.
    pub closed spec fn first_byte(&self) -> int {
        self.start@
    }

    /// Every range in the index or in flight lies between the first byte
    /// and the cursor, no two of them overlap, and their extents add up to
    /// all the bytes handed out. The payload entries of the index and the
    /// ranges in flight are, together, exactly the ranges allocated. Each
    /// fragment took a thousand of the offsets allocated, and fewer than a
    /// thousand more are pending than there are ranges in flight.
    pub open spec fn wf(&self) -> bool {
        let e = entry_ranges(self@.entries);
        let o = self.in_flight();
        let lo = self.first_byte();
        &&& BODY_START <= lo <= self@.cursor
        &&& layout_ok(e, o, lo, self@.cursor)
        &&& payload_count(self@.entries) + o.len() == self.allocated()
        &&& select(self@.entries, false).to_multiset().add(o.to_multiset())
            == self.allocations().to_multiset()
        &&& fragment_count(self@.entries) * FLUSH_EVERY + self@.pending.len() == self.allocated()
        &&& self@.pending.len() < FLUSH_EVERY + o.len()
    }

    /// Allocator whose first write goes to `cur_pos`.
    pub fn new(cur_pos: u64) -> (r: Self)
        requires
            cur_pos >= BODY_START,
        ensures
            r.wf(),
            r@ == (LocState { cursor: cur_pos as int, pending: seq![], entries: seq![] }),
            r.in_flight() == Seq::<(u64, u64)>::empty(),
            r.allocations() == Seq::<(u64, u64)>::empty(),
            r.first_byte() == cur_pos,
    {
        let r = Locations {
            cur_position: cur_pos,
            write_positions: Vec::new(),
            write_positions_meta: Vec::new(),
            outstanding: Ghost(Seq::empty()),
            history: Ghost(Seq::empty()),
            start: Ghost(cur_pos as int),
        };
        proof {
            broadcast use vstd::seq_lib::group_to_multiset_ensures;
            broadcast use vstd::multiset::lemma_multiset_empty_len;

            assert(entry_ranges(r@.entries) =~= Seq::<(u64, u64)>::empty());
            let none = Seq::<(u64, u64)>::empty();
            assert(select(r@.entries, false) == none);
            assert(none.to_multiset().len() == 0);
            assert(none.to_multiset().add(none.to_multiset()) =~= none.to_multiset());
        }
        r
    }

    /// Reserves `len` bytes at the cursor for a payload and returns their
    /// offset; the offset joins the pending offsets.
    pub fn allocate(&mut self, len: u64) -> (r: u64)
        requires
            old(self).wf(),
            old(self)@.cursor + reserved(len) <= u64::MAX,
        ensures
            final(self).wf(),
            r == old(self)@.cursor,
            final(self)@ == alloc_step(old(self)@, len),
            final(self).in_flight() == old(self).in_flight().push((r, len)),
            final(self).allocations() == old(self).allocations().push((r, len)),
            final(self).first_byte() == old(self).first_byte(),
    {
        let r = self.cur_position;
        let step: u64 = if len == 0 {
            1
        } else {
            len
        };
        self.cur_position = r + step;
        self.write_positions.push(r);
        proof {
            let o = self.outstanding@;
            let e = entry_ranges(self@.entries);
            let n = o.push((r, len));
            assert forall|i: int| 0 <= i < n.len() implies #[trigger] in_span(
                n[i],
                self.start@,
                self@.cursor,
            ) by {
                if i < o.len() {
                    assert(in_span(o[i], self.start@, r as int));
                }
            }
            assert forall|i: int, j: int|
                0 <= i < n.len() && 0 <= j < n.len() && i != j implies #[trigger] disjoint(
                n[i],
                n[j],
            ) by {
                if i < o.len() && j < o.len() {
                    assert(disjoint(o[i], o[j]));
                } else if i < o.len() {
                    assert(in_span(o[i], self.start@, r as int));
                } else {
                    assert(in_span(o[j], self.start@, r as int));
                }
            }
            assert forall|i: int, j: int|
                0 <= i < e.len() && 0 <= j < n.len() implies #[trigger] disjoint(e[i], n[j]) by {
                assert(in_span(e[i], self.start@, r as int));
                if j < o.len() {
                    assert(disjoint(e[i], o[j]));
                }
            }
            assert forall|i: int| 0 <= i < e.len() implies #[trigger] in_span(
                e[i],
                self.start@,
                self@.cursor,
            ) by {
                assert(in_span(e[i], self.start@, r as int));
            }
            assert(n.drop_last() =~= o);
            assert(total_extent(n) == total_extent(o) + reserved(len));
            self.outstanding = Ghost(n);
            broadcast use vstd::seq_lib::group_to_multiset_ensures;

            let sel = select(self@.entries, false).to_multiset();
            assert(sel.add(n.to_multiset()) =~= sel.add(o.to_multiset()).insert((r, len)));
            self.history = Ghost(self.history@.push((r, len)));
        }
        r
    }

    /// Records the completed write of `len` bytes at `offset` in the index.
    /// When a thousand or more offsets are pending, the oldest thousand are
    /// first serialized into a fragment placed at the cursor and recorded in
    /// the index, and the others stay pending; the fragment's offset and
    /// bytes are returned for the caller to write. The cursor must have room
    /// for that fragment: at most nine bytes per offset and nine for the
    /// count.
    pub fn record_and_maybe_flush(&mut self, offset: u64, len: u64) -> (r: Option<(u64, Vec<u8>)>)
        requires
            old(self).wf(),
            old(self).in_flight().contains((offset, len)),
            old(self)@.cursor + 9 * (FLUSH_EVERY + 1) <= u64::MAX,
        ensures
            final(self).wf(),
            final(self)@ == record_step(old(self)@, offset, len),
            r is Some <==> flushes(old(self)@),
            r is Some ==> (r->0).0 == old(self)@.cursor && (r->0).1@ == offsets_bytes(
                flushed(old(self)@),
            ),
            final(self).in_flight().len() == old(self).in_flight().len() - 1,
            final(self).allocations() == old(self).allocations(),
            final(self).first_byte() == old(self).first_byte(),
    {
        let ghost e0 = self.write_positions_meta@;
        let ghost lo = self.start@;
        let ghost c0 = self@.cursor;
        let ghost p0 = self@.pending;
        let flush = if self.write_positions.len() >= FLUSH_EVERY {
            let rest = self.write_positions.split_off(FLUSH_EVERY);
            let blob = encode_offsets(&self.write_positions).unwrap();
            proof {
                lemma_offsets_bytes_len(self.write_positions@);
                lemma_varint_len(self.write_positions@.len() as u64);
            }
            let n = blob.len() as u64;
            let at = self.cur_position;
            self.cur_position = at + n;
            self.write_positions_meta.push((at, n, true));
            self.write_positions = rest;
            proof {
                lemma_entry_ranges_push(e0, (at, n, true));
                lemma_layout_grow(entry_ranges(e0), self.outstanding@, lo, c0, (at, n));
            }
            Some((at, blob))
        } else {
            None
        };
        let ghost e1 = self.write_positions_meta@;
        let ghost o = self.outstanding@;
        let ghost k = choose|k: int| 0 <= k < o.len() && o[k] == (offset, len);
        self.write_positions_meta.push((offset, len, false));
        proof {
            lemma_entry_ranges_push(e1, (offset, len, false));
            lemma_layout_move(entry_ranges(e1), o, lo, self@.cursor, k);
            self.outstanding = Ghost(o.remove(k));
            let e2 = self.write_positions_meta@;
            assert(e2.drop_last() =~= e1);
            assert(payload_count(e2) == payload_count(e1) + 1);
            if flush is Some {
                assert(e1.drop_last() =~= e0);
                assert(payload_count(e1) == payload_count(e0));
                assert(fragment_count(e1) == fragment_count(e0) + 1);
                assert(fragment_count(e2) == fragment_count(e0) + 1);
            } else {
                assert(e1 == e0);
                assert(fragment_count(e2) == fragment_count(e0));
            }
            assert(layout_ok(entry_ranges(e2), self.outstanding@, lo, self@.cursor));
            broadcast use vstd::seq_lib::group_to_multiset_ensures;

            assert(select(e2, false) == select(e1, false).push((offset, len)));
            if flush is Some {
                assert(select(e1, false) == select(e0, false));
            }
            let m0 = select(e0, false).to_multiset();
            assert(m0.insert((offset, len)).add(o.remove(k).to_multiset()) =~= m0.add(
                o.to_multiset(),
            ));
            assert(BODY_START <= lo <= self@.cursor);
        }
        flush
    }

    /// Next free byte offset.
    pub fn cur_position(&self) -> (r: u64)
        ensures
            r == self@.cursor,
    {
        self.cur_position
    }

    /// Number of offsets written since the last flush.
    pub fn pending_len(&self) -> (r: usize)
        ensures
            r == self@.pending.len(),
    {
        self.write_positions.len()
    }

    /// The primary index as it stands.
    pub fn entries(&self) -> (r: &Vec<(u64, u64, bool)>)
        ensures
            r@ == self@.entries,
    {
        &self.write_positions_meta
    }
}

impl Default for Locations {
    /// An allocator whose first write goes to the start of the body.
    fn default() -> (r: Self)
        ensures
            r.wf(),
            r@ == (LocState { cursor: BODY_START as int, pending: seq![], entries: seq![] }),
            r.in_flight().len() == 0,
            r.allocations() == Seq::<(u64, u64)>::empty(),
    {
        Locations::new(BODY_START)
    }
}

/// Failures of the container.
#[derive(Debug, Clone, Copy, PartialEq, Eq, Structural)]
pub enum GasError {
    /// The file's first four bytes hold this version, not the supported one.
    VersionMismatch(u32),
    /// A read, write or seek failed, or the file ended early.
    IoFailure,
    /// The serialized primary index does not fit in its reserved region.
    IndexOverflow,
    /// The stored primary index cannot be decoded.
    CorruptIndex,
    /// An index entry points past the end of the file.
    OutOfRangeRead,
}

/// Number of workers that a start request spawns.
pub open spec fn workers_to_spawn(started: bool, threads: nat) -> nat {
    if started {
        0
    } else {
        threads
    }
}

/// The eight header bytes of a fresh container: the version, then a zero
/// index length.
pub open spec fn fresh_header() -> Seq<u8> {
    le_bytes(GAS_FILE_VERSION as nat, 4) + le_bytes(0, 4)
}

/// What finalizing writes at byte 4: the index length, then the index.
pub open spec fn index_patch(entries: Seq<(u64, u64, bool)>) -> Seq<u8> {
    le_bytes(index_bytes(entries).len(), 4) + index_bytes(entries)
}

/// State of a container being written: its thread count, whether the
/// workers were started, and the allocator they share.
pub struct GasFileWriter {
    threads: usize,
    worker_threads_started_flag: bool,
    positions: Locations,
}

impl GasFileWriter {
    /// Whether the workers were started.
    pub closed spec fn started(&self) -> bool {
        self.worker_threads_started_flag
    }

    /// Number of writer threads.
    pub closed spec fn thread_count(&self) -> nat {
        self.threads as nat
    }

    /// The shared allocator.
    pub closed spec fn locations(&self) -> Locations {
        self.positions
    }

    /// The allocator is well formed and there is at least one thread.
    pub open spec fn wf(&self) -> bool {
        self.locations().wf() && self.thread_count() >= 1
    }

    /// A writer for `threads` worker threads, not started, whose first
    /// payload goes to the start of the body.
    pub fn new_writer(threads: usize) -> (r: Self)
        requires
            threads >= 1,
        ensures
            r.wf(),
            !r.started(),
            r.thread_count() == threads,
            r.locations()@ == (LocState { cursor: BODY_START as int, pending: seq![], entries: seq![] }),
            r.locations().in_flight().len() == 0,
            r.locations().allocated() == 0,
    {
        GasFileWriter {
            threads,
            worker_threads_started_flag: false,
            positions: Locations::new(BODY_START),
        }
    }

    /// The bytes that open a fresh container.
    pub fn header_bytes() -> (r: Vec<u8>)
        ensures
            r@ == fresh_header(),
    {
        let mut r = u32_to_le(GAS_FILE_VERSION);
        let mut z = u32_to_le(0);
        r.append(&mut z);
        r
    }

    /// Marks the workers as started; returns how many to spawn now: all of
    /// them the first time, none after.
    pub fn start_write_worker(&mut self) -> (r: usize)
        requires
            old(self).wf(),
        ensures
            final(self).wf(),
            r == workers_to_spawn(old(self).started(), old(self).thread_count()),
            final(self).started(),
            final(self).thread_count() == old(self).thread_count(),
            final(self).locations() == old(self).locations(),
    {
        if self.worker_threads_started_flag {
            0
        } else {
            self.worker_threads_started_flag = true;
            self.threads
        }
    }

    /// Number of writer threads.
    pub fn threads(&self) -> (r: usize)
        ensures
            r == self.thread_count(),
    {
        self.threads
    }

    /// Next free byte offset.
    pub fn cur_position(&self) -> (r: u64)
        ensures
            r == self.locations()@.cursor,
    {
        self.positions.cur_position()
    }

    /// Number of offsets written since the last flush.
    pub fn pending_len(&self) -> (r: usize)
        ensures
            r == self.locations()@.pending.len(),
    {
        self.positions.pending_len()
    }

    /// Reserves `len` bytes for a payload; see `Locations::allocate`.
    pub fn allocate(&mut self, len: u64) -> (r: u64)
        requires
            old(self).wf(),
            old(self).locations()@.cursor + reserved(len) <= u64::MAX,
        ensures
            final(self).wf(),
            r == old(self).locations()@.cursor,
            final(self).locations()@ == alloc_step(old(self).locations()@, len),
            final(self).locations().in_flight() == old(self).locations().in_flight().push(
                (r, len),
            ),
            final(self).locations().allocated() == old(self).locations().allocated() + 1,
            final(self).started() == old(self).started(),
            final(self).thread_count() == old(self).thread_count(),
    {
        self.positions.allocate(len)
    }

    /// Records a completed payload write; see
    /// `Locations::record_and_maybe_flush`.
    pub fn record(&mut self, offset: u64, len: u64) -> (r: Option<(u64, Vec<u8>)>)
        requires
            old(self).wf(),
            old(self).locations().in_flight().contains((offset, len)),
            old(self).locations()@.cursor + 9 * (FLUSH_EVERY + 1) <= u64::MAX,
        ensures
            final(self).wf(),
            final(self).locations()@ == record_step(old(self).locations()@, offset, len),
            r is Some <==> flushes(old(self).locations()@),
            r is Some ==> (r->0).0 == old(self).locations()@.cursor && (r->0).1@
                == offsets_bytes(flushed(old(self).locations()@)),
            final(self).locations().in_flight().len() == old(self).locations().in_flight().len()
                - 1,
            final(self).locations().allocated() == old(self).locations().allocated(),
            final(self).started() == old(self).started(),
            final(self).thread_count() == old(self).thread_count(),
    {
        self.positions.record_and_maybe_flush(offset, len)
    }

    /// Serializes the primary index once every write has been recorded.
    /// Returns the bytes to write at byte 4 (the index length, then the
    /// index), or `IndexOverflow` when the index exceeds its region.
    pub fn finalize(self) -> (r: Result<Vec<u8>, GasError>)
        requires
            self.wf(),
            self.locations().in_flight().len() == 0,
        ensures
            r is Err <==> index_bytes(self.locations()@.entries).len() > INDEX_REGION_BYTES,
            r is Err ==> r == Err::<Vec<u8>, GasError>(GasError::IndexOverflow),
            r is Ok ==> (r->Ok_0)@ == index_patch(self.locations()@.entries),
    {
        let mut idx = encode_index(self.positions.entries()).unwrap();
        if idx.len() as u64 > INDEX_REGION_BYTES {
            Err(GasError::IndexOverflow)
        } else {
            let mut r = u32_to_le(idx.len() as u32);
            r.append(&mut idx);
            Ok(r)
        }
    }
}

/// The ranges of the entries of `e` whose fragment tag is `frag`, in order.
pub open spec fn select(e: Seq<(u64, u64, bool)>, frag: bool) -> Seq<(u64, u64)>
    decreases e.len(),
{
    if e.len() == 0 {
        seq![]
    } else if e.last().2 == frag {
        select(e.drop_last(), frag).push(range_of(e.last()))
    } else {
        select(e.drop_last(), frag)
    }
}

/// The items of `p` at the positions that worker `w` of `t` takes when the
/// items are dealt out in turn.
pub open spec fn share(p: Seq<(u64, u64)>, t: nat, w: nat) -> Seq<(u64, u64)>
    decreases p.len(),
{
    if p.len() == 0 {
        seq![]
    } else if (p.len() - 1) as nat % t == w {
        share(p.drop_last(), t, w).push(p.last())
    } else {
        share(p.drop_last(), t, w)
    }
}

/// The ranges of the entries of `e` whose fragment tag is `frag`.
fn select_entries(e: &Vec<(u64, u64, bool)>, frag: bool) -> (r: Vec<(u64, u64)>)
    ensures
        r@ == select(e@, frag),
{
    let mut r: Vec<(u64, u64)> = Vec::new();
    let mut i: usize = 0;
    while i < e.len()
        invariant
            i <= e@.len(),
            r@ == select(e@.subrange(0, i as int), frag),
        decreases e@.len() - i,
    {
        let x = e[i];
        proof {
            assert(e@.subrange(0, i + 1).drop_last() =~= e@.subrange(0, i as int));
        }
        if x.2 == frag {
            r.push((x.0, x.1));
        }
        i += 1;
    }
    proof {
        assert(e@.subrange(0, e@.len() as int) =~= e@);
    }
    r
}

/// Whether reading `length` bytes at `offset` stays within a file of
/// `file_size` bytes.
pub fn check_read_range(offset: u64, length: u64, file_size: u64) -> (r: Result<(), GasError>)
    ensures
        r is Ok <==> offset + length <= file_size,
        r is Err ==> r == Err::<(), GasError>(GasError::OutOfRangeRead),
{
    if length > file_size || offset > file_size - length {
        Err(GasError::OutOfRangeRead)
    } else {
        Ok(())
    }
}

/// State of a container being read: its version, thread count, and the
/// primary index once loaded.
pub struct GasFileReader {
    version: u32,
    threads: usize,
    positions: Vec<(u64, u64, bool)>,
}

impl GasFileReader {
    /// The version read from the file.
    pub closed spec fn file_version(&self) -> u32 {
        self.version
    }

    /// Number of reader threads.
    pub closed spec fn thread_count(&self) -> nat {
        self.threads as nat
    }

    /// The primary index loaded so far.
    pub closed spec fn index(&self) -> Seq<(u64, u64, bool)> {
        self.positions@
    }

    /// Checks the first bytes of a file, `head`, for the supported version.
    /// Fails with `IoFailure` when fewer than four bytes could be read, and
    /// with `VersionMismatch` holding the version found when it differs.
    pub fn new_reader(head: &[u8], threads: usize) -> (r: Result<GasFileReader, GasError>)
        requires
            threads >= 1,
        ensures
            head@.len() < 4 ==> r == Err::<GasFileReader, GasError>(GasError::IoFailure),
            head@.len() >= 4 ==> {
                let v = le_value(head@.subrange(0, 4));
                &&& v != GAS_FILE_VERSION ==> r == Err::<GasFileReader, GasError>(
                    GasError::VersionMismatch(v as u32),
                )
                &&& v == GAS_FILE_VERSION ==> r is Ok
            },
            r is Ok ==> (r->Ok_0).file_version() == GAS_FILE_VERSION && (r->Ok_0).thread_count()
                == threads && (r->Ok_0).index().len() == 0,
    {
        if head.len() < 4 {
            return Err(GasError::IoFailure);
        }
        let version = u32_from_le(head, 0);
        if version != GAS_FILE_VERSION {
            return Err(GasError::VersionMismatch(version));
        }
        Ok(GasFileReader { version, threads, positions: Vec::new() })
    }

    /// Number of reader threads.
    pub fn threads(&self) -> (r: usize)
        ensures
            r == self.thread_count(),
    {
        self.threads
    }

    /// Reads the index length from the first eight bytes of a file. Fails
    /// with `IoFailure` when fewer were read, and with `CorruptIndex` when
    /// the length exceeds the reserved region.
    pub fn index_len(header: &[u8]) -> (r: Result<usize, GasError>)
        ensures
            header@.len() < 8 ==> r == Err::<usize, GasError>(GasError::IoFailure),
            header@.len() >= 8 ==> {
                let n = le_value(header@.subrange(4, 8));
                &&& n > INDEX_REGION_BYTES ==> r == Err::<usize, GasError>(GasError::CorruptIndex)
                &&& n <= INDEX_REGION_BYTES ==> r == Ok::<usize, GasError>(n as usize)
            },
    {
        if header.len() < 8 {
            return Err(GasError::IoFailure);
        }
        let n = u32_from_le(header, 4);
        if n as u64 > INDEX_REGION_BYTES {
            Err(GasError::CorruptIndex)
        } else {
            Ok(n as usize)
        }
    }

    /// Loads the primary index from its serialized bytes. Succeeds exactly
    /// when `index` fits in the reserved region and is the encoding of a
    /// sequence of entries, which then becomes the index; fails with
    /// `CorruptIndex` otherwise.
    pub fn load_index(&mut self, index: &[u8]) -> (r: Result<(), GasError>)
        ensures
            r is Ok ==> index_bytes(final(self).index()) == index@,
            forall|s: Seq<(u64, u64, bool)>|
                #[trigger] index_bytes(s) == index@ && index@.len() <= INDEX_REGION_BYTES ==> r is Ok
                    && final(self).index() == s,
            index@.len() > INDEX_REGION_BYTES ==> r is Err,
            r is Err ==> r == Err::<(), GasError>(GasError::CorruptIndex) && final(self).index()
                == old(self).index(),
            final(self).file_version() == old(self).file_version(),
            final(self).thread_count() == old(self).thread_count(),
    {
        if index.len() as u64 > INDEX_REGION_BYTES {
            return Err(GasError::CorruptIndex);
        }
        match decode_index(index) {
            Some((entries, used)) => {
                if used != index.len() {
                    return Err(GasError::CorruptIndex);
                }
                let again = encode_index(&entries).unwrap();
                if !bytes_eq(&again, index) {
                    return Err(GasError::CorruptIndex);
                }
                self.positions = entries;
                Ok(())
            },
            None => Err(GasError::CorruptIndex),
        }
    }

    /// Ranges of the payload entries of the index, in index order.
    pub fn payload_entries(&self) -> (r: Vec<(u64, u64)>)
        ensures
            r@ == select(self.index(), false),
    {
        select_entries(&self.positions, false)
    }

    /// Ranges of the secondary-index fragments of the index, in index order.
    pub fn fragment_entries(&self) -> (r: Vec<(u64, u64)>)
        ensures
            r@ == select(self.index(), true),
    {
        select_entries(&self.positions, true)
    }

    /// The payload ranges that reader thread `worker` extracts: the payload
    /// entries are dealt out to the threads in turn.
    pub fn worker_entries(&self, worker: usize) -> (r: Vec<(u64, u64)>)
        requires
            worker < self.thread_count(),
        ensures
            r@ == share(select(self.index(), false), self.thread_count(), worker as nat),
    {
        let p = select_entries(&self.positions, false);
        let mut r: Vec<(u64, u64)> = Vec::new();
        let mut i: usize = 0;
        while i < p.len()
            invariant
                i <= p@.len(),
                self.threads >= 1,
                worker < self.threads,
                r@ == share(p@.subrange(0, i as int), self.threads as nat, worker as nat),
            decreases p@.len() - i,
        {
            proof {
                assert(p@.subrange(0, i + 1).drop_last() =~= p@.subrange(0, i as int));
            }
            if i % self.threads == worker {
                r.push(p[i]);
            }
            i += 1;
        }
        proof {
            assert(p@.subrange(0, p@.len() as int) =~= p@);
        }
        r
    }
}

/// Whether two byte strings are equal.
fn bytes_eq(a: &Vec<u8>, b: &[u8]) -> (r: bool)
    ensures
        r <==> a@ == b@,
{
    if a.len() != b.len() {
        return false;
    }
    let mut i: usize = 0;
    while i < a.len()
        invariant
            i <= a@.len(),
            a@.len() == b@.len(),
            forall|k: int| 0 <= k < i ==> a@[k] == b@[k],
        decreases a@.len() - i,
    {
        if a[i] != b[i] {
            return false;
        }
        i += 1;
    }
    proof {
        assert(a@ =~= b@);
    }
    true
}

} // verus!
