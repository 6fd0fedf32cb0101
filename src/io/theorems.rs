//! What holds of the allocator and of the writer over several operations.
use crate::io::codec::index_bytes;
use crate::io::format::{le_bytes, le_value, FLUSH_EVERY, INDEX_REGION_BYTES};
use crate::io::v1::{
    alloc_step, entry_ranges, fragment_count, in_span, pairwise_disjoint, payload_count,
    disjoint, index_patch, range_of, record_step, select, share, total_extent, workers_to_spawn, LocState,
    Locations,
};
use vstd::arithmetic::div_mod::lemma_fundamental_div_mod_converse;
use vstd::multiset::Multiset;
use vstd::prelude::*;

verus! {

/// State after one writer allocates `len` bytes and records them at once.
pub open spec fn write_one(s: LocState, len: u64) -> LocState {
    record_step(alloc_step(s, len), s.cursor as u64, len)
}

/// State after a single writer writes payloads of lengths `lens`, in order.
pub open spec fn write_all(s: LocState, lens: Seq<u64>) -> LocState
    decreases lens.len(),
{
    if lens.len() == 0 {
        s
    } else {
        write_one(write_all(s, lens.drop_last()), lens.last())
    }
}

proof fn lemma_select_payloads(e: Seq<(u64, u64, bool)>)
    ensures
        select(e, false).len() == payload_count(e),
        forall|i: int|
            0 <= i < select(e, false).len() ==> exists|j: int|
                0 <= j < e.len() && #[trigger] select(e, false)[i] == range_of(e[j]),
    decreases e.len(),
{
    if e.len() > 0 {
        let d = e.drop_last();
        lemma_select_payloads(d);
        assert forall|i: int| 0 <= i < select(e, false).len() implies exists|j: int|
            0 <= j < e.len() && #[trigger] select(e, false)[i] == range_of(e[j]) by {
            if i < select(d, false).len() {
                let j = choose|j: int| 0 <= j < d.len() && select(d, false)[i] == range_of(d[j]);
                assert(select(e, false)[i] == range_of(e[j]));
            } else {
                assert(select(e, false)[i] == range_of(e[e.len() - 1]));
            }
        }
    }
}

proof fn lemma_select_disjoint(e: Seq<(u64, u64, bool)>)
    requires
        pairwise_disjoint(entry_ranges(e)),
    ensures
        pairwise_disjoint(select(e, false)),
    decreases e.len(),
{
    if e.len() > 0 {
        let d = e.drop_last();
        let r = entry_ranges(e);
        assert(entry_ranges(d) =~= r.drop_last());
        lemma_select_disjoint(d);
        lemma_select_payloads(d);
        let s = select(e, false);
        let sd = select(d, false);
        if !e.last().2 {
            assert forall|i: int, j: int|
                0 <= i < s.len() && 0 <= j < s.len() && i != j implies #[trigger]
                disjoint(s[i], s[j]) by {
                if i < sd.len() && j < sd.len() {
                    assert(disjoint(sd[i], sd[j]));
                } else if i < sd.len() {
                    let k = choose|k: int| 0 <= k < d.len() && sd[i] == range_of(d[k]);
                    assert(disjoint(r[k], r[e.len() - 1]));
                } else {
                    let k = choose|k: int| 0 <= k < d.len() && sd[j] == range_of(d[k]);
                    assert(disjoint(r[e.len() - 1], r[k]));
                }
            }
        }
    }
}

/// Once every allocated write has been recorded, the payload entries of the
/// index are exactly the ranges allocated, counted with repetition, one per
/// allocation; no two entries (payloads or fragments) share a byte; and
/// together they cover every byte handed out, from the first allocation up
/// to the cursor.
pub proof fn lemma_index_covers_writes(l: Locations)
    requires
        l.wf(),
        l.in_flight().len() == 0,
    ensures
        select(l@.entries, false).len() == l.allocated(),
        select(l@.entries, false).to_multiset() == l.allocations().to_multiset(),
        pairwise_disjoint(select(l@.entries, false)),
        pairwise_disjoint(entry_ranges(l@.entries)),
        forall|i: int|
            0 <= i < l@.entries.len() ==> #[trigger] in_span(
                entry_ranges(l@.entries)[i],
                l.first_byte(),
                l@.cursor,
            ),
        total_extent(entry_ranges(l@.entries)) == l@.cursor - l.first_byte(),
{
    lemma_select_payloads(l@.entries);
    lemma_select_disjoint(l@.entries);
    assert(total_extent(l.in_flight()) == 0);
    broadcast use vstd::seq_lib::group_to_multiset_ensures;
    broadcast use vstd::multiset::lemma_multiset_empty_len;

    let m = select(l@.entries, false).to_multiset();
    assert(l.in_flight().to_multiset().len() == 0);
    assert(m.add(l.in_flight().to_multiset()) =~= m);
}

/// Starting a writer twice spawns its workers once: the first request
/// spawns all of them, the second none.
pub proof fn lemma_start_twice(threads: nat)
    ensures
        workers_to_spawn(false, threads) + workers_to_spawn(true, threads) == threads,
{
}

/// A single writer that writes `lens` from a state with fewer than a
/// thousand pending offsets flushes once per thousand offsets accumulated,
/// and adds one payload entry per write.
pub proof fn lemma_flush_count(s: LocState, lens: Seq<u64>)
    requires
        s.pending.len() < FLUSH_EVERY,
    ensures
        fragment_count(write_all(s, lens).entries) == fragment_count(s.entries) + (
        s.pending.len() + lens.len()) / FLUSH_EVERY as nat,
        write_all(s, lens).pending.len() == (s.pending.len() + lens.len()) % FLUSH_EVERY as nat,
        payload_count(write_all(s, lens).entries) == payload_count(s.entries) + lens.len(),
    decreases lens.len(),
{
    if lens.len() > 0 {
        let d = lens.drop_last();
        lemma_flush_count(s, d);
        let w = write_all(s, d);
        let a = alloc_step(w, lens.last());
        let x: int = (s.pending.len() + d.len()) as int;
        let q: int = x / 1000;
        let r: int = x % 1000;
        assert(x == q * 1000 + r && 0 <= r < 1000);
        assert(w.pending.len() == r);
        assert(fragment_count(w.entries) == fragment_count(s.entries) + q);
        let n = write_one(w, lens.last());
        assert(a.pending.len() == r + 1);
        if r + 1 >= 1000 {
            lemma_fundamental_div_mod_converse(x + 1, 1000, q + 1, 0);
            assert(n.entries.drop_last().drop_last() =~= w.entries);
            assert(n.entries.drop_last().last().2);
            assert(fragment_count(n.entries.drop_last()) == fragment_count(w.entries) + 1);
            assert(payload_count(n.entries.drop_last()) == payload_count(w.entries));
        } else {
            lemma_fundamental_div_mod_converse(x + 1, 1000, q, r + 1);
            assert(n.entries.drop_last() =~= w.entries);
        }
        assert(lens.drop_last() == d);
        assert(write_all(s, lens) == n);
    }
}

/// Four little-endian bytes read back as the number they were made from.
pub proof fn lemma_le32_round_trip(n: nat)
    requires
        n < 0x1_0000_0000,
    ensures
        le_bytes(n, 4).len() == 4,
        le_value(le_bytes(n, 4)) == n,
{
    reveal_with_fuel(le_bytes, 5);
    reveal_with_fuel(le_value, 5);
    let b = le_bytes(n, 4);
    assert(b.drop_first() =~= le_bytes(n / 256, 3));
    assert(b.drop_first().drop_first() =~= le_bytes(n / 256 / 256, 2));
    assert(b.drop_first().drop_first().drop_first() =~= le_bytes(n / 256 / 256 / 256, 1));
    assert(b.drop_first().drop_first().drop_first().drop_first() =~= le_bytes(
        n / 256 / 256 / 256 / 256,
        0,
    ));
    assert(n / 256 / 256 / 256 < 256) by (nonlinear_arith)
        requires
            n < 0x1_0000_0000,
    ;
    assert(n == n % 256 + 256 * ((n / 256) % 256 + 256 * ((n / 256 / 256) % 256 + 256 * (n
        / 256 / 256 / 256)))) by (nonlinear_arith);
}

/// What finalizing writes at byte 4 reads back: its first four bytes give
/// the index length, and the bytes after them are the index.
pub proof fn lemma_index_patch_reads_back(e: Seq<(u64, u64, bool)>)
    requires
        index_bytes(e).len() <= INDEX_REGION_BYTES,
    ensures
        le_value(index_patch(e).subrange(0, 4)) == index_bytes(e).len(),
        index_patch(e).subrange(4, 4 + index_bytes(e).len() as int) == index_bytes(e),
{
    let n = index_bytes(e).len();
    lemma_le32_round_trip(n);
    assert(index_patch(e).subrange(0, 4) =~= le_bytes(n, 4));
    assert(index_patch(e).subrange(4, 4 + n as int) =~= index_bytes(e));
}

/// Everything that workers `0 .. n` of `t` take from `p`, counted with
/// repetition.
pub open spec fn shares_of(p: Seq<(u64, u64)>, t: nat, n: nat) -> Multiset<(u64, u64)>
    decreases n,
{
    if n == 0 {
        Multiset::empty()
    } else {
        shares_of(p, t, (n - 1) as nat).add(share(p, t, (n - 1) as nat).to_multiset())
    }
}

proof fn lemma_shares_push(d: Seq<(u64, u64)>, x: (u64, u64), t: nat, n: nat)
    requires
        t >= 1,
        n <= t,
    ensures
        shares_of(d.push(x), t, n) == if d.len() % t < n {
            shares_of(d, t, n).insert(x)
        } else {
            shares_of(d, t, n)
        },
    decreases n,
{
    broadcast use vstd::seq_lib::group_to_multiset_ensures;

    let p = d.push(x);
    assert(p.drop_last() =~= d);
    if n > 0 {
        let m = (n - 1) as nat;
        lemma_shares_push(d, x, t, m);
        if d.len() % t == m {
            assert(share(p, t, m) == share(d, t, m).push(x));
            assert(shares_of(p, t, n) =~= shares_of(d, t, n).insert(x));
        } else {
            assert(share(p, t, m) == share(d, t, m));
            if d.len() % t < m {
                assert(shares_of(p, t, n) =~= shares_of(d, t, n).insert(x));
            } else {
                assert(shares_of(p, t, n) =~= shares_of(d, t, n));
            }
        }
    }
}

/// Dealing the payload entries out to `t` reader threads in turn gives each
/// entry to exactly one thread: together the threads read every entry once.
pub proof fn lemma_shares_partition(p: Seq<(u64, u64)>, t: nat)
    requires
        t >= 1,
    ensures
        shares_of(p, t, t) == p.to_multiset(),
    decreases p.len(),
{
    broadcast use vstd::seq_lib::group_to_multiset_ensures;

    if p.len() == 0 {
        lemma_shares_empty(p, t, t);
        assert(p.to_multiset().len() == 0);
        vstd::multiset::lemma_multiset_empty_len(p.to_multiset());
    } else {
        let d = p.drop_last();
        let x = p.last();
        assert(d.push(x) =~= p);
        lemma_shares_partition(d, t);
        lemma_shares_push(d, x, t, t);
        assert(d.len() % t < t);
    }
}

proof fn lemma_shares_empty(p: Seq<(u64, u64)>, t: nat, n: nat)
    requires
        p.len() == 0,
    ensures
        shares_of(p, t, n) == Multiset::<(u64, u64)>::empty(),
    decreases n,
{
    broadcast use vstd::seq_lib::group_to_multiset_ensures;
    broadcast use vstd::multiset::lemma_multiset_empty_len;

    if n > 0 {
        lemma_shares_empty(p, t, (n - 1) as nat);
        assert(share(p, t, (n - 1) as nat).len() == 0);
        assert(share(p, t, (n - 1) as nat).to_multiset().len() == 0);
        assert(shares_of(p, t, n) =~= Multiset::empty());
    }
}

/// No two ranges handed out by the allocator, whether recorded in the index
/// or still in flight, start at the same offset: each takes at least a byte.
pub proof fn lemma_offsets_distinct(l: Locations)
    requires
        l.wf(),
    ensures
        forall|i: int, j: int|
            0 <= i < l@.entries.len() && 0 <= j < l@.entries.len() && i != j ==> #[trigger] l@.entries[i].0
                != #[trigger] l@.entries[j].0,
        forall|i: int, j: int|
            0 <= i < l.in_flight().len() && 0 <= j < l.in_flight().len() && i != j
                ==> #[trigger] l.in_flight()[i].0 != #[trigger] l.in_flight()[j].0,
        forall|i: int, j: int|
            0 <= i < l@.entries.len() && 0 <= j < l.in_flight().len() ==> #[trigger] l@.entries[i].0
                != #[trigger] l.in_flight()[j].0,
{
    let e = entry_ranges(l@.entries);
    let o = l.in_flight();
    assert forall|i: int, j: int|
        0 <= i < l@.entries.len() && 0 <= j < l@.entries.len() && i != j implies #[trigger] l@.entries[i].0
            != #[trigger] l@.entries[j].0 by {
        assert(disjoint(e[i], e[j]));
    }
    assert forall|i: int, j: int|
        0 <= i < o.len() && 0 <= j < o.len() && i != j implies #[trigger] o[i].0
            != #[trigger] o[j].0 by {
        assert(disjoint(o[i], o[j]));
    }
    assert forall|i: int, j: int|
        0 <= i < l@.entries.len() && 0 <= j < o.len() implies #[trigger] l@.entries[i].0
            != #[trigger] o[j].0 by {
        assert(disjoint(e[i], o[j]));
    }
}

/// Once every allocated write has been recorded, whatever the order in
/// which concurrent writers allocated and recorded, the index holds one
/// fragment per thousand payloads and fewer than a thousand offsets are
/// still pending.
pub proof fn lemma_flushes_when_drained(l: Locations)
    requires
        l.wf(),
        l.in_flight().len() == 0,
    ensures
        fragment_count(l@.entries) == l.allocated() / FLUSH_EVERY as nat,
        l@.pending.len() == l.allocated() % FLUSH_EVERY as nat,
{
    lemma_fundamental_div_mod_converse(
        l.allocated() as int,
        1000,
        fragment_count(l@.entries) as int,
        l@.pending.len() as int,
    );
}

} // verus!
