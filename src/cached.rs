use crate::block::{
    agree_at, blocks_written, holds_at, holds_run, lemma_single_block_written, unchanged_outside, Block,
    BlockCount, BlockDevice, BlockIndex, BlockResult,
};
use crate::cache_table::{
    has_key, key_index, keys_unique, lemma_key_index, table_cap, table_contains, table_entries,
    table_get, table_len, table_new, table_peek_lru, table_pop_lru, table_put, table_replace,
    put_outcome, CachedBlock,
};
use lru::LruCache;
use vstd::prelude::*;

verus! {

/// The bytes of each cached block, keyed by index.
pub open spec fn cached_data(s: Seq<(u64, CachedBlock)>) -> Map<u64, Seq<u8>> {
    Map::new(|k: u64| has_key(s, k), |k: u64| s[key_index(s, k)].1.data.contents@)
}

/// A cached entry can start a one-block device access, and if it is clean it
/// holds what `stored` holds at its index.
pub open spec fn entry_ok(e: (u64, CachedBlock), stored: Map<u64, Seq<u8>>) -> bool {
    &&& e.0 < u64::MAX
    &&& !e.1.dirty ==> stored.contains_key(e.0) && stored[e.0] == e.1.data.contents@
}

/// Every entry of `s` is `entry_ok`.
pub open spec fn entries_ok(s: Seq<(u64, CachedBlock)>, stored: Map<u64, Seq<u8>>) -> bool {
    forall|i: int| 0 <= i < s.len() ==> entry_ok(#[trigger] s[i], stored)
}

/// Before a write of `n` blocks from `index`: an entry inside that range is
/// marked dirty, one outside it holds what the device holds.
pub open spec fn swept(e: (u64, CachedBlock), stored: Map<u64, Seq<u8>>, index: u64, n: int) -> bool {
    if index <= e.0 < index + n {
        e.1.dirty
    } else {
        stored.contains_key(e.0) && stored[e.0] == e.1.data.contents@
    }
}

/// No entry is dirty.
pub open spec fn all_clean(s: Seq<(u64, CachedBlock)>) -> bool {
    forall|i: int| 0 <= i < s.len() ==> !(#[trigger] s[i]).1.dirty
}

/// The two entry lists hold the same blocks at the same indices, in the same
/// order; only dirty flags may differ.
pub open spec fn same_blocks(a: Seq<(u64, CachedBlock)>, b: Seq<(u64, CachedBlock)>) -> bool {
    &&& a.len() == b.len()
    &&& forall|j: int| 0 <= j < a.len() ==> (#[trigger] a[j]).0 == b[j].0 && a[j].1.data == b[j].1.data
}

/// `after` is `before` flushed from the most recently used end: its last `t`
/// entries are clean, the others are unchanged.
pub open spec fn flushed_past(before: Seq<(u64, CachedBlock)>, after: Seq<(u64, CachedBlock)>, t: int) -> bool {
    &&& 0 <= t <= before.len()
    &&& forall|j: int| 0 <= j < before.len() - t ==> #[trigger] after[j] == before[j]
    &&& forall|j: int| before.len() - t <= j < before.len() ==> !(#[trigger] after[j]).1.dirty
}

/// What making room for one more entry leaves of entries `s` over a device
/// holding `stored`: in a full cache the least recently used entry leaves,
/// and goes to the device first if it is dirty.
pub open spec fn room_made(s: Seq<(u64, CachedBlock)>, stored: Map<u64, Seq<u8>>, cap: usize) -> (
    Seq<(u64, CachedBlock)>,
    Map<u64, Seq<u8>>,
) {
    if 0 < cap && cap <= s.len() {
        (
            s.drop_first(),
            if s[0].1.dirty {
                stored.insert(s[0].0, s[0].1.data.contents@)
            } else {
                stored
            },
        )
    } else {
        (s, stored)
    }
}

/// The entries and device contents after the first `i` blocks of a write of
/// `blocks` from `index` that goes through the cache: for each block, room is
/// made, then the block is put in, dirty and most recently used.
pub open spec fn small_write_state(
    s: Seq<(u64, CachedBlock)>,
    stored: Map<u64, Seq<u8>>,
    cap: usize,
    index: u64,
    blocks: Seq<Block>,
    i: nat,
) -> (Seq<(u64, CachedBlock)>, Map<u64, Seq<u8>>)
    decreases i,
{
    if i == 0 {
        (s, stored)
    } else {
        let prev = small_write_state(s, stored, cap, index, blocks, (i - 1) as nat);
        let room = room_made(prev.0, prev.1, cap);
        (
            put_outcome(
                room.0,
                cap,
                (index + i - 1) as u64,
                CachedBlock { dirty: true, data: blocks[i - 1] },
            ),
            room.1,
        )
    }
}

/// Only the last `m` entries may be dirty.
pub open spec fn dirty_only_last(s: Seq<(u64, CachedBlock)>, m: int) -> bool {
    forall|j: int| 0 <= j < s.len() && (#[trigger] s[j]).1.dirty ==> j >= s.len() - m
}

proof fn lemma_dirty_tail_drop(s: Seq<(u64, CachedBlock)>, m: int)
    requires
        s.len() > 0,
        dirty_only_last(s, m),
    ensures
        dirty_only_last(s.drop_first(), m),
{
    let t = s.drop_first();
    assert forall|j: int| 0 <= j < t.len() && (#[trigger] t[j]).1.dirty implies j >= t.len() - m by {
        assert(t[j] == s[j + 1]);
    }
}

proof fn lemma_dirty_tail_put(s: Seq<(u64, CachedBlock)>, cap: usize, k: u64, v: CachedBlock, m: int)
    requires
        s.len() < cap,
        m >= 0,
        dirty_only_last(s, m),
    ensures
        dirty_only_last(put_outcome(s, cap, k, v), m + 1),
{
    let t = put_outcome(s, cap, k, v);
    if has_key(s, k) {
        let j = key_index(s, k);
        let r = s.remove(j);
        assert forall|a: int| 0 <= a < t.len() && (#[trigger] t[a]).1.dirty implies a >= t.len() - (m
            + 1) by {
            if a < r.len() {
                if a < j {
                    assert(t[a] == s[a]);
                } else {
                    assert(t[a] == s[a + 1]);
                }
            }
        }
    } else {
        assert forall|a: int| 0 <= a < t.len() && (#[trigger] t[a]).1.dirty implies a >= t.len() - (m
            + 1) by {
            if a < s.len() {
                assert(t[a] == s[a]);
            }
        }
    }
}

/// A block whose bytes are `bytes`.
pub open spec fn block_of(bytes: Seq<u8>) -> Block {
    choose|b: Block| b.contents@ == bytes
}

/// The entries and device contents after the first `i` blocks of a read of
/// blocks from `index` through the cache, where `view` is what the cache hands
/// out: a cached block moves to the most recently used place; a missing one
/// is put in, clean and most recently used, once room was made for it.
pub open spec fn read_state(
    s: Seq<(u64, CachedBlock)>,
    stored: Map<u64, Seq<u8>>,
    cap: usize,
    index: u64,
    view: Map<u64, Seq<u8>>,
    i: nat,
) -> (Seq<(u64, CachedBlock)>, Map<u64, Seq<u8>>)
    decreases i,
{
    if i == 0 {
        (s, stored)
    } else {
        let prev = read_state(s, stored, cap, index, view, (i - 1) as nat);
        let k = (index + i - 1) as u64;
        if has_key(prev.0, k) {
            let j = key_index(prev.0, k);
            (prev.0.remove(j).push(prev.0[j]), prev.1)
        } else {
            let room = room_made(prev.0, prev.1, cap);
            (put_outcome(room.0, cap, k, CachedBlock { dirty: false, data: block_of(view[k]) }), room.1)
        }
    }
}

/// What a cache with entries `s` over a device holding `stored` hands out:
/// the cached data where there is some, the device's elsewhere.
pub open spec fn overlay(stored: Map<u64, Seq<u8>>, s: Seq<(u64, CachedBlock)>) -> Map<u64, Seq<u8>> {
    stored.union_prefer_right(cached_data(s))
}

/// The entries that a write of `blocks` from `index` leaves once the first
/// `n` blocks are cached again: each of them, clean, oldest first.
pub open spec fn clean_run(index: u64, blocks: Seq<Block>, n: int) -> Seq<(u64, CachedBlock)> {
    Seq::new(n as nat, |i: int| ((index + i) as u64, CachedBlock { dirty: false, data: blocks[i] }))
}

/// `blocks[lo..hi]` is what `stored` holds from `index + lo` on.
pub open spec fn holds_between(
    stored: Map<u64, Seq<u8>>,
    index: u64,
    blocks: Seq<Block>,
    lo: int,
    hi: int,
) -> bool {
    forall|i: int| lo <= i < hi ==> holds_at(stored, (index + i) as u64, #[trigger] blocks[i])
}

proof fn lemma_run_between(stored: Map<u64, Seq<u8>>, index: u64, blocks: Seq<Block>)
    requires
        holds_run(stored, index, blocks),
    ensures
        holds_between(stored, index, blocks, 0, blocks.len() as int),
{
}

proof fn lemma_between_run(stored: Map<u64, Seq<u8>>, index: u64, blocks: Seq<Block>)
    requires
        holds_between(stored, index, blocks, 0, blocks.len() as int),
    ensures
        holds_run(stored, index, blocks),
{
}

proof fn lemma_has_key_at(s: Seq<(u64, CachedBlock)>, k: u64) -> (i: int)
    requires
        has_key(s, k),
    ensures
        0 <= i < s.len(),
        s[i].0 == k,
{
    choose|i: int| 0 <= i < s.len() && s[i].0 == k
}

proof fn lemma_data_at(s: Seq<(u64, CachedBlock)>, i: int)
    requires
        keys_unique(s),
        0 <= i < s.len(),
    ensures
        cached_data(s).contains_key(s[i].0),
        cached_data(s)[s[i].0] == s[i].1.data.contents@,
{
    lemma_key_index(s, i);
}

proof fn lemma_data_drop_first(s: Seq<(u64, CachedBlock)>)
    requires
        keys_unique(s),
        s.len() > 0,
    ensures
        keys_unique(s.drop_first()),
        cached_data(s.drop_first()) == cached_data(s).remove(s[0].0),
{
    let t = s.drop_first();
    let m = cached_data(s).remove(s[0].0);
    assert forall|k: u64| cached_data(t).contains_key(k) <==> m.contains_key(k) by {
        if has_key(t, k) {
            let j = lemma_has_key_at(t, k);
            assert(s[j + 1].0 == k);
            lemma_data_at(s, j + 1);
        }
        if m.contains_key(k) {
            let j = lemma_has_key_at(s, k);
            assert(t[j - 1].0 == k);
        }
    }
    assert forall|k: u64| #[trigger] cached_data(t).contains_key(k) implies cached_data(t)[k] == m[k] by {
        let j = lemma_has_key_at(t, k);
        lemma_data_at(t, j);
        lemma_data_at(s, j + 1);
    }
    assert(cached_data(t) =~= m);
}

proof fn lemma_data_push(s: Seq<(u64, CachedBlock)>, k: u64, v: CachedBlock)
    requires
        keys_unique(s),
        !has_key(s, k),
    ensures
        keys_unique(s.push((k, v))),
        cached_data(s.push((k, v))) == cached_data(s).insert(k, v.data.contents@),
{
    let t = s.push((k, v));
    let m = cached_data(s).insert(k, v.data.contents@);
    assert forall|i: int, j: int| 0 <= i < t.len() && 0 <= j < t.len() && i != j implies t[i].0
        != t[j].0 by {
        if i == s.len() as int {
            assert(s[j].0 != k);
        } else if j == s.len() as int {
            assert(s[i].0 != k);
        }
    }
    assert forall|k2: u64| cached_data(t).contains_key(k2) <==> m.contains_key(k2) by {
        if has_key(t, k2) {
            let j = lemma_has_key_at(t, k2);
            if j < s.len() {
                assert(s[j].0 == k2);
            }
        }
        if has_key(s, k2) {
            let j = lemma_has_key_at(s, k2);
            assert(t[j].0 == k2);
        }
        if k2 == k {
            assert(t[s.len() as int].0 == k);
        }
    }
    assert forall|k2: u64| #[trigger] cached_data(t).contains_key(k2) implies cached_data(t)[k2]
        == m[k2] by {
        let j = lemma_has_key_at(t, k2);
        lemma_data_at(t, j);
        if j < s.len() {
            assert(s[j] == t[j]);
            lemma_data_at(s, j);
        }
    }
    assert(cached_data(t) =~= m);
}

proof fn lemma_data_remove(s: Seq<(u64, CachedBlock)>, i: int)
    requires
        keys_unique(s),
        0 <= i < s.len(),
    ensures
        keys_unique(s.remove(i)),
        !has_key(s.remove(i), s[i].0),
        cached_data(s.remove(i)) == cached_data(s).remove(s[i].0),
{
    let t = s.remove(i);
    let m = cached_data(s).remove(s[i].0);
    assert forall|a: int, b: int| 0 <= a < t.len() && 0 <= b < t.len() && a != b implies t[a].0
        != t[b].0 by {
        let a2 = if a < i {
            a
        } else {
            a + 1
        };
        let b2 = if b < i {
            b
        } else {
            b + 1
        };
        assert(t[a] == s[a2] && t[b] == s[b2]);
    }
    assert forall|a: int| 0 <= a < t.len() implies t[a].0 != s[i].0 by {
        let a2 = if a < i {
            a
        } else {
            a + 1
        };
        assert(t[a] == s[a2]);
    }
    assert forall|k: u64| cached_data(t).contains_key(k) <==> m.contains_key(k) by {
        if has_key(t, k) {
            let j = lemma_has_key_at(t, k);
            let j2 = if j < i {
                j
            } else {
                j + 1
            };
            assert(s[j2].0 == k);
        }
        if m.contains_key(k) {
            let j = lemma_has_key_at(s, k);
            let j2 = if j < i {
                j
            } else {
                j - 1
            };
            assert(t[j2].0 == k);
        }
    }
    assert forall|k: u64| #[trigger] cached_data(t).contains_key(k) implies cached_data(t)[k]
        == m[k] by {
        let j = lemma_has_key_at(t, k);
        let j2 = if j < i {
            j
        } else {
            j + 1
        };
        assert(t[j] == s[j2]);
        lemma_data_at(t, j);
        lemma_data_at(s, j2);
    }
    assert(cached_data(t) =~= m);
}

proof fn lemma_data_update(s: Seq<(u64, CachedBlock)>, i: int, v: CachedBlock)
    requires
        keys_unique(s),
        0 <= i < s.len(),
    ensures
        keys_unique(s.update(i, (s[i].0, v))),
        cached_data(s.update(i, (s[i].0, v))) == cached_data(s).insert(s[i].0, v.data.contents@),
{
    let t = s.update(i, (s[i].0, v));
    let m = cached_data(s).insert(s[i].0, v.data.contents@);
    assert forall|a: int, b: int| 0 <= a < t.len() && 0 <= b < t.len() && a != b implies t[a].0
        != t[b].0 by {
        assert(t[a].0 == s[a].0 && t[b].0 == s[b].0);
    }
    assert forall|k: u64| cached_data(t).contains_key(k) <==> m.contains_key(k) by {
        if has_key(t, k) {
            let j = lemma_has_key_at(t, k);
            assert(s[j].0 == k);
        }
        if has_key(s, k) {
            let j = lemma_has_key_at(s, k);
            assert(t[j].0 == k);
        }
        if k == s[i].0 {
            assert(t[i].0 == k);
        }
    }
    assert forall|k: u64| #[trigger] cached_data(t).contains_key(k) implies cached_data(t)[k]
        == m[k] by {
        let j = lemma_has_key_at(t, k);
        lemma_data_at(t, j);
        lemma_data_at(s, j);
    }
    assert(cached_data(t) =~= m);
}

proof fn lemma_put(
    s: Seq<(u64, CachedBlock)>,
    cap: usize,
    stored: Map<u64, Seq<u8>>,
    k: u64,
    v: CachedBlock,
)
    requires
        keys_unique(s),
        s.len() <= cap,
        entries_ok(s, stored),
        entry_ok((k, v), stored),
    ensures
        keys_unique(put_outcome(s, cap, k, v)),
        put_outcome(s, cap, k, v).len() <= cap,
        entries_ok(put_outcome(s, cap, k, v), stored),
        has_key(s, k) || s.len() < cap ==> cached_data(put_outcome(s, cap, k, v)) == cached_data(
            s,
        ).insert(k, v.data.contents@),
        all_clean(s) && !v.dirty ==> all_clean(put_outcome(s, cap, k, v)),
{
    let t = put_outcome(s, cap, k, v);
    if has_key(s, k) {
        let j = key_index(s, k);
        let r = s.remove(j);
        lemma_data_remove(s, j);
        lemma_data_push(r, k, v);
        assert forall|a: int| 0 <= a < t.len() implies entry_ok(#[trigger] t[a], stored) && (all_clean(s)
            && !v.dirty ==> !t[a].1.dirty) by {
            if a < r.len() {
                let a2 = if a < j {
                    a
                } else {
                    a + 1
                };
                assert(t[a] == s[a2]);
            }
        }
    } else if cap == 0 {
    } else if s.len() >= cap {
        let r = s.drop_first();
        lemma_data_drop_first(s);
        if has_key(r, k) {
            let j = lemma_has_key_at(r, k);
            assert(s[j + 1].0 == k);
        }
        lemma_data_push(r, k, v);
        assert forall|a: int| 0 <= a < t.len() implies entry_ok(#[trigger] t[a], stored) && (all_clean(s)
            && !v.dirty ==> !t[a].1.dirty) by {
            if a < r.len() {
                assert(t[a] == s[a + 1]);
            }
        }
    } else {
        lemma_data_push(s, k, v);
        assert forall|a: int| 0 <= a < t.len() implies entry_ok(#[trigger] t[a], stored) && (all_clean(s)
            && !v.dirty ==> !t[a].1.dirty) by {
            if a < s.len() {
                assert(t[a] == s[a]);
            }
        }
    }
}

proof fn lemma_overlay_insert(
    stored: Map<u64, Seq<u8>>,
    s: Seq<(u64, CachedBlock)>,
    t: Seq<(u64, CachedBlock)>,
    k: u64,
    d: Seq<u8>,
)
    requires
        cached_data(t) == cached_data(s).insert(k, d),
    ensures
        overlay(stored, t) == overlay(stored, s).insert(k, d),
{
    assert(overlay(stored, t) =~= overlay(stored, s).insert(k, d));
}

proof fn lemma_written_step(stored: Map<u64, Seq<u8>>, index: u64, b: Seq<Block>, i: int)
    requires
        0 <= i < b.len(),
        index + b.len() <= u64::MAX,
    ensures
        blocks_written(stored, index, b.subrange(0, i + 1)) == blocks_written(
            stored,
            index,
            b.subrange(0, i),
        ).insert((index + i) as u64, b[i].contents@),
{
    assert(blocks_written(stored, index, b.subrange(0, i + 1)) =~= blocks_written(
        stored,
        index,
        b.subrange(0, i),
    ).insert((index + i) as u64, b[i].contents@));
}

proof fn lemma_written_prefix_outside(
    stored: Map<u64, Seq<u8>>,
    index: u64,
    b: Seq<Block>,
    i: int,
)
    requires
        0 <= i <= b.len(),
    ensures
        unchanged_outside(stored, blocks_written(stored, index, b.subrange(0, i)), index, b.len() as int),
{
    assert forall|k: u64| !(index <= k < index + b.len()) implies #[trigger] agree_at(
        stored,
        blocks_written(stored, index, b.subrange(0, i)),
        k,
    ) by {}
}

proof fn lemma_written_same_outside(
    a: Map<u64, Seq<u8>>,
    b: Map<u64, Seq<u8>>,
    index: u64,
    blocks: Seq<Block>,
)
    requires
        unchanged_outside(a, b, index, blocks.len() as int),
    ensures
        blocks_written(a, index, blocks) == blocks_written(b, index, blocks),
{
    assert forall|k: u64| #[trigger] blocks_written(a, index, blocks).contains_key(k)
        == blocks_written(b, index, blocks).contains_key(k) by {
        if !(index <= k < index + blocks.len()) {
            assert(agree_at(a, b, k));
        }
    }
    assert forall|k: u64| #[trigger] blocks_written(a, index, blocks).contains_key(k)
        implies blocks_written(a, index, blocks)[k] == blocks_written(b, index, blocks)[k] by {
        if !(index <= k < index + blocks.len()) {
            assert(agree_at(a, b, k));
        }
    }
    assert(blocks_written(a, index, blocks) =~= blocks_written(b, index, blocks));
}

proof fn lemma_get(s: Seq<(u64, CachedBlock)>, j: int, stored: Map<u64, Seq<u8>>)
    requires
        keys_unique(s),
        0 <= j < s.len(),
        entries_ok(s, stored),
    ensures
        keys_unique(s.remove(j).push(s[j])),
        entries_ok(s.remove(j).push(s[j]), stored),
        cached_data(s.remove(j).push(s[j])) == cached_data(s),
        all_clean(s) ==> all_clean(s.remove(j).push(s[j])),
{
    let r = s.remove(j);
    let t = r.push(s[j]);
    lemma_data_remove(s, j);
    lemma_data_push(r, s[j].0, s[j].1);
    lemma_data_at(s, j);
    assert(cached_data(t) =~= cached_data(s));
    assert forall|a: int| 0 <= a < t.len() implies entry_ok(#[trigger] t[a], stored) && (all_clean(
        s,
    ) ==> !t[a].1.dirty) by {
        if a < r.len() {
            let a2 = if a < j {
                a
            } else {
                a + 1
            };
            assert(t[a] == s[a2]);
        }
    }
}

/// Writing a dirty entry's block back to the device, whether the write
/// succeeds or not, keeps every entry `entry_ok` and keeps what the cache
/// hands out: the device may only have changed at that entry's index.
proof fn lemma_write_back(
    s: Seq<(u64, CachedBlock)>,
    j: int,
    dev: Map<u64, Seq<u8>>,
    dev2: Map<u64, Seq<u8>>,
)
    requires
        keys_unique(s),
        0 <= j < s.len(),
        s[j].1.dirty,
        entries_ok(s, dev),
        forall|k2: u64| k2 != s[j].0 ==> #[trigger] agree_at(dev, dev2, k2),
    ensures
        entries_ok(s, dev2),
        overlay(dev2, s) == overlay(dev, s),
{
    let k = s[j].0;
    assert forall|a: int| 0 <= a < s.len() implies entry_ok(#[trigger] s[a], dev2) by {
        assert(entry_ok(s[a], dev));
        if a != j {
            assert(s[a].0 != k);
            assert(agree_at(dev, dev2, s[a].0));
        }
    }
    lemma_data_at(s, j);
    assert forall|k2: u64| #[trigger] overlay(dev2, s).contains_key(k2) == overlay(
        dev,
        s,
    ).contains_key(k2) && (overlay(dev2, s).contains_key(k2) ==> overlay(dev2, s)[k2] == overlay(
        dev,
        s,
    )[k2]) by {
        if k2 != k {
            assert(agree_at(dev, dev2, k2));
        }
    }
    assert(overlay(dev2, s) =~= overlay(dev, s));
}

/// A BlockDevice that reduces device accesses by keeping the most recently used blocks in a cache.
///
/// It keeps track of which blocks are dirty, and only writes those ones to device when
/// flushing, or when they are evicted from the cache.
///
/// Tear it down with `close`, which flushes it and hands the device back.
/// Dropping it without `close` (or a successful `flush`) loses the dirty
/// blocks: it has no `Drop` that flushes, since a verified `drop` may not
/// unwind and a device write may.
pub struct CachedBlockDevice<B: BlockDevice> {
    /// The inner block device.
    block_device: B,
    /// The LRU cache.
    lru_cache: LruCache<u64, CachedBlock>,
}

impl<B: BlockDevice> CachedBlockDevice<B> {
    /// The wrapped device.
    pub closed spec fn device(&self) -> B {
        self.block_device
    }

    /// The cache entries, from the least recently used to the most recently used.
    pub closed spec fn entries(&self) -> Seq<(u64, CachedBlock)> {
        crate::cache_table::lru_entries(self.lru_cache)
    }

    /// The most entries the cache holds at once.
    pub closed spec fn capacity(&self) -> usize {
        crate::cache_table::lru_capacity(self.lru_cache)
    }

    /// Creates a new CachedBlockDevice that wraps `device`, and can hold at most `cap` blocks in cache.
    pub fn new(device: B, cap: usize) -> (r: CachedBlockDevice<B>)
        requires
            device.wf(),
        ensures
            r.wf(),
            r.device() == device,
            r.entries() == Seq::<(u64, CachedBlock)>::empty(),
            r.capacity() == cap,
            r.stored() == device.stored(),
    {
        let r = CachedBlockDevice { block_device: device, lru_cache: table_new(cap) };
        assert(cached_data(r.entries()) =~= Map::empty());
        assert(r.stored() =~= device.stored());
        r
    }

    /// When the cache is full, drops its least recently used entry, writing it
    /// back to the device first if it is dirty, and returns that entry.
    fn make_room(&mut self) -> (r: BlockResult<Option<(u64, CachedBlock)>>)
        requires
            old(self).wf(),
        ensures
            final(self).wf(),
            final(self).stored() == old(self).stored(),
            final(self).capacity() == old(self).capacity(),
            old(self).entries().len() == 0 || !old(self).entries()[0].1.dirty ==> r is Ok,
            old(self).entries().len() < old(self).capacity() || old(self).capacity() == 0 ==> r
                == Ok::<Option<(u64, CachedBlock)>, crate::block::BlockError>(None),
            r is Err ==> final(self).entries() == old(self).entries() && old(self).entries().len()
                > 0 && unchanged_outside(
                old(self).device().stored(),
                final(self).device().stored(),
                old(self).entries()[0].0,
                1,
            ),
            r matches Ok(None) ==> (old(self).entries().len() < old(self).capacity()
                || old(self).capacity() == 0) && final(self).entries() == old(self).entries()
                && final(self).device().stored() == old(self).device().stored(),
            r matches Ok(Some(e)) ==> {
                &&& old(self).entries().len() == old(self).capacity() > 0
                &&& e == old(self).entries()[0]
                &&& final(self).entries() == old(self).entries().drop_first()
                &&& final(self).device().stored() == if e.1.dirty {
                    old(self).device().stored().insert(e.0, e.1.data.contents@)
                } else {
                    old(self).device().stored()
                }
            },
    {
        let len = table_len(&self.lru_cache);
        let cap = table_cap(&self.lru_cache);
        if len < cap {
            return Ok(None);
        }
        let oldest = table_peek_lru(&self.lru_cache);
        match oldest {
            None => Ok(None),
            Some((k, e)) => {
                let ghost s = self.entries();
                let ghost dev0 = self.block_device.stored();
                if e.dirty {
                    let one = [e.data];
                    assert(one@ =~= seq![e.data]);
                    let written = self.block_device.raw_write(&one, BlockIndex(k));
                    proof {
                        if written.is_ok() {
                            lemma_single_block_written(dev0, k, e.data);
                        }
                        lemma_write_back(s, 0, dev0, self.device().stored());
                    }
                    if written.is_err() {
                        return Err(written.unwrap_err());
                    }
                }
                let _ = table_pop_lru(&mut self.lru_cache);
                proof {
                    lemma_data_drop_first(s);
                    lemma_data_at(s, 0);
                    let t = s.drop_first();
                    assert(self.entries() == t);
                    assert forall|i: int| 0 <= i < t.len() implies entry_ok(
                        #[trigger] t[i],
                        self.device().stored(),
                    ) by {
                        assert(t[i] == s[i + 1]);
                        assert(entry_ok(s[i + 1], self.device().stored()));
                    }
                    assert(self.stored() =~= old(self).stored());
                }
                Ok(Some((k, e)))
            },
        }
    }
    /// Writes fewer blocks than the capacity: each becomes a dirty entry, and
    /// the device is only written when an entry has to make room.
    fn write_small(&mut self, blocks: &[Block], index: BlockIndex) -> (r: BlockResult<()>)
        requires
            old(self).wf(),
            0 < blocks@.len() < old(self).capacity(),
            index.0 + blocks@.len() <= u64::MAX,
        ensures
            final(self).wf(),
            final(self).capacity() == old(self).capacity(),
            r is Ok ==> final(self).stored() == blocks_written(old(self).stored(), index.0, blocks@),
            r is Err ==> unchanged_outside(
                old(self).stored(),
                final(self).stored(),
                index.0,
                blocks@.len() as int,
            ),
            r is Ok ==> (final(self).entries(), final(self).device().stored()) == small_write_state(
                old(self).entries(),
                old(self).device().stored(),
                old(self).capacity(),
                index.0,
                blocks@,
                blocks@.len(),
            ),
            r is Err ==> exists|i: nat|
                i < blocks@.len() && (#[trigger] small_write_state(
                    old(self).entries(),
                    old(self).device().stored(),
                    old(self).capacity(),
                    index.0,
                    blocks@,
                    i,
                )).0 == final(self).entries(),
            all_clean(old(self).entries()) ==> r is Ok,
            old(self).entries().len() + blocks@.len() <= old(self).capacity() ==> r is Ok,
    {
        let n = blocks.len();
        let mut i: usize = 0;
        while i < n
            invariant
                self.wf(),
                (self.entries(), self.device().stored()) == small_write_state(
                    old(self).entries(),
                    old(self).device().stored(),
                    old(self).capacity(),
                    index.0,
                    blocks@,
                    i as nat,
                ),
                all_clean(old(self).entries()) ==> dirty_only_last(self.entries(), i as int),
                old(self).entries().len() + n <= self.capacity() ==> self.entries().len()
                    <= old(self).entries().len() + i,
                i <= n,
                n == blocks@.len(),
                n < self.capacity(),
                index.0 + n <= u64::MAX,
                self.capacity() == old(self).capacity(),
                self.stored() == blocks_written(
                    old(self).stored(),
                    index.0,
                    blocks@.subrange(0, i as int),
                ),
            decreases n - i,
        {
            let ghost s_before = self.entries();
            proof {
                if all_clean(old(self).entries()) && s_before.len() >= self.capacity() {
                    assert(!s_before[0].1.dirty);
                }
            }
            let room = self.make_room();
            if let Err(e) = room {
                proof {
                    lemma_written_prefix_outside(old(self).stored(), index.0, blocks@, i as int);
                }
                return Err(e);
            }
            let key = index.0 + i as u64;
            let entry = CachedBlock { dirty: true, data: blocks[i] };
            proof {
                if all_clean(old(self).entries()) {
                    if room matches Ok(Some(_)) {
                        lemma_dirty_tail_drop(s_before, i as int);
                    }
                    lemma_dirty_tail_put(self.entries(), self.capacity(), key, entry, i as int);
                }
                lemma_put(self.entries(), self.capacity(), self.device().stored(), key, entry);
                lemma_written_step(old(self).stored(), index.0, blocks@, i as int);
            }
            let ghost s = self.entries();
            table_put(&mut self.lru_cache, key, entry);
            proof {
                lemma_overlay_insert(
                    self.device().stored(),
                    s,
                    self.entries(),
                    key,
                    blocks@[i as int].contents@,
                );
            }
            i += 1;
        }
        assert(blocks@.subrange(0, n as int) =~= blocks@);
        Ok(())
    }

    /// Writes at least as many blocks as the capacity: the cache is swept
    /// (dirty entries outside the range written back, clean ones inside it
    /// marked dirty), the blocks go to the device in one write, and the cache
    /// then holds the first `capacity` of them, clean.
    fn write_large(&mut self, blocks: &[Block], index: BlockIndex) -> (r: BlockResult<()>)
        requires
            old(self).wf(),
            0 < blocks@.len(),
            old(self).capacity() <= blocks@.len(),
            index.0 + blocks@.len() <= u64::MAX,
        ensures
            final(self).wf(),
            final(self).capacity() == old(self).capacity(),
            r is Ok ==> final(self).stored() == blocks_written(old(self).stored(), index.0, blocks@),
            r is Ok ==> final(self).entries() == clean_run(
                index.0,
                blocks@,
                old(self).capacity() as int,
            ),
            r is Ok ==> holds_run(final(self).device().stored(), index.0, blocks@),
            r is Err ==> same_blocks(final(self).entries(), old(self).entries()),
            r is Err ==> unchanged_outside(
                old(self).stored(),
                final(self).stored(),
                index.0,
                blocks@.len() as int,
            ),
    {
        let n = blocks.len();
        let end = index.0 + n as u64;
        let ghost s0 = self.entries();
        let snapshot = table_entries(&self.lru_cache);
        let count = snapshot.len();
        let mut t: usize = 0;
        while t < count
            invariant
                self.wf(),
                self.capacity() == old(self).capacity(),
                n == blocks@.len(),
                end == index.0 + n,
                s0 == old(self).entries(),
                snapshot@ == s0.reverse(),
                count == s0.len(),
                t <= count,
                self.stored() == old(self).stored(),
                self.entries().len() == s0.len(),
                forall|j: int|
                    0 <= j < s0.len() ==> (#[trigger] self.entries()[j]).0 == s0[j].0
                        && self.entries()[j].1.data == s0[j].1.data,
                forall|j: int| 0 <= j < s0.len() - t ==> #[trigger] self.entries()[j] == s0[j],
                forall|j: int|
                    s0.len() - t <= j < s0.len() ==> swept(
                        #[trigger] self.entries()[j],
                        self.device().stored(),
                        index.0,
                        n as int,
                    ),
            decreases count - t,
        {
            let ghost j = count - 1 - t;
            let ghost s = self.entries();
            let ghost dev = self.device().stored();
            let (k, e) = snapshot[t];
            assert(snapshot@[t as int] == s0[j]);
            assert(s[j] == (k, e));
            proof {
                lemma_data_at(s, j);
                lemma_key_index(s, j);
            }
            let inside = index.0 <= k && k < end;
            if e.dirty && !inside {
                let one = [e.data];
                assert(one@ =~= seq![e.data]);
                let written = self.block_device.raw_write(&one, BlockIndex(k));
                proof {
                    assert forall|a: int| 0 <= a < s.len() && a != j implies (#[trigger] s[a]).0
                        != k by {}
                    if written.is_ok() {
                        lemma_single_block_written(dev, k, e.data);
                    }
                    lemma_write_back(s, j, dev, self.device().stored());
                    if written.is_ok() {
                        assert forall|a: int| s0.len() - t - 1 <= a < s0.len() implies swept(
                            #[trigger] s[a],
                            self.device().stored(),
                            index.0,
                            n as int,
                        ) by {
                            if a != j {
                                assert(agree_at(dev, self.device().stored(), s[a].0));
                            }
                        }
                    }
                }
                if let Err(err) = written {
                    proof {
                        assert forall|k2: u64| !(index.0 <= k2 < index.0 + n) implies #[trigger] agree_at(
                            old(self).stored(),
                            self.stored(),
                            k2,
                        ) by {}
                    }
                    return Err(err);
                }
            } else if !e.dirty && inside {
                let marked = CachedBlock { dirty: true, data: e.data };
                table_replace(&mut self.lru_cache, k, marked);
                proof {
                    lemma_data_update(s, j, marked);
                    assert(cached_data(s).insert(k, e.data.contents@) =~= cached_data(s));
                    assert(self.stored() =~= old(self).stored());
                    assert forall|a: int| 0 <= a < s.len() implies entry_ok(
                        #[trigger] self.entries()[a],
                        self.device().stored(),
                    ) by {
                        assert(entry_ok(s[a], dev));
                    }
                }
            }
            t += 1;
        }
        let ghost s1 = self.entries();
        let ghost dev1 = self.device().stored();
        proof {
            assert forall|k: u64| !(index.0 <= k < index.0 + n) implies #[trigger] agree_at(
                old(self).stored(),
                dev1,
                k,
            ) by {
                if has_key(s1, k) {
                    let j = lemma_has_key_at(s1, k);
                    lemma_data_at(s1, j);
                    assert(swept(s1[j], dev1, index.0, n as int));
                }
            }
            lemma_written_same_outside(old(self).stored(), dev1, index.0, blocks@);
        }
        let written = self.block_device.raw_write(blocks, index);
        let ghost dev2 = self.device().stored();
        if let Err(err) = written {
            proof {
                assert forall|a: int| 0 <= a < s1.len() implies entry_ok(#[trigger] s1[a], dev2) by {
                    assert(entry_ok(s1[a], dev1));
                    assert(swept(s1[a], dev1, index.0, n as int));
                    if !(index.0 <= s1[a].0 < index.0 + n) {
                        assert(agree_at(dev1, dev2, s1[a].0));
                    }
                }
                assert forall|k: u64| !(index.0 <= k < index.0 + n) implies #[trigger] agree_at(
                    old(self).stored(),
                    self.stored(),
                    k,
                ) by {
                    assert(agree_at(dev1, dev2, k));
                }
            }
            return Err(err);
        }
        proof {
            assert forall|a: int| 0 <= a < s1.len() implies swept(
                #[trigger] s1[a],
                dev2,
                index.0,
                n as int,
            ) by {
                assert(swept(s1[a], dev1, index.0, n as int));
            }
        }
        let cap = table_cap(&self.lru_cache);
        let mut i: usize = 0;
        let ghost mut p = s1;
        assert(s1 =~= p + clean_run(index.0, blocks@, 0));
        while i < cap
            invariant
                self.wf(),
                self.capacity() == old(self).capacity(),
                cap == self.capacity(),
                cap <= n,
                n == blocks@.len(),
                index.0 + n <= u64::MAX,
                i <= cap,
                dev2 == blocks_written(dev1, index.0, blocks@),
                self.device().stored() == dev2,
                self.entries() == p + clean_run(index.0, blocks@, i as int),
                forall|a: int| 0 <= a < p.len() ==> swept(#[trigger] p[a], dev2, index.0, n as int),
            decreases cap - i,
        {
            let key = index.0 + i as u64;
            let entry = CachedBlock { dirty: false, data: blocks[i] };
            let ghost s = self.entries();
            let ghost run = clean_run(index.0, blocks@, i as int);
            proof {
                lemma_put(s, cap, dev2, key, entry);
            }
            table_put(&mut self.lru_cache, key, entry);
            proof {
                let run2 = clean_run(index.0, blocks@, i + 1);
                assert(run.push((key, entry)) =~= run2);
                if has_key(s, key) {
                    let j = key_index(s, key);
                    if j >= p.len() {
                        assert(s[j] == run[j - p.len()]);
                    }
                    assert(j < p.len());
                    assert(s.remove(j).push((key, entry)) =~= p.remove(j) + run2);
                    assert forall|a: int| 0 <= a < p.len() - 1 implies swept(
                        #[trigger] p.remove(j)[a],
                        dev2,
                        index.0,
                        n as int,
                    ) by {
                        if a < j {
                            assert(p.remove(j)[a] == p[a]);
                        } else {
                            assert(p.remove(j)[a] == p[a + 1]);
                        }
                    }
                    p = p.remove(j);
                } else if s.len() >= cap {
                    assert(p.len() > 0);
                    assert(s.drop_first().push((key, entry)) =~= p.drop_first() + run2);
                    assert forall|a: int| 0 <= a < p.len() - 1 implies swept(
                        #[trigger] p.drop_first()[a],
                        dev2,
                        index.0,
                        n as int,
                    ) by {
                        assert(p.drop_first()[a] == p[a + 1]);
                    }
                    p = p.drop_first();
                } else {
                    assert(s.push((key, entry)) =~= p + run2);
                }
            }
            i += 1;
        }
        proof {
            let run = clean_run(index.0, blocks@, cap as int);
            assert(p.len() == 0);
            assert(self.entries() =~= run);
            assert forall|k: u64| #[trigger] cached_data(run).contains_key(k) implies dev2.contains_key(
                k,
            ) && dev2[k] == cached_data(run)[k] by {
                let j = lemma_has_key_at(run, k);
                lemma_data_at(run, j);
            }
            assert(self.stored() =~= dev2);
        }
        Ok(())
    }

    /// Brings each requested block through the cache: a hit hands out the
    /// cached copy where it is the one to trust, a miss caches the block read
    /// from the device.
    fn fill_through_cache(&mut self, blocks: &mut [Block], index: BlockIndex, fully_cached: bool) -> (r:
        BlockResult<()>)
        requires
            old(self).wf(),
            index.0 + old(blocks)@.len() <= u64::MAX,
            !fully_cached ==> holds_run(old(self).device().stored(), index.0, old(blocks)@),
            fully_cached ==> forall|a: int|
                0 <= a < old(blocks)@.len() ==> #[trigger] has_key(
                    old(self).entries(),
                    (index.0 + a) as u64,
                ),
        ensures
            final(self).wf(),
            final(self).capacity() == old(self).capacity(),
            final(self).stored() == old(self).stored(),
            final(blocks)@.len() == old(blocks)@.len(),
            r is Ok ==> holds_run(old(self).stored(), index.0, final(blocks)@),
            fully_cached ==> final(self).device() == old(self).device() && r is Ok,
            all_clean(old(self).entries()) ==> r is Ok,
            r is Ok ==> (final(self).entries(), final(self).device().stored()) == read_state(
                old(self).entries(),
                old(self).device().stored(),
                old(self).capacity(),
                index.0,
                old(self).stored(),
                old(blocks)@.len(),
            ),
            r is Err ==> exists|i: nat|
                i < old(blocks)@.len() && (#[trigger] read_state(
                    old(self).entries(),
                    old(self).device().stored(),
                    old(self).capacity(),
                    index.0,
                    old(self).stored(),
                    i,
                )).0 == final(self).entries(),
    {
        let n = blocks.len();
        let end = index.0 + n as u64;
        proof {
            if !fully_cached {
                lemma_run_between(self.device().stored(), index.0, blocks@);
            }
        }
        let mut i: usize = 0;
        while i < n
            invariant
                self.wf(),
                self.capacity() == old(self).capacity(),
                i <= n,
                n == blocks@.len(),
                n == old(blocks)@.len(),
                end == index.0 + n,
                index.0 + n <= u64::MAX,
                self.stored() == old(self).stored(),
                holds_between(old(self).stored(), index.0, blocks@, 0, i as int),
                !fully_cached ==> holds_between(
                    self.device().stored(),
                    index.0,
                    blocks@,
                    i as int,
                    n as int,
                ),
                fully_cached ==> forall|a: int|
                    i <= a < n ==> #[trigger] has_key(self.entries(), (index.0 + a) as u64),
                fully_cached ==> self.device() == old(self).device(),
                all_clean(old(self).entries()) ==> all_clean(self.entries()),
                (self.entries(), self.device().stored()) == read_state(
                    old(self).entries(),
                    old(self).device().stored(),
                    old(self).capacity(),
                    index.0,
                    old(self).stored(),
                    i as nat,
                ),
            decreases n - i,
        {
            let key = index.0 + i as u64;
            let ghost s = self.entries();
            let ghost dev = self.device().stored();
            let got = table_get(&mut self.lru_cache, key);
            match got {
                Some(cached) => {
                    // A hit: the cached copy is the one to hand out when the
                    // device was not read, or when it is newer than the device.
                    if fully_cached || cached.dirty {
                        blocks[i] = cached.data;
                    }
                    proof {
                        let j = key_index(s, key);
                        lemma_get(s, j, dev);
                        lemma_data_at(s, j);
                        assert(entry_ok(s[j], dev));
                        assert forall|a: int| i < a < n implies #[trigger] has_key(
                            self.entries(),
                            (index.0 + a) as u64,
                        ) == has_key(s, (index.0 + a) as u64) by {
                            assert(cached_data(self.entries()).contains_key((index.0 + a) as u64)
                                == cached_data(s).contains_key((index.0 + a) as u64));
                        }
                    }
                },
                None => {
                    // A miss: the block read from the device joins the cache,
                    // clean, after room was made for it.
                    let room = self.make_room();
                    match room {
                        Err(e) => {
                            return Err(e);
                        },
                        Ok(Some((k, evicted))) => {
                            // An evicted dirty block further in the request is
                            // now on the device, newer than what was read.
                            if evicted.dirty && key < k && k < end {
                                blocks[(k - index.0) as usize] = evicted.data;
                            }
                        },
                        Ok(None) => {},
                    }
                    let ghost s2 = self.entries();
                    let ghost dev2 = self.device().stored();
                    let entry = CachedBlock { dirty: false, data: blocks[i] };
                    proof {
                        assert(!has_key(s2, key)) by {
                            if has_key(s2, key) {
                                let j = lemma_has_key_at(s2, key);
                                assert(s2[j] == s[j + 1]);
                            }
                        }
                        assert(dev2.contains_key(key) && dev2[key] == blocks@[i as int].contents@);
                        assert(old(self).stored()[key] == dev2[key]);
                        let chosen = block_of(old(self).stored()[key]);
                        assert(chosen.contents@ == blocks@[i as int].contents@);
                        assert(chosen.contents =~= blocks@[i as int].contents);
                        assert(chosen == blocks@[i as int]);
                        lemma_put(s2, self.capacity(), dev2, key, entry);
                    }
                    table_put(&mut self.lru_cache, key, entry);
                    proof {
                        if self.capacity() > 0 {
                            lemma_overlay_insert(dev2, s2, self.entries(), key, dev2[key]);
                            assert(overlay(dev2, s2).insert(key, dev2[key]) =~= overlay(dev2, s2));
                        }
                    }
                },
            }
            i += 1;
        }
        proof {
            lemma_between_run(old(self).stored(), index.0, blocks@);
        }
        Ok(())
    }
    /// Writes every dirty cached block to device.
    ///
    /// The cache keeps its entries and their order; each written entry becomes
    /// clean. On a device error the entries not reached yet are unchanged.
    pub fn flush(&mut self) -> (r: BlockResult<()>)
        requires
            old(self).wf(),
        ensures
            final(self).wf(),
            final(self).capacity() == old(self).capacity(),
            final(self).stored() == old(self).stored(),
            same_blocks(final(self).entries(), old(self).entries()),
            r is Ok ==> all_clean(final(self).entries()),
            r is Ok ==> final(self).device().stored() == final(self).stored(),
            all_clean(old(self).entries()) ==> r is Ok,
            forall|j: int|
                0 <= j < old(self).entries().len() && !(#[trigger] old(self).entries()[j]).1.dirty
                    ==> !final(self).entries()[j].1.dirty,
            r is Err ==> exists|t: int| #[trigger] flushed_past(old(self).entries(), final(self).entries(), t),
    {
        let ghost s0 = self.entries();
        let snapshot = table_entries(&self.lru_cache);
        let count = snapshot.len();
        let mut t: usize = 0;
        while t < count
            invariant
                self.wf(),
                self.capacity() == old(self).capacity(),
                snapshot@ == s0.reverse(),
                count == s0.len(),
                t <= count,
                self.stored() == old(self).stored(),
                s0 == old(self).entries(),
                same_blocks(self.entries(), s0),
                forall|j: int| 0 <= j < s0.len() - t ==> #[trigger] self.entries()[j] == s0[j],
                forall|j: int| s0.len() - t <= j < s0.len() ==> !(#[trigger] self.entries()[j]).1.dirty,
            decreases count - t,
        {
            let ghost j = count - 1 - t;
            let ghost s = self.entries();
            let ghost dev = self.device().stored();
            let (k, e) = snapshot[t];
            assert(snapshot@[t as int] == s0[j]);
            assert(s[j] == (k, e));
            proof {
                lemma_data_at(s, j);
                lemma_key_index(s, j);
            }
            if e.dirty {
                let one = [e.data];
                assert(one@ =~= seq![e.data]);
                let written = self.block_device.raw_write(&one, BlockIndex(k));
                proof {
                    if written.is_ok() {
                        lemma_single_block_written(dev, k, e.data);
                    }
                    lemma_write_back(s, j, dev, self.device().stored());
                }
                if let Err(err) = written {
                    assert(flushed_past(s0, self.entries(), t as int));
                    return Err(err);
                }
                let clean = CachedBlock { dirty: false, data: e.data };
                table_replace(&mut self.lru_cache, k, clean);
                proof {
                    lemma_data_update(s, j, clean);
                    assert(cached_data(s).insert(k, e.data.contents@) =~= cached_data(s));
                    assert(self.stored() =~= old(self).stored());
                    assert forall|a: int| 0 <= a < s.len() implies entry_ok(
                        #[trigger] self.entries()[a],
                        self.device().stored(),
                    ) by {
                        if a != j {
                            assert(self.entries()[a] == s[a]);
                        }
                    }
                }
            }
            t += 1;
        }
        proof {
            let s = self.entries();
            assert forall|k: u64| #[trigger] cached_data(s).contains_key(k) implies self.device().stored().contains_key(
                k,
            ) && self.device().stored()[k] == cached_data(s)[k] by {
                let j = lemma_has_key_at(s, k);
                lemma_data_at(s, j);
                assert(entry_ok(s[j], self.device().stored()));
            }
            assert(self.stored() =~= self.device().stored());
        }
        Ok(())
    }

    /// Tears the cache down: flushes it, and hands back the wrapped device
    /// together with the outcome of that flush, which a caller may ignore.
    pub fn close(self) -> (r: (B, BlockResult<()>))
        requires
            self.wf(),
        ensures
            r.0.wf(),
            r.1 is Ok ==> r.0.stored() == self.stored(),
            all_clean(self.entries()) ==> r.1 is Ok,
            forall|k: u64|
                (forall|i: int|
                    0 <= i < self.entries().len() && (#[trigger] self.entries()[i]).0 == k
                        ==> !self.entries()[i].1.dirty) ==> #[trigger] agree_at(
                    r.0.stored(),
                    self.stored(),
                    k,
                ),
    {
        let mut cache = self;
        let flushed = cache.flush();
        proof {
            assert forall|k: u64|
                (forall|i: int|
                    0 <= i < self.entries().len() && (#[trigger] self.entries()[i]).0 == k
                        ==> !self.entries()[i].1.dirty) implies #[trigger] agree_at(
                cache.device().stored(),
                self.stored(),
                k,
            ) by {
                assert forall|i: int|
                    0 <= i < cache.entries().len() && (#[trigger] cache.entries()[i]).0 == k
                        implies !cache.entries()[i].1.dirty by {
                    assert(self.entries()[i].0 == k);
                }
                cache.lemma_differs_only_when_dirty(k);
            }
        }
        let CachedBlockDevice { block_device, lru_cache } = cache;
        (block_device, flushed)
    }

    /// Capacity: the cache never holds more than `capacity` entries, and no
    /// two entries share an index.
    pub proof fn lemma_capacity_bound(&self)
        requires
            self.wf(),
        ensures
            self.entries().len() <= self.capacity(),
            keys_unique(self.entries()),
    {
    }

    /// Transparency: what the cache hands out differs from what the device
    /// holds only at indices whose entry is dirty.
    pub proof fn lemma_differs_only_when_dirty(&self, k: u64)
        requires
            self.wf(),
            forall|i: int|
                0 <= i < self.entries().len() && (#[trigger] self.entries()[i]).0 == k
                    ==> !self.entries()[i].1.dirty,
        ensures
            agree_at(self.stored(), self.device().stored(), k),
    {
        let s = self.entries();
        if has_key(s, k) {
            let j = lemma_has_key_at(s, k);
            lemma_data_at(s, j);
            assert(entry_ok(s[j], self.device().stored()));
        }
    }

    /// Dirty accounting: once no entry is dirty, the device holds every cached
    /// block, and the cache hands out exactly what the device holds.
    pub proof fn lemma_clean_cache_matches_device(&self)
        requires
            self.wf(),
            all_clean(self.entries()),
        ensures
            forall|i: int|
                0 <= i < self.entries().len() ==> holds_at(
                    self.device().stored(),
                    (#[trigger] self.entries()[i]).0,
                    self.entries()[i].1.data,
                ),
            self.stored() == self.device().stored(),
    {
        let s = self.entries();
        assert forall|i: int| 0 <= i < s.len() implies holds_at(
            self.device().stored(),
            (#[trigger] s[i]).0,
            s[i].1.data,
        ) by {
            assert(entry_ok(s[i], self.device().stored()));
        }
        assert forall|k: u64| #[trigger] self.stored().contains_key(k) == self.device().stored().contains_key(k)
            && (self.stored().contains_key(k) ==> self.stored()[k] == self.device().stored()[k]) by {
            self.lemma_differs_only_when_dirty(k);
        }
        assert(self.stored() =~= self.device().stored());
    }

}

impl<B: BlockDevice> BlockDevice for CachedBlockDevice<B> {
    open spec fn wf(&self) -> bool {
        &&& self.device().wf()
        &&& keys_unique(self.entries())
        &&& self.entries().len() <= self.capacity()
        &&& entries_ok(self.entries(), self.device().stored())
    }

    open spec fn stored(&self) -> Map<u64, Seq<u8>> {
        overlay(self.device().stored(), self.entries())
    }

    open spec fn block_count(&self) -> BlockResult<BlockCount> {
        self.device().block_count()
    }

    /// Fills `blocks` from the cache where it can, and from the device where it
    /// can't. Every block involved becomes the most recently used.
    fn raw_read(&mut self, blocks: &mut [Block], index: BlockIndex) -> (r: BlockResult<()>)
        ensures
            final(self).capacity() == old(self).capacity(),
            all_clean(old(self).entries()) && r is Err ==> final(self).entries() == old(self).entries(),
            old(blocks)@.len() <= old(self).entries().len() && (forall|a: int|
                0 <= a < old(blocks)@.len() ==> #[trigger] has_key(
                    old(self).entries(),
                    (index.0 + a) as u64,
                )) ==> final(self).device() == old(self).device() && r is Ok,
            r is Ok ==> (final(self).entries(), final(self).device().stored()) == read_state(
                old(self).entries(),
                old(self).device().stored(),
                old(self).capacity(),
                index.0,
                old(self).stored(),
                old(blocks)@.len(),
            ),
            r is Err ==> exists|i: nat|
                i < old(blocks)@.len() && (#[trigger] read_state(
                    old(self).entries(),
                    old(self).device().stored(),
                    old(self).capacity(),
                    index.0,
                    old(self).stored(),
                    i,
                )).0 == final(self).entries(),
    {
        let n = blocks.len();
        let end = index.0 + n as u64;
        let len = table_len(&self.lru_cache);
        // Check whether the request can be served from the cache alone.
        let mut fully_cached = true;
        if n > len {
            fully_cached = false;
        } else {
            let mut i: usize = 0;
            while i < n
                invariant_except_break
                    fully_cached,
                invariant
                    i <= n,
                    n == blocks@.len(),
                    index.0 + n <= u64::MAX,
                    forall|a: int|
                        0 <= a < i ==> #[trigger] has_key(self.entries(), (index.0 + a) as u64),
                ensures
                    fully_cached ==> forall|a: int|
                        0 <= a < n ==> #[trigger] has_key(self.entries(), (index.0 + a) as u64),
                    !fully_cached ==> !has_key(self.entries(), (index.0 + i) as u64) && i < n,
                decreases n - i,
            {
                if !table_contains(&self.lru_cache, index.0 + i as u64) {
                    fully_cached = false;
                    break;
                }
                i += 1;
            }
        }
        if !fully_cached {
            let got = self.block_device.raw_read(blocks, index);
            if let Err(e) = got {
                assert(read_state(
                    old(self).entries(),
                    old(self).device().stored(),
                    old(self).capacity(),
                    index.0,
                    old(self).stored(),
                    0,
                ).0 == self.entries());
                return Err(e);
            }
        }
        let ghost before = self.entries();
        assert(before == old(self).entries());
        assert(self.device().stored() == old(self).device().stored());
        assert(self.stored() == old(self).stored());
        let r = self.fill_through_cache(blocks, index, fully_cached);
        proof {
            if r is Err {
                let i = choose|i: nat|
                    i < blocks@.len() && (#[trigger] read_state(
                        old(self).entries(),
                        old(self).device().stored(),
                        old(self).capacity(),
                        index.0,
                        old(self).stored(),
                        i,
                    )).0 == self.entries();
                assert(i < old(blocks)@.len());
            }
        }
        r
    }

    /// Adds dirty blocks to the cache, or, for a write of at least `capacity`
    /// blocks, writes them to the device in one go and caches the first
    /// `capacity` of them.
    fn raw_write(&mut self, blocks: &[Block], index: BlockIndex) -> (r: BlockResult<()>)
        ensures
            final(self).capacity() == old(self).capacity(),
            r is Ok && old(self).capacity() <= blocks@.len() ==> final(self).entries() == clean_run(
                index.0,
                blocks@,
                old(self).capacity() as int,
            ) && holds_run(final(self).device().stored(), index.0, blocks@),
            blocks@.len() < old(self).capacity() && all_clean(old(self).entries()) ==> r is Ok,
            blocks@.len() < old(self).capacity() && old(self).entries().len() + blocks@.len()
                <= old(self).capacity() ==> r is Ok,
            r is Ok && blocks@.len() < old(self).capacity() ==> (
            final(self).entries(),
            final(self).device().stored(),
            ) == small_write_state(
                old(self).entries(),
                old(self).device().stored(),
                old(self).capacity(),
                index.0,
                blocks@,
                blocks@.len(),
            ),
            r is Err && old(self).capacity() <= blocks@.len() ==> same_blocks(
                final(self).entries(),
                old(self).entries(),
            ),
            r is Err && blocks@.len() < old(self).capacity() ==> exists|i: nat|
                i < blocks@.len() && (#[trigger] small_write_state(
                    old(self).entries(),
                    old(self).device().stored(),
                    old(self).capacity(),
                    index.0,
                    blocks@,
                    i,
                )).0 == final(self).entries(),
    {
        let cap = table_cap(&self.lru_cache);
        if blocks.len() < cap {
            self.write_small(blocks, index)
        } else {
            self.write_large(blocks, index)
        }
    }

    fn count(&self) -> (r: BlockResult<BlockCount>) {
        self.block_device.count()
    }
}

} // verus!
