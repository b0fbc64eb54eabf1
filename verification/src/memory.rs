//! Guest memory cut into blocks for transfer.
//!
//! The regions of guest memory are given in ascending order. The enumerator
//! walks them once and yields blocks, none longer than a chosen maximum, that
//! together cover every region, in ascending order of address.

use vstd::prelude::*;
use crate::error::MigrationError;

verus! {

/// The longest block that the enumerator yields unless told otherwise.
pub const BLOCK_LEN_MAX: u64 = 0x10_0000;

/// A range of guest physical memory that is backed by host memory.
#[derive(Clone, Copy, Debug, PartialEq, Eq, Structural)]
pub struct MemRegion {
    /// The first guest physical address.
    pub base: u64,
    /// The length in bytes.
    pub len: u64,
}

/// A range of guest physical memory that is transferred in one piece.
#[derive(Clone, Copy, Debug, PartialEq, Eq, Structural)]
pub struct MemBlock {
    /// The first guest physical address.
    pub base: u64,
    /// The length in bytes.
    pub len: u64,
    /// The number of bytes of guest memory that precede the block in the
    /// stream.
    pub offset: u64,
}

/// The regions are not empty, end within the address space, and each begins
/// at or behind the end of the one before it.
pub open spec fn regions_ok(regions: Seq<MemRegion>) -> bool {
    &&& forall|i: int|
        0 <= i < regions.len() ==> (#[trigger] regions[i]).len > 0 && regions[i].base
            + regions[i].len <= u64::MAX
    &&& forall|i: int|
        0 <= i < regions.len() - 1 ==> (#[trigger] regions[i]).base + regions[i].len
            <= regions[i + 1].base
}

/// The length of all regions together.
pub open spec fn total_len(regions: Seq<MemRegion>) -> nat
    decreases regions.len(),
{
    if regions.len() == 0 {
        0
    } else {
        regions[0].len as nat + total_len(regions.drop_first())
    }
}

/// The blocks into which `len` bytes from `base` on are cut, where `offset`
/// bytes precede them in the stream: each as long as `max` allows, the last
/// one as long as what is left.
pub open spec fn range_blocks(base: nat, len: nat, offset: nat, max: nat) -> Seq<MemBlock>
    decreases len,
{
    if len == 0 || max == 0 {
        Seq::<MemBlock>::empty()
    } else {
        let n = if len < max {
            len
        } else {
            max
        };
        seq![MemBlock { base: base as u64, len: n as u64, offset: offset as u64 }] + range_blocks(
            base + n,
            (len - n) as nat,
            offset + n,
            max,
        )
    }
}

/// The blocks of all regions, one region after the other.
pub open spec fn region_blocks(regions: Seq<MemRegion>, offset: nat, max: nat) -> Seq<MemBlock>
    decreases regions.len(),
{
    if regions.len() == 0 {
        Seq::<MemBlock>::empty()
    } else {
        range_blocks(regions[0].base as nat, regions[0].len as nat, offset, max) + region_blocks(
            regions.drop_first(),
            (offset + regions[0].len) as nat,
            max,
        )
    }
}

/// The addresses from `base` on, `len` of them.
pub open spec fn range_addrs(base: nat, len: nat) -> Seq<nat> {
    Seq::new(len, |i: int| (base + i) as nat)
}

/// The addresses that the regions hold, in ascending order.
pub open spec fn region_addrs(regions: Seq<MemRegion>) -> Seq<nat>
    decreases regions.len(),
{
    if regions.len() == 0 {
        Seq::<nat>::empty()
    } else {
        range_addrs(regions[0].base as nat, regions[0].len as nat) + region_addrs(
            regions.drop_first(),
        )
    }
}

/// The addresses that the blocks hold, block after block.
pub open spec fn block_addrs(blocks: Seq<MemBlock>) -> Seq<nat>
    decreases blocks.len(),
{
    if blocks.len() == 0 {
        Seq::<nat>::empty()
    } else {
        range_addrs(blocks[0].base as nat, blocks[0].len as nat) + block_addrs(blocks.drop_first())
    }
}

/// The regions behind the first `k` are in order as well, and what the first
/// `k` hold ends before their first address.
pub proof fn lemma_regions_skip(regions: Seq<MemRegion>, k: int)
    requires
        regions_ok(regions),
        0 <= k <= regions.len(),
    ensures
        regions_ok(regions.skip(k)),
        k < regions.len() ==> total_len(regions.take(k)) <= regions[k].base,
        k > 0 ==> total_len(regions.take(k)) <= regions[k - 1].base + regions[k - 1].len,
        total_len(regions.take(k)) <= u64::MAX,
    decreases k,
{
    let rest = regions.skip(k);
    assert forall|i: int| 0 <= i < rest.len() implies (#[trigger] rest[i]).len > 0 && rest[i].base
        + rest[i].len <= u64::MAX by {
        assert(rest[i] == regions[i + k]);
    }
    assert forall|i: int| 0 <= i < rest.len() - 1 implies (#[trigger] rest[i]).base + rest[i].len
        <= rest[i + 1].base by {
        assert(rest[i] == regions[i + k]);
        assert(rest[i + 1] == regions[i + k + 1]);
    }
    if k == 0 {
        assert(regions.take(0) =~= Seq::<MemRegion>::empty());
    } else {
        lemma_regions_skip(regions, k - 1);
        lemma_total_len_push(regions.take(k - 1), regions[k - 1]);
        assert(regions.take(k - 1).push(regions[k - 1]) =~= regions.take(k));
        assert(regions[k - 1].base + regions[k - 1].len <= u64::MAX);
        if k < regions.len() {
            assert(regions[k - 1].base + regions[k - 1].len <= regions[k - 1 + 1].base);
        }
    }
}

/// A region more adds its length.
pub proof fn lemma_total_len_push(regions: Seq<MemRegion>, r: MemRegion)
    ensures
        total_len(regions.push(r)) == total_len(regions) + r.len,
    decreases regions.len(),
{
    let more = regions.push(r);
    if regions.len() == 0 {
        assert(more.drop_first() =~= Seq::<MemRegion>::empty());
        assert(total_len(more.drop_first()) == 0);
    } else {
        lemma_total_len_push(regions.drop_first(), r);
        assert(more.drop_first() =~= regions.drop_first().push(r));
        assert(more[0] == regions[0]);
    }
}

/// The blocks of a range are not empty, no longer than the maximum, lie
/// one behind the other within the range, and hold its addresses in order.
pub proof fn lemma_range_blocks(base: nat, len: nat, offset: nat, max: nat)
    requires
        max > 0,
        base + len <= u64::MAX,
        offset + len <= u64::MAX,
    ensures
        block_addrs(range_blocks(base, len, offset, max)) == range_addrs(base, len),
        forall|i: int|
            0 <= i < range_blocks(base, len, offset, max).len() ==> 0 < (#[trigger] range_blocks(
                base,
                len,
                offset,
                max,
            )[i]).len <= max && base <= range_blocks(base, len, offset, max)[i].base
                && range_blocks(base, len, offset, max)[i].base + range_blocks(
                base,
                len,
                offset,
                max,
            )[i].len <= base + len,
        len > 0 ==> range_blocks(base, len, offset, max).len() > 0 && range_blocks(
            base,
            len,
            offset,
            max,
        )[0] == (MemBlock {
            base: base as u64,
            len: (if len < max {
                len
            } else {
                max
            }) as u64,
            offset: offset as u64,
        }),
    decreases len,
{
    let blocks = range_blocks(base, len, offset, max);
    if len == 0 {
        assert(block_addrs(blocks) =~= range_addrs(base, len));
    } else {
        let n = if len < max {
            len
        } else {
            max
        };
        let first = MemBlock { base: base as u64, len: n as u64, offset: offset as u64 };
        let tail = range_blocks(base + n, (len - n) as nat, offset + n, max);
        lemma_range_blocks(base + n, (len - n) as nat, offset + n, max);
        assert(blocks == seq![first] + tail);
        assert(blocks.drop_first() =~= tail);
        assert(blocks[0] == first);
        assert(block_addrs(blocks) == range_addrs(base, n) + block_addrs(tail));
        assert(range_addrs(base, n) + range_addrs(base + n, (len - n) as nat) =~= range_addrs(
            base,
            len,
        ));
        assert forall|i: int| 0 <= i < blocks.len() implies 0 < (#[trigger] blocks[i]).len <= max
            && base <= blocks[i].base && blocks[i].base + blocks[i].len <= base + len by {
            if i > 0 {
                assert(blocks[i] == tail[i - 1]);
            }
        }
    }
}

/// What precedes a block list in another's addresses precedes it in the
/// joined list.
proof fn lemma_block_addrs_concat(a: Seq<MemBlock>, b: Seq<MemBlock>)
    ensures
        block_addrs(a + b) == block_addrs(a) + block_addrs(b),
    decreases a.len(),
{
    if a.len() == 0 {
        assert(a + b =~= b);
        assert(block_addrs(a) + block_addrs(b) =~= block_addrs(b));
    } else {
        lemma_block_addrs_concat(a.drop_first(), b);
        assert((a + b).drop_first() =~= a.drop_first() + b);
        assert((a + b)[0] == a[0]);
        assert(block_addrs(a + b) =~= block_addrs(a) + block_addrs(b));
    }
}

/// The blocks of the regions hold exactly the addresses of the regions, in
/// ascending order, and none of them is empty or longer than the maximum.
pub proof fn lemma_blocks_cover(regions: Seq<MemRegion>, offset: nat, max: nat)
    requires
        regions_ok(regions),
        max > 0,
        offset + total_len(regions) <= u64::MAX,
    ensures
        block_addrs(region_blocks(regions, offset, max)) == region_addrs(regions),
        forall|i: int|
            0 <= i < region_blocks(regions, offset, max).len() ==> 0 < (#[trigger] region_blocks(
                regions,
                offset,
                max,
            )[i]).len <= max,
    decreases regions.len(),
{
    let blocks = region_blocks(regions, offset, max);
    if regions.len() == 0 {
    } else {
        let head = range_blocks(regions[0].base as nat, regions[0].len as nat, offset, max);
        let tail = region_blocks(regions.drop_first(), (offset + regions[0].len) as nat, max);
        lemma_range_blocks(regions[0].base as nat, regions[0].len as nat, offset, max);
        lemma_regions_skip(regions, 1);
        assert(regions.skip(1) =~= regions.drop_first());
        lemma_blocks_cover(regions.drop_first(), (offset + regions[0].len) as nat, max);
        lemma_block_addrs_concat(head, tail);
        assert forall|i: int| 0 <= i < blocks.len() implies 0 < (#[trigger] blocks[i]).len
            <= max by {
            if i < head.len() {
                assert(blocks[i] == head[i]);
            } else {
                assert(blocks[i] == tail[i - head.len()]);
            }
        }
    }
}

/// In the blocks of a range each block begins where the one before it ends,
/// in guest memory and in the stream, and the last block ends where the
/// range ends.
pub proof fn lemma_range_blocks_adjacent(base: nat, len: nat, offset: nat, max: nat, k: int)
    requires
        max > 0,
        base + len <= u64::MAX,
        offset + len <= u64::MAX,
        0 <= k < range_blocks(base, len, offset, max).len(),
    ensures
        k + 1 < range_blocks(base, len, offset, max).len() ==> range_blocks(
            base,
            len,
            offset,
            max,
        )[k + 1].base == range_blocks(base, len, offset, max)[k].base + range_blocks(
            base,
            len,
            offset,
            max,
        )[k].len && range_blocks(base, len, offset, max)[k + 1].offset == range_blocks(
            base,
            len,
            offset,
            max,
        )[k].offset + range_blocks(base, len, offset, max)[k].len,
        k + 1 == range_blocks(base, len, offset, max).len() ==> range_blocks(
            base,
            len,
            offset,
            max,
        )[k].base + range_blocks(base, len, offset, max)[k].len == base + len && range_blocks(
            base,
            len,
            offset,
            max,
        )[k].offset + range_blocks(base, len, offset, max)[k].len == offset + len,
    decreases k,
{
    let blocks = range_blocks(base, len, offset, max);
    let n = if len < max {
        len
    } else {
        max
    };
    let tail = range_blocks(base + n, (len - n) as nat, offset + n, max);
    assert(blocks.len() == 1 + tail.len());
    assert(forall|i: int| 0 < i < blocks.len() ==> blocks[i] == tail[i - 1]);
    lemma_range_blocks(base + n, (len - n) as nat, offset + n, max);
    if k == 0 {
        if tail.len() > 0 {
            assert(blocks[1] == tail[0]);
        }
    } else {
        lemma_range_blocks_adjacent(base + n, (len - n) as nat, offset + n, max, k - 1);
        assert(blocks[k] == tail[k - 1]);
        if k + 1 < blocks.len() {
            assert(blocks[k + 1] == tail[k]);
        }
    }
}

/// Each block of the regions begins at or behind the end of the one before
/// it, and just behind it in the stream.
pub proof fn lemma_blocks_adjacent(regions: Seq<MemRegion>, offset: nat, max: nat, k: int)
    requires
        regions_ok(regions),
        max > 0,
        offset + total_len(regions) <= u64::MAX,
        0 <= k,
        k + 1 < region_blocks(regions, offset, max).len(),
    ensures
        region_blocks(regions, offset, max)[k].base + region_blocks(regions, offset, max)[k].len
            <= region_blocks(regions, offset, max)[k + 1].base,
        region_blocks(regions, offset, max)[k].offset + region_blocks(regions, offset, max)[k].len
            == region_blocks(regions, offset, max)[k + 1].offset,
    decreases regions.len(),
{
    let blocks = region_blocks(regions, offset, max);
    let base0 = regions[0].base as nat;
    let len0 = regions[0].len as nat;
    let head = range_blocks(base0, len0, offset, max);
    let rest = regions.drop_first();
    let tail = region_blocks(rest, (offset + len0) as nat, max);
    assert(blocks == head + tail);
    lemma_range_blocks(base0, len0, offset, max);
    lemma_regions_skip(regions, 1);
    assert(regions.skip(1) =~= rest);
    if k + 1 < head.len() {
        lemma_range_blocks_adjacent(base0, len0, offset, max, k);
        assert(blocks[k] == head[k]);
        assert(blocks[k + 1] == head[k + 1]);
    } else if k + 1 == head.len() {
        lemma_range_blocks_adjacent(base0, len0, offset, max, k);
        assert(blocks[k] == head[k]);
        assert(blocks[k + 1] == tail[0]);
        assert(rest.len() > 0);
        assert(rest[0] == regions[1]);
        assert(total_len(regions) == len0 + total_len(rest));
        assert(total_len(rest) == rest[0].len + total_len(rest.drop_first()));
        let behind = (offset + len0) as nat;
        let head2 = range_blocks(rest[0].base as nat, rest[0].len as nat, behind, max);
        lemma_range_blocks(rest[0].base as nat, rest[0].len as nat, behind, max);
        assert(tail[0] == head2[0]);
        assert(regions[0int].base + regions[0int].len <= regions[0int + 1].base);
    } else {
        lemma_blocks_adjacent(rest, (offset + len0) as nat, max, k - head.len());
        assert(blocks[k] == tail[k - head.len()]);
        assert(blocks[k + 1] == tail[k + 1 - head.len()]);
    }
}

/// The blocks of the regions come in ascending order of address and do not
/// overlap: a block ends at or before the beginning of every later one.
pub proof fn lemma_blocks_ascend(regions: Seq<MemRegion>, offset: nat, max: nat, i: int, j: int)
    requires
        regions_ok(regions),
        max > 0,
        offset + total_len(regions) <= u64::MAX,
        0 <= i < j < region_blocks(regions, offset, max).len(),
    ensures
        region_blocks(regions, offset, max)[i].base + region_blocks(regions, offset, max)[i].len
            <= region_blocks(regions, offset, max)[j].base,
        region_blocks(regions, offset, max)[i].offset + region_blocks(regions, offset, max)[i].len
            <= region_blocks(regions, offset, max)[j].offset,
    decreases j - i,
{
    lemma_blocks_adjacent(regions, offset, max, i);
    if i + 1 < j {
        lemma_blocks_ascend(regions, offset, max, i + 1, j);
        lemma_blocks_cover(regions, offset, max);
    }
}

/// What an enumerator yields for valid regions: blocks that are not empty
/// and no longer than the maximum, in ascending order of address and without
/// overlap, each at the stream offset at which the one before it ends, the
/// first at 0, and that together hold exactly the addresses of the regions.
pub proof fn lemma_enumeration(regions: Seq<MemRegion>, max: nat)
    requires
        regions_ok(regions),
        max > 0,
    ensures
        block_addrs(region_blocks(regions, 0, max)) == region_addrs(regions),
        forall|i: int|
            0 <= i < region_blocks(regions, 0, max).len() ==> 0 < (#[trigger] region_blocks(
                regions,
                0,
                max,
            )[i]).len <= max,
        forall|i: int, j: int|
            0 <= i < j < region_blocks(regions, 0, max).len() ==> (#[trigger] region_blocks(
                regions,
                0,
                max,
            )[i]).base + region_blocks(regions, 0, max)[i].len <= (#[trigger] region_blocks(
                regions,
                0,
                max,
            )[j]).base,
        region_blocks(regions, 0, max).len() > 0 ==> region_blocks(regions, 0, max)[0].offset == 0,
        forall|i: int|
            0 <= i && i + 1 < region_blocks(regions, 0, max).len() ==> region_blocks(
                regions,
                0,
                max,
            )[i + 1].offset == (#[trigger] region_blocks(regions, 0, max)[i]).offset
                + region_blocks(regions, 0, max)[i].len,
{
    let blocks = region_blocks(regions, 0, max);
    lemma_regions_skip(regions, regions.len() as int);
    assert(regions.take(regions.len() as int) =~= regions);
    lemma_blocks_cover(regions, 0, max);
    assert forall|i: int, j: int| 0 <= i < j < blocks.len() implies (#[trigger] blocks[i]).base
        + blocks[i].len <= (#[trigger] blocks[j]).base by {
        lemma_blocks_ascend(regions, 0, max, i, j);
    }
    assert forall|i: int| 0 <= i && i + 1 < blocks.len() implies blocks[i + 1].offset == (
    #[trigger] blocks[i]).offset + blocks[i].len by {
        lemma_blocks_adjacent(regions, 0, max, i);
    }
    if blocks.len() > 0 {
        assert(regions.len() > 0);
        let head = range_blocks(regions[0].base as nat, regions[0].len as nat, 0, max);
        lemma_range_blocks(regions[0].base as nat, regions[0].len as nat, 0, max);
        assert(blocks[0] == head[0]);
    }
}

/// Each block of the regions lies within one of them: the result is the
/// position of that region.
pub proof fn lemma_block_within(regions: Seq<MemRegion>, offset: nat, max: nat, j: int) -> (i: int)
    requires
        regions_ok(regions),
        max > 0,
        offset + total_len(regions) <= u64::MAX,
        0 <= j < region_blocks(regions, offset, max).len(),
    ensures
        0 <= i < regions.len(),
        regions[i].base <= region_blocks(regions, offset, max)[j].base,
        region_blocks(regions, offset, max)[j].base + region_blocks(regions, offset, max)[j].len
            <= regions[i].base + regions[i].len,
    decreases regions.len(),
{
    let head = range_blocks(regions[0].base as nat, regions[0].len as nat, offset, max);
    let tail = region_blocks(regions.drop_first(), (offset + regions[0].len) as nat, max);
    lemma_range_blocks(regions[0].base as nat, regions[0].len as nat, offset, max);
    if j < head.len() {
        assert(region_blocks(regions, offset, max)[j] == head[j]);
        0
    } else {
        lemma_regions_skip(regions, 1);
        assert(regions.skip(1) =~= regions.drop_first());
        let k = lemma_block_within(
            regions.drop_first(),
            (offset + regions[0].len) as nat,
            max,
            j - head.len(),
        );
        assert(region_blocks(regions, offset, max)[j] == tail[j - head.len()]);
        assert(regions.drop_first()[k] == regions[k + 1]);
        k + 1
    }
}

/// Walks the regions of guest memory and yields one block after the other.
pub struct MemoryEnumerator {
    regions: Vec<MemRegion>,
    max: u64,
    index: usize,
    done: u64,
    offset: u64,
}

impl MemoryEnumerator {
    /// The blocks that are still to come.
    pub closed spec fn remaining(&self) -> Seq<MemBlock> {
        if self.index < self.regions@.len() {
            let r = self.regions@[self.index as int];
            range_blocks(
                (r.base + self.done) as nat,
                (r.len - self.done) as nat,
                self.offset as nat,
                self.max as nat,
            ) + region_blocks(
                self.regions@.skip(self.index + 1),
                (self.offset + r.len - self.done) as nat,
                self.max as nat,
            )
        } else {
            Seq::<MemBlock>::empty()
        }
    }

    /// The enumerator stands within its regions, and the stream offset is
    /// the number of bytes that it has passed.
    pub closed spec fn wf(&self) -> bool {
        &&& regions_ok(self.regions@)
        &&& self.max > 0
        &&& self.index <= self.regions@.len()
        &&& self.index < self.regions@.len() ==> self.done < self.regions@[self.index as int].len
        &&& self.index == self.regions@.len() ==> self.done == 0
        &&& self.offset == total_len(self.regions@.take(self.index as int)) + self.done
    }

    /// An enumerator over `regions` that yields blocks of at most
    /// `max_block` bytes. Regions that are empty, overlap, are out of order
    /// or reach beyond the address space, and a maximum of 0, are refused as
    /// an invalid configuration.
    pub fn new(regions: Vec<MemRegion>, max_block: u64) -> (r: Result<
        MemoryEnumerator,
        MigrationError,
    >)
        ensures
            (regions_ok(regions@) && max_block > 0) ==> r.is_ok() && r->Ok_0.wf()
                && r->Ok_0.remaining() == region_blocks(regions@, 0, max_block as nat),
            !(regions_ok(regions@) && max_block > 0) ==> r == Err::<
                MemoryEnumerator,
                MigrationError,
            >(MigrationError::InvalidConfig),
    {
        if max_block == 0 {
            return Err(MigrationError::InvalidConfig);
        }
        let mut i: usize = 0;
        while i < regions.len()
            invariant
                i <= regions@.len(),
                forall|j: int|
                    0 <= j < i ==> (#[trigger] regions@[j]).len > 0 && regions@[j].base
                        + regions@[j].len <= u64::MAX,
                forall|j: int|
                    0 <= j < i - 1 ==> (#[trigger] regions@[j]).base + regions@[j].len
                        <= regions@[j + 1].base,
            decreases regions@.len() - i,
        {
            let r = regions[i];
            if r.len == 0 || r.base > u64::MAX - r.len {
                return Err(MigrationError::InvalidConfig);
            }
            if i > 0 {
                let before = regions[i - 1];
                if before.base + before.len > r.base {
                    assert(!(regions@[i - 1].base + regions@[i - 1].len <= regions@[i - 1
                        + 1].base));
                    return Err(MigrationError::InvalidConfig);
                }
            }
            i = i + 1;
        }
        let e = MemoryEnumerator { regions, max: max_block, index: 0, done: 0, offset: 0 };
        proof {
            assert(e.regions@.take(0) =~= Seq::<MemRegion>::empty());
            if e.regions@.len() > 0 {
                assert(e.regions@.skip(1) =~= e.regions@.drop_first());
            }
        }
        Ok(e)
    }

    /// The next block, or `None` when every region has been covered.
    pub fn next(&mut self) -> (block: Option<MemBlock>)
        requires
            old(self).wf(),
        ensures
            final(self).wf(),
            old(self).remaining().len() == 0 ==> block.is_none() && final(self).remaining()
                == old(self).remaining(),
            old(self).remaining().len() > 0 ==> block == Some(old(self).remaining()[0])
                && final(self).remaining() == old(self).remaining().drop_first(),
    {
        if self.index >= self.regions.len() {
            return None;
        }
        let r = self.regions[self.index];
        let left: u64 = r.len - self.done;
        let n: u64 = if left < self.max {
            left
        } else {
            self.max
        };
        proof {
            lemma_regions_skip(self.regions@, self.index as int);
            lemma_regions_skip(self.regions@, self.index + 1);
            lemma_total_len_push(self.regions@.take(self.index as int), r);
            assert(self.regions@.take(self.index as int).push(r) =~= self.regions@.take(
                self.index + 1,
            ));
        }
        let block = MemBlock { base: r.base + self.done, len: n, offset: self.offset };
        let ghost before = self.remaining();
        let ghost rest_regions = self.regions@.skip(self.index + 1);
        let ghost after_region = (self.offset + r.len - self.done) as nat;
        let ghost tail = range_blocks(
            (r.base + self.done + n) as nat,
            (left - n) as nat,
            (self.offset + n) as nat,
            self.max as nat,
        );
        proof {
            assert(before == (seq![block] + tail) + region_blocks(
                rest_regions,
                after_region,
                self.max as nat,
            ));
            assert(before.drop_first() =~= tail + region_blocks(
                rest_regions,
                after_region,
                self.max as nat,
            ));
            assert(before[0] == block);
        }
        self.offset = self.offset + n;
        if n == left {
            self.index = self.index + 1;
            self.done = 0;
            proof {
                assert(tail =~= Seq::<MemBlock>::empty());
                if self.index < self.regions@.len() {
                    assert(rest_regions[0] == self.regions@[self.index as int]);
                    assert(rest_regions.drop_first() =~= self.regions@.skip(self.index + 1));
                }
                assert(self.remaining() =~= before.drop_first());
            }
        } else {
            self.done = self.done + n;
            proof {
                assert(self.remaining() =~= before.drop_first());
            }
        }
        Some(block)
    }
}

} // verus!
