//! What holds of a whole transfer: the stream that a source machine writes,
//! replayed on a destination with the same devices and the same layout of
//! guest memory, leaves the destination with the device states and the
//! memory content of the source.

use vstd::prelude::*;
use crate::descriptor::{fields_width, well_formed, DescSpec};
use crate::manager::{all_blocks, block_content, device_frames, memory_frames, stream_of};
use crate::memory::{range_blocks, region_blocks, regions_ok, MemBlock, MemRegion};
use crate::ram::{find_from, holds, layout, lemma_find_same_layout, patch, RamSpec};
use crate::receive::{
    frame_effect, index_of, lemma_device_frame_replayed, lemma_index_of, replay, replay_frames,
    Outcome, ReceivePhase, Refusal,
};
use crate::registry::{unique_ids, EntrySpec};
use crate::wire::{
    desc_fits, enc_frame, enc_header, frame_fits, lemma_parse_frame, lemma_parse_header, FrameSpec,
};

verus! {

/// The frame of a device.
spec fn device_frame(e: EntrySpec) -> FrameSpec {
    FrameSpec::Device { desc: e.desc, payload: e.state }
}

/// The frame of a block of guest memory.
spec fn memory_frame(ram: Seq<RamSpec>, b: MemBlock) -> FrameSpec {
    FrameSpec::Memory { base: b.base, data: block_content(ram, b) }
}

/// The position in `src` of the device that carries the identifier of the
/// device of `dst` at position `j`.
pub open spec fn counterpart(src: Seq<EntrySpec>, dst: Seq<EntrySpec>, j: int) -> int {
    match index_of(src, dst[j].desc.device_id) {
        Some(i) => i,
        None => -1,
    }
}

/// The devices of `dst`, each with the state of the device of `src` that
/// carries the same identifier.
pub open spec fn with_states(dst: Seq<EntrySpec>, src: Seq<EntrySpec>) -> Seq<EntrySpec> {
    Seq::new(dst.len(), |j: int| EntrySpec { state: src[counterpart(src, dst, j)].state, ..dst[j] })
}

/// The devices of `dst`, those with a counterpart among the first `k` devices
/// of `src` with the state of that counterpart.
spec fn partly(dst: Seq<EntrySpec>, src: Seq<EntrySpec>, k: int) -> Seq<EntrySpec> {
    Seq::new(
        dst.len(),
        |j: int|
            if counterpart(src, dst, j) < k {
                EntrySpec { state: src[counterpart(src, dst, j)].state, ..dst[j] }
            } else {
                dst[j]
            },
    )
}

/// Two memories have their ranges at the same places.
pub open spec fn same_layout(a: Seq<RamSpec>, b: Seq<RamSpec>) -> bool {
    &&& a.len() == b.len()
    &&& forall|i: int|
        0 <= i < a.len() ==> (#[trigger] a[i]).base == b[i].base && a[i].data.len()
            == b[i].data.len()
}

/// The ranges of a memory are not empty, end within the address space, lie
/// in ascending order and do not overlap.
pub open spec fn ram_ok(ram: Seq<RamSpec>) -> bool {
    &&& regions_ok(layout(ram))
    &&& forall|i: int| 0 <= i < ram.len() ==> (#[trigger] ram[i]).data.len() <= u64::MAX
}

/// A frame takes at least one byte.
proof fn lemma_frame_not_empty(f: FrameSpec)
    ensures
        enc_frame(f).len() >= 1,
{
}

/// The frames of devices begin with the frame of the first device.
proof fn lemma_device_frames_front(entries: Seq<EntrySpec>)
    requires
        entries.len() > 0,
    ensures
        device_frames(entries) == enc_frame(device_frame(entries[0])) + device_frames(
            entries.drop_first(),
        ),
    decreases entries.len(),
{
    let front = entries.drop_last();
    let tail = entries.drop_first();
    if entries.len() == 1 {
        assert(device_frames(front) =~= Seq::<u8>::empty());
        assert(device_frames(tail) =~= Seq::<u8>::empty());
        assert(entries.last() == entries[0]);
        assert(device_frames(entries) =~= enc_frame(device_frame(entries[0])) + device_frames(
            tail,
        ));
    } else {
        lemma_device_frames_front(front);
        assert(front.drop_first() =~= tail.drop_last());
        assert(front[0] == entries[0]);
        assert(tail.last() == entries.last());
        assert(device_frames(tail) == device_frames(tail.drop_last()) + enc_frame(
            device_frame(entries.last()),
        ));
        assert(device_frames(entries) =~= enc_frame(device_frame(entries[0])) + device_frames(
            tail,
        ));
    }
}

/// The frames of two lists of blocks, one behind the other, are the frames
/// of the joined list.
proof fn lemma_memory_frames_concat(ram: Seq<RamSpec>, a: Seq<MemBlock>, b: Seq<MemBlock>)
    ensures
        memory_frames(ram, a + b) == memory_frames(ram, a) + memory_frames(ram, b),
    decreases b.len(),
{
    if b.len() == 0 {
        assert(a + b =~= a);
        assert(memory_frames(ram, a) + memory_frames(ram, b) =~= memory_frames(ram, a));
    } else {
        lemma_memory_frames_concat(ram, a, b.drop_last());
        assert((a + b).drop_last() =~= a + b.drop_last());
        assert((a + b).last() == b.last());
        assert(memory_frames(ram, a + b) =~= memory_frames(ram, a) + memory_frames(ram, b));
    }
}

/// The frames of a list of blocks begin with the frame of its first block.
proof fn lemma_memory_frames_front(ram: Seq<RamSpec>, first: MemBlock, rest: Seq<MemBlock>)
    ensures
        memory_frames(ram, seq![first] + rest) == enc_frame(memory_frame(ram, first))
            + memory_frames(ram, rest),
{
    lemma_memory_frames_concat(ram, seq![first], rest);
    let one = seq![first];
    assert(one.drop_last() =~= Seq::<MemBlock>::empty());
    assert(memory_frames(ram, one.drop_last()) =~= Seq::<u8>::empty());
    assert(one.last() == first);
    assert(memory_frames(ram, one) =~= enc_frame(memory_frame(ram, first)));
}

/// In a valid memory an earlier range ends at or before the beginning of a
/// later one.
proof fn lemma_ranges_ascend(ram: Seq<RamSpec>, j: int, r: int)
    requires
        ram_ok(ram),
        0 <= j < r < ram.len(),
    ensures
        ram[j].base + ram[j].data.len() <= ram[r].base,
    decreases r - j,
{
    let l = layout(ram);
    assert(l[j].base == ram[j].base && l[j].len == ram[j].data.len());
    assert(l[j + 1].base == ram[j + 1].base && l[j + 1].len == ram[j + 1].data.len());
    assert(l[j].base + l[j].len <= l[j + 1].base);
    if j + 1 < r {
        lemma_ranges_ascend(ram, j + 1, r);
        assert(l[j + 1].len > 0);
    }
}

/// In a valid memory, bytes that lie within a range, at least one of them,
/// are found in that range.
proof fn lemma_found_in(ram: Seq<RamSpec>, r: int, base: u64, len: nat, from: int)
    requires
        ram_ok(ram),
        0 <= from <= r < ram.len(),
        holds(ram[r], base, len),
        len > 0,
    ensures
        find_from(ram, base, len, from) == Some(r),
    decreases r - from,
{
    if from < r {
        lemma_ranges_ascend(ram, from, r);
        assert(!holds(ram[from], base, len));
        lemma_found_in(ram, r, base, len, from + 1);
    }
}

/// Whether one of the devices has the descriptor `desc`.
pub open spec fn has_desc(entries: Seq<EntrySpec>, desc: DescSpec) -> bool {
    exists|i: int| 0 <= i < entries.len() && (#[trigger] entries[i]).desc == desc
}

/// The devices agree: on each side the identifiers are unique, each device
/// of one side has a device with the same descriptor on the other, in
/// whatever order, and each source record is as wide as its descriptor says.
pub open spec fn devices_agree(src: Seq<EntrySpec>, dst: Seq<EntrySpec>) -> bool {
    &&& unique_ids(src)
    &&& unique_ids(dst)
    &&& forall|i: int|
        0 <= i < src.len() ==> well_formed((#[trigger] src[i]).desc) && src[i].state.len()
            == fields_width(src[i].desc.fields) && has_desc(dst, src[i].desc)
    &&& forall|j: int| 0 <= j < dst.len() ==> has_desc(src, (#[trigger] dst[j]).desc)
}

/// Each device of the destination has its counterpart in the source, with
/// the same descriptor.
proof fn lemma_counterpart(src: Seq<EntrySpec>, dst: Seq<EntrySpec>, j: int)
    requires
        devices_agree(src, dst),
        0 <= j < dst.len(),
    ensures
        0 <= counterpart(src, dst, j) < src.len(),
        src[counterpart(src, dst, j)].desc == dst[j].desc,
{
    assert(has_desc(src, dst[j].desc));
    let i = choose|i: int| 0 <= i < src.len() && (#[trigger] src[i]).desc == dst[j].desc;
    lemma_index_of(src, dst[j].desc.device_id, i);
}

/// The source device at `k` has one counterpart in the destination: the
/// result is its position.
proof fn lemma_target(src: Seq<EntrySpec>, dst: Seq<EntrySpec>, k: int) -> (j: int)
    requires
        devices_agree(src, dst),
        0 <= k < src.len(),
    ensures
        0 <= j < dst.len(),
        dst[j].desc == src[k].desc,
        counterpart(src, dst, j) == k,
        forall|m: int| 0 <= m < dst.len() && m != j ==> counterpart(src, dst, m) != k,
{
    assert(has_desc(dst, src[k].desc));
    let j = choose|j: int| 0 <= j < dst.len() && (#[trigger] dst[j]).desc == src[k].desc;
    lemma_index_of(src, dst[j].desc.device_id, k);
    assert forall|m: int| 0 <= m < dst.len() && m != j implies counterpart(src, dst, m) != k by {
        lemma_counterpart(src, dst, m);
        if counterpart(src, dst, m) == k {
            assert(dst[m].desc == dst[j].desc);
            if m < j {
                assert(dst[m].desc.device_id != dst[j].desc.device_id);
            } else {
                assert(dst[j].desc.device_id != dst[m].desc.device_id);
            }
        }
    }
    j
}

/// Restoring devices leaves their identifiers unique.
proof fn lemma_partly_unique(src: Seq<EntrySpec>, dst: Seq<EntrySpec>, k: int)
    requires
        unique_ids(dst),
    ensures
        unique_ids(partly(dst, src, k)),
        partly(dst, src, k).len() == dst.len(),
        forall|m: int|
            0 <= m < dst.len() ==> (#[trigger] partly(dst, src, k)[m]).desc == dst[m].desc,
{
    let cur = partly(dst, src, k);
    assert forall|a: int, b: int| 0 <= a < b < cur.len() implies (
    #[trigger] cur[a]).desc.device_id != (#[trigger] cur[b]).desc.device_id by {
        assert(cur[a].desc == dst[a].desc);
        assert(cur[b].desc == dst[b].desc);
    }
}

/// A frame that is taken and does not end the stream is read from the front
/// of the stream, and the replay goes on behind it.
proof fn lemma_replay_step(
    devices: Seq<EntrySpec>,
    ram: Seq<RamSpec>,
    phase: ReceivePhase,
    f: FrameSpec,
    rest: Seq<u8>,
    devices2: Seq<EntrySpec>,
    ram2: Seq<RamSpec>,
    phase2: ReceivePhase,
)
    requires
        frame_fits(f),
        frame_effect(devices, ram, phase, f) == Ok::<
            (Seq<EntrySpec>, Seq<RamSpec>, ReceivePhase),
            Refusal,
        >((devices2, ram2, phase2)),
        phase2 != ReceivePhase::Done,
    ensures
        replay_frames(devices, ram, phase, enc_frame(f) + rest) == replay_frames(
            devices2,
            ram2,
            phase2,
            rest,
        ),
{
    lemma_parse_frame(f, rest);
    lemma_frame_not_empty(f);
    assert((enc_frame(f) + rest).len() == enc_frame(f).len() + rest.len());
}

/// The end marker, with nothing behind it, ends a replay well.
proof fn lemma_replay_end(devices: Seq<EntrySpec>, ram: Seq<RamSpec>, phase: ReceivePhase)
    requires
        phase != ReceivePhase::Done,
    ensures
        replay_frames(devices, ram, phase, enc_frame(FrameSpec::End)) == (Outcome {
            devices,
            ram,
            result: Ok(()),
        }),
{
    let s = enc_frame(FrameSpec::End);
    lemma_parse_frame(FrameSpec::End, Seq::<u8>::empty());
    assert(s + Seq::<u8>::empty() =~= s);
}

/// With the counterparts of the first `k` source devices restored, the frame
/// of the source device at `k` restores its counterpart: the result is the
/// position of that counterpart.
proof fn lemma_partly_step(src: Seq<EntrySpec>, dst: Seq<EntrySpec>, k: int) -> (j: int)
    requires
        devices_agree(src, dst),
        0 <= k < src.len(),
    ensures
        0 <= j < dst.len(),
        unique_ids(partly(dst, src, k)),
        partly(dst, src, k).len() == dst.len(),
        partly(dst, src, k)[j].desc == src[k].desc,
        partly(dst, src, k).update(
            j,
            EntrySpec { state: src[k].state, ..partly(dst, src, k)[j] },
        ) == partly(dst, src, k + 1),
        desc_fits(src[k].desc),
        src[k].state.len() == fields_width(src[k].desc.fields),
        src[k].state.len() <= u32::MAX,
{
    let cur = partly(dst, src, k);
    let next = partly(dst, src, k + 1);
    let j = lemma_target(src, dst, k);
    lemma_partly_unique(src, dst, k);
    let after = cur.update(j, EntrySpec { state: src[k].state, ..cur[j] });
    assert(after.len() == next.len());
    assert forall|m: int| 0 <= m < dst.len() implies after[m] == next[m] by {
        if m != j {
            assert(counterpart(src, dst, m) != k);
        }
    }
    assert(after =~= next);
    assert(well_formed(src[k].desc));
    j
}

/// Before the first frame the devices are as they were; with every device
/// restored, they hold the states of their counterparts, and no device frame
/// is left.
proof fn lemma_partly_ends(src: Seq<EntrySpec>, dst: Seq<EntrySpec>, tail: Seq<u8>)
    requires
        devices_agree(src, dst),
    ensures
        partly(dst, src, 0) == dst,
        partly(dst, src, src.len() as int) == with_states(dst, src),
        device_frames(src.skip(src.len() as int)) + tail == tail,
{
    let entries = src.skip(src.len() as int);
    assert(entries =~= Seq::<EntrySpec>::empty());
    assert(device_frames(entries) =~= Seq::<u8>::empty());
    assert(device_frames(entries) + tail =~= tail);
    assert forall|j: int| 0 <= j < dst.len() implies partly(dst, src, 0)[j] == dst[j] && partly(
        dst,
        src,
        src.len() as int,
    )[j] == with_states(dst, src)[j] by {
        lemma_counterpart(src, dst, j);
    }
    assert(partly(dst, src, 0) =~= dst);
    assert(partly(dst, src, src.len() as int) =~= with_states(dst, src));
}

/// The frames of the devices from position `k` on begin with the frame of
/// the device at `k`.
proof fn lemma_device_frames_skip(src: Seq<EntrySpec>, k: int, tail: Seq<u8>)
    requires
        0 <= k < src.len(),
    ensures
        device_frames(src.skip(k)) + tail == enc_frame(device_frame(src[k])) + (device_frames(
            src.skip(k + 1),
        ) + tail),
{
    let entries = src.skip(k);
    lemma_device_frames_front(entries);
    assert(entries.drop_first() =~= src.skip(k + 1));
    assert(entries[0] == src[k]);
    assert(device_frames(entries) + tail =~= enc_frame(device_frame(src[k])) + (device_frames(
        src.skip(k + 1),
    ) + tail));
}

/// Replaying the frames of the devices from position `k` on, with the
/// devices before `k` restored already, restores all devices.
proof fn lemma_devices_replayed(
    src: Seq<EntrySpec>,
    dst: Seq<EntrySpec>,
    ram: Seq<RamSpec>,
    k: int,
    tail: Seq<u8>,
)
    requires
        devices_agree(src, dst),
        0 <= k <= src.len(),
    ensures
        replay_frames(
            partly(dst, src, k),
            ram,
            ReceivePhase::Devices,
            device_frames(src.skip(k)) + tail,
        ) == replay_frames(with_states(dst, src), ram, ReceivePhase::Devices, tail),
    decreases src.len() - k,
{
    if k == src.len() {
        lemma_partly_ends(src, dst, tail);
    } else {
        let cur = partly(dst, src, k);
        let next = partly(dst, src, k + 1);
        let f = device_frame(src[k]);
        let rest = device_frames(src.skip(k + 1)) + tail;
        lemma_device_frames_skip(src, k, tail);
        let j = lemma_partly_step(src, dst, k);
        lemma_device_frame_replayed(cur, ram, j, src[k].state, rest);
        lemma_replay_step(
            cur,
            ram,
            ReceivePhase::Devices,
            f,
            rest,
            next,
            ram,
            ReceivePhase::Devices,
        );
        lemma_devices_replayed(src, dst, ram, k + 1, tail);
    }
}

/// Guest memory of the destination while the stream is replayed: the ranges
/// before `r` hold the content of the source, range `r` holds it in its first
/// `done` bytes, and everything else is as it was.
spec fn mix(src: Seq<RamSpec>, dst: Seq<RamSpec>, r: int, done: int) -> Seq<RamSpec> {
    Seq::new(
        dst.len(),
        |i: int|
            if i < r {
                src[i]
            } else if i == r {
                RamSpec { base: dst[i].base, data: src[i].data.take(done) + dst[i].data.skip(done) }
            } else {
                dst[i]
            },
    )
}

/// The blocks that are still to come when the first `done` bytes of range `r`
/// have been passed.
spec fn rest_blocks(ram: Seq<RamSpec>, r: int, done: int, off: nat, max: nat) -> Seq<
    MemBlock,
> {
    if 0 <= r < ram.len() {
        range_blocks(
            (ram[r].base + done) as nat,
            (ram[r].data.len() - done) as nat,
            off,
            max,
        ) + region_blocks(
            layout(ram).skip(r + 1),
            (off + ram[r].data.len() - done) as nat,
            max,
        )
    } else {
        Seq::<MemBlock>::empty()
    }
}

/// The length of the block that begins behind the first `done` bytes of
/// range `r`.
spec fn step_len(ram: Seq<RamSpec>, r: int, done: int, max: nat) -> nat {
    let left = (ram[r].data.len() - done) as nat;
    if left < max {
        left
    } else {
        max
    }
}

/// The range in which the block behind that one begins.
spec fn step_range(ram: Seq<RamSpec>, r: int, done: int, max: nat) -> int {
    if done + step_len(ram, r, done, max) < ram[r].data.len() {
        r
    } else {
        r + 1
    }
}

/// The number of bytes of that range that have been passed by then.
spec fn step_done(ram: Seq<RamSpec>, r: int, done: int, max: nat) -> int {
    if done + step_len(ram, r, done, max) < ram[r].data.len() {
        done + step_len(ram, r, done, max)
    } else {
        0
    }
}

/// The block that begins behind the first `done` bytes of range `r`.
spec fn step_block(ram: Seq<RamSpec>, r: int, done: int, off: nat, max: nat) -> MemBlock {
    MemBlock {
        base: (ram[r].base + done) as u64,
        len: step_len(ram, r, done, max) as u64,
        offset: off as u64,
    }
}

/// The blocks that are still to come are the next block and those that are
/// to come behind it.
proof fn lemma_rest_blocks_front(ram: Seq<RamSpec>, r: int, done: int, off: nat, max: nat)
    requires
        ram_ok(ram),
        max > 0,
        0 <= r < ram.len(),
        0 <= done < ram[r].data.len(),
    ensures
        rest_blocks(ram, r, done, off, max) == seq![step_block(ram, r, done, off, max)]
            + rest_blocks(
            ram,
            step_range(ram, r, done, max),
            step_done(ram, r, done, max),
            off + step_len(ram, r, done, max),
            max,
        ),
        step_len(ram, r, done, max) > 0,
        done + step_len(ram, r, done, max) <= ram[r].data.len(),
        step_block(ram, r, done, off, max).base == ram[r].base + done,
        step_block(ram, r, done, off, max).len == step_len(ram, r, done, max),
        0 <= step_range(ram, r, done, max) <= ram.len(),
        step_range(ram, r, done, max) < ram.len() ==> 0 <= step_done(ram, r, done, max)
            < ram[step_range(ram, r, done, max)].data.len(),
        step_range(ram, r, done, max) == ram.len() ==> step_done(ram, r, done, max) == 0,
{
    let l = layout(ram);
    let len = ram[r].data.len();
    let n1 = step_len(ram, r, done, max);
    let left = (len - done) as nat;
    let b = step_block(ram, r, done, off, max);
    assert(l[r].base == ram[r].base && l[r].len == len);
    assert(l[r].base + l[r].len <= u64::MAX);
    let head = range_blocks((ram[r].base + done) as nat, left, off, max);
    let head_tail = range_blocks(
        (ram[r].base + done + n1) as nat,
        (left - n1) as nat,
        off + n1,
        max,
    );
    assert(head == seq![b] + head_tail);
    let behind = region_blocks(l.skip(r + 1), (off + len - done) as nat, max);
    let r2 = step_range(ram, r, done, max);
    let d2 = step_done(ram, r, done, max);
    if done + n1 < len {
        assert(rest_blocks(ram, r2, d2, off + n1, max) == head_tail + behind);
    } else {
        assert(head_tail =~= Seq::<MemBlock>::empty());
        if r + 1 < ram.len() {
            let regions = l.skip(r + 1);
            assert(regions[0] == l[r + 1]);
            assert(l[r + 1].base == ram[r + 1].base && l[r + 1].len == ram[r + 1].data.len());
            assert(l[r + 1].len > 0);
            assert(regions.drop_first() =~= l.skip(r + 2));
            assert(behind == rest_blocks(ram, r + 1, 0, off + n1, max));
        } else {
            assert(l.skip(r + 1) =~= Seq::<MemRegion>::empty());
            assert(behind =~= Seq::<MemBlock>::empty());
        }
        assert(head_tail + behind =~= behind);
    }
    assert(rest_blocks(ram, r, done, off, max) =~= seq![b] + rest_blocks(
        ram,
        r2,
        d2,
        off + n1,
        max,
    ));
}

/// The next block holds the bytes of the source behind the first `done`
/// bytes of range `r`, and is found in that range on either side.
proof fn lemma_block_found(
    src: Seq<RamSpec>,
    dst: Seq<RamSpec>,
    r: int,
    done: int,
    off: nat,
    max: nat,
)
    requires
        ram_ok(src),
        same_layout(src, dst),
        max > 0,
        0 <= r < src.len(),
        0 <= done < src[r].data.len(),
    ensures
        block_content(src, step_block(src, r, done, off, max)) == src[r].data.subrange(
            done,
            done + step_len(src, r, done, max),
        ),
        find_from(
            mix(src, dst, r, done),
            step_block(src, r, done, off, max).base,
            step_len(src, r, done, max),
            0,
        ) == Some(r),
        step_block(src, r, done, off, max).base - mix(src, dst, r, done)[r].base == done,
        mix(src, dst, r, done)[r].data == src[r].data.take(done) + dst[r].data.skip(done),
        mix(src, dst, r, done).len() == src.len(),
{
    let b = step_block(src, r, done, off, max);
    let n1 = step_len(src, r, done, max);
    let cur = mix(src, dst, r, done);
    lemma_rest_blocks_front(src, r, done, off, max);
    assert(holds(src[r], b.base, n1));
    lemma_found_in(src, r, b.base, n1, 0);
    assert(dst[r].base == src[r].base && dst[r].data.len() == src[r].data.len());
    assert forall|i: int| 0 <= i < cur.len() implies (#[trigger] cur[i]).base == src[i].base
        && cur[i].data.len() == src[i].data.len() by {
        assert(dst[i].base == src[i].base && dst[i].data.len() == src[i].data.len());
    }
    lemma_find_same_layout(cur, src, b.base, n1, 0);
}

/// Laying the next block over the memory of the destination moves the
/// border between what is replayed and what is not behind that block.
proof fn lemma_mix_patched(src: Seq<RamSpec>, dst: Seq<RamSpec>, r: int, done: int, max: nat)
    requires
        ram_ok(src),
        same_layout(src, dst),
        max > 0,
        0 <= r < src.len(),
        0 <= done < src[r].data.len(),
    ensures
        mix(src, dst, r, done).update(
            r,
            RamSpec {
                base: mix(src, dst, r, done)[r].base,
                data: patch(
                    mix(src, dst, r, done)[r].data,
                    done,
                    src[r].data.subrange(done, done + step_len(src, r, done, max)),
                ),
            },
        ) == mix(src, dst, step_range(src, r, done, max), step_done(src, r, done, max)),
{
    let n1 = step_len(src, r, done, max);
    let len = src[r].data.len();
    let cur = mix(src, dst, r, done);
    let data = src[r].data.subrange(done, done + n1);
    let patched = patch(cur[r].data, done, data);
    let after = cur.update(r, RamSpec { base: cur[r].base, data: patched });
    let r2 = step_range(src, r, done, max);
    let d2 = step_done(src, r, done, max);
    let next = mix(src, dst, r2, d2);
    assert(dst[r].base == src[r].base && dst[r].data.len() == len);
    assert(cur[r].data == src[r].data.take(done) + dst[r].data.skip(done));
    assert(patched =~= src[r].data.take(done + n1) + dst[r].data.skip(done + n1));
    assert(after.len() == next.len());
    assert forall|i: int| 0 <= i < after.len() implies after[i] == next[i] by {
        if i == r {
            if done + n1 < len {
                assert(next[r].data == patched);
            } else {
                assert(patched =~= src[r].data);
                assert(next[r] == src[r]);
            }
        } else if i == r + 1 && r2 == r + 1 {
            assert(dst[i].base == src[i].base);
            assert(src[i].data.take(0) + dst[i].data.skip(0) =~= dst[i].data);
        } else {
        }
    }
    assert(after =~= next);
}

/// What the frame of the next block does: guest memory of the destination
/// then holds the content of the source up to the end of that block.
proof fn lemma_block_effect(
    devices: Seq<EntrySpec>,
    src: Seq<RamSpec>,
    dst: Seq<RamSpec>,
    r: int,
    done: int,
    off: nat,
    max: nat,
    phase: ReceivePhase,
)
    requires
        ram_ok(src),
        same_layout(src, dst),
        max > 0,
        phase != ReceivePhase::Done,
        0 <= r < src.len(),
        0 <= done < src[r].data.len(),
    ensures
        frame_fits(memory_frame(src, step_block(src, r, done, off, max))),
        frame_effect(
            devices,
            mix(src, dst, r, done),
            phase,
            memory_frame(src, step_block(src, r, done, off, max)),
        ) == Ok::<(Seq<EntrySpec>, Seq<RamSpec>, ReceivePhase), Refusal>(
            (
                devices,
                mix(src, dst, step_range(src, r, done, max), step_done(src, r, done, max)),
                ReceivePhase::Memory,
            ),
        ),
{
    lemma_block_found(src, dst, r, done, off, max);
    lemma_mix_patched(src, dst, r, done, max);
    lemma_rest_blocks_front(src, r, done, off, max);
}

/// Before the first block the memory of the destination is as it was, and
/// behind the last one it holds what the source holds.
proof fn lemma_mix_ends(src: Seq<RamSpec>, dst: Seq<RamSpec>)
    requires
        same_layout(src, dst),
    ensures
        mix(src, dst, 0, 0) == dst,
        mix(src, dst, src.len() as int, 0) == src,
{
    let start = mix(src, dst, 0, 0);
    assert forall|i: int| 0 <= i < dst.len() implies start[i] == dst[i] by {
        if i == 0 {
            assert(src[0].data.take(0) + dst[0].data.skip(0) =~= dst[0].data);
        }
    }
    assert(start =~= dst);
    assert(mix(src, dst, src.len() as int, 0) =~= src);
}

/// The blocks of a whole memory are the blocks that are to come before any
/// byte was passed.
proof fn lemma_all_blocks(ram: Seq<RamSpec>, max_block: u64)
    requires
        ram_ok(ram),
    ensures
        all_blocks(ram, max_block) == rest_blocks(ram, 0, 0, 0, max_block as nat),
{
    reveal(all_blocks);
    let l = layout(ram);
    if ram.len() > 0 {
        assert(l[0].base == ram[0].base && l[0].len == ram[0].data.len());
        assert(l.skip(1) =~= l.drop_first());
    }
}

/// Replaying the frames of the blocks that are still to come, and the end
/// marker behind them, leaves the destination with the memory content of the
/// source.
proof fn lemma_memory_replayed(
    devices: Seq<EntrySpec>,
    src: Seq<RamSpec>,
    dst: Seq<RamSpec>,
    r: int,
    done: int,
    off: nat,
    max: nat,
    phase: ReceivePhase,
)
    requires
        ram_ok(src),
        same_layout(src, dst),
        max > 0,
        phase != ReceivePhase::Done,
        0 <= r <= src.len(),
        r < src.len() ==> 0 <= done < src[r].data.len(),
        r == src.len() ==> done == 0,
    ensures
        replay_frames(
            devices,
            mix(src, dst, r, done),
            phase,
            memory_frames(src, rest_blocks(src, r, done, off, max)) + enc_frame(FrameSpec::End),
        ) == (Outcome { devices, ram: src, result: Ok(()) }),
    decreases
            src.len() - r,
            (if r < src.len() {
                src[r].data.len() - done
            } else {
                0
            }),
{
    let end = enc_frame(FrameSpec::End);
    if r == src.len() {
        lemma_mix_ends(src, dst);
        assert(memory_frames(src, rest_blocks(src, r, done, off, max)) + end =~= end);
        lemma_replay_end(devices, src, phase);
    } else {
        let b = step_block(src, r, done, off, max);
        let n1 = step_len(src, r, done, max);
        let r2 = step_range(src, r, done, max);
        let d2 = step_done(src, r, done, max);
        let behind = rest_blocks(src, r2, d2, off + n1, max);
        let rest = memory_frames(src, behind) + end;
        lemma_rest_blocks_front(src, r, done, off, max);
        lemma_memory_frames_front(src, b, behind);
        assert(memory_frames(src, rest_blocks(src, r, done, off, max)) + end =~= enc_frame(
            memory_frame(src, b),
        ) + rest);
        lemma_block_effect(devices, src, dst, r, done, off, max, phase);
        lemma_replay_step(
            devices,
            mix(src, dst, r, done),
            phase,
            memory_frame(src, b),
            rest,
            devices,
            mix(src, dst, r2, d2),
            ReceivePhase::Memory,
        );
        lemma_memory_replayed(devices, src, dst, r2, d2, off + n1, max, ReceivePhase::Memory);
    }
}

/// The stream of a source machine, replayed on a destination that has the
/// same devices, in whatever order, and guest memory of the same layout, is
/// taken to its end, and leaves the destination with each device in the
/// state of the source device of the same identifier and with the memory
/// content of the source.
pub proof fn lemma_stream_replays(
    src: Seq<EntrySpec>,
    dst: Seq<EntrySpec>,
    src_ram: Seq<RamSpec>,
    dst_ram: Seq<RamSpec>,
    max_block: u64,
)
    requires
        devices_agree(src, dst),
        ram_ok(src_ram),
        same_layout(src_ram, dst_ram),
        max_block > 0,
    ensures
        replay(dst, dst_ram, stream_of(src, src_ram, max_block)) == (Outcome {
            devices: with_states(dst, src),
            ram: src_ram,
            result: Ok(()),
        }),
{
    let end = enc_frame(FrameSpec::End);
    let tail = memory_frames(src_ram, all_blocks(src_ram, max_block)) + end;
    let body = device_frames(src) + tail;
    assert(stream_of(src, src_ram, max_block) =~= enc_header() + body);
    lemma_parse_header(body);
    lemma_partly_ends(src, dst, tail);
    assert(src.skip(0) =~= src);
    lemma_devices_replayed(src, dst, dst_ram, 0, tail);
    lemma_all_blocks(src_ram, max_block);
    lemma_mix_ends(src_ram, dst_ram);
    if src_ram.len() > 0 {
        let l = layout(src_ram);
        assert(l[0].len > 0);
        assert(l[0].len == src_ram[0].data.len());
    }
    lemma_memory_replayed(
        with_states(dst, src),
        src_ram,
        dst_ram,
        0,
        0,
        0,
        max_block as nat,
        ReceivePhase::Devices,
    );
}

/// Where the devices stand in the same order on both sides, each device of
/// the destination ends in the state of the source device at its position.
pub proof fn lemma_same_order(src: Seq<EntrySpec>, dst: Seq<EntrySpec>, j: int)
    requires
        unique_ids(src),
        dst.len() == src.len(),
        forall|i: int| 0 <= i < src.len() ==> (#[trigger] dst[i]).desc == src[i].desc,
        0 <= j < dst.len(),
    ensures
        with_states(dst, src)[j] == (EntrySpec { state: src[j].state, ..dst[j] }),
{
    assert(dst[j].desc == src[j].desc);
    lemma_index_of(src, dst[j].desc.device_id, j);
}

} // verus!
