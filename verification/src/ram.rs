//! An image of guest memory: what a snapshot is taken from and replayed into.

use vstd::prelude::*;
use vstd::slice::{slice_subrange, slice_to_vec};
use crate::error::MigrationError;
use crate::memory::{
    lemma_block_within, lemma_regions_skip, region_blocks, regions_ok, MemRegion,
};

verus! {

/// A range of guest memory with its content.
pub struct RamRegion {
    base: u64,
    data: Vec<u8>,
}

/// A range of guest memory as contracts see it.
pub struct RamSpec {
    /// The first guest physical address.
    pub base: u64,
    /// The content, byte by byte.
    pub data: Seq<u8>,
}

/// The memory of a guest: ranges in ascending order that do not overlap.
pub struct GuestMemory {
    regions: Vec<RamRegion>,
}

/// Where the ranges lie, without their content.
pub open spec fn layout(ram: Seq<RamSpec>) -> Seq<MemRegion> {
    Seq::new(ram.len(), |i: int| MemRegion { base: ram[i].base, len: ram[i].data.len() as u64 })
}

/// Whether `len` bytes from `base` on lie within the range `r`.
pub open spec fn holds(r: RamSpec, base: u64, len: nat) -> bool {
    r.base <= base && base + len <= r.base + r.data.len()
}

/// The first range from position `i` on within which `len` bytes from `base`
/// on lie.
pub open spec fn find_from(ram: Seq<RamSpec>, base: u64, len: nat, i: int) -> Option<int>
    decreases ram.len() - i,
{
    if i < 0 || i >= ram.len() {
        None
    } else if holds(ram[i], base, len) {
        Some(i)
    } else {
        find_from(ram, base, len, i + 1)
    }
}

/// Whether a range with content `data` from `base` on can follow the ranges
/// of `ram`: it is not empty, ends within the address space, and begins at
/// or behind the end of the last range.
pub open spec fn addable(ram: Seq<RamSpec>, base: u64, data: Seq<u8>) -> bool {
    &&& data.len() > 0
    &&& base + data.len() <= u64::MAX
    &&& ram.len() > 0 ==> ram.last().base + ram.last().data.len() <= base
}

/// The content `old` with `data` laid over it from position `at` on.
pub open spec fn patch(old: Seq<u8>, at: int, data: Seq<u8>) -> Seq<u8> {
    old.take(at) + data + old.skip(at + data.len())
}

/// The `len` bytes from `base` on, where they lie within one range.
pub open spec fn mem_read(ram: Seq<RamSpec>, base: u64, len: nat) -> Option<Seq<u8>> {
    match find_from(ram, base, len, 0) {
        Some(i) => Some(ram[i].data.subrange(base - ram[i].base, base - ram[i].base + len)),
        None => None,
    }
}

/// The memory after `data` was written from `base` on, where those bytes lie
/// within one range.
pub open spec fn mem_write(ram: Seq<RamSpec>, base: u64, data: Seq<u8>) -> Option<Seq<RamSpec>> {
    match find_from(ram, base, data.len(), 0) {
        Some(i) => Some(
            ram.update(
                i,
                RamSpec { base: ram[i].base, data: patch(ram[i].data, base - ram[i].base, data) },
            ),
        ),
        None => None,
    }
}

/// What `find_from` finds is a range that holds the bytes.
pub proof fn lemma_find_from(ram: Seq<RamSpec>, base: u64, len: nat, i: int)
    requires
        0 <= i,
    ensures
        match find_from(ram, base, len, i) {
            Some(k) => i <= k < ram.len() && holds(ram[k], base, len),
            None => forall|k: int| i <= k < ram.len() ==> !holds(#[trigger] ram[k], base, len),
        },
    decreases ram.len() - i,
{
    if i < ram.len() && !holds(ram[i], base, len) {
        lemma_find_from(ram, base, len, i + 1);
    }
}

/// Where the bytes are found depends on the layout alone.
pub proof fn lemma_find_same_layout(a: Seq<RamSpec>, b: Seq<RamSpec>, base: u64, len: nat, i: int)
    requires
        0 <= i,
        a.len() == b.len(),
        forall|k: int|
            0 <= k < a.len() ==> (#[trigger] a[k]).base == b[k].base && a[k].data.len()
                == b[k].data.len(),
    ensures
        find_from(a, base, len, i) == find_from(b, base, len, i),
    decreases a.len() - i,
{
    if i < a.len() {
        assert(a[i].base == b[i].base && a[i].data.len() == b[i].data.len());
        if !holds(a[i], base, len) {
            lemma_find_same_layout(a, b, base, len, i + 1);
        }
    }
}

/// What was written is what is read: after `data` was written from `base`
/// on, the bytes from `base` on are `data`, and the layout is as before.
pub proof fn lemma_read_after_write(ram: Seq<RamSpec>, base: u64, data: Seq<u8>)
    requires
        mem_write(ram, base, data).is_some(),
    ensures
        layout(mem_write(ram, base, data)->Some_0) == layout(ram),
        mem_read(mem_write(ram, base, data)->Some_0, base, data.len()) == Some(data),
{
    let after = mem_write(ram, base, data)->Some_0;
    let i = find_from(ram, base, data.len(), 0)->Some_0;
    lemma_find_from(ram, base, data.len(), 0);
    let at = base - ram[i].base;
    assert(after[i].data.len() == ram[i].data.len());
    assert(layout(after) =~= layout(ram)) by {
        assert forall|k: int| 0 <= k < ram.len() implies layout(after)[k] == layout(ram)[k] by {
            if k != i {
                assert(after[k] == ram[k]);
            }
        }
    }
    assert forall|k: int| 0 <= k < after.len() implies (#[trigger] after[k]).base == ram[k].base
        && after[k].data.len() == ram[k].data.len() by {
        if k != i {
            assert(after[k] == ram[k]);
        }
    }
    lemma_find_same_layout(after, ram, base, data.len(), 0);
    assert(after[i].data.subrange(at, at + data.len()) =~= data);
}

/// Every block into which valid guest memory is cut can be read from it.
pub proof fn lemma_block_readable(ram: Seq<RamSpec>, max: nat, k: int)
    requires
        regions_ok(layout(ram)),
        forall|i: int| 0 <= i < ram.len() ==> (#[trigger] ram[i]).data.len() <= u64::MAX,
        max > 0,
        0 <= k < region_blocks(layout(ram), 0, max).len(),
    ensures
        mem_read(
            ram,
            region_blocks(layout(ram), 0, max)[k].base,
            region_blocks(layout(ram), 0, max)[k].len as nat,
        ).is_some(),
{
    let regions = layout(ram);
    let b = region_blocks(regions, 0, max)[k];
    lemma_regions_skip(regions, regions.len() as int);
    assert(regions.take(regions.len() as int) =~= regions);
    let i = lemma_block_within(regions, 0, max, k);
    assert(regions[i].base == ram[i].base);
    assert(regions[i].len == ram[i].data.len());
    assert(holds(ram[i], b.base, b.len as nat));
    lemma_find_from(ram, b.base, b.len as nat, 0);
}

impl GuestMemory {
    /// The ranges with their content, in ascending order.
    pub closed spec fn view(&self) -> Seq<RamSpec> {
        Seq::new(
            self.regions@.len(),
            |i: int| RamSpec { base: self.regions@[i].base, data: self.regions@[i].data@ },
        )
    }

    /// The ranges are not empty, lie in ascending order and do not overlap.
    pub closed spec fn wf(&self) -> bool {
        &&& forall|i: int| 0 <= i < self@.len() ==> (#[trigger] self@[i]).data.len() <= u64::MAX
        &&& regions_ok(layout(self@))
    }

    /// What a valid memory shows of its ranges.
    pub proof fn lemma_wf(&self)
        requires
            self.wf(),
        ensures
            regions_ok(layout(self@)),
            forall|i: int| 0 <= i < self@.len() ==> (#[trigger] self@[i]).data.len() <= u64::MAX,
    {
    }

    /// A guest without memory.
    pub fn new() -> (m: GuestMemory)
        ensures
            m.wf(),
            m@ == Seq::<RamSpec>::empty(),
    {
        let m = GuestMemory { regions: Vec::new() };
        assert(m@ =~= Seq::<RamSpec>::empty());
        m
    }

    /// Adds a range behind those that are there. A range that is empty,
    /// begins before the end of the last one, or reaches beyond the address
    /// space is refused as an invalid configuration, and nothing changes.
    pub fn add_region(&mut self, base: u64, data: Vec<u8>) -> (r: Result<(), MigrationError>)
        requires
            old(self).wf(),
        ensures
            final(self).wf(),
            addable(old(self)@, base, data@) ==> r.is_ok() && final(self)@ == old(self)@.push(
                RamSpec { base, data: data@ },
            ),
            !addable(old(self)@, base, data@) ==> r == Err::<(), MigrationError>(
                MigrationError::InvalidConfig,
            ) && final(self)@ == old(self)@,
    {
        let len = data.len();
        if len == 0 || len as u64 > u64::MAX - base {
            return Err(MigrationError::InvalidConfig);
        }
        let n = self.regions.len();
        if n > 0 {
            let last = &self.regions[n - 1];
            assert(self@[n - 1].base == last.base && self@[n - 1].data == last.data@);
            assert(layout(self@)[n - 1].len > 0);
            if last.base + last.data.len() as u64 > base {
                return Err(MigrationError::InvalidConfig);
            }
        }
        let ghost before = self@;
        self.regions.push(RamRegion { base, data });
        proof {
            let after = self@;
            assert(after =~= before.push(RamSpec { base, data: data@ }));
            assert forall|i: int| 0 <= i < after.len() implies (#[trigger] after[i]).data.len()
                <= u64::MAX by {
                if i < before.len() {
                    assert(after[i] == before[i]);
                }
            }
            let l = layout(after);
            let l0 = layout(before);
            assert forall|i: int| 0 <= i < l.len() implies (#[trigger] l[i]).len > 0 && l[i].base
                + l[i].len <= u64::MAX by {
                if i < before.len() {
                    assert(after[i] == before[i]);
                    assert(l[i] == l0[i]);
                }
            }
            assert forall|i: int| 0 <= i < l.len() - 1 implies (#[trigger] l[i]).base + l[i].len
                <= l[i + 1].base by {
                assert(after[i] == before[i]);
                assert(l[i] == l0[i]);
                if i + 1 < before.len() {
                    assert(after[i + 1] == before[i + 1]);
                    assert(l[i + 1] == l0[i + 1]);
                }
            }
        }
        Ok(())
    }

    /// Where the ranges lie, in ascending order.
    pub fn regions(&self) -> (r: Vec<MemRegion>)
        requires
            self.wf(),
        ensures
            r@ == layout(self@),
            regions_ok(r@),
    {
        let mut out: Vec<MemRegion> = Vec::new();
        let mut i: usize = 0;
        while i < self.regions.len()
            invariant
                self.wf(),
                i <= self.regions@.len(),
                out@.len() == i,
                forall|j: int| 0 <= j < i ==> out@[j] == layout(self@)[j],
            decreases self.regions@.len() - i,
        {
            let region = &self.regions[i];
            assert(self@[i as int].data == region.data@);
            out.push(MemRegion { base: region.base, len: region.data.len() as u64 });
            i = i + 1;
        }
        assert(out@ =~= layout(self@));
        out
    }

    /// The position of the first range within which `len` bytes from `base`
    /// on lie.
    fn locate(&self, base: u64, len: u64) -> (at: Option<usize>)
        requires
            self.wf(),
        ensures
            at.is_some() == find_from(self@, base, len as nat, 0).is_some(),
            at.is_some() ==> at->Some_0 == find_from(self@, base, len as nat, 0)->Some_0
                && at->Some_0 < self@.len() && holds(self@[at->Some_0 as int], base, len as nat),
    {
        let mut i: usize = 0;
        while i < self.regions.len()
            invariant
                self.wf(),
                i <= self.regions@.len(),
                find_from(self@, base, len as nat, 0) == find_from(
                    self@,
                    base,
                    len as nat,
                    i as int,
                ),
            decreases self.regions@.len() - i,
        {
            let region = &self.regions[i];
            assert(self@[i as int].base == region.base && self@[i as int].data == region.data@);
            if region.base <= base && base - region.base <= region.data.len() as u64 && len
                <= region.data.len() as u64 - (base - region.base) {
                return Some(i);
            }
            i = i + 1;
        }
        None
    }

    /// Reads `len` bytes from `base` on. `None` where they do not lie within
    /// one range.
    pub fn read(&self, base: u64, len: u64) -> (bytes: Option<Vec<u8>>)
        requires
            self.wf(),
        ensures
            bytes.is_some() == mem_read(self@, base, len as nat).is_some(),
            bytes.is_some() ==> bytes->Some_0@ == mem_read(self@, base, len as nat)->Some_0,
    {
        match self.locate(base, len) {
            None => None,
            Some(i) => {
                let region = &self.regions[i];
                assert(region.data@.len() == region.data.len());
                assert(self@[i as int].base == region.base && self@[i as int].data == region.data@);
                let at: usize = (base - region.base) as usize;
                Some(slice_to_vec(slice_subrange(region.data.as_slice(), at, at + len as usize)))
            },
        }
    }

    /// Writes `data` from `base` on. Bytes that do not lie within one range
    /// are refused as corrupt, and nothing changes.
    pub fn write(&mut self, base: u64, data: &[u8]) -> (r: Result<(), MigrationError>)
        requires
            old(self).wf(),
        ensures
            final(self).wf(),
            match mem_write(old(self)@, base, data@) {
                Some(after) => r.is_ok() && final(self)@ == after,
                None => r == Err::<(), MigrationError>(MigrationError::Corrupt) && final(self)@
                    == old(self)@,
            },
    {
        let i = match self.locate(base, data.len() as u64) {
            None => {
                return Err(MigrationError::Corrupt);
            },
            Some(i) => i,
        };
        let ghost before = self@;
        let ghost old_regions = self.regions@;
        let mut region = self.regions.remove(i);
        let ghost removed = self.regions@;
        let ghost size = region.data.len();
        assert(before[i as int].base == region.base && before[i as int].data == region.data@);
        let at: usize = (base - region.base) as usize;
        let ghost content = region.data@;
        let ghost region_base = region.base;
        let mut k: usize = 0;
        while k < data.len()
            invariant
                at + data@.len() <= content.len(),
                content.len() == size,
                region.data@.len() == content.len(),
                region.base == region_base,
                k <= data@.len(),
                region.data@ == patch(content, at as int, data@.take(k as int)),
            decreases data@.len() - k,
        {
            region.data.set(at + k, data[k]);
            proof {
                assert(region.data@ =~= patch(content, at as int, data@.take(k + 1)));
            }
            k = k + 1;
        }
        proof {
            assert(data@.take(k as int) =~= data@);
        }
        self.regions.insert(i, region);
        proof {
            let after = self@;
            let expect = mem_write(before, base, data@)->Some_0;
            assert(after.len() == before.len());
            assert(self.regions@ == removed.insert(i as int, region));
            assert(removed == old_regions.remove(i as int));
            assert forall|j: int| 0 <= j < after.len() implies after[j] == expect[j] by {
                if j < i {
                    assert(self.regions@[j] == old_regions[j]);
                    assert(before[j].base == old_regions[j].base);
                } else if j > i {
                    assert(self.regions@[j] == removed[j - 1]);
                    assert(removed[j - 1] == old_regions[j]);
                    assert(before[j].base == old_regions[j].base);
                } else {
                    assert(self.regions@[j] == region);
                }
            }
            assert(after =~= expect);
            assert(layout(after) =~= layout(before)) by {
                assert forall|j: int| 0 <= j < after.len() implies layout(after)[j] == layout(
                    before,
                )[j] by {
                    if j != i {
                        assert(after[j] == before[j]);
                    }
                }
            }
            assert forall|j: int| 0 <= j < after.len() implies (#[trigger] after[j]).data.len()
                <= u64::MAX by {
                assert(after[j].data.len() == before[j].data.len());
            }
        }
        Ok(())
    }
}

} // verus!
