//! The registry: the devices of a virtual machine in the order in which they
//! were attached, each with its descriptor.

use vstd::prelude::*;
use crate::descriptor::{bytes_eq, fields_width, well_formed, DescSpec, DeviceStateDesc};
use crate::device::StateTransfer;
use crate::error::MigrationError;

verus! {

/// A registered device: its descriptor and the handle through which its
/// state is captured and restored.
pub struct Entry<D> {
    desc: DeviceStateDesc,
    hook: D,
}

/// A registered device as contracts see it.
pub struct EntrySpec {
    /// The descriptor under which the device was registered.
    pub desc: DescSpec,
    /// The device's state as a record.
    pub state: Seq<u8>,
    /// Whether the device is quiesced.
    pub quiesced: bool,
}

/// The devices in the order of their registration.
pub struct Registry<D: StateTransfer> {
    entries: Vec<Entry<D>>,
}

/// No two entries carry the same device identifier.
pub open spec fn unique_ids(entries: Seq<EntrySpec>) -> bool {
    forall|i: int, j: int|
        0 <= i < j < entries.len() ==> (#[trigger] entries[i]).desc.device_id != (
        #[trigger] entries[j]).desc.device_id
}

/// Whether an entry carries the identifier `id`.
pub open spec fn has_id(entries: Seq<EntrySpec>, id: Seq<u8>) -> bool {
    exists|i: int| 0 <= i < entries.len() && (#[trigger] entries[i]).desc.device_id == id
}

/// The same devices with the same states, none of them quiesced.
pub open spec fn all_resumed(entries: Seq<EntrySpec>) -> Seq<EntrySpec> {
    Seq::new(entries.len(), |i: int| EntrySpec { quiesced: false, ..entries[i] })
}

impl<D: StateTransfer> Registry<D> {
    /// The entries in the order of their registration.
    pub closed spec fn view(&self) -> Seq<EntrySpec> {
        Seq::new(
            self.entries@.len(),
            |i: int|
                EntrySpec {
                    desc: self.entries@[i].desc@,
                    state: self.entries@[i].hook.encoded(),
                    quiesced: self.entries@[i].hook.quiesced(),
                },
        )
    }

    /// Each device is valid and has the descriptor under which it stands;
    /// the identifiers are unique.
    pub closed spec fn wf(&self) -> bool {
        &&& forall|i: int|
            0 <= i < self.entries@.len() ==> (#[trigger] self.entries@[i]).hook.inv()
                && self.entries@[i].hook.shape() == self.entries@[i].desc@
        &&& unique_ids(self@)
    }

    /// What a valid registry shows: unique identifiers, well-formed
    /// descriptors, and records of the width of their descriptors.
    pub proof fn lemma_wf(&self)
        requires
            self.wf(),
        ensures
            unique_ids(self@),
            forall|i: int|
                0 <= i < self@.len() ==> well_formed((#[trigger] self@[i]).desc)
                    && self@[i].state.len() == fields_width(self@[i].desc.fields),
    {
        assert forall|i: int| 0 <= i < self@.len() implies well_formed((#[trigger] self@[i]).desc)
            && self@[i].state.len() == fields_width(self@[i].desc.fields) by {
            assert(self.entries@[i].hook.inv());
            self.entries@[i].hook.lemma_shape();
        }
    }

    /// A registry without devices.
    pub fn new() -> (r: Registry<D>)
        ensures
            r.wf(),
            r@ == Seq::<EntrySpec>::empty(),
    {
        let r = Registry { entries: Vec::new() };
        assert(r@ =~= Seq::<EntrySpec>::empty());
        r
    }

    /// The number of registered devices.
    pub fn len(&self) -> (n: usize)
        ensures
            n == self@.len(),
    {
        self.entries.len()
    }

    /// The position of the device registered under `device_id`, if there is
    /// one.
    pub fn position(&self, device_id: &[u8]) -> (at: Option<usize>)
        ensures
            match at {
                Some(i) => i < self@.len() && self@[i as int].desc.device_id == device_id@,
                None => !has_id(self@, device_id@),
            },
    {
        let mut i: usize = 0;
        while i < self.entries.len()
            invariant
                i <= self.entries@.len(),
                forall|j: int| 0 <= j < i ==> (#[trigger] self@[j]).desc.device_id != device_id@,
            decreases self.entries@.len() - i,
        {
            if bytes_eq(self.entries[i].desc.device_id.as_slice(), device_id) {
                return Some(i);
            }
            i = i + 1;
        }
        None
    }

    /// Adds a device behind those that are registered. The request is
    /// refused as an invalid configuration, and nothing changes, where the
    /// descriptor is not the device's own and under `device_id`, or a device
    /// is registered under that identifier already.
    pub fn register(&mut self, device_id: &[u8], descriptor: DeviceStateDesc, hook: D) -> (r:
        Result<(), MigrationError>)
        requires
            old(self).wf(),
            hook.inv(),
        ensures
            final(self).wf(),
            (descriptor@.device_id == device_id@ && descriptor@ == hook.shape() && !has_id(
                old(self)@,
                device_id@,
            )) ==> r.is_ok() && final(self)@ == old(self)@.push(
                EntrySpec { desc: descriptor@, state: hook.encoded(), quiesced: hook.quiesced() },
            ),
            !(descriptor@.device_id == device_id@ && descriptor@ == hook.shape() && !has_id(
                old(self)@,
                device_id@,
            )) ==> r == Err::<(), MigrationError>(MigrationError::InvalidConfig) && final(self)@
                == old(self)@,
    {
        if !bytes_eq(descriptor.device_id.as_slice(), device_id) {
            return Err(MigrationError::InvalidConfig);
        }
        let own = hook.descriptor();
        if !own.same_as(&descriptor) {
            return Err(MigrationError::InvalidConfig);
        }
        if self.position(device_id).is_some() {
            return Err(MigrationError::InvalidConfig);
        }
        let ghost before = self@;
        let ghost added = EntrySpec {
            desc: descriptor@,
            state: hook.encoded(),
            quiesced: hook.quiesced(),
        };
        let ghost old_entries = self.entries@;
        self.entries.push(Entry { desc: descriptor, hook });
        proof {
            assert(self@ =~= before.push(added));
            assert forall|i: int| 0 <= i < self.entries@.len() implies (
            #[trigger] self.entries@[i]).hook.inv() && self.entries@[i].hook.shape()
                == self.entries@[i].desc@ by {
                if i < old_entries.len() {
                    assert(self.entries@[i] == old_entries[i]);
                }
            }
            assert forall|i: int, j: int| 0 <= i < j < self@.len() implies (
            #[trigger] self@[i]).desc.device_id != (#[trigger] self@[j]).desc.device_id by {
                assert(self@[i] == before[i]);
                if j < before.len() {
                    assert(self@[j] == before[j]);
                }
            }
        }
        Ok(())
    }

    /// Takes the device registered under `device_id` out of the registry and
    /// hands it back; the others keep their order. `None`, with nothing
    /// changed, where no device stands under that identifier.
    pub fn unregister(&mut self, device_id: &[u8]) -> (removed: Option<D>)
        requires
            old(self).wf(),
        ensures
            final(self).wf(),
            !has_id(old(self)@, device_id@) ==> removed.is_none() && final(self)@ == old(self)@,
            has_id(old(self)@, device_id@) ==> removed.is_some() && exists|i: int|
                0 <= i < old(self)@.len() && (#[trigger] old(self)@[i]).desc.device_id
                    == device_id@ && final(self)@ == old(self)@.remove(i)
                    && removed->Some_0.encoded() == old(self)@[i].state
                    && removed->Some_0.shape() == old(self)@[i].desc && removed->Some_0.inv(),
    {
        match self.position(device_id) {
            None => None,
            Some(i) => {
                let ghost before = self@;
                let ghost old_entries = self.entries@;
                let entry = self.entries.remove(i);
                proof {
                    assert(before[i as int].desc.device_id == device_id@);
                    assert(self@ =~= before.remove(i as int));
                    assert forall|k: int| 0 <= k < self.entries@.len() implies (
                    #[trigger] self.entries@[k]).hook.inv() && self.entries@[k].hook.shape()
                        == self.entries@[k].desc@ by {
                        if k < i {
                            assert(self.entries@[k] == old_entries[k]);
                        } else {
                            assert(self.entries@[k] == old_entries[k + 1]);
                        }
                    }
                    assert forall|a: int, b: int| 0 <= a < b < self@.len() implies (
                    #[trigger] self@[a]).desc.device_id != (#[trigger] self@[b]).desc.device_id by {
                        let a0 = if a < i { a } else { a + 1 };
                        let b0 = if b < i { b } else { b + 1 };
                        assert(self@[a] == before[a0]);
                        assert(self@[b] == before[b0]);
                    }
                    assert(old_entries[i as int].hook.inv());
                }
                Some(entry.hook)
            },
        }
    }

    /// A copy of the descriptor of the device at position `i`.
    pub fn descriptor_at(&self, i: usize) -> (d: DeviceStateDesc)
        requires
            i < self@.len(),
        ensures
            d@ == self@[i as int].desc,
    {
        self.entries[i].desc.duplicate()
    }

    /// A copy of the record of the device at position `i`. The device is
    /// quiesced for the capture and resumed after it unless it was quiesced
    /// before, so that the registry is as it was.
    pub fn state_at(&mut self, i: usize) -> (bytes: Vec<u8>)
        requires
            old(self).wf(),
            i < old(self)@.len(),
        ensures
            final(self).wf(),
            final(self)@ == old(self)@,
            bytes@ == old(self)@[i as int].state,
    {
        let ghost before = self@;
        let ghost old_entries = self.entries@;
        let mut entry = self.entries.remove(i);
        assert(old_entries[i as int].hook.inv());
        let held = entry.hook.is_quiesced();
        entry.hook.quiesce();
        let bytes = entry.hook.capture();
        if !held {
            entry.hook.resume();
        }
        self.entries.insert(i, entry);
        proof {
            self.lemma_replaced(old_entries, before, i as int);
            assert(self@[i as int] == before[i as int]);
            assert(self@ =~= before);
        }
        bytes
    }

    /// Whether the device at position `i` is quiesced.
    pub fn quiesced_at(&self, i: usize) -> (q: bool)
        requires
            self.wf(),
            i < self@.len(),
        ensures
            q == self@[i as int].quiesced,
    {
        assert(self.entries@[i as int].hook.inv());
        self.entries[i].hook.is_quiesced()
    }

    /// Holds a received descriptor against the one registered under the
    /// same device identifier. Where one is registered and equal in version
    /// and fields, the result is its position. Otherwise the descriptor is
    /// refused as incompatible, with the registered descriptor, if there is
    /// one, and the received one.
    pub fn check_incoming(&self, incoming: &DeviceStateDesc) -> (r: Result<usize, MigrationError>)
        ensures
            match r {
                Ok(i) => i < self@.len() && self@[i as int].desc == incoming@,
                Err(MigrationError::VersionIncompatible { expected: None, received }) => received@
                    == incoming@ && !has_id(self@, incoming@.device_id),
                Err(MigrationError::VersionIncompatible { expected: Some(local), received }) =>
                    received@ == incoming@ && local@ != incoming@ && local@.device_id
                        == incoming@.device_id && exists|i: int|
                        0 <= i < self@.len() && (#[trigger] self@[i]).desc == local@,
                Err(_) => false,
            },
    {
        match self.position(incoming.device_id.as_slice()) {
            None => Err(
                MigrationError::VersionIncompatible {
                    expected: None,
                    received: incoming.duplicate(),
                },
            ),
            Some(i) => {
                let local = &self.entries[i].desc;
                assert(self@[i as int].desc == local@);
                if local.same_as(incoming) {
                    Ok(i)
                } else {
                    Err(
                        MigrationError::VersionIncompatible {
                            expected: Some(local.duplicate()),
                            received: incoming.duplicate(),
                        },
                    )
                }
            },
        }
    }

    /// Captures the device at position `i`: the device is quiesced, its
    /// record taken, and the device resumed at once.
    pub fn capture_at(&mut self, i: usize) -> (bytes: Vec<u8>)
        requires
            old(self).wf(),
            i < old(self)@.len(),
        ensures
            final(self).wf(),
            bytes@ == old(self)@[i as int].state,
            final(self)@ == old(self)@.update(
                i as int,
                EntrySpec { quiesced: false, ..old(self)@[i as int] },
            ),
    {
        let ghost before = self@;
        let ghost old_entries = self.entries@;
        let mut entry = self.entries.remove(i);
        assert(old_entries[i as int].hook.inv());
        entry.hook.quiesce();
        let bytes = entry.hook.capture();
        entry.hook.resume();
        self.entries.insert(i, entry);
        proof {
            self.lemma_replaced(old_entries, before, i as int);
        }
        bytes
    }

    /// Restores the device at position `i` from `bytes`. A record of another
    /// width than the device's descriptor gives is refused as corrupt and
    /// changes nothing.
    pub fn restore_at(&mut self, i: usize, bytes: &[u8]) -> (r: Result<(), MigrationError>)
        requires
            old(self).wf(),
            i < old(self)@.len(),
        ensures
            final(self).wf(),
            bytes@.len() == fields_width(old(self)@[i as int].desc.fields) ==> r.is_ok()
                && final(self)@ == old(self)@.update(
                i as int,
                EntrySpec { state: bytes@, ..old(self)@[i as int] },
            ),
            bytes@.len() != fields_width(old(self)@[i as int].desc.fields) ==> r == Err::<
                (),
                MigrationError,
            >(MigrationError::Corrupt) && final(self)@ == old(self)@,
    {
        let ghost before = self@;
        let ghost old_entries = self.entries@;
        let mut entry = self.entries.remove(i);
        assert(old_entries[i as int].hook.inv());
        let r = entry.hook.restore(bytes);
        self.entries.insert(i, entry);
        proof {
            self.lemma_replaced(old_entries, before, i as int);
            assert(self@ =~= before.update(i as int, self@[i as int]));
        }
        r
    }

    /// Quiesces the device at position `i`.
    pub fn quiesce_at(&mut self, i: usize)
        requires
            old(self).wf(),
            i < old(self)@.len(),
        ensures
            final(self).wf(),
            final(self)@ == old(self)@.update(
                i as int,
                EntrySpec { quiesced: true, ..old(self)@[i as int] },
            ),
    {
        let ghost before = self@;
        let ghost old_entries = self.entries@;
        let mut entry = self.entries.remove(i);
        assert(old_entries[i as int].hook.inv());
        entry.hook.quiesce();
        self.entries.insert(i, entry);
        proof {
            self.lemma_replaced(old_entries, before, i as int);
        }
    }

    /// Resumes every device, whether it was quiesced or not. No state
    /// changes.
    pub fn resume_all(&mut self)
        requires
            old(self).wf(),
        ensures
            final(self).wf(),
            final(self)@ == all_resumed(old(self)@),
    {
        let ghost start = self@;
        let mut i: usize = 0;
        while i < self.entries.len()
            invariant
                self.wf(),
                self@.len() == start.len(),
                i <= self@.len(),
                forall|j: int|
                    0 <= j < self@.len() ==> (#[trigger] self@[j]).desc == start[j].desc
                        && self@[j].state == start[j].state,
                forall|j: int| 0 <= j < i ==> !(#[trigger] self@[j]).quiesced,
            decreases self@.len() - i,
        {
            let ghost before = self@;
            let ghost old_entries = self.entries@;
            let mut entry = self.entries.remove(i);
            assert(old_entries[i as int].hook.inv());
            entry.hook.resume();
            self.entries.insert(i, entry);
            proof {
                self.lemma_replaced(old_entries, before, i as int);
                assert forall|j: int| 0 <= j < self@.len() implies (#[trigger] self@[j]).desc
                    == start[j].desc && self@[j].state == start[j].state by {
                    assert(before[j].desc == start[j].desc);
                }
                assert forall|j: int| 0 <= j < i + 1 implies !(#[trigger] self@[j]).quiesced by {
                    if j < i {
                        assert(!before[j].quiesced);
                    }
                }
            }
            i = i + 1;
        }
        assert(self@ =~= all_resumed(start));
    }

    /// After the entry at `i` was taken out, changed by its own methods and
    /// put back, the registry is valid and differs from before at `i` alone.
    proof fn lemma_replaced(&self, old_entries: Seq<Entry<D>>, before: Seq<EntrySpec>, i: int)
        requires
            0 <= i < old_entries.len(),
            before.len() == old_entries.len(),
            forall|k: int|
                0 <= k < old_entries.len() ==> (#[trigger] before[k]) == (EntrySpec {
                    desc: old_entries[k].desc@,
                    state: old_entries[k].hook.encoded(),
                    quiesced: old_entries[k].hook.quiesced(),
                }),
            forall|k: int|
                0 <= k < old_entries.len() ==> (#[trigger] old_entries[k]).hook.inv()
                    && old_entries[k].hook.shape() == old_entries[k].desc@,
            unique_ids(before),
            self.entries@.len() == old_entries.len(),
            forall|k: int|
                0 <= k < old_entries.len() && k != i ==> (#[trigger] self.entries@[k])
                    == old_entries[k],
            self.entries@[i].desc == old_entries[i].desc,
            self.entries@[i].hook.inv(),
            self.entries@[i].hook.shape() == old_entries[i].hook.shape(),
        ensures
            self.wf(),
            self@.len() == before.len(),
            forall|k: int| 0 <= k < before.len() && k != i ==> (#[trigger] self@[k]) == before[k],
            self@[i].desc == before[i].desc,
            self@[i].state == self.entries@[i].hook.encoded(),
            self@[i].quiesced == self.entries@[i].hook.quiesced(),
            self@ == before.update(i, self@[i]),
    {
        assert forall|k: int| 0 <= k < before.len() && k != i implies (#[trigger] self@[k])
            == before[k] by {
            assert(self.entries@[k] == old_entries[k]);
        }
        assert forall|a: int, b: int| 0 <= a < b < self@.len() implies (
        #[trigger] self@[a]).desc.device_id != (#[trigger] self@[b]).desc.device_id by {
            assert(self@[a].desc == before[a].desc);
            assert(self@[b].desc == before[b].desc);
        }
        assert forall|k: int| 0 <= k < self.entries@.len() implies (
        #[trigger] self.entries@[k]).hook.inv() && self.entries@[k].hook.shape()
            == self.entries@[k].desc@ by {
            if k != i {
                assert(self.entries@[k] == old_entries[k]);
            }
        }
        assert(self@ =~= before.update(i, self@[i]));
    }
}

} // verus!
