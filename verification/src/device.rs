//! The state-transfer capability, and a device that is driven by its
//! descriptor alone.

use vstd::prelude::*;
use crate::bytes::{
    le_enc, le_val, lemma_le_enc_len, lemma_le_enc_of_val, lemma_le_roundtrip, lemma_le_val_bound,
    lemma_pow256_monotonic, lemma_pow256_values, pow256, read_le, write_le,
};
use crate::descriptor::{
    fields_view, fields_width, lemma_fields_width_take, packed, well_formed, DescSpec,
    DeviceStateDesc, FieldSpec,
};
use crate::error::MigrationError;

verus! {

/// What every device that can be migrated offers: its state as a record of
/// bytes laid out by its descriptor, and the way back.
///
/// A device is quiesced while changes that the guest triggers are held off.
/// Quiescing and resuming never touch the state, and either may be called in
/// any state of the device.
pub trait StateTransfer {
    /// What the device keeps true between calls.
    spec fn inv(&self) -> bool;

    /// The descriptor of the device's record. It never changes.
    spec fn shape(&self) -> DescSpec;

    /// The device's state as a record.
    spec fn encoded(&self) -> Seq<u8>;

    /// Whether changes triggered by the guest are held off.
    spec fn quiesced(&self) -> bool;

    /// The descriptor is well formed, and the record has its width.
    proof fn lemma_shape(&self)
        requires
            self.inv(),
        ensures
            well_formed(self.shape()),
            self.encoded().len() == fields_width(self.shape().fields),
    ;

    /// The descriptor of the device's record.
    fn descriptor(&self) -> (d: DeviceStateDesc)
        requires
            self.inv(),
        ensures
            d@ == self.shape(),
    ;

    /// The device's state as a record. The device must be quiesced, so that
    /// the record shows one instant.
    fn capture(&self) -> (bytes: Vec<u8>)
        requires
            self.inv(),
            self.quiesced(),
        ensures
            bytes@ == self.encoded(),
    ;

    /// Takes over the state that `bytes` holds. A record of another width
    /// than the descriptor's is refused as corrupt and changes nothing.
    fn restore(&mut self, bytes: &[u8]) -> (r: Result<(), MigrationError>)
        requires
            old(self).inv(),
        ensures
            final(self).inv(),
            final(self).shape() == old(self).shape(),
            final(self).quiesced() == old(self).quiesced(),
            bytes@.len() == fields_width(old(self).shape().fields) ==> r.is_ok()
                && final(self).encoded() == bytes@,
            bytes@.len() != fields_width(old(self).shape().fields) ==> (r == Err::<
                (),
                MigrationError,
            >(MigrationError::Corrupt) && final(self).encoded() == old(self).encoded()),
    ;

    /// Whether changes triggered by the guest are held off.
    fn is_quiesced(&self) -> (q: bool)
        requires
            self.inv(),
        ensures
            q == self.quiesced(),
    ;

    /// Holds off changes triggered by the guest.
    fn quiesce(&mut self)
        requires
            old(self).inv(),
        ensures
            final(self).inv(),
            final(self).shape() == old(self).shape(),
            final(self).encoded() == old(self).encoded(),
            final(self).quiesced(),
    ;

    /// Lets the guest change the device again.
    fn resume(&mut self)
        requires
            old(self).inv(),
        ensures
            final(self).inv(),
            final(self).shape() == old(self).shape(),
            final(self).encoded() == old(self).encoded(),
            !final(self).quiesced(),
    ;
}

/// Each value fits the width of its field.
pub open spec fn values_fit(fields: Seq<FieldSpec>, values: Seq<u64>) -> bool {
    &&& values.len() == fields.len()
    &&& forall|i: int|
        0 <= i < fields.len() ==> ((#[trigger] values[i]) as nat) < pow256(fields[i].width as nat)
}

/// The record of `values`: each in the width of its field, little-endian,
/// one behind the other.
pub open spec fn encode_fields(fields: Seq<FieldSpec>, values: Seq<u64>) -> Seq<u8>
    decreases fields.len(),
{
    if fields.len() == 0 || values.len() != fields.len() {
        Seq::<u8>::empty()
    } else {
        encode_fields(fields.drop_last(), values.drop_last()) + le_enc(
            values.last() as nat,
            fields.last().width as nat,
        )
    }
}

/// The value of field `i` in a record.
pub open spec fn decode_field(fields: Seq<FieldSpec>, bytes: Seq<u8>, i: int) -> nat {
    le_val(bytes.subrange(fields[i].offset as int, fields[i].offset + fields[i].width))
}

/// The values that a record holds, field by field.
pub open spec fn decode_fields(fields: Seq<FieldSpec>, bytes: Seq<u8>) -> Seq<u64> {
    Seq::new(fields.len(), |i: int| decode_field(fields, bytes, i) as u64)
}

/// A record is as wide as its fields together.
pub proof fn lemma_encode_len(fields: Seq<FieldSpec>, values: Seq<u64>)
    requires
        values.len() == fields.len(),
    ensures
        encode_fields(fields, values).len() == fields_width(fields),
    decreases fields.len(),
{
    if fields.len() > 0 {
        lemma_encode_len(fields.drop_last(), values.drop_last());
        lemma_le_enc_len(values.last() as nat, fields.last().width as nat);
    }
}

/// In the record of `values`, field `i` holds `values[i]`.
pub proof fn lemma_encoded_field(fields: Seq<FieldSpec>, values: Seq<u64>, i: int)
    requires
        packed(fields),
        values.len() == fields.len(),
        0 <= i < fields.len(),
    ensures
        fields[i].offset + fields[i].width <= encode_fields(fields, values).len(),
        encode_fields(fields, values).subrange(
            fields[i].offset as int,
            fields[i].offset + fields[i].width,
        ) == le_enc(values[i] as nat, fields[i].width as nat),
    decreases fields.len(),
{
    let n = fields.len() as int;
    let whole = encode_fields(fields, values);
    let front_fields = fields.drop_last();
    let front_values = values.drop_last();
    let front = encode_fields(front_fields, front_values);
    let chunk = le_enc(values.last() as nat, fields.last().width as nat);
    lemma_encode_len(front_fields, front_values);
    lemma_le_enc_len(values.last() as nat, fields.last().width as nat);
    assert(whole == front + chunk);
    if i == n - 1 {
        assert(fields.take(i) =~= front_fields);
        assert(whole.subrange(fields[i].offset as int, fields[i].offset + fields[i].width)
            =~= chunk);
    } else {
        assert forall|j: int| 0 <= j < front_fields.len() implies 1 <= (
        #[trigger] front_fields[j]).width <= crate::descriptor::FIELD_WIDTH_MAX
            && front_fields[j].offset as nat == fields_width(front_fields.take(j)) by {
            assert(front_fields[j] == fields[j]);
            assert(front_fields.take(j) =~= fields.take(j));
        }
        lemma_encoded_field(front_fields, front_values, i);
        assert(front_fields[i] == fields[i]);
        assert(front_values[i] == values[i]);
        assert(whole.subrange(fields[i].offset as int, fields[i].offset + fields[i].width)
            =~= front.subrange(fields[i].offset as int, fields[i].offset + fields[i].width));
    }
}

/// Reading a record back gives the values that it was made of.
pub proof fn lemma_decode_encode(fields: Seq<FieldSpec>, values: Seq<u64>)
    requires
        packed(fields),
        values_fit(fields, values),
    ensures
        decode_fields(fields, encode_fields(fields, values)) == values,
{
    let bytes = encode_fields(fields, values);
    let back = decode_fields(fields, bytes);
    assert forall|i: int| 0 <= i < fields.len() implies back[i] == values[i] by {
        lemma_encoded_field(fields, values, i);
        lemma_le_roundtrip(values[i] as nat, fields[i].width as nat);
    }
    assert(back =~= values);
}

/// The values read from any record of the right width fit their fields.
pub proof fn lemma_decoded_fit(fields: Seq<FieldSpec>, bytes: Seq<u8>)
    requires
        packed(fields),
        bytes.len() == fields_width(fields),
    ensures
        values_fit(fields, decode_fields(fields, bytes)),
        forall|i: int|
            0 <= i < fields.len() ==> decode_field(fields, bytes, i) == (#[trigger] decode_fields(
                fields,
                bytes,
            )[i]) as nat,
{
    let values = decode_fields(fields, bytes);
    assert forall|i: int| 0 <= i < fields.len() implies ((#[trigger] values[i]) as nat) < pow256(
        fields[i].width as nat,
    ) && decode_field(fields, bytes, i) == values[i] as nat by {
        lemma_fields_width_take(fields, i);
        let chunk = bytes.subrange(fields[i].offset as int, fields[i].offset + fields[i].width);
        lemma_le_val_bound(chunk);
        lemma_pow256_monotonic(chunk.len(), 8);
        lemma_pow256_values();
    }
}

/// The first `k` fields of the record made of the values read from `bytes`
/// are the first bytes of `bytes`.
proof fn lemma_encode_decode_prefix(fields: Seq<FieldSpec>, bytes: Seq<u8>, k: int)
    requires
        packed(fields),
        bytes.len() == fields_width(fields),
        0 <= k <= fields.len(),
    ensures
        fields_width(fields.take(k)) <= bytes.len(),
        encode_fields(fields.take(k), decode_fields(fields, bytes).take(k)) == bytes.take(
            fields_width(fields.take(k)) as int,
        ),
    decreases k,
{
    let values = decode_fields(fields, bytes);
    let fk = fields.take(k);
    let vk = values.take(k);
    if k == 0 {
        assert(encode_fields(fk, vk) =~= bytes.take(0));
    } else {
        lemma_encode_decode_prefix(fields, bytes, k - 1);
        lemma_fields_width_take(fields, k - 1);
        let field = fields[k - 1];
        let start = field.offset as int;
        let end = start + field.width;
        let chunk = bytes.subrange(start, end);
        assert(start == fields_width(fields.take(k - 1)));
        assert(values[k - 1] == decode_field(fields, bytes, k - 1) as u64);
        assert(values[k - 1] as nat == le_val(chunk)) by {
            lemma_le_val_bound(chunk);
            lemma_pow256_monotonic(chunk.len(), 8);
            lemma_pow256_values();
        }
        assert(le_enc(values[k - 1] as nat, field.width as nat) == chunk) by {
            lemma_le_enc_of_val(chunk);
        }
        assert(fk.drop_last() =~= fields.take(k - 1));
        assert(vk.drop_last() =~= values.take(k - 1));
        assert(fk.last() == field);
        assert(vk.last() == values[k - 1]);
        assert(encode_fields(fk, vk) == encode_fields(fk.drop_last(), vk.drop_last()) + chunk);
        assert(bytes.take(start) + chunk =~= bytes.take(end));
    }
}

/// Making a record of the values read from a record gives that record.
pub proof fn lemma_encode_decode(fields: Seq<FieldSpec>, bytes: Seq<u8>)
    requires
        packed(fields),
        bytes.len() == fields_width(fields),
    ensures
        encode_fields(fields, decode_fields(fields, bytes)) == bytes,
{
    lemma_encode_decode_prefix(fields, bytes, fields.len() as int);
    assert(fields.take(fields.len() as int) =~= fields);
    let values = decode_fields(fields, bytes);
    assert(values.take(fields.len() as int) =~= values);
    assert(bytes.take(bytes.len() as int) =~= bytes);
}

/// A device whose state is one unsigned number per field of its descriptor.
pub struct FieldDevice {
    desc: DeviceStateDesc,
    values: Vec<u64>,
    paused: bool,
}

impl FieldDevice {
    /// The values of the fields, in the order of the descriptor.
    pub closed spec fn values(&self) -> Seq<u64> {
        self.values@
    }

    /// The descriptor.
    pub closed spec fn desc(&self) -> DescSpec {
        self.desc@
    }

    /// Whether the device is quiesced.
    pub closed spec fn paused(&self) -> bool {
        self.paused
    }

    /// The descriptor is well formed and each value fits its field.
    pub closed spec fn wf(&self) -> bool {
        well_formed(self.desc@) && values_fit(self.desc@.fields, self.values@)
    }

    /// What `wf` says, in terms of the descriptor and the values.
    pub proof fn lemma_wf(&self)
        ensures
            self.wf() == (well_formed(self.desc()) && values_fit(
                self.desc().fields,
                self.values(),
            )),
    {
    }

    /// A running device with the given descriptor and values; `None` where
    /// the descriptor is not well formed or a value does not fit its field.
    pub fn new(desc: DeviceStateDesc, values: Vec<u64>) -> (dev: Option<FieldDevice>)
        ensures
            dev.is_some() == (well_formed(desc@) && values_fit(desc@.fields, values@)),
            dev.is_some() ==> dev->Some_0.wf() && dev->Some_0.desc() == desc@
                && dev->Some_0.values() == values@ && !dev->Some_0.paused(),
    {
        if !desc.is_well_formed() || values.len() != desc.fields.len() {
            return None;
        }
        let ghost fields = desc@.fields;
        let mut i: usize = 0;
        while i < values.len()
            invariant
                fields == fields_view(desc.fields@),
                packed(fields),
                values@.len() == desc.fields@.len(),
                i <= values@.len(),
                forall|j: int| 0 <= j < i ==> ((#[trigger] values@[j]) as nat) < pow256(
                    fields[j].width as nat,
                ),
            decreases values@.len() - i,
        {
            let width = desc.fields[i].width;
            assert(fields[i as int].width == width);
            if !fits(values[i], width) {
                return None;
            }
            i = i + 1;
        }
        Some(FieldDevice { desc, values, paused: false })
    }

    /// The value of field `i`.
    pub fn value(&self, i: usize) -> (v: Option<u64>)
        ensures
            i < self.values().len() ==> v == Some(self.values()[i as int]),
            i >= self.values().len() ==> v.is_none(),
    {
        if i < self.values.len() {
            Some(self.values[i])
        } else {
            None
        }
    }

    /// Gives field `i` the value `v`, as the guest does. Refused, with
    /// nothing changed, while the device is quiesced, and where there is no
    /// such field or the value does not fit it.
    pub fn set_value(&mut self, i: usize, v: u64) -> (done: bool)
        requires
            old(self).wf(),
        ensures
            final(self).wf(),
            final(self).desc() == old(self).desc(),
            final(self).paused() == old(self).paused(),
            done == (!old(self).paused() && i < old(self).values().len() && (v as nat) < pow256(
                old(self).desc().fields[i as int].width as nat,
            )),
            done ==> final(self).values() == old(self).values().update(i as int, v),
            !done ==> final(self).values() == old(self).values(),
    {
        if self.paused || i >= self.values.len() {
            return false;
        }
        let width = self.desc.fields[i].width;
        proof {
            assert(self.desc@.fields[i as int].width == width);
        }
        if !fits(v, width) {
            return false;
        }
        self.values[i] = v;
        true
    }
}

/// Whether `v` can be written in `width` bytes.
fn fits(v: u64, width: u32) -> (ok: bool)
    requires
        1 <= width <= 8,
    ensures
        ok == ((v as nat) < pow256(width as nat)),
{
    proof {
        lemma_pow256_values();
    }
    if width == 8 {
        true
    } else if width == 7 {
        v < 0x100_0000_0000_0000
    } else if width == 6 {
        v < 0x1_0000_0000_0000
    } else if width == 5 {
        v < 0x100_0000_0000
    } else if width == 4 {
        v < 0x1_0000_0000
    } else if width == 3 {
        v < 0x100_0000
    } else if width == 2 {
        v < 0x1_0000
    } else {
        v < 0x100
    }
}

impl StateTransfer for FieldDevice {
    open spec fn inv(&self) -> bool {
        self.wf()
    }

    open spec fn shape(&self) -> DescSpec {
        self.desc()
    }

    closed spec fn encoded(&self) -> Seq<u8> {
        encode_fields(self.desc@.fields, self.values@)
    }

    open spec fn quiesced(&self) -> bool {
        self.paused()
    }

    proof fn lemma_shape(&self) {
        lemma_encode_len(self.desc@.fields, self.values@);
    }

    fn descriptor(&self) -> (d: DeviceStateDesc) {
        self.desc.duplicate()
    }

    fn capture(&self) -> (bytes: Vec<u8>)
        ensures
            bytes@ == encode_fields(self.desc().fields, self.values()),
    {
        let ghost fields = self.desc@.fields;
        let mut out: Vec<u8> = Vec::new();
        let mut i: usize = 0;
        assert(encode_fields(fields.take(0), self.values@.take(0)) =~= out@);
        while i < self.values.len()
            invariant
                fields == self.desc@.fields,
                self.values@.len() == self.desc.fields@.len(),
                i <= self.values@.len(),
                out@ == encode_fields(fields.take(i as int), self.values@.take(i as int)),
            decreases self.values@.len() - i,
        {
            let width = self.desc.fields[i].width;
            proof {
                assert(fields[i as int].width == width);
                assert(fields.take(i + 1).drop_last() =~= fields.take(i as int));
                assert(self.values@.take(i + 1).drop_last() =~= self.values@.take(i as int));
            }
            write_le(&mut out, self.values[i], width as usize);
            i = i + 1;
        }
        proof {
            assert(fields.take(i as int) =~= fields);
            assert(self.values@.take(i as int) =~= self.values@);
        }
        out
    }

    fn restore(&mut self, bytes: &[u8]) -> (r: Result<(), MigrationError>)
        ensures
            r.is_ok() ==> final(self).values() == decode_fields(old(self).desc().fields, bytes@),
            r.is_err() ==> final(self).values() == old(self).values(),
    {
        let ghost fields = self.desc@.fields;
        let width = self.desc.encoded_width();
        if bytes.len() != width as usize {
            return Err(MigrationError::Corrupt);
        }
        let mut values: Vec<u64> = Vec::new();
        let mut i: usize = 0;
        proof {
            lemma_decoded_fit(fields, bytes@);
        }
        while i < self.desc.fields.len()
            invariant
                fields == self.desc@.fields,
                well_formed(self.desc@),
                bytes@.len() == fields_width(fields),
                i <= fields.len(),
                fields.len() == self.desc.fields@.len(),
                values@ == decode_fields(fields, bytes@).take(i as int),
            decreases fields.len() - i,
        {
            let f = &self.desc.fields[i];
            proof {
                assert(fields[i as int] == f@);
                lemma_fields_width_take(fields, i as int);
                lemma_decoded_fit(fields, bytes@);
            }
            let v = read_le(bytes, f.offset as usize, f.width as usize);
            values.push(v);
            proof {
                let all = decode_fields(fields, bytes@);
                assert(v as nat == decode_field(fields, bytes@, i as int));
                assert(values@ =~= all.take(i + 1));
            }
            i = i + 1;
        }
        proof {
            let all = decode_fields(fields, bytes@);
            assert(all.take(i as int) =~= all);
            lemma_encode_decode(fields, bytes@);
        }
        self.values = values;
        Ok(())
    }

    fn is_quiesced(&self) -> (q: bool) {
        self.paused
    }

    fn quiesce(&mut self) {
        self.paused = true;
    }

    fn resume(&mut self) {
        self.paused = false;
    }
}

/// Captures `source`, which must be quiesced, and restores the record into
/// `target`. Between devices
/// of the same descriptor this succeeds and leaves `target` with exactly the
/// state of `source`; between others of the same record width it succeeds
/// likewise, and for any other width `target` refuses the record as corrupt
/// and keeps its state.
pub fn transfer<S: StateTransfer, T: StateTransfer>(source: &S, target: &mut T) -> (r: Result<
    (),
    MigrationError,
>)
    requires
        source.inv(),
        source.quiesced(),
        old(target).inv(),
    ensures
        final(target).inv(),
        final(target).shape() == old(target).shape(),
        final(target).quiesced() == old(target).quiesced(),
        fields_width(source.shape().fields) == fields_width(old(target).shape().fields)
            ==> r.is_ok() && final(target).encoded() == source.encoded(),
        fields_width(source.shape().fields) != fields_width(old(target).shape().fields) ==> r
            == Err::<(), MigrationError>(MigrationError::Corrupt) && final(target).encoded() == old(
            target,
        ).encoded(),
{
    proof {
        source.lemma_shape();
    }
    let bytes = source.capture();
    target.restore(bytes.as_slice())
}

/// Two devices of one descriptor that hold the same record hold the same
/// values: a device that restored what another captured is in that other's
/// state, and a device that restored its own capture is unchanged.
pub proof fn lemma_same_record_same_values(a: FieldDevice, b: FieldDevice)
    requires
        a.wf(),
        b.wf(),
        a.desc() == b.desc(),
        a.encoded() == b.encoded(),
    ensures
        a.values() == b.values(),
{
    lemma_decode_encode(a.desc@.fields, a.values@);
    lemma_decode_encode(b.desc@.fields, b.values@);
}

} // verus!
