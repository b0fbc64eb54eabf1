//! Descriptors: the shape and version of a device's state record.
//!
//! A record is the device's fields laid side by side, little-endian, in the
//! order of the descriptor. A descriptor is well formed when each field is
//! one to eight bytes wide and starts where the one before it ends, so the
//! width of the record is the sum of the field widths.

use vstd::prelude::*;
use vstd::slice::slice_to_vec;

verus! {

/// The widest field, in bytes.
pub const FIELD_WIDTH_MAX: u32 = 8;

/// One field of a state record.
#[derive(Debug, PartialEq, Eq)]
pub struct FieldDesc {
    /// The field's name.
    pub name: Vec<u8>,
    /// Where the field starts in the record, in bytes.
    pub offset: u32,
    /// How many bytes the field takes.
    pub width: u32,
}

/// The shape of one device's state record.
#[derive(Debug, PartialEq, Eq)]
pub struct DeviceStateDesc {
    /// The identifier of the device, unique among the registered devices.
    pub device_id: Vec<u8>,
    /// The version of the shape; it grows with each change of the shape.
    pub version: u32,
    /// The fields in the order in which they lie in the record.
    pub fields: Vec<FieldDesc>,
}

/// A field as contracts see it.
pub struct FieldSpec {
    pub name: Seq<u8>,
    pub offset: u32,
    pub width: u32,
}

/// A descriptor as contracts see it.
pub struct DescSpec {
    pub device_id: Seq<u8>,
    pub version: u32,
    pub fields: Seq<FieldSpec>,
}

impl View for FieldDesc {
    type V = FieldSpec;

    open spec fn view(&self) -> FieldSpec {
        FieldSpec { name: self.name@, offset: self.offset, width: self.width }
    }
}

impl View for DeviceStateDesc {
    type V = DescSpec;

    open spec fn view(&self) -> DescSpec {
        DescSpec {
            device_id: self.device_id@,
            version: self.version,
            fields: fields_view(self.fields@),
        }
    }
}

/// The fields of a descriptor as contracts see them.
pub open spec fn fields_view(fields: Seq<FieldDesc>) -> Seq<FieldSpec> {
    Seq::new(fields.len(), |i: int| fields[i]@)
}

/// The sum of the widths of `fields`.
pub open spec fn fields_width(fields: Seq<FieldSpec>) -> nat
    decreases fields.len(),
{
    if fields.len() == 0 {
        0
    } else {
        fields_width(fields.drop_last()) + fields.last().width as nat
    }
}

/// Each field is one to eight bytes wide and starts where the fields before
/// it end.
pub open spec fn packed(fields: Seq<FieldSpec>) -> bool {
    forall|i: int|
        0 <= i < fields.len() ==> 1 <= (#[trigger] fields[i]).width <= FIELD_WIDTH_MAX
            && fields[i].offset as nat == fields_width(fields.take(i))
}

/// A descriptor whose fields are packed and whose lengths fit the 32 bits
/// that the stream gives each of them.
pub open spec fn well_formed(d: DescSpec) -> bool {
    &&& packed(d.fields)
    &&& fields_width(d.fields) <= u32::MAX
    &&& d.fields.len() <= u32::MAX
    &&& d.device_id.len() <= u32::MAX
    &&& forall|i: int| 0 <= i < d.fields.len() ==> (#[trigger] d.fields[i]).name.len() <= u32::MAX
}

/// The width of a record grows with each field.
pub proof fn lemma_fields_width_take(fields: Seq<FieldSpec>, i: int)
    requires
        0 <= i < fields.len(),
    ensures
        fields_width(fields.take(i + 1)) == fields_width(fields.take(i)) + fields[i].width,
        fields_width(fields.take(i + 1)) <= fields_width(fields),
    decreases fields.len() - i,
{
    assert(fields.take(i + 1).drop_last() =~= fields.take(i));
    assert(fields.take(i + 1).last() == fields[i]);
    if i + 1 == fields.len() {
        assert(fields.take(i + 1) =~= fields);
    } else {
        lemma_fields_width_take(fields, i + 1);
    }
}

/// Whether two byte strings are the same.
pub fn bytes_eq(a: &[u8], b: &[u8]) -> (same: bool)
    ensures
        same == (a@ == b@),
{
    if a.len() != b.len() {
        return false;
    }
    let mut i: usize = 0;
    while i < a.len()
        invariant
            a@.len() == b@.len(),
            i <= a@.len(),
            forall|j: int| 0 <= j < i ==> a@[j] == b@[j],
        decreases a@.len() - i,
    {
        if a[i] != b[i] {
            return false;
        }
        i = i + 1;
    }
    assert(a@ =~= b@);
    true
}

impl FieldDesc {
    /// A field of the given name, offset and width.
    pub fn new(name: &[u8], offset: u32, width: u32) -> (f: FieldDesc)
        ensures
            f@ == (FieldSpec { name: name@, offset, width }),
    {
        FieldDesc { name: slice_to_vec(name), offset, width }
    }

    /// Whether two fields have the same name, offset and width.
    pub fn same_as(&self, other: &FieldDesc) -> (same: bool)
        ensures
            same == (self@ == other@),
    {
        self.offset == other.offset && self.width == other.width && bytes_eq(
            self.name.as_slice(),
            other.name.as_slice(),
        )
    }

    /// A copy of the field.
    pub fn duplicate(&self) -> (f: FieldDesc)
        ensures
            f@ == self@,
    {
        FieldDesc::new(self.name.as_slice(), self.offset, self.width)
    }
}

impl DeviceStateDesc {
    /// A descriptor without fields, to which `push_field` adds them.
    pub fn new(device_id: &[u8], version: u32) -> (d: DeviceStateDesc)
        ensures
            d@ == (DescSpec { device_id: device_id@, version, fields: Seq::<FieldSpec>::empty() }),
    {
        let d = DeviceStateDesc {
            device_id: slice_to_vec(device_id),
            version,
            fields: Vec::new(),
        };
        assert(d@.fields =~= Seq::<FieldSpec>::empty());
        d
    }

    /// Adds a field of `width` bytes behind the fields that are there. The
    /// field is refused, and the descriptor left as it was, where the
    /// descriptor is not well formed, the width is not one to eight bytes, or
    /// the record would outgrow 32 bits.
    pub fn push_field(&mut self, name: &[u8], width: u32) -> (added: bool)
        ensures
            added ==> well_formed(final(self)@),
            added == (well_formed(old(self)@) && 1 <= width <= FIELD_WIDTH_MAX && fields_width(
                old(self)@.fields,
            ) + width <= u32::MAX && old(self)@.fields.len() < u32::MAX && name@.len()
                <= u32::MAX),
            added ==> final(self)@ == (DescSpec {
                fields: old(self)@.fields.push(
                    FieldSpec {
                        name: name@,
                        offset: fields_width(old(self)@.fields) as u32,
                        width,
                    },
                ),
                ..old(self)@
            }),
            !added ==> final(self)@ == old(self)@,
    {
        if !self.is_well_formed() {
            return false;
        }
        let total = self.encoded_width();
        if width < 1 || width > FIELD_WIDTH_MAX || total > u32::MAX - width
            || self.fields.len() >= u32::MAX as usize || name.len() > u32::MAX as usize {
            return false;
        }
        let ghost before = self@.fields;
        let field = FieldDesc::new(name, total, width);
        self.fields.push(field);
        proof {
            let after = self@.fields;
            assert(after =~= before.push(field@));
            assert(after.drop_last() =~= before);
            assert forall|i: int| 0 <= i < after.len() implies 1 <= (#[trigger] after[i]).width
                <= FIELD_WIDTH_MAX && after[i].offset as nat == fields_width(after.take(i)) by {
                if i < before.len() {
                    assert(after.take(i) =~= before.take(i));
                    assert(after[i] == before[i]);
                } else {
                    assert(after.take(i) =~= before);
                }
            }
            assert forall|i: int| 0 <= i < after.len() implies (#[trigger] after[i]).name.len()
                <= u32::MAX by {
                if i < before.len() {
                    assert(after[i] == before[i]);
                }
            }
        }
        true
    }

    /// Whether the fields are packed and all lengths fit 32 bits.
    pub fn is_well_formed(&self) -> (ok: bool)
        ensures
            ok == well_formed(self@),
    {
        if self.device_id.len() > u32::MAX as usize || self.fields.len() > u32::MAX as usize {
            return false;
        }
        let ghost fields = self@.fields;
        let mut end: u32 = 0;
        let mut i: usize = 0;
        while i < self.fields.len()
            invariant
                fields == self@.fields,
                fields.len() == self.fields@.len(),
                i <= fields.len(),
                end as nat == fields_width(fields.take(i as int)),
                forall|j: int|
                    0 <= j < i ==> 1 <= (#[trigger] fields[j]).width <= FIELD_WIDTH_MAX
                        && fields[j].offset as nat == fields_width(fields.take(j))
                        && fields[j].name.len() <= u32::MAX,
            decreases fields.len() - i,
        {
            let f = &self.fields[i];
            proof {
                assert(fields[i as int] == f@);
                lemma_fields_width_take(fields, i as int);
            }
            if f.width < 1 || f.width > FIELD_WIDTH_MAX || f.offset != end || f.name.len()
                > u32::MAX as usize || end > u32::MAX - f.width {
                return false;
            }
            end = end + f.width;
            i = i + 1;
        }
        assert(fields.take(i as int) =~= fields);
        true
    }

    /// The width of the record in bytes.
    pub fn encoded_width(&self) -> (w: u32)
        requires
            well_formed(self@),
        ensures
            w as nat == fields_width(self@.fields),
    {
        let n = self.fields.len();
        if n == 0 {
            0
        } else {
            let last = &self.fields[n - 1];
            proof {
                let fields = self@.fields;
                assert(fields[n - 1] == last@);
                lemma_fields_width_take(fields, n - 1);
                assert(fields.take(n as int) =~= fields);
            }
            last.offset + last.width
        }
    }

    /// Whether two descriptors name the same device, carry the same version
    /// and list the same fields.
    pub fn same_as(&self, other: &DeviceStateDesc) -> (same: bool)
        ensures
            same == (self@ == other@),
    {
        if self.version != other.version || self.fields.len() != other.fields.len() || !bytes_eq(
            self.device_id.as_slice(),
            other.device_id.as_slice(),
        ) {
            assert(self@.fields.len() != other@.fields.len() ==> self@ != other@);
            return false;
        }
        let mut i: usize = 0;
        while i < self.fields.len()
            invariant
                self.fields@.len() == other.fields@.len(),
                i <= self.fields@.len(),
                forall|j: int| 0 <= j < i ==> self@.fields[j] == other@.fields[j],
            decreases self.fields@.len() - i,
        {
            if !self.fields[i].same_as(&other.fields[i]) {
                assert(self@.fields[i as int] != other@.fields[i as int]);
                return false;
            }
            i = i + 1;
        }
        assert(self@.fields =~= other@.fields);
        true
    }

    /// A copy of the descriptor.
    pub fn duplicate(&self) -> (d: DeviceStateDesc)
        ensures
            d@ == self@,
    {
        let mut fields: Vec<FieldDesc> = Vec::new();
        let mut i: usize = 0;
        while i < self.fields.len()
            invariant
                i <= self.fields@.len(),
                fields@.len() == i,
                forall|j: int| 0 <= j < i ==> fields@[j]@ == self.fields@[j]@,
            decreases self.fields@.len() - i,
        {
            fields.push(self.fields[i].duplicate());
            i = i + 1;
        }
        let d = DeviceStateDesc {
            device_id: slice_to_vec(self.device_id.as_slice()),
            version: self.version,
            fields,
        };
        assert(d@.fields =~= self@.fields);
        d
    }
}

} // verus!
