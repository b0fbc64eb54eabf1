//! The stream format, as functions on byte strings.
//!
//! A stream is a header, then one frame after the other, the last of them
//! the end marker. All numbers are little-endian.
//!
//! ```text
//! header        magic (4) | protocol version (4)
//! device frame  1 | descriptor | payload length (4) | payload
//! memory frame  2 | base address (8) | length (8) | payload
//! end marker    255
//! descriptor    device id | version (4) | field count (4) | fields
//! field         name | offset (4) | width (4)
//! id, name      length (4) | bytes
//! ```

use vstd::prelude::*;
use crate::bytes::{
    le_enc, le_val, lemma_le_enc_of_val, lemma_le_roundtrip, lemma_le_val_bound,
    lemma_pow256_values,
};
use crate::descriptor::{DescSpec, FieldSpec};

verus! {

/// The four bytes with which every stream begins, as one number.
pub const MAGIC: u32 = 0x4e53_4d56;

/// The version of the stream format.
pub const PROTOCOL_VERSION: u32 = 1;

/// The length of the header in bytes.
pub const HEADER_LEN: usize = 8;

/// The first byte of a device frame.
pub const TAG_DEVICE: u8 = 1;

/// The first byte of a memory frame.
pub const TAG_MEMORY: u8 = 2;

/// The end marker.
pub const TAG_END: u8 = 255;

/// One frame of a stream.
pub enum FrameSpec {
    /// A device's descriptor and the record of its state.
    Device { desc: DescSpec, payload: Seq<u8> },
    /// The content of guest memory from `base` on.
    Memory { base: u64, data: Seq<u8> },
    /// Nothing follows.
    End,
}

/// A number in four bytes.
pub open spec fn enc_u32(v: u32) -> Seq<u8> {
    le_enc(v as nat, 4)
}

/// A number in eight bytes.
pub open spec fn enc_u64(v: u64) -> Seq<u8> {
    le_enc(v as nat, 8)
}

/// A byte string behind its length.
pub open spec fn enc_bytes(b: Seq<u8>) -> Seq<u8> {
    enc_u32(b.len() as u32) + b
}

/// A field: name, offset, width.
pub open spec fn enc_field(f: FieldSpec) -> Seq<u8> {
    enc_bytes(f.name) + enc_u32(f.offset) + enc_u32(f.width)
}

/// The fields one behind the other.
pub open spec fn enc_fields(fields: Seq<FieldSpec>) -> Seq<u8>
    decreases fields.len(),
{
    if fields.len() == 0 {
        Seq::<u8>::empty()
    } else {
        enc_field(fields[0]) + enc_fields(fields.drop_first())
    }
}

/// A descriptor: device identifier, version, number of fields, fields.
pub open spec fn enc_desc(d: DescSpec) -> Seq<u8> {
    enc_bytes(d.device_id) + enc_u32(d.version) + enc_u32(d.fields.len() as u32) + enc_fields(
        d.fields,
    )
}

/// The header of a stream.
pub open spec fn enc_header() -> Seq<u8> {
    enc_u32(MAGIC) + enc_u32(PROTOCOL_VERSION)
}

/// A frame behind its tag.
pub open spec fn enc_frame(f: FrameSpec) -> Seq<u8> {
    match f {
        FrameSpec::Device { desc, payload } => seq![TAG_DEVICE] + enc_desc(desc) + enc_bytes(
            payload,
        ),
        FrameSpec::Memory { base, data } => seq![TAG_MEMORY] + enc_u64(base) + enc_u64(
            data.len() as u64,
        ) + data,
        FrameSpec::End => seq![TAG_END],
    }
}

/// The lengths in a descriptor fit the 32 bits that the stream gives them.
pub open spec fn desc_fits(d: DescSpec) -> bool {
    &&& d.device_id.len() <= u32::MAX
    &&& d.fields.len() <= u32::MAX
    &&& forall|i: int| 0 <= i < d.fields.len() ==> (#[trigger] d.fields[i]).name.len() <= u32::MAX
}

/// The lengths in a frame fit the bits that the stream gives them.
pub open spec fn frame_fits(f: FrameSpec) -> bool {
    match f {
        FrameSpec::Device { desc, payload } => desc_fits(desc) && payload.len() <= u32::MAX,
        FrameSpec::Memory { base, data } => data.len() <= u64::MAX,
        FrameSpec::End => true,
    }
}

/// Reads a number of four bytes from the front of `s`.
pub open spec fn parse_u32(s: Seq<u8>) -> Option<(u32, Seq<u8>)> {
    if s.len() >= 4 {
        Some((le_val(s.take(4)) as u32, s.skip(4)))
    } else {
        None
    }
}

/// Reads a number of eight bytes from the front of `s`.
pub open spec fn parse_u64(s: Seq<u8>) -> Option<(u64, Seq<u8>)> {
    if s.len() >= 8 {
        Some((le_val(s.take(8)) as u64, s.skip(8)))
    } else {
        None
    }
}

/// Reads a length and that many bytes from the front of `s`.
pub open spec fn parse_bytes(s: Seq<u8>) -> Option<(Seq<u8>, Seq<u8>)> {
    match parse_u32(s) {
        Some((n, rest)) => if rest.len() >= n {
            Some((rest.take(n as int), rest.skip(n as int)))
        } else {
            None
        },
        None => None,
    }
}

/// Reads a field from the front of `s`.
pub open spec fn parse_field(s: Seq<u8>) -> Option<(FieldSpec, Seq<u8>)> {
    match parse_bytes(s) {
        Some((name, r1)) => match parse_u32(r1) {
            Some((offset, r2)) => match parse_u32(r2) {
                Some((width, r3)) => Some((FieldSpec { name, offset, width }, r3)),
                None => None,
            },
            None => None,
        },
        None => None,
    }
}

/// Reads `count` fields from the front of `s`.
pub open spec fn parse_fields(s: Seq<u8>, count: nat) -> Option<(Seq<FieldSpec>, Seq<u8>)>
    decreases count,
{
    if count == 0 {
        Some((Seq::<FieldSpec>::empty(), s))
    } else {
        match parse_field(s) {
            Some((f, r1)) => match parse_fields(r1, (count - 1) as nat) {
                Some((fs, r2)) => Some((seq![f] + fs, r2)),
                None => None,
            },
            None => None,
        }
    }
}

/// Reads a descriptor from the front of `s`.
pub open spec fn parse_desc(s: Seq<u8>) -> Option<(DescSpec, Seq<u8>)> {
    match parse_bytes(s) {
        Some((device_id, r1)) => match parse_u32(r1) {
            Some((version, r2)) => match parse_u32(r2) {
                Some((count, r3)) => match parse_fields(r3, count as nat) {
                    Some((fields, r4)) => Some((DescSpec { device_id, version, fields }, r4)),
                    None => None,
                },
                None => None,
            },
            None => None,
        },
        None => None,
    }
}

/// Whether `s` begins with the header of this format and version.
pub open spec fn parse_header(s: Seq<u8>) -> Option<Seq<u8>> {
    match parse_u32(s) {
        Some((magic, r1)) => match parse_u32(r1) {
            Some((version, r2)) => if magic == MAGIC && version == PROTOCOL_VERSION {
                Some(r2)
            } else {
                None
            },
            None => None,
        },
        None => None,
    }
}

/// Reads the body of a device frame.
pub open spec fn parse_device(s: Seq<u8>) -> Option<(FrameSpec, Seq<u8>)> {
    match parse_desc(s) {
        Some((desc, r1)) => match parse_bytes(r1) {
            Some((payload, r2)) => Some((FrameSpec::Device { desc, payload }, r2)),
            None => None,
        },
        None => None,
    }
}

/// Reads the body of a memory frame.
pub open spec fn parse_memory(s: Seq<u8>) -> Option<(FrameSpec, Seq<u8>)> {
    match parse_u64(s) {
        Some((base, r1)) => match parse_u64(r1) {
            Some((len, r2)) => if r2.len() >= len {
                Some((FrameSpec::Memory { base, data: r2.take(len as int) }, r2.skip(len as int)))
            } else {
                None
            },
            None => None,
        },
        None => None,
    }
}

/// Reads a frame from the front of `s`.
pub open spec fn parse_frame(s: Seq<u8>) -> Option<(FrameSpec, Seq<u8>)> {
    if s.len() == 0 {
        None
    } else if s[0] == TAG_DEVICE {
        parse_device(s.skip(1))
    } else if s[0] == TAG_MEMORY {
        parse_memory(s.skip(1))
    } else if s[0] == TAG_END {
        Some((FrameSpec::End, s.skip(1)))
    } else {
        None
    }
}

/// A number of four bytes is read back, and what follows it is left.
pub proof fn lemma_parse_u32(v: u32, rest: Seq<u8>)
    ensures
        parse_u32(enc_u32(v) + rest) == Some((v, rest)),
        enc_u32(v).len() == 4,
{
    let s = enc_u32(v) + rest;
    lemma_pow256_values();
    lemma_le_roundtrip(v as nat, 4);
    assert(s.take(4) =~= enc_u32(v));
    assert(s.skip(4) =~= rest);
}

/// A number of eight bytes is read back, and what follows it is left.
pub proof fn lemma_parse_u64(v: u64, rest: Seq<u8>)
    ensures
        parse_u64(enc_u64(v) + rest) == Some((v, rest)),
        enc_u64(v).len() == 8,
{
    let s = enc_u64(v) + rest;
    lemma_pow256_values();
    lemma_le_roundtrip(v as nat, 8);
    assert(s.take(8) =~= enc_u64(v));
    assert(s.skip(8) =~= rest);
}

/// A byte string is read back, and what follows it is left.
pub proof fn lemma_parse_bytes(b: Seq<u8>, rest: Seq<u8>)
    requires
        b.len() <= u32::MAX,
    ensures
        parse_bytes(enc_bytes(b) + rest) == Some((b, rest)),
{
    let s = enc_bytes(b) + rest;
    assert(s =~= enc_u32(b.len() as u32) + (b + rest));
    lemma_parse_u32(b.len() as u32, b + rest);
    assert((b + rest).take(b.len() as int) =~= b);
    assert((b + rest).skip(b.len() as int) =~= rest);
}

/// A field is read back, and what follows it is left.
pub proof fn lemma_parse_field(f: FieldSpec, rest: Seq<u8>)
    requires
        f.name.len() <= u32::MAX,
    ensures
        parse_field(enc_field(f) + rest) == Some((f, rest)),
{
    let s = enc_field(f) + rest;
    let r2 = enc_u32(f.width) + rest;
    let r1 = enc_u32(f.offset) + r2;
    assert(s =~= enc_bytes(f.name) + r1);
    lemma_parse_bytes(f.name, r1);
    lemma_parse_u32(f.offset, r2);
    lemma_parse_u32(f.width, rest);
}

/// Fields are read back, and what follows them is left.
pub proof fn lemma_parse_fields(fields: Seq<FieldSpec>, rest: Seq<u8>)
    requires
        forall|i: int| 0 <= i < fields.len() ==> (#[trigger] fields[i]).name.len() <= u32::MAX,
    ensures
        parse_fields(enc_fields(fields) + rest, fields.len()) == Some((fields, rest)),
    decreases fields.len(),
{
    if fields.len() == 0 {
        assert(enc_fields(fields) + rest =~= rest);
    } else {
        let tail = fields.drop_first();
        let r1 = enc_fields(tail) + rest;
        assert(enc_fields(fields) + rest =~= enc_field(fields[0]) + r1);
        lemma_parse_field(fields[0], r1);
        assert forall|i: int| 0 <= i < tail.len() implies (#[trigger] tail[i]).name.len()
            <= u32::MAX by {
            assert(tail[i] == fields[i + 1]);
        }
        lemma_parse_fields(tail, rest);
        assert(seq![fields[0]] + tail =~= fields);
    }
}

/// A descriptor is read back, and what follows it is left.
pub proof fn lemma_parse_desc(d: DescSpec, rest: Seq<u8>)
    requires
        desc_fits(d),
    ensures
        parse_desc(enc_desc(d) + rest) == Some((d, rest)),
{
    let r3 = enc_fields(d.fields) + rest;
    let r2 = enc_u32(d.fields.len() as u32) + r3;
    let r1 = enc_u32(d.version) + r2;
    assert(enc_desc(d) + rest =~= enc_bytes(d.device_id) + r1);
    lemma_parse_bytes(d.device_id, r1);
    lemma_parse_u32(d.version, r2);
    lemma_parse_u32(d.fields.len() as u32, r3);
    lemma_parse_fields(d.fields, rest);
}

/// The header is read back, and what follows it is left.
pub proof fn lemma_parse_header(rest: Seq<u8>)
    ensures
        parse_header(enc_header() + rest) == Some(rest),
        enc_header().len() == HEADER_LEN,
{
    let r1 = enc_u32(PROTOCOL_VERSION) + rest;
    assert(enc_header() + rest =~= enc_u32(MAGIC) + r1);
    lemma_parse_u32(MAGIC, r1);
    lemma_parse_u32(PROTOCOL_VERSION, rest);
}

/// A frame is read back, and what follows it is left.
pub proof fn lemma_parse_frame(f: FrameSpec, rest: Seq<u8>)
    requires
        frame_fits(f),
    ensures
        parse_frame(enc_frame(f) + rest) == Some((f, rest)),
{
    let s = enc_frame(f) + rest;
    match f {
        FrameSpec::Device { desc, payload } => {
            let r1 = enc_bytes(payload) + rest;
            assert(s.skip(1) =~= enc_desc(desc) + r1);
            assert(s[0] == TAG_DEVICE);
            lemma_parse_desc(desc, r1);
            lemma_parse_bytes(payload, rest);
        },
        FrameSpec::Memory { base, data } => {
            let r2 = data + rest;
            let r1 = enc_u64(data.len() as u64) + r2;
            assert(s.skip(1) =~= enc_u64(base) + r1);
            assert(s[0] == TAG_MEMORY);
            lemma_parse_u64(base, r1);
            lemma_parse_u64(data.len() as u64, r2);
            assert(r2.take(data.len() as int) =~= data);
            assert(r2.skip(data.len() as int) =~= rest);
        },
        FrameSpec::End => {
            assert(s[0] == TAG_END);
            assert(s.skip(1) =~= rest);
        },
    }
}

/// What is read as a number of four bytes is that number's encoding.
pub proof fn lemma_u32_canonical(s: Seq<u8>)
    requires
        parse_u32(s).is_some(),
    ensures
        s == enc_u32(parse_u32(s)->Some_0.0) + parse_u32(s)->Some_0.1,
{
    let head = s.take(4);
    lemma_le_val_bound(head);
    lemma_pow256_values();
    lemma_le_enc_of_val(head);
    assert(s =~= head + s.skip(4));
}

/// What is read as a number of eight bytes is that number's encoding.
pub proof fn lemma_u64_canonical(s: Seq<u8>)
    requires
        parse_u64(s).is_some(),
    ensures
        s == enc_u64(parse_u64(s)->Some_0.0) + parse_u64(s)->Some_0.1,
{
    let head = s.take(8);
    lemma_le_val_bound(head);
    lemma_pow256_values();
    lemma_le_enc_of_val(head);
    assert(s =~= head + s.skip(8));
}

/// What is read as a byte string is that string's encoding.
pub proof fn lemma_bytes_canonical(s: Seq<u8>)
    requires
        parse_bytes(s).is_some(),
    ensures
        s == enc_bytes(parse_bytes(s)->Some_0.0) + parse_bytes(s)->Some_0.1,
        parse_bytes(s)->Some_0.0.len() <= u32::MAX,
        parse_bytes(s)->Some_0.1.len() < s.len(),
{
    lemma_u32_canonical(s);
    lemma_parse_u32(parse_u32(s)->Some_0.0, parse_u32(s)->Some_0.1);
    let n = parse_u32(s)->Some_0.0;
    let r1 = parse_u32(s)->Some_0.1;
    let b = r1.take(n as int);
    assert(r1 =~= b + r1.skip(n as int));
    assert(s =~= enc_bytes(b) + r1.skip(n as int));
}

/// What is read as a field is that field's encoding.
pub proof fn lemma_field_canonical(s: Seq<u8>)
    requires
        parse_field(s).is_some(),
    ensures
        s == enc_field(parse_field(s)->Some_0.0) + parse_field(s)->Some_0.1,
        parse_field(s)->Some_0.0.name.len() <= u32::MAX,
        parse_field(s)->Some_0.1.len() < s.len(),
{
    let r1 = parse_bytes(s)->Some_0.1;
    let r2 = parse_u32(r1)->Some_0.1;
    let r3 = parse_u32(r2)->Some_0.1;
    lemma_bytes_canonical(s);
    lemma_u32_canonical(r1);
    lemma_u32_canonical(r2);
    let f = parse_field(s)->Some_0.0;
    assert(s =~= enc_field(f) + r3);
}

/// What is read as `count` fields is the encoding of those fields.
pub proof fn lemma_fields_canonical(s: Seq<u8>, count: nat)
    requires
        parse_fields(s, count).is_some(),
    ensures
        s == enc_fields(parse_fields(s, count)->Some_0.0) + parse_fields(s, count)->Some_0.1,
        parse_fields(s, count)->Some_0.0.len() == count,
        parse_fields(s, count)->Some_0.1.len() <= s.len(),
    decreases count,
{
    if count == 0 {
        assert(enc_fields(Seq::<FieldSpec>::empty()) + s =~= s);
    } else {
        let f = parse_field(s)->Some_0.0;
        let r1 = parse_field(s)->Some_0.1;
        let fs = parse_fields(r1, (count - 1) as nat)->Some_0.0;
        let r2 = parse_fields(r1, (count - 1) as nat)->Some_0.1;
        lemma_field_canonical(s);
        lemma_fields_canonical(r1, (count - 1) as nat);
        let all = seq![f] + fs;
        assert(all.drop_first() =~= fs);
        assert(all[0] == f);
        assert(enc_fields(all) == enc_field(f) + enc_fields(fs));
        assert(s =~= enc_fields(all) + r2);
    }
}

/// What is read as a descriptor is that descriptor's encoding.
pub proof fn lemma_desc_canonical(s: Seq<u8>)
    requires
        parse_desc(s).is_some(),
    ensures
        s == enc_desc(parse_desc(s)->Some_0.0) + parse_desc(s)->Some_0.1,
        parse_desc(s)->Some_0.1.len() < s.len(),
{
    let r1 = parse_bytes(s)->Some_0.1;
    let r2 = parse_u32(r1)->Some_0.1;
    let count = parse_u32(r2)->Some_0.0;
    let r3 = parse_u32(r2)->Some_0.1;
    let r4 = parse_fields(r3, count as nat)->Some_0.1;
    lemma_bytes_canonical(s);
    lemma_u32_canonical(r1);
    lemma_u32_canonical(r2);
    lemma_fields_canonical(r3, count as nat);
    let d = parse_desc(s)->Some_0.0;
    assert(d.fields.len() == count);
    assert(s =~= enc_desc(d) + r4);
}

/// What is read as a frame is that frame's encoding, so a stream has one
/// reading only, and reading a frame always moves on.
pub proof fn lemma_frame_canonical(s: Seq<u8>)
    requires
        parse_frame(s).is_some(),
    ensures
        s == enc_frame(parse_frame(s)->Some_0.0) + parse_frame(s)->Some_0.1,
        parse_frame(s)->Some_0.1.len() < s.len(),
{
    let body = s.skip(1);
    let f = parse_frame(s)->Some_0.0;
    let rest = parse_frame(s)->Some_0.1;
    assert(s =~= seq![s[0]] + body);
    if s[0] == TAG_DEVICE {
        let r1 = parse_desc(body)->Some_0.1;
        lemma_desc_canonical(body);
        lemma_bytes_canonical(r1);
        assert(s =~= enc_frame(f) + rest);
    } else if s[0] == TAG_MEMORY {
        let r1 = parse_u64(body)->Some_0.1;
        let len = parse_u64(r1)->Some_0.0;
        let r2 = parse_u64(r1)->Some_0.1;
        lemma_u64_canonical(body);
        lemma_u64_canonical(r1);
        assert(r2 =~= r2.take(len as int) + r2.skip(len as int));
        assert(s =~= enc_frame(f) + rest);
    } else {
        assert(s =~= enc_frame(f) + rest);
    }
}

} // verus!
