//! Writing and reading the stream format.
//!
//! Writers append to a byte vector; readers take a byte slice and a position
//! and hand back what they read together with the position behind it. Each
//! is held to the functions of the stream format on byte strings.

use vstd::prelude::*;
use vstd::slice::{slice_subrange, slice_to_vec};
use crate::bytes::{lemma_le_val_bound, lemma_pow256_values, read_le, write_le};
use crate::descriptor::{fields_view, DeviceStateDesc, FieldDesc, FieldSpec};
use crate::error::MigrationError;
use crate::wire::{
    desc_fits, enc_bytes, enc_desc, enc_field, enc_fields, enc_frame, enc_header, enc_u32, enc_u64,
    frame_fits, parse_bytes, parse_desc, parse_field, parse_fields, parse_frame, parse_header,
    parse_u32, parse_u64, FrameSpec, HEADER_LEN, MAGIC, PROTOCOL_VERSION, TAG_DEVICE, TAG_END,
    TAG_MEMORY,
};

verus! {

/// One frame of a stream.
#[derive(Debug, PartialEq, Eq)]
pub enum Frame {
    /// A device's descriptor and the record of its state.
    Device { desc: DeviceStateDesc, payload: Vec<u8> },
    /// The content of guest memory from `base` on.
    Memory { base: u64, data: Vec<u8> },
    /// Nothing follows.
    End,
}

impl View for Frame {
    type V = FrameSpec;

    open spec fn view(&self) -> FrameSpec {
        match self {
            Frame::Device { desc, payload } => FrameSpec::Device {
                desc: desc@,
                payload: payload@,
            },
            Frame::Memory { base, data } => FrameSpec::Memory { base: *base, data: data@ },
            Frame::End => FrameSpec::End,
        }
    }
}

/// Appends `b` to `out`.
pub fn append_bytes(out: &mut Vec<u8>, b: &[u8])
    ensures
        final(out)@ == old(out)@ + b@,
{
    let mut i: usize = 0;
    while i < b.len()
        invariant
            i <= b@.len(),
            out@ == old(out)@ + b@.take(i as int),
        decreases b@.len() - i,
    {
        out.push(b[i]);
        assert(b@.take(i + 1) =~= b@.take(i as int).push(b@[i as int]));
        i = i + 1;
    }
    assert(b@.take(i as int) =~= b@);
}

/// Appends a number in four bytes.
pub fn put_u32(out: &mut Vec<u8>, v: u32)
    ensures
        final(out)@ == old(out)@ + enc_u32(v),
{
    write_le(out, v as u64, 4);
}

/// Appends a number in eight bytes.
pub fn put_u64(out: &mut Vec<u8>, v: u64)
    ensures
        final(out)@ == old(out)@ + enc_u64(v),
{
    write_le(out, v, 8);
}

/// Appends a byte string behind its length.
fn put_bytes(out: &mut Vec<u8>, b: &[u8])
    requires
        b@.len() <= u32::MAX,
    ensures
        final(out)@ == old(out)@ + enc_bytes(b@),
{
    put_u32(out, b.len() as u32);
    append_bytes(out, b);
    assert(out@ =~= old(out)@ + enc_bytes(b@));
}

/// Appends a field.
fn put_field(out: &mut Vec<u8>, f: &FieldDesc)
    requires
        f@.name.len() <= u32::MAX,
    ensures
        final(out)@ == old(out)@ + enc_field(f@),
{
    put_bytes(out, f.name.as_slice());
    put_u32(out, f.offset);
    put_u32(out, f.width);
    assert(out@ =~= old(out)@ + enc_field(f@));
}

/// Writing the fields one by one writes them all.
proof fn lemma_enc_fields_push(fields: Seq<FieldSpec>, i: int)
    requires
        0 <= i < fields.len(),
    ensures
        enc_fields(fields.take(i + 1)) == enc_fields(fields.take(i)) + enc_field(fields[i]),
    decreases i,
{
    let upto = fields.take(i + 1);
    if i == 0 {
        assert(upto.drop_first() =~= Seq::<FieldSpec>::empty());
        assert(enc_fields(upto.drop_first()) =~= Seq::<u8>::empty());
        assert(enc_fields(fields.take(0)) =~= Seq::<u8>::empty());
        assert(upto[0] == fields[0]);
        assert(enc_fields(upto) == enc_field(upto[0]) + enc_fields(upto.drop_first()));
        assert(enc_fields(upto) =~= enc_fields(fields.take(0)) + enc_field(fields[0]));
    } else {
        let tail = fields.drop_first();
        lemma_enc_fields_push(tail, i - 1);
        assert(upto.drop_first() =~= tail.take(i));
        assert(fields.take(i).drop_first() =~= tail.take(i - 1));
        assert(tail[i - 1] == fields[i]);
        assert(upto[0] == fields[0]);
        assert(fields.take(i)[0] == fields[0]);
        assert(enc_fields(upto) =~= enc_fields(fields.take(i)) + enc_field(fields[i]));
    }
}

/// Appends a descriptor.
fn put_desc(out: &mut Vec<u8>, d: &DeviceStateDesc)
    requires
        desc_fits(d@),
    ensures
        final(out)@ == old(out)@ + enc_desc(d@),
{
    put_bytes(out, d.device_id.as_slice());
    put_u32(out, d.version);
    put_u32(out, d.fields.len() as u32);
    let ghost head = out@;
    let ghost fields = d@.fields;
    let mut i: usize = 0;
    assert(enc_fields(fields.take(0)) =~= Seq::<u8>::empty());
    while i < d.fields.len()
        invariant
            fields == d@.fields,
            desc_fits(d@),
            i <= fields.len(),
            fields.len() == d.fields@.len(),
            out@ == head + enc_fields(fields.take(i as int)),
        decreases fields.len() - i,
    {
        let f = &d.fields[i];
        proof {
            assert(fields[i as int] == f@);
            lemma_enc_fields_push(fields, i as int);
        }
        put_field(out, f);
        assert(out@ =~= head + enc_fields(fields.take(i + 1)));
        i = i + 1;
    }
    assert(fields.take(i as int) =~= fields);
    assert(out@ =~= old(out)@ + enc_desc(d@));
}

impl DeviceStateDesc {
    /// Whether the lengths in the descriptor fit the 32 bits that the stream
    /// gives each of them.
    pub fn fits_stream(&self) -> (ok: bool)
        ensures
            ok == desc_fits(self@),
    {
        if self.device_id.len() > u32::MAX as usize || self.fields.len() > u32::MAX as usize {
            return false;
        }
        let mut i: usize = 0;
        while i < self.fields.len()
            invariant
                i <= self.fields@.len(),
                forall|j: int| 0 <= j < i ==> (#[trigger] self@.fields[j]).name.len() <= u32::MAX,
            decreases self.fields@.len() - i,
        {
            if self.fields[i].name.len() > u32::MAX as usize {
                assert(self@.fields[i as int].name.len() > u32::MAX);
                return false;
            }
            i = i + 1;
        }
        true
    }
}

impl Frame {
    /// Whether the lengths in the frame fit the bits that the stream gives
    /// them.
    pub fn fits_stream(&self) -> (ok: bool)
        ensures
            ok == frame_fits(self@),
    {
        match self {
            Frame::Device { desc, payload } => desc.fits_stream() && payload.len()
                <= u32::MAX as usize,
            Frame::Memory { base, data } => {
                assert(data@.len() == data.len());
                true
            },
            Frame::End => true,
        }
    }
}

/// Appends the header of a stream.
pub fn write_header(out: &mut Vec<u8>)
    ensures
        final(out)@ == old(out)@ + enc_header(),
{
    put_u32(out, MAGIC);
    put_u32(out, PROTOCOL_VERSION);
    assert(out@ =~= old(out)@ + enc_header());
}

/// Appends a frame. A frame with a length that the stream cannot hold is
/// refused as an invalid configuration, and nothing is written.
pub fn write_frame(out: &mut Vec<u8>, frame: &Frame) -> (r: Result<(), MigrationError>)
    ensures
        frame_fits(frame@) ==> r.is_ok() && final(out)@ == old(out)@ + enc_frame(frame@),
        !frame_fits(frame@) ==> r == Err::<(), MigrationError>(MigrationError::InvalidConfig)
            && final(out)@ == old(out)@,
{
    if !frame.fits_stream() {
        return Err(MigrationError::InvalidConfig);
    }
    match frame {
        Frame::Device { desc, payload } => {
            out.push(TAG_DEVICE);
            put_desc(out, desc);
            put_bytes(out, payload.as_slice());
        },
        Frame::Memory { base, data } => {
            out.push(TAG_MEMORY);
            put_u64(out, *base);
            put_u64(out, data.len() as u64);
            append_bytes(out, data.as_slice());
        },
        Frame::End => {
            out.push(TAG_END);
        },
    }
    assert(out@ =~= old(out)@ + enc_frame(frame@));
    Ok(())
}

/// What is left of `data` from `pos` on.
pub open spec fn from(data: Seq<u8>, pos: int) -> Seq<u8> {
    data.skip(pos)
}

/// A reader at `pos` found something or not, as `found` says, and where it
/// did, the value `value` and the position `next` behind it. This is what
/// the format asks for where reading the rest of `data` from `pos` on gives
/// `parsed`: something is found exactly where the format reads something,
/// and then the same value, with the same bytes left over.
pub open spec fn reads<T>(
    data: Seq<u8>,
    pos: usize,
    parsed: Option<(T, Seq<u8>)>,
    found: bool,
    value: T,
    next: usize,
) -> bool {
    &&& found == parsed.is_some()
    &&& found ==> value == parsed->Some_0.0 && pos <= next <= data.len() && from(data, next as int)
        == parsed->Some_0.1
}

/// Reads a number of four bytes at `pos`.
fn take_u32(data: &[u8], pos: usize) -> (r: Option<(u32, usize)>)
    requires
        pos <= data@.len(),
    ensures
        reads(
            data@,
            pos,
            parse_u32(from(data@, pos as int)),
            r.is_some(),
            r->Some_0.0,
            r->Some_0.1,
        ),
        r.is_some() ==> r->Some_0.1 == pos + 4,
{
    if data.len() - pos < 4 {
        return None;
    }
    let wide = read_le(data, pos, 4);
    proof {
        let part = data@.subrange(pos as int, pos + 4);
        assert(from(data@, pos as int).take(4) =~= part);
        assert(from(data@, pos as int).skip(4) =~= from(data@, pos + 4));
        lemma_le_val_bound(part);
        lemma_pow256_values();
    }
    Some((wide as u32, pos + 4))
}

/// Reads a number of eight bytes at `pos`.
fn take_u64(data: &[u8], pos: usize) -> (r: Option<(u64, usize)>)
    requires
        pos <= data@.len(),
    ensures
        reads(
            data@,
            pos,
            parse_u64(from(data@, pos as int)),
            r.is_some(),
            r->Some_0.0,
            r->Some_0.1,
        ),
        r.is_some() ==> r->Some_0.1 == pos + 8,
{
    if data.len() - pos < 8 {
        return None;
    }
    let wide = read_le(data, pos, 8);
    proof {
        let part = data@.subrange(pos as int, pos + 8);
        assert(from(data@, pos as int).take(8) =~= part);
        assert(from(data@, pos as int).skip(8) =~= from(data@, pos + 8));
    }
    Some((wide, pos + 8))
}

/// Reads a length and that many bytes at `pos`.
fn take_bytes(data: &[u8], pos: usize) -> (r: Option<(Vec<u8>, usize)>)
    requires
        pos <= data@.len(),
    ensures
        reads(
            data@,
            pos,
            parse_bytes(from(data@, pos as int)),
            r.is_some(),
            r->Some_0.0@,
            r->Some_0.1,
        ),
{
    let (n, start) = match take_u32(data, pos) {
        None => {
            return None;
        },
        Some(found) => found,
    };
    if data.len() - start < n as usize {
        return None;
    }
    let end: usize = start + n as usize;
    let b = slice_to_vec(slice_subrange(data, start, end));
    proof {
        assert(from(data@, start as int).take(n as int) =~= data@.subrange(
            start as int,
            end as int,
        ));
        assert(from(data@, start as int).skip(n as int) =~= from(data@, end as int));
    }
    Some((b, end))
}

/// Reads a field at `pos`.
fn take_field(data: &[u8], pos: usize) -> (r: Option<(FieldDesc, usize)>)
    requires
        pos <= data@.len(),
    ensures
        reads(
            data@,
            pos,
            parse_field(from(data@, pos as int)),
            r.is_some(),
            r->Some_0.0@,
            r->Some_0.1,
        ),
{
    let (name, pos1) = match take_bytes(data, pos) {
        None => {
            return None;
        },
        Some(found) => found,
    };
    let (offset, pos2) = match take_u32(data, pos1) {
        None => {
            return None;
        },
        Some(found) => found,
    };
    let (width, pos3) = match take_u32(data, pos2) {
        None => {
            return None;
        },
        Some(found) => found,
    };
    Some((FieldDesc { name, offset, width }, pos3))
}

/// Reads `count` fields at `pos`.
fn take_fields(data: &[u8], pos: usize, count: u32) -> (r: Option<(Vec<FieldDesc>, usize)>)
    requires
        pos <= data@.len(),
    ensures
        reads(
            data@,
            pos,
            parse_fields(from(data@, pos as int), count as nat),
            r.is_some(),
            fields_view(r->Some_0.0@),
            r->Some_0.1,
        ),
{
    let ghost goal = parse_fields(from(data@, pos as int), count as nat);
    let mut fields: Vec<FieldDesc> = Vec::new();
    let mut cur: usize = pos;
    let mut i: u32 = 0;
    assert(fields_view(fields@) =~= Seq::<FieldSpec>::empty());
    proof {
        match parse_fields(from(data@, cur as int), (count - i) as nat) {
            Some((fs, rest)) => {
                assert(fields_view(fields@) + fs =~= fs);
            },
            None => {},
        }
    }
    while i < count
        invariant
            goal == parse_fields(from(data@, pos as int), count as nat),
            pos <= cur <= data@.len(),
            i <= count,
            goal == (match parse_fields(from(data@, cur as int), (count - i) as nat) {
                Some((fs, rest)) => Some((fields_view(fields@) + fs, rest)),
                None => None,
            }),
        decreases count - i,
    {
        let ghost acc = fields_view(fields@);
        match take_field(data, cur) {
            None => {
                return None;
            },
            Some((f, next)) => {
                fields.push(f);
                proof {
                    let there = from(data@, next as int);
                    assert(fields_view(fields@) =~= acc.push(f@));
                    match parse_fields(there, (count - i - 1) as nat) {
                        Some((fs, rest)) => {
                            assert(acc + (seq![f@] + fs) =~= acc.push(f@) + fs);
                        },
                        None => {},
                    }
                }
                cur = next;
                i = i + 1;
            },
        }
    }
    proof {
        assert(fields_view(fields@) + Seq::<FieldSpec>::empty() =~= fields_view(fields@));
    }
    Some((fields, cur))
}

/// Reads a descriptor at `pos`.
fn take_desc(data: &[u8], pos: usize) -> (r: Option<(DeviceStateDesc, usize)>)
    requires
        pos <= data@.len(),
    ensures
        reads(
            data@,
            pos,
            parse_desc(from(data@, pos as int)),
            r.is_some(),
            r->Some_0.0@,
            r->Some_0.1,
        ),
{
    let (device_id, pos1) = match take_bytes(data, pos) {
        None => {
            return None;
        },
        Some(found) => found,
    };
    let (version, pos2) = match take_u32(data, pos1) {
        None => {
            return None;
        },
        Some(found) => found,
    };
    let (count, pos3) = match take_u32(data, pos2) {
        None => {
            return None;
        },
        Some(found) => found,
    };
    let (fields, pos4) = match take_fields(data, pos3, count) {
        None => {
            return None;
        },
        Some(found) => found,
    };
    Some((DeviceStateDesc { device_id, version, fields }, pos4))
}

/// Reads the header at the front of `data`. The result is the position
/// behind it; data that does not begin with the magic number and the
/// protocol version of this format is refused as corrupt.
pub fn read_header(data: &[u8]) -> (r: Result<usize, MigrationError>)
    ensures
        match parse_header(data@) {
            Some(rest) => r == Ok::<usize, MigrationError>(HEADER_LEN) && HEADER_LEN
                <= data@.len() && from(data@, HEADER_LEN as int) == rest,
            None => r == Err::<usize, MigrationError>(MigrationError::Corrupt),
        },
{
    assert(from(data@, 0) =~= data@);
    let (magic, pos1) = match take_u32(data, 0) {
        None => {
            return Err(MigrationError::Corrupt);
        },
        Some(found) => found,
    };
    let (version, pos2) = match take_u32(data, pos1) {
        None => {
            return Err(MigrationError::Corrupt);
        },
        Some(found) => found,
    };
    if magic != MAGIC || version != PROTOCOL_VERSION {
        return Err(MigrationError::Corrupt);
    }
    Ok(pos2)
}

/// Reads the frame at `pos`. The result is the frame and the position
/// behind it; bytes that are no frame, or end before the frame does, are
/// refused as corrupt.
pub fn read_frame(data: &[u8], pos: usize) -> (r: Result<(Frame, usize), MigrationError>)
    requires
        pos <= data@.len(),
    ensures
        match parse_frame(from(data@, pos as int)) {
            Some((f, rest)) => r.is_ok() && r->Ok_0.0@ == f && pos < r->Ok_0.1 <= data@.len()
                && from(data@, r->Ok_0.1 as int) == rest,
            None => r == Err::<(Frame, usize), MigrationError>(MigrationError::Corrupt),
        },
{
    if pos >= data.len() {
        return Err(MigrationError::Corrupt);
    }
    let tag = data[pos];
    let body: usize = pos + 1;
    proof {
        assert(from(data@, pos as int)[0] == tag);
        assert(from(data@, pos as int).skip(1) =~= from(data@, body as int));
    }
    if tag == TAG_DEVICE {
        let (desc, pos1) = match take_desc(data, body) {
            None => {
                return Err(MigrationError::Corrupt);
            },
            Some(found) => found,
        };
        let (payload, pos2) = match take_bytes(data, pos1) {
            None => {
                return Err(MigrationError::Corrupt);
            },
            Some(found) => found,
        };
        Ok((Frame::Device { desc, payload }, pos2))
    } else if tag == TAG_MEMORY {
        let (base, pos1) = match take_u64(data, body) {
            None => {
                return Err(MigrationError::Corrupt);
            },
            Some(found) => found,
        };
        let (len, pos2) = match take_u64(data, pos1) {
            None => {
                return Err(MigrationError::Corrupt);
            },
            Some(found) => found,
        };
        if ((data.len() - pos2) as u64) < len {
            return Err(MigrationError::Corrupt);
        }
        let end: usize = pos2 + len as usize;
        let content = slice_to_vec(slice_subrange(data, pos2, end));
        proof {
            assert(from(data@, pos2 as int).take(len as int) =~= data@.subrange(
                pos2 as int,
                end as int,
            ));
            assert(from(data@, pos2 as int).skip(len as int) =~= from(data@, end as int));
        }
        Ok((Frame::Memory { base, data: content }, end))
    } else if tag == TAG_END {
        Ok((Frame::End, body))
    } else {
        Err(MigrationError::Corrupt)
    }
}

} // verus!
