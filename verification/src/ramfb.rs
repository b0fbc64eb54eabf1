//! The frame buffer that a guest configures through the firmware
//! configuration device.
//!
//! The guest writes a record of 28 bytes, big-endian: the address of the
//! frame buffer (8 bytes), the pixel format as a four-character code (4),
//! flags (4), width (4), height (4) and line stride in bytes (4). From
//! that record the library derives the display surface to create and the
//! area to refresh. Creating the surface over guest memory is left to the
//! caller.

use vstd::prelude::*;
use crate::bytes::{be_val, read_be};

verus! {

/// The length of a configuration record in bytes.
pub const RAMFB_CFG_SIZE: usize = 28;

/// The number of bits in a byte, by which bits per pixel turn into bytes.
pub const BYTES_PER_PIXELS: u32 = 8;

/// The widest surface that is supported.
pub const WIDTH_MAX: u32 = 16_000;

/// The highest surface that is supported.
pub const HEIGHT_MAX: u32 = 12_000;

/// The narrowest and lowest surface that is supported.
pub const SIDE_MIN: u32 = 16;

/// The four-character code of the one pixel format that is supported:
/// 32 bits per pixel, of which red, green and blue take 8 each.
pub const FOURCC_XRGB8888: u32 = 875713112;

/// A configuration record as the guest wrote it.
#[derive(Clone, Copy, Debug, PartialEq, Eq, Structural)]
pub struct RamfbCfg {
    /// Guest physical address of the frame buffer.
    pub addr: u64,
    /// Pixel format, as a four-character code.
    pub fourcc: u32,
    /// Flags; none is defined.
    pub flags: u32,
    /// Width in pixels.
    pub width: u32,
    /// Height in pixels.
    pub height: u32,
    /// Length of a line in bytes, or 0 to have it derived from the width.
    pub stride: u32,
}

/// The pixel formats in which a surface can be created.
#[derive(Clone, Copy, Debug, PartialEq, Eq, Structural)]
pub enum PixelFormat {
    /// 32 bits per pixel: 8 unused, then 8 each of red, green and blue.
    X8R8G8B8,
}

/// Why a configuration record was not taken.
#[derive(Clone, Copy, Debug, PartialEq, Eq, Structural)]
pub enum RamfbError {
    /// The record has fewer than 28 bytes.
    ShortConfig,
    /// The record names a pixel format other than the supported one.
    UnsupportedFormat { fourcc: u32 },
}

/// The display surface to create over guest memory.
#[derive(Clone, Copy, Debug, PartialEq, Eq, Structural)]
pub struct SurfaceRequest {
    /// Width in pixels.
    pub width: u32,
    /// Height in pixels.
    pub height: u32,
    /// Pixel format.
    pub format: PixelFormat,
    /// Length of a line in bytes.
    pub stride: u32,
    /// Guest physical address of the first pixel.
    pub addr: u64,
    /// Whether width and height lie within the supported bounds. A surface
    /// outside them is reported and still created.
    pub supported: bool,
}

/// The part of the display that the frame buffer covers.
pub struct RamfbInterface {
    width: i32,
    height: i32,
}

/// The big-endian number in the `n` bytes of `data` from `at` on.
pub open spec fn field_at(data: Seq<u8>, at: int, n: int) -> nat {
    be_val(data.subrange(at, at + n))
}

/// The record that the first 28 bytes of `data` spell.
pub open spec fn cfg_of(data: Seq<u8>) -> RamfbCfg {
    RamfbCfg {
        addr: field_at(data, 0, 8) as u64,
        fourcc: field_at(data, 8, 4) as u32,
        flags: field_at(data, 12, 4) as u32,
        width: field_at(data, 16, 4) as u32,
        height: field_at(data, 20, 4) as u32,
        stride: field_at(data, 24, 4) as u32,
    }
}

/// The pixel format that a four-character code names, if it is supported.
pub open spec fn format_of(fourcc: u32) -> Option<PixelFormat> {
    if fourcc == FOURCC_XRGB8888 {
        Some(PixelFormat::X8R8G8B8)
    } else {
        None
    }
}

/// The number of bits that a pixel takes in a format.
pub open spec fn bits_per_pixel(format: PixelFormat) -> nat {
    match format {
        PixelFormat::X8R8G8B8 => 32,
    }
}

/// Whether a surface of this size is supported.
pub open spec fn resolution_ok(width: u32, height: u32) -> bool {
    SIDE_MIN <= width <= WIDTH_MAX && SIDE_MIN <= height <= HEIGHT_MAX
}

/// The length of a line of `width` pixels in bytes. The number of bits is
/// taken modulo 2^32, as arithmetic on 32 bits gives it.
pub open spec fn line_size(width: u32, format: PixelFormat) -> nat {
    ((width * bits_per_pixel(format)) % 0x1_0000_0000) as nat / (BYTES_PER_PIXELS as nat)
}

/// The stride of a surface: the one given, or the line size where 0 was
/// given.
pub open spec fn stride_of(width: u32, format: PixelFormat, stride: u32) -> nat {
    if stride == 0 {
        line_size(width, format)
    } else {
        stride as nat
    }
}

/// The surface to create for a size, a format, a stride and an address.
pub open spec fn surface_of(
    width: u32,
    height: u32,
    format: PixelFormat,
    stride: u32,
    addr: u64,
) -> SurfaceRequest {
    SurfaceRequest {
        width,
        height,
        format,
        stride: stride_of(width, format, stride) as u32,
        addr,
        supported: resolution_ok(width, height),
    }
}

/// An unsigned 32-bit number read as a signed one of the same bits.
pub open spec fn as_signed(v: u32) -> int {
    if v < 0x8000_0000 {
        v as int
    } else {
        v - 0x1_0000_0000
    }
}

/// What a write of `data` by the guest asks for: an error for a short record
/// or an unsupported pixel format, else the surface that the record
/// describes.
pub open spec fn requested_surface(data: Seq<u8>) -> Result<SurfaceRequest, RamfbError> {
    let cfg = cfg_of(data);
    if data.len() < RAMFB_CFG_SIZE {
        Err(RamfbError::ShortConfig)
    } else {
        match format_of(cfg.fourcc) {
            None => Err(RamfbError::UnsupportedFormat { fourcc: cfg.fourcc }),
            Some(format) => Ok(
                surface_of(cfg.width, cfg.height, format, cfg.stride, cfg.addr),
            ),
        }
    }
}

/// `drm_fourcc::DrmFourcc::Xrgb8888` as the 32-bit code that the enum gives
/// the variant. The contract claims that this code is 875713112 (the
/// characters `XR24`).
#[verifier::external_body]
fn xrgb8888_code() -> (code: u32)
    ensures
        code == FOURCC_XRGB8888,
{
    drm_fourcc::DrmFourcc::Xrgb8888 as u32
}

/// Reads four big-endian bytes of a record.
fn read_u32_field(data: &[u8], at: usize) -> (v: u32)
    requires
        at + 4 <= data@.len(),
    ensures
        v == field_at(data@, at as int, 4) as u32,
        v as nat == field_at(data@, at as int, 4),
{
    let wide: u64 = read_be(data, at, 4);
    proof {
        crate::bytes::lemma_be_val_bound(data@.subrange(at as int, at + 4));
        crate::bytes::lemma_pow256_values();
    }
    wide as u32
}

impl PixelFormat {
    /// The number of bits that a pixel takes.
    pub fn bpp(self) -> (bits: u32)
        ensures
            bits as nat == bits_per_pixel(self),
    {
        match self {
            PixelFormat::X8R8G8B8 => 32,
        }
    }

    /// The format that a four-character code names; `None` for any code but
    /// that of the supported format.
    pub fn from_fourcc(fourcc: u32) -> (format: Option<PixelFormat>)
        ensures
            format == format_of(fourcc),
    {
        if fourcc == xrgb8888_code() {
            Some(PixelFormat::X8R8G8B8)
        } else {
            None
        }
    }
}

impl RamfbCfg {
    /// Reads a record from the bytes that the guest wrote; `None` where
    /// there are fewer than 28.
    pub fn parse(data: &[u8]) -> (cfg: Option<RamfbCfg>)
        ensures
            data@.len() < RAMFB_CFG_SIZE ==> cfg.is_none(),
            data@.len() >= RAMFB_CFG_SIZE ==> cfg == Some(cfg_of(data@)),
    {
        if data.len() < RAMFB_CFG_SIZE {
            return None;
        }
        let addr: u64 = read_be(data, 0, 8);
        let fourcc: u32 = read_u32_field(data, 8);
        let flags: u32 = read_u32_field(data, 12);
        let width: u32 = read_u32_field(data, 16);
        let height: u32 = read_u32_field(data, 20);
        let stride: u32 = read_u32_field(data, 24);
        Some(RamfbCfg { addr, fourcc, flags, width, height, stride })
    }
}

impl SurfaceRequest {
    /// Whether a surface of this size is supported: each side at least 16,
    /// the width at most 16000 and the height at most 12000.
    pub fn resolution_supported(width: u32, height: u32) -> (ok: bool)
        ensures
            ok == resolution_ok(width, height),
    {
        !(width < SIDE_MIN || height < SIDE_MIN || width > WIDTH_MAX || height > HEIGHT_MAX)
    }

    /// The surface to create: the stride is derived from the width where 0
    /// was given, and the size is held against the supported bounds.
    pub fn create_display_surface(
        width: u32,
        height: u32,
        format: PixelFormat,
        stride: u32,
        addr: u64,
    ) -> (surface: SurfaceRequest)
        ensures
            surface == surface_of(width, height, format, stride, addr),
            surface.stride as nat == stride_of(width, format, stride),
    {
        let supported = SurfaceRequest::resolution_supported(width, height);
        let mut line: u32 = stride;
        if stride == 0 {
            let bpp: u32 = format.bpp();
            assert(width * bpp <= u64::MAX) by (nonlinear_arith)
                requires
                    width <= u32::MAX,
                    bpp <= u32::MAX,
            ;
            let bits: u64 = (width as u64 * bpp as u64) % 0x1_0000_0000u64;
            line = (bits / BYTES_PER_PIXELS as u64) as u32;
        }
        SurfaceRequest { width, height, format, stride: line, addr, supported }
    }
}

impl RamfbInterface {
    /// Width of the covered area.
    pub closed spec fn spec_width(&self) -> int {
        self.width as int
    }

    /// Height of the covered area.
    pub closed spec fn spec_height(&self) -> int {
        self.height as int
    }

    /// The area of a surface of `width` by `height` pixels, each taken as a
    /// signed number of the same 32 bits.
    pub fn new(width: u32, height: u32) -> (area: RamfbInterface)
        ensures
            area.spec_width() == as_signed(width),
            area.spec_height() == as_signed(height),
    {
        RamfbInterface { width: signed(width), height: signed(height) }
    }

    /// Width of the covered area.
    pub fn width(&self) -> (w: i32)
        ensures
            w == self.spec_width(),
    {
        self.width
    }

    /// Height of the covered area.
    pub fn height(&self) -> (h: i32)
        ensures
            h == self.spec_height(),
    {
        self.height
    }

    /// The rectangle to refresh on a hardware update, as left, top, width and
    /// height: the whole covered area.
    pub fn hw_update(&self) -> (rect: (i32, i32, i32, i32))
        ensures
            rect.0 == 0,
            rect.1 == 0,
            rect.2 == self.spec_width(),
            rect.3 == self.spec_height(),
    {
        (0, 0, self.width, self.height)
    }
}

/// Reads an unsigned number as the signed one of the same bits.
fn signed(v: u32) -> (r: i32)
    ensures
        r == as_signed(v),
{
    if v < 0x8000_0000u32 {
        v as i32
    } else {
        ((v - 0x8000_0000u32) as i64 - 0x8000_0000i64) as i32
    }
}

/// Handles a write of the configuration by the guest. A record shorter than
/// 28 bytes and a record with an unsupported pixel format are refused; any
/// other yields the surface to create and the area to refresh.
pub fn write_callback(data: &[u8]) -> (r: Result<(SurfaceRequest, RamfbInterface), RamfbError>)
    ensures
        match requested_surface(data@) {
            Ok(surface) => r.is_ok() && r->Ok_0.0 == surface && r->Ok_0.1.spec_width()
                == as_signed(surface.width) && r->Ok_0.1.spec_height() == as_signed(
                surface.height,
            ),
            Err(e) => r.is_err() && r->Err_0 == e,
        },
{
    let cfg = match RamfbCfg::parse(data) {
        None => {
            return Err(RamfbError::ShortConfig);
        },
        Some(cfg) => cfg,
    };
    let format = match PixelFormat::from_fourcc(cfg.fourcc) {
        None => {
            return Err(RamfbError::UnsupportedFormat { fourcc: cfg.fourcc });
        },
        Some(format) => format,
    };
    let surface = SurfaceRequest::create_display_surface(
        cfg.width,
        cfg.height,
        format,
        cfg.stride,
        cfg.addr,
    );
    let area = RamfbInterface::new(cfg.width, cfg.height);
    Ok((surface, area))
}

/// How the attempt to create a surface over guest memory ended.
#[derive(Clone, Copy, Debug, PartialEq, Eq, Structural)]
pub enum SurfaceOutcome {
    /// The address of the frame buffer is not backed by host memory.
    NoHostAddress,
    /// The image could not be created.
    NotCreated,
    /// The surface stands.
    Created,
}

/// The state of the frame buffer: the surface that is shown, if there is
/// one.
#[derive(Clone, Copy, Debug, PartialEq, Eq, Structural)]
pub struct RamfbState {
    /// The surface that is shown.
    pub surface: Option<SurfaceRequest>,
}

/// The frame buffer device.
#[derive(Clone, Copy, Debug, PartialEq, Eq, Structural)]
pub struct Ramfb {
    /// The state of the device.
    pub ramfb_state: RamfbState,
}

/// The surface that is shown after an attempt to create `request`: the new
/// one where it was created, else the one that was shown before.
pub open spec fn surface_after(
    before: Option<SurfaceRequest>,
    request: SurfaceRequest,
    outcome: SurfaceOutcome,
) -> Option<SurfaceRequest> {
    if outcome == SurfaceOutcome::Created {
        Some(request)
    } else {
        before
    }
}

impl RamfbState {
    /// A frame buffer that shows nothing yet.
    pub fn new() -> (state: RamfbState)
        ensures
            state.surface.is_none(),
    {
        RamfbState { surface: None }
    }

    /// The content with which the configuration file is registered with the
    /// firmware configuration device: a record of zeros.
    pub fn setup() -> (cfg: Vec<u8>)
        ensures
            cfg@ == Seq::new(RAMFB_CFG_SIZE as nat, |i: int| 0u8),
    {
        let mut cfg: Vec<u8> = Vec::new();
        let mut i: usize = 0;
        while i < RAMFB_CFG_SIZE
            invariant
                i <= RAMFB_CFG_SIZE,
                cfg@ == Seq::new(i as nat, |j: int| 0u8),
            decreases RAMFB_CFG_SIZE - i,
        {
            cfg.push(0);
            assert(cfg@ =~= Seq::new((i + 1) as nat, |j: int| 0u8));
            i = i + 1;
        }
        cfg
    }

    /// Takes note of how the attempt to create `request` ended, and hands
    /// back the surface to show from now on: the new one where it was
    /// created, else the one that was shown before.
    pub fn surface_created(
        &mut self,
        request: SurfaceRequest,
        outcome: SurfaceOutcome,
    ) -> (shown: Option<SurfaceRequest>)
        ensures
            final(self).surface == surface_after(old(self).surface, request, outcome),
            shown == final(self).surface,
    {
        match outcome {
            SurfaceOutcome::Created => {
                self.surface = Some(request);
            },
            _ => {},
        }
        self.surface
    }

    /// Forgets the surface.
    pub fn reset_ramfb_state(&mut self)
        ensures
            final(self).surface.is_none(),
    {
        self.surface = None;
    }
}

impl Ramfb {
    /// A frame buffer device that shows nothing yet.
    pub fn new() -> (dev: Ramfb)
        ensures
            dev.ramfb_state.surface.is_none(),
    {
        Ramfb { ramfb_state: RamfbState::new() }
    }

    /// The device cannot be read over the bus: the answer is always `false`.
    pub fn read(&self, data: &[u8], base: u64, offset: u64) -> (done: bool)
        ensures
            !done,
    {
        false
    }

    /// The device cannot be written over the bus: the answer is always
    /// `false`, and the state is left alone.
    pub fn write(&self, data: &[u8], base: u64, offset: u64) -> (done: bool)
        ensures
            !done,
    {
        false
    }

    /// Resets the device: the surface is forgotten.
    pub fn reset(&mut self)
        ensures
            final(self).ramfb_state.surface.is_none(),
    {
        self.ramfb_state.reset_ramfb_state();
    }

    /// The device contributes nothing to the ACPI tables.
    pub fn aml_bytes(&self) -> (bytes: Vec<u8>)
        ensures
            bytes@ == Seq::<u8>::empty(),
    {
        Vec::new()
    }
}

} // verus!
