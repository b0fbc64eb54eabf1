use migration::ramfb::{
    write_callback, PixelFormat, RamfbCfg, RamfbError, RamfbInterface, SurfaceRequest,
    FOURCC_XRGB8888, RAMFB_CFG_SIZE,
};

fn record(addr: u64, fourcc: u32, flags: u32, width: u32, height: u32, stride: u32) -> Vec<u8> {
    let mut v = Vec::new();
    v.extend_from_slice(&addr.to_be_bytes());
    v.extend_from_slice(&fourcc.to_be_bytes());
    v.extend_from_slice(&flags.to_be_bytes());
    v.extend_from_slice(&width.to_be_bytes());
    v.extend_from_slice(&height.to_be_bytes());
    v.extend_from_slice(&stride.to_be_bytes());
    v
}

#[test]
fn a_record_is_parsed_field_by_field() {
    let data = record(0x1234_5678_9abc_def0, 0x3432_5258, 7, 1024, 768, 4096);
    assert_eq!(data.len(), RAMFB_CFG_SIZE);
    assert_eq!(
        RamfbCfg::parse(&data),
        Some(RamfbCfg {
            addr: 0x1234_5678_9abc_def0,
            fourcc: 0x3432_5258,
            flags: 7,
            width: 1024,
            height: 768,
            stride: 4096,
        })
    );
}

#[test]
fn a_record_is_read_big_endian() {
    let mut data = vec![0u8; 28];
    data[7] = 1;
    data[8] = 0x34;
    data[9] = 0x32;
    data[10] = 0x52;
    data[11] = 0x58;
    data[19] = 16;
    data[22] = 1;
    data[27] = 0x40;
    let cfg = RamfbCfg::parse(&data).unwrap();
    assert_eq!(cfg.addr, 1);
    assert_eq!(cfg.fourcc, FOURCC_XRGB8888);
    assert_eq!(cfg.width, 16);
    assert_eq!(cfg.height, 256);
    assert_eq!(cfg.stride, 64);
}

#[test]
fn bytes_behind_the_record_are_ignored() {
    let mut data = record(0x8000_0000, FOURCC_XRGB8888, 0, 640, 480, 0);
    data.extend_from_slice(&[0xff; 5]);
    let (surface, _) = write_callback(&data).unwrap();
    assert_eq!(surface.addr, 0x8000_0000);
    assert_eq!(surface.width, 640);
}

#[test]
fn a_short_record_is_refused() {
    assert_eq!(RamfbCfg::parse(&[]), None);
    assert_eq!(RamfbCfg::parse(&[0u8; 27]), None);
    assert!(matches!(write_callback(&[0u8; 27]), Err(RamfbError::ShortConfig)));
    assert!(matches!(write_callback(&[]), Err(RamfbError::ShortConfig)));
}

#[test]
fn only_xrgb8888_is_taken() {
    assert_eq!(FOURCC_XRGB8888, 875713112);
    assert_eq!(PixelFormat::from_fourcc(875713112), Some(PixelFormat::X8R8G8B8));
    assert_eq!(PixelFormat::from_fourcc(0), None);
    assert_eq!(PixelFormat::from_fourcc(875713111), None);
    assert_eq!(PixelFormat::from_fourcc(943805016), None);
    let data = record(0, 0x3432_4241, 0, 640, 480, 0);
    assert!(matches!(
        write_callback(&data),
        Err(RamfbError::UnsupportedFormat { fourcc: 0x3432_4241 })
    ));
}

#[test]
fn the_stride_is_derived_from_the_width_where_none_is_given() {
    let data = record(0x4000_0000, FOURCC_XRGB8888, 0, 1024, 768, 0);
    let (surface, area) = write_callback(&data).unwrap();
    assert_eq!(
        surface,
        SurfaceRequest {
            width: 1024,
            height: 768,
            format: PixelFormat::X8R8G8B8,
            stride: 4096,
            addr: 0x4000_0000,
            supported: true,
        }
    );
    assert_eq!(area.width(), 1024);
    assert_eq!(area.height(), 768);
    assert_eq!(area.hw_update(), (0, 0, 1024, 768));
}

#[test]
fn a_given_stride_is_kept() {
    let data = record(0x4000_0000, FOURCC_XRGB8888, 0, 800, 600, 3328);
    let (surface, _) = write_callback(&data).unwrap();
    assert_eq!(surface.stride, 3328);
}

#[test]
fn bits_per_pixel() {
    assert_eq!(PixelFormat::X8R8G8B8.bpp(), 32);
}

#[test]
fn supported_resolutions() {
    assert!(SurfaceRequest::resolution_supported(16, 16));
    assert!(SurfaceRequest::resolution_supported(16_000, 12_000));
    assert!(!SurfaceRequest::resolution_supported(15, 16));
    assert!(!SurfaceRequest::resolution_supported(16, 15));
    assert!(!SurfaceRequest::resolution_supported(16_001, 12_000));
    assert!(!SurfaceRequest::resolution_supported(16_000, 12_001));
    assert!(!SurfaceRequest::resolution_supported(0, 0));
}

#[test]
fn an_unsupported_resolution_is_marked_and_still_created() {
    let data = record(0x4000_0000, FOURCC_XRGB8888, 0, 8, 8, 0);
    let (surface, area) = write_callback(&data).unwrap();
    assert!(!surface.supported);
    assert_eq!(surface.stride, 32);
    assert_eq!(area.hw_update(), (0, 0, 8, 8));
}

#[test]
fn the_line_size_wraps_at_32_bits() {
    let s = SurfaceRequest::create_display_surface(
        0x0800_0001,
        16,
        PixelFormat::X8R8G8B8,
        0,
        0,
    );
    assert_eq!(s.stride, 4);
    let t = SurfaceRequest::create_display_surface(
        0xffff_ffff,
        16,
        PixelFormat::X8R8G8B8,
        0,
        0,
    );
    assert_eq!(t.stride, 0x1fff_fffc);
}

#[test]
fn sizes_are_read_as_signed() {
    let area = RamfbInterface::new(0xffff_ffff, 0x8000_0000);
    assert_eq!(area.width(), -1);
    assert_eq!(area.height(), i32::MIN);
    let area = RamfbInterface::new(0x7fff_ffff, 0);
    assert_eq!(area.width(), i32::MAX);
    assert_eq!(area.height(), 0);
}

#[test]
fn the_configuration_file_starts_as_zeros() {
    assert_eq!(migration::ramfb::RamfbState::setup(), vec![0u8; 28]);
}

#[test]
fn a_surface_that_was_not_created_leaves_the_old_one() {
    let first = SurfaceRequest::create_display_surface(640, 480, PixelFormat::X8R8G8B8, 0, 0x1000);
    let second = SurfaceRequest::create_display_surface(800, 600, PixelFormat::X8R8G8B8, 0, 0x2000);
    let mut state = migration::ramfb::RamfbState::new();
    assert_eq!(state.surface, None);
    assert_eq!(
        state.surface_created(first, migration::ramfb::SurfaceOutcome::NoHostAddress),
        None
    );
    assert_eq!(
        state.surface_created(first, migration::ramfb::SurfaceOutcome::NotCreated),
        None
    );
    assert_eq!(
        state.surface_created(first, migration::ramfb::SurfaceOutcome::Created),
        Some(first)
    );
    assert_eq!(
        state.surface_created(second, migration::ramfb::SurfaceOutcome::NoHostAddress),
        Some(first)
    );
    assert_eq!(
        state.surface_created(second, migration::ramfb::SurfaceOutcome::NotCreated),
        Some(first)
    );
    assert_eq!(state.surface, Some(first));
    assert_eq!(
        state.surface_created(second, migration::ramfb::SurfaceOutcome::Created),
        Some(second)
    );
    state.reset_ramfb_state();
    assert_eq!(state.surface, None);
}

#[test]
fn the_device_is_neither_read_nor_written_over_the_bus() {
    let mut dev = migration::ramfb::Ramfb::new();
    assert_eq!(dev.ramfb_state.surface, None);
    assert!(!dev.read(&[0; 4], 0x9000, 0));
    assert!(!dev.write(&[1, 2, 3, 4], 0x9000, 0));
    assert_eq!(dev.aml_bytes(), Vec::<u8>::new());
    let s = SurfaceRequest::create_display_surface(640, 480, PixelFormat::X8R8G8B8, 0, 0x1000);
    dev.ramfb_state.surface_created(s, migration::ramfb::SurfaceOutcome::Created);
    assert_eq!(dev.ramfb_state.surface, Some(s));
    dev.reset();
    assert_eq!(dev.ramfb_state.surface, None);
}
