use ocelli::surface;
use ocelli::Ocelli;

/// The buffer-out entry points write the chunk to the front of the caller's
/// buffer and report its length; the rest of the buffer is untouched.
#[test]
fn surface_writes_into_caller_buffer() {
    let frame = vec![11u8, 10, 21, 31, 40, 50, 61, 70];
    let mut out = vec![0xEEu8; 4];
    let written = surface::pick_and_flip(&frame, 10, 100, 1, &mut out);
    assert_eq!(written, 1);
    assert_eq!(out, vec![0xB2, 0xEE, 0xEE, 0xEE]);
}

/// A caller buffer too small for the chunk means nothing is written and 0 is
/// reported — the boundary violation analogue.
#[test]
fn surface_rejects_too_small_buffer() {
    let frame: Vec<u8> = (0..1024u32).map(|i| (i % 256) as u8).collect();
    let mut out = vec![0x77u8; 2];
    let written = surface::pick_and_flip(&frame, 0, 254, 1, &mut out);
    assert_eq!(written, 0);
    assert_eq!(out, vec![0x77u8; 2]);
}

/// A zero sampling distance is a malformed argument: zero bytes written,
/// never a panic.
#[test]
fn surface_rejects_zero_stride() {
    let current = vec![5u8; 250 * 250];
    let previous = vec![4u8; 250 * 250];
    let mut out = vec![0u8; 250 * 250];
    assert_eq!(surface::chop_and_tack(&current, &previous, 250, 0, &mut out), 0);
}

/// Invalid geometry through the surface reports zero bytes written.
#[test]
fn surface_reports_zero_on_bad_geometry() {
    let current = vec![5u8; 150 * 300];
    let previous = vec![4u8; 150 * 300];
    let mut out = vec![0u8; 150 * 300];
    assert_eq!(surface::chop_and_tack(&current, &previous, 150, 30, &mut out), 0);
}

/// An output buffer as long as the input always suffices: whitening never
/// expands, and the written prefix matches the owned-buffer result.
#[test]
fn surface_whiten_matches_direct_whiten() {
    let input = vec![0x4Bu8; 8];
    let mut out = vec![0u8; 8];
    let written = surface::whiten(&input, &mut out);
    let direct = ocelli::whiten::whiten(&input);
    assert_eq!(written, direct.len());
    assert_eq!(&out[..written], &direct[..]);
}

/// The scalar entry points agree with the engine methods.
#[test]
fn surface_scalars_match_engine() {
    let data: Vec<u8> = (0..=255u8).collect();
    let engine = Ocelli;
    assert_eq!(surface::shannon(&data), engine.shannon(&data));
    assert_eq!(surface::shannon(&data), 8u64 << 32);
    assert_eq!(surface::is_covered(&data, 50), engine.is_covered(&data, 50));
    assert!(!surface::is_covered(&data, 50));
}

/// The engine methods are thin faces over the same operations.
#[test]
fn engine_methods_match_free_functions() {
    let engine = Ocelli;
    let previous = vec![100u8; 250 * 250];
    let current: Vec<u8> = previous.iter().map(|p| p + 1).collect();
    assert_eq!(
        engine.chop_and_tack(&current, &previous, 250, 30),
        ocelli::extract::chop_and_tack(&current, &previous, 250, 30)
    );
    let frame = vec![11u8, 10, 21, 31, 40, 50, 61, 70];
    assert_eq!(
        engine.pick_and_flip(&frame, 10, 100, 3),
        ocelli::extract::pick_and_flip(&frame, 10, 100, 3)
    );
    assert_eq!(engine.whiten(&vec![0x55u8; 4]), vec![0x00u8, 0x00]);
}
