//! The small engine-facing value types: packed API versions, identifiers,
//! canvas geometry, and block header flags.

use agnaji::api_version::APIVersion;
use agnaji::scene::{ComponentId, SceneId};
use agnaji::tlsf::BlockHeader;
use agnaji::wsi::CanvasSize;

#[test]
fn api_version_packs_and_unpacks() {
    let v = APIVersion::new(1, 2, 0);
    assert_eq!(v.get_variant(), 0);
    assert_eq!(v.get_major(), 1);
    assert_eq!(v.get_minor(), 2);
    assert_eq!(v.get_patch(), 0);
    assert_eq!(v.version, (1u32 << 22) | (2u32 << 12));

    let w = APIVersion::new_with_variant(3, 127, 1023, 4095);
    assert_eq!(w.get_variant(), 3);
    assert_eq!(w.get_major(), 127);
    assert_eq!(w.get_minor(), 1023);
    assert_eq!(w.get_patch(), 4095);
}

#[test]
fn api_version_from_raw_round_trip() {
    let raw = (1u32 << 22) | (3u32 << 12) | 250;
    let v = APIVersion::from_raw(raw);
    assert_eq!(v.version, raw);
    assert_eq!(v.get_major(), 1);
    assert_eq!(v.get_minor(), 3);
    assert_eq!(v.get_patch(), 250);
    // versions are ordered by their packed value
    assert!(APIVersion::new(1, 0, 0) < APIVersion::new(1, 1, 0));
    assert!(APIVersion::new(1, 3, 0) < APIVersion::new(2, 0, 0));
}

#[test]
fn identifiers_keep_their_raw_value() {
    let s = SceneId::from_raw(41);
    assert_eq!(s.get_raw(), 41);
    assert_eq!(s, SceneId::from_raw(41));
    assert_ne!(s, SceneId::from_raw(42));

    let c = ComponentId::from_raw(7);
    assert_eq!(c.get_raw(), 7);
}

#[test]
fn canvas_size_holds_extents() {
    let size = CanvasSize::new(1920, 1080);
    assert_eq!(size.width, 1920);
    assert_eq!(size.height, 1080);
    assert_eq!(size, CanvasSize::new(1920, 1080));
}

#[test]
fn block_header_flags_toggle_independently() {
    let mut h = BlockHeader::new();
    assert!(!h.is_free_block());
    assert!(!h.is_first_free_block());
    assert_eq!(h.get_size(), 0);

    h.set_free_block_flag();
    assert!(h.is_free_block());
    assert!(!h.is_first_free_block());

    h.set_first_free_block_flag();
    assert!(h.is_free_block());
    assert!(h.is_first_free_block());

    h.clear_free_block_flag();
    assert!(!h.is_free_block());
    assert!(h.is_first_free_block());

    h.clear_first_free_block_flag();
    assert!(!h.is_first_free_block());
}
