use nanogallery::buffer::Buffer;
use nanogallery::library::{fit_size, Image, Library, Pool, Slot, MAX_SIDE};
use nanogallery::util::Vec2;

fn entry() -> Image {
    Image::new("/photos/a.png".to_string(), "a.png".to_string(), Vec2::from(4, 3))
}

#[test]
fn new_entry_is_unloaded() {
    let e = entry();
    assert!(matches!(e.slot, Slot::Unloaded));
    assert!(!e.loaded());
    assert!(e.buffer().is_none());
    assert_eq!(e.size, Vec2::from(4, 3));
    assert_eq!(e.name, "a.png");
}

#[test]
fn repeated_get_schedules_one_decode() {
    let mut e = entry();
    let scheduled = (0..8).filter(|_| e.get()).count();
    assert_eq!(scheduled, 1);
    assert!(matches!(e.slot, Slot::Loading));
    assert!(!e.loaded());
}

#[test]
fn store_after_claim_loads() {
    let mut e = entry();
    assert!(e.get());
    e.store(Buffer::new(Vec2::from(4, 3)));
    assert!(e.loaded());
    assert_eq!(e.buffer().map(|b| b.size), Some(Vec2::from(4, 3)));
    assert!(!e.get());
    assert!(e.loaded());
}

#[test]
fn store_without_claim_is_dropped() {
    let mut e = entry();
    e.store(Buffer::new(Vec2::from(4, 3)));
    assert!(!e.loaded());
    assert!(matches!(e.slot, Slot::Unloaded));
}

#[test]
fn unload_then_get_schedules_again() {
    let mut e = entry();
    assert!(e.get());
    e.store(Buffer::new(Vec2::from(4, 3)));
    e.unload();
    assert!(!e.loaded());
    let scheduled = (0..5).filter(|_| e.get()).count();
    assert_eq!(scheduled, 1);
}

#[test]
fn unload_during_decode_drops_the_result() {
    let mut e = entry();
    assert!(e.get());
    e.unload();
    e.store(Buffer::new(Vec2::from(4, 3)));
    assert!(!e.loaded());
    assert!(e.get());
}

#[test]
fn fit_size_keeps_small_images() {
    assert_eq!(fit_size(Vec2::from(320, 200)), Vec2::from(320, 200));
    assert_eq!(fit_size(Vec2::from(500, 500)), Vec2::from(500, 500));
    assert_eq!(fit_size(Vec2::from(0, 0)), Vec2::from(0, 0));
}

#[test]
fn fit_size_scales_large_images_down() {
    assert_eq!(fit_size(Vec2::from(4000, 3000)), Vec2::from(MAX_SIDE, 375));
    assert_eq!(fit_size(Vec2::from(3000, 4000)), Vec2::from(375, MAX_SIDE));
    assert_eq!(fit_size(Vec2::from(1000, 1000)), Vec2::from(500, 500));
    // 333 * 500 / 1000 = 166.5, rounded up
    assert_eq!(fit_size(Vec2::from(1000, 333)), Vec2::from(500, 167));
    assert_eq!(fit_size(Vec2::from(1001, 1)), Vec2::from(500, 0));
}

#[test]
fn library_keeps_discovery_order() {
    let mut lib = Library::new();
    lib.add("b.png".to_string(), "b.png".to_string(), Vec2::from(100, 50));
    lib.add("a.png".to_string(), "a.png".to_string(), Vec2::from(2000, 1000));
    lib.add("b.png".to_string(), "b.png".to_string(), Vec2::from(100, 50));
    assert_eq!(lib.images.len(), 3);
    assert_eq!(lib.images[0].path, "b.png");
    assert_eq!(lib.images[1].size, Vec2::from(500, 250));
    assert_eq!(lib.images[2].path, "b.png");
    assert!(lib.claim(1));
    assert!(!lib.claim(1));
    assert!(matches!(lib.images[1].slot, Slot::Loading));
    assert!(matches!(lib.images[0].slot, Slot::Unloaded));
}

#[test]
fn pool_spawns_lazily_up_to_max() {
    let mut p = Pool::new(2);
    assert_eq!(p.size, 0);
    assert!(p.execute(false));
    assert!(!p.execute(false));
    assert!(p.execute(true));
    assert!(!p.execute(true));
    assert_eq!(p.size, 2);
    let mut p = Pool::new(0);
    assert!(p.execute(false));
    assert!(!p.execute(true));
}
