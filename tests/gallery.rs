use nanogallery::buffer::Buffer;
use nanogallery::gui::{GalleryView, ScrollKey};
use nanogallery::library::Slot;
use nanogallery::state::{State, WORKERS};
use nanogallery::util::Vec2;

#[test]
fn layout_fills_rows_then_wraps() {
    let mut v = GalleryView::gallery();
    let sizes = vec![Vec2::from(100, 50), Vec2::from(100, 80), Vec2::from(100, 40), Vec2::from(300, 10)];
    v.resize(300, &sizes);
    // 20 + 100 + 20 + 100 + 20 = 260 <= 280; the third tile would end at 380 > 280
    assert_eq!(
        v.positions,
        vec![Vec2::from(20, 20), Vec2::from(140, 20), Vec2::from(20, 120), Vec2::from(20, 180)]
    );
    assert_eq!(v.height, 180 + 10 + 20);
    assert_eq!(v.scroll, 0);
}

#[test]
fn layout_of_nothing() {
    let mut v = GalleryView::gallery();
    v.resize(500, &Vec::new());
    assert!(v.positions.is_empty());
    assert_eq!(v.height, 40);
}

#[test]
fn scroll_keys_clamp() {
    let mut v = GalleryView::gallery();
    v.height = 1000;
    v.scroll_by(ScrollKey::Down, 300);
    assert_eq!(v.scroll, 100);
    v.scroll_by(ScrollKey::PageDown, 300);
    assert_eq!(v.scroll, 400);
    v.scroll_by(ScrollKey::PageDown, 300);
    assert_eq!(v.scroll, 700);
    v.scroll_by(ScrollKey::Down, 300);
    assert_eq!(v.scroll, 700);
    v.scroll_by(ScrollKey::Up, 300);
    assert_eq!(v.scroll, 600);
    v.scroll_by(ScrollKey::PageUp, 300);
    assert_eq!(v.scroll, 300);
    v.scroll_by(ScrollKey::Home, 300);
    assert_eq!(v.scroll, 0);
    v.scroll_by(ScrollKey::Up, 300);
    assert_eq!(v.scroll, 0);
    v.scroll_by(ScrollKey::End, 300);
    assert_eq!(v.scroll, 700);
    v.height = 100;
    v.scroll_by(ScrollKey::End, 300);
    assert_eq!(v.scroll, 0);
    v.scroll_by(ScrollKey::Down, 300);
    assert_eq!(v.scroll, 0);
}

#[test]
fn new_state_and_update() {
    let mut s = State::new();
    assert!(!s.dirty);
    assert_eq!(s.config.libraries, vec!["Pictures".to_string()]);
    assert_eq!(s.config.background_color, 0xFF1A_1A1A);
    assert_eq!(s.thread_pool.max_size, WORKERS);
    s.update();
    assert!(s.dirty);
}

#[test]
fn draw_schedules_visible_tiles_and_copies_loaded_ones() {
    let mut s = State::new();
    s.buffer = Buffer::new(Vec2::from(100, 60));
    s.config.background_color = 0xFF00_0000;
    s.library.add("a".to_string(), "a".to_string(), Vec2::from(10, 10));
    s.library.add("b".to_string(), "b".to_string(), Vec2::from(10, 10));
    s.library.add("c".to_string(), "c".to_string(), Vec2::from(10, 10));
    s.resize();
    s.view.positions[2] = Vec2::from(20, 500);
    assert_eq!(s.view.positions[0], Vec2::from(20, 20));
    assert_eq!(s.view.positions[1], Vec2::from(50, 20));

    assert_eq!(s.draw(), vec![0, 1]);
    assert!(matches!(s.library.images[2].slot, Slot::Unloaded));
    assert!(s.buffer.data.iter().all(|&p| p == 0xFF00_0000));

    s.library.images[1].store(Buffer { size: Vec2::from(10, 10), data: vec![0xFF11_2233; 100] });
    assert_eq!(s.draw(), Vec::<usize>::new());
    let at = |x: usize, y: usize| s.buffer.data[y * 100 + x];
    assert_eq!(at(50, 20), 0xFF11_2233);
    assert_eq!(at(59, 29), 0xFF11_2233);
    assert_eq!(at(60, 29), 0xFF00_0000);
    assert_eq!(at(20, 20), 0xFF00_0000);
}
