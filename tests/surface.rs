use nanogallery::buffer::{clone, flip_g, flip_v, rotate, Buffer, BufferView};
use nanogallery::scale::scale;
use nanogallery::util::Vec2;

fn surface(w: u32, h: u32, data: Vec<u32>) -> Buffer {
    assert_eq!(data.len(), (w * h) as usize);
    Buffer { size: Vec2::from(w, h), data }
}

fn numbered(w: u32, h: u32) -> Buffer {
    surface(w, h, (0..w * h).map(|i| 0xFF00_0000 | i).collect())
}

#[test]
fn new_fills_white() {
    let b = Buffer::new(Vec2::from(3, 2));
    assert_eq!(b.size, Vec2::from(3, 2));
    assert_eq!(b.data, vec![0xFFFF_FFFF; 6]);
}

#[test]
fn empty_has_no_pixels() {
    let b = Buffer::empty();
    assert_eq!(b.size, Vec2::zero());
    assert!(b.data.is_empty());
}

#[test]
fn get_reads_row_major() {
    let b = numbered(3, 2);
    assert_eq!(b.get(Vec2::from(2, 1)), 0xFF00_0005);
    assert_eq!(b.get(Vec2::from(0, 1)), 0xFF00_0003);
    assert_eq!(b.size(), Vec2::from(3, 2));
}

#[test]
fn set_in_range_writes_one_pixel() {
    let mut b = numbered(3, 2);
    b.set(Vec2::from(1, 1), 7);
    let mut expected: Vec<u32> = (0..6).map(|i| 0xFF00_0000 | i).collect();
    expected[4] = 7;
    assert_eq!(b.data, expected);
}

#[test]
fn set_out_of_range_changes_nothing() {
    let mut b = numbered(3, 2);
    let before = b.data.clone();
    b.set(Vec2::from(3, 0), 7);
    b.set(Vec2::from(0, 2), 7);
    b.set(Vec2::from(u32::MAX, u32::MAX), 7);
    assert_eq!(b.data, before);
}

#[test]
fn clear_fills_every_pixel() {
    let mut b = numbered(4, 3);
    b.clear(0xFF12_3456);
    assert_eq!(b.data, vec![0xFF12_3456; 12]);
}

#[test]
fn set_transparent_blends_channels() {
    let mut b = surface(1, 1, vec![0xFF00_0000]);
    b.set_transparent(Vec2::from(0, 0), 0xFFFF_FFFF, 255);
    assert_eq!(b.data, vec![0xFFFF_FFFF]);
    let mut b = surface(1, 1, vec![0xFF00_0000]);
    b.set_transparent(Vec2::from(0, 0), 0xFFFF_FFFF, 0);
    assert_eq!(b.data, vec![0xFF00_0000]);
    // (200 * 51 + 100 * 204) / 255 = 120, (0 * 51 + 250 * 204) / 255 = 200
    let mut b = surface(1, 1, vec![0x0064_FA00]);
    b.set_transparent(Vec2::from(0, 0), 0xFFC8_0000, 51);
    assert_eq!(b.data, vec![0xFF78_C800]);
}

#[test]
fn copy_from_places_and_clips() {
    let mut dst = surface(4, 4, vec![0; 16]);
    let src = numbered(2, 2);
    dst.copy_from(&src, 3, 1);
    let mut expected = vec![0; 16];
    expected[1 * 4 + 3] = 0xFF00_0000;
    expected[2 * 4 + 3] = 0xFF00_0002;
    assert_eq!(dst.data, expected);
}

#[test]
fn copy_from_skips_rows_at_or_above_zero() {
    let mut dst = surface(3, 3, vec![0; 9]);
    let src = numbered(3, 3);
    dst.copy_from(&src, 0, -1);
    // source row 1 lands on row 0, which is skipped; row 2 lands on row 1
    assert_eq!(dst.data, vec![0, 0, 0, 0xFF00_0006, 0xFF00_0007, 0xFF00_0008, 0, 0, 0]);
    let mut dst = surface(2, 2, vec![0; 4]);
    dst.copy_from(&numbered(2, 2), 0, 0);
    assert_eq!(dst.data, vec![0, 0, 0xFF00_0002, 0xFF00_0003]);
}

#[test]
fn copy_from_far_outside_changes_nothing() {
    let mut dst = numbered(3, 3);
    let before = dst.data.clone();
    dst.copy_from(&numbered(2, 2), 3, 1);
    dst.copy_from(&numbered(2, 2), 0, 3);
    dst.copy_from(&numbered(2, 2), u32::MAX, 1);
    dst.copy_from(&numbered(2, 2), 0, i32::MIN);
    assert_eq!(dst.data, before);
}

#[test]
fn clone_copies_everything() {
    let b = numbered(3, 2);
    let c = clone(&b);
    assert_eq!(c.size, b.size);
    assert_eq!(c.data, b.data);
}

#[test]
fn rotate_quarter_turn() {
    // 0 1 2      3 0
    // 3 4 5  ->  4 1
    //            5 2
    let r = rotate(&numbered(3, 2));
    assert_eq!(r.size, Vec2::from(2, 3));
    let low: Vec<u32> = r.data.iter().map(|p| p & 0xFF).collect();
    assert_eq!(low, vec![3, 0, 4, 1, 5, 2]);
}

#[test]
fn rotate_twice_turns_upside_down() {
    let b = numbered(3, 2);
    let r = rotate(&rotate(&b));
    assert_eq!(r.size, b.size);
    let low: Vec<u32> = r.data.iter().map(|p| p & 0xFF).collect();
    assert_eq!(low, vec![5, 4, 3, 2, 1, 0]);
}

#[test]
fn rotate_four_times_is_identity() {
    let b = numbered(3, 2);
    let r = rotate(&rotate(&rotate(&rotate(&b))));
    assert_eq!(r.size, b.size);
    assert_eq!(r.data, b.data);
}

#[test]
fn flips_mirror_and_undo() {
    let b = numbered(3, 2);
    let g = flip_g(&b);
    let low: Vec<u32> = g.data.iter().map(|p| p & 0xFF).collect();
    assert_eq!(low, vec![2, 1, 0, 5, 4, 3]);
    let v = flip_v(&b);
    let low: Vec<u32> = v.data.iter().map(|p| p & 0xFF).collect();
    assert_eq!(low, vec![3, 4, 5, 0, 1, 2]);
    assert_eq!(flip_g(&g).data, b.data);
    assert_eq!(flip_v(&v).data, b.data);
    assert_eq!(flip_v(&v).size, b.size);
}

#[test]
fn scale_to_same_size_is_a_copy() {
    let b = surface(2, 2, vec![0x1234_5678, 0, 0xFFFF_FFFF, 0x00AB_CDEF]);
    let s = scale(&b, Vec2::from(2, 2));
    assert_eq!(s.size, b.size);
    assert_eq!(s.data, b.data);
}

#[test]
fn scale_solid_red_up_two_to_four() {
    // Each weighted term is truncated, and the last output row and column have
    // windows with no weight, so they come out black.
    let b = surface(2, 2, vec![0xFFFF_0000; 4]);
    let s = scale(&b, Vec2::from(4, 4));
    assert_eq!(s.size, Vec2::from(4, 4));
    assert_eq!(
        s.data,
        vec![
            0xFFFD_0000, 0xFFFE_0000, 0xFFFE_0000, 0xFF00_0000,
            0xFFFE_0000, 0xFFFF_0000, 0xFFFF_0000, 0xFF00_0000,
            0xFFFE_0000, 0xFFFF_0000, 0xFFFF_0000, 0xFF00_0000,
            0xFF00_0000, 0xFF00_0000, 0xFF00_0000, 0xFF00_0000,
        ]
    );
}

#[test]
fn scale_down_averages() {
    let b = surface(2, 2, vec![0xFF10_2030, 0xFF40_5060, 0xFF70_8090, 0xFFA0_B0C0]);
    let s = scale(&b, Vec2::from(1, 1));
    assert_eq!(s.data, vec![0xFF7C_8C9C]);
    let w = surface(4, 4, vec![0xFFFF_FFFF; 16]);
    let s = scale(&w, Vec2::from(2, 2));
    assert_eq!(s.data, vec![0xFFFC_FCFC, 0xFFFD_FDFD, 0xFFFC_FCFC, 0xFFFD_FDFD]);
}

#[test]
fn scale_forces_opaque_alpha() {
    let b = surface(2, 1, vec![0x0000_00FF, 0x0000_00FF]);
    let s = scale(&b, Vec2::from(1, 1));
    assert_eq!(s.data[0] >> 24, 0xFF);
}

#[test]
fn scale_to_zero_size_is_empty() {
    let b = numbered(2, 2);
    let s = scale(&b, Vec2::from(0, 3));
    assert_eq!(s.size, Vec2::from(0, 3));
    assert!(s.data.is_empty());
}

#[test]
fn from_rgb_packs_opaque_pixels() {
    let b = Buffer::from_rgb(Vec2::from(2, 1), &vec![1, 2, 3, 0xFF, 0x80, 0]).unwrap();
    assert_eq!(b.size, Vec2::from(2, 1));
    assert_eq!(b.data, vec![0xFF01_0203, 0xFFFF_8000]);
    assert!(Buffer::from_rgb(Vec2::from(2, 1), &vec![1, 2, 3]).is_none());
    assert!(Buffer::from_rgb(Vec2::from(0, 5), &Vec::new()).is_some());
}
