//! Tests for the tracer: paths found, vertex lists, and colors.

use s7::algorithm::encode::encode;
use s7::entity::Object;
use s7::s7_image::{Image, Rgb};

fn solid_image(width: u16, height: u16, color: Rgb) -> Image {
    let pixels = vec![color; width as usize * height as usize];
    Image::new(width, height, pixels)
}

fn image_from_rows(rows: &[&[Rgb]]) -> Image {
    let height = rows.len() as u16;
    let width = rows[0].len() as u16;
    let mut pixels = Vec::new();
    for row in rows {
        assert_eq!(row.len(), width as usize);
        pixels.extend_from_slice(row);
    }
    Image::new(width, height, pixels)
}

fn paths_of(entity: &s7::entity::Entity) -> Vec<(Rgb, Vec<(u16, u16)>)> {
    let mut out = Vec::new();
    for chunk in &entity.data_chunks {
        for object in &chunk.objects {
            match object {
                Object::Path(p) => {
                    let pts = p.points.iter().map(|q| (q[0], q[1])).collect();
                    out.push((Rgb(p.color[0], p.color[1], p.color[2]), pts));
                }
            }
        }
    }
    out
}

#[test]
fn solid_two_by_two_yields_one_path_of_the_corners() {
    let image = solid_image(2, 2, Rgb(50, 60, 70));
    let entity = encode(image, None);
    let paths = paths_of(&entity);
    assert_eq!(paths.len(), 1);
    assert_eq!(paths[0].0, Rgb(50, 60, 70));
    assert_eq!(paths[0].1, vec![(0, 0), (1, 0), (0, 1), (1, 1)]);
}

#[test]
fn single_pixel_image_yields_one_single_point_path() {
    let image = solid_image(1, 1, Rgb(1, 2, 3));
    let entity = encode(image, None);
    let paths = paths_of(&entity);
    assert_eq!(paths.len(), 1);
    assert_eq!(paths[0].1, vec![(0, 0)]);
}

#[test]
fn isolated_pixel_yields_single_point_path_in_its_color() {
    // A 3x3 background with one off-color pixel in the middle.
    let bg = Rgb(230, 230, 230);
    let ink = Rgb(10, 10, 10);
    let image = image_from_rows(&[
        &[bg, bg, bg],
        &[bg, ink, bg],
        &[bg, bg, bg],
    ]);
    let entity = encode(image, None);
    let paths = paths_of(&entity);
    let ink_paths: Vec<_> = paths.iter().filter(|(c, _)| *c == ink).collect();
    assert_eq!(ink_paths.len(), 1);
    assert_eq!(ink_paths[0].1, vec![(1, 1)]);
}

#[test]
fn nested_block_path_takes_its_color_from_the_block() {
    // A 4x4 background holding a 2x2 block of a different color.
    let bg = Rgb(240, 240, 240);
    let blk = Rgb(40, 40, 40);
    let image = image_from_rows(&[
        &[bg, bg, bg, bg],
        &[bg, blk, blk, bg],
        &[bg, blk, blk, bg],
        &[bg, bg, bg, bg],
    ]);
    let entity = encode(image, None);
    let paths = paths_of(&entity);
    // The outer border path comes first and carries the background color.
    assert!(paths.len() >= 2);
    assert_eq!(paths[0].0, bg);
    assert_eq!(paths[0].1[0], (0, 0));
    // Exactly one path carries the block's color, discovered inside.
    let blk_paths: Vec<_> = paths.iter().filter(|(c, _)| *c == blk).collect();
    assert_eq!(blk_paths.len(), 1);
    for &(x, y) in &blk_paths[0].1 {
        assert!((1..=2).contains(&x) && (1..=2).contains(&y));
    }
}

#[test]
fn encode_fills_header_and_version() {
    let image = solid_image(3, 2, Rgb(0, 0, 0));
    let entity = encode(image, Some(42));
    assert_eq!(entity.version, "1.0.0");
    assert_eq!(entity.header_chunk.width, 3);
    assert_eq!(entity.header_chunk.height, 2);
    assert_eq!(entity.header_chunk.creation_date, Some(42));
    assert!(entity.header_chunk.other_attributes.is_empty());
    assert!(entity.other_chunks.is_empty());
    assert_eq!(entity.data_chunks.len(), 1);
}

#[test]
fn similar_colors_trace_as_one_region() {
    // Lumas 100 and 102 differ by 2, within the tolerance of 3.
    let a = Rgb(100, 100, 100);
    let b = Rgb(102, 102, 102);
    let image = image_from_rows(&[
        &[a, b],
        &[b, a],
    ]);
    let entity = encode(image, None);
    let paths = paths_of(&entity);
    assert_eq!(paths.len(), 1);
}

#[test]
fn compare_pixels_applies_luma_tolerance() {
    let a = Rgb(100, 100, 100);
    let c = Rgb(104, 104, 104);
    let image = image_from_rows(&[&[a, c]]);
    // Lumas 100 and 104 differ by 4: beyond tolerance.
    assert!(!image.compare_pixels((0, 0), (1, 0)));
    let image2 = image_from_rows(&[&[a, Rgb(103, 103, 103)]]);
    assert!(image2.compare_pixels((0, 0), (1, 0)));
}

#[test]
fn grid_accessors_work() {
    let image = image_from_rows(&[&[Rgb(1, 1, 1), Rgb(2, 2, 2)], &[Rgb(3, 3, 3), Rgb(4, 4, 4)]]);
    assert!(image.is_valid_coords((1, 1)));
    assert!(!image.is_valid_coords((2, 0)));
    assert!(!image.is_valid_coords((0, 2)));
    assert_eq!(image.get_pixel((1, 0)), Rgb(2, 2, 2));
    assert_eq!(image.get_pixel_index((1, 1)), 3);
    let mut image = image;
    assert!(!image.pixel_is_checked((0, 1)));
    image.set_pixel_is_checked((0, 1), true);
    assert!(image.pixel_is_checked((0, 1)));
}
