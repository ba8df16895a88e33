//! Tests for the renderer, and render-after-trace round trips.

use s7::algorithm::decode::decode;
use s7::algorithm::encode::encode;
use s7::entity::{DataChunk, Entity, HeaderChunk, Object, PathObject};
use s7::s7_image::{Image, Rgb};
use s7::utils::{blank_image, Raster};

fn entity_with_paths(width: u16, height: u16, paths: Vec<PathObject>) -> Entity {
    Entity {
        version: String::from("1.0.0"),
        header_chunk: HeaderChunk {
            creation_date: None,
            width,
            height,
            other_attributes: vec![],
        },
        data_chunks: vec![DataChunk {
            objects: paths.into_iter().map(Object::Path).collect(),
        }],
        other_chunks: vec![],
    }
}

fn pixel(r: &Raster, x: u16, y: u16) -> Rgb {
    r.pixels[x as usize + y as usize * r.width as usize]
}

#[test]
fn blank_image_is_all_white() {
    let canvas = blank_image(3, 2);
    assert_eq!(canvas.width, 3);
    assert_eq!(canvas.height, 2);
    assert_eq!(canvas.pixels.len(), 6);
    for p in &canvas.pixels {
        assert_eq!(*p, Rgb(255, 255, 255));
    }
}

#[test]
fn single_point_path_marks_exactly_one_pixel() {
    let entity = entity_with_paths(
        3,
        3,
        vec![PathObject { color: [9, 8, 7], points: vec![[1, 1]] }],
    );
    let canvas = decode(&entity);
    for y in 0..3u16 {
        for x in 0..3u16 {
            if (x, y) == (1, 1) {
                assert_eq!(pixel(&canvas, x, y), Rgb(9, 8, 7));
            } else {
                assert_eq!(pixel(&canvas, x, y), Rgb(255, 255, 255));
            }
        }
    }
}

#[test]
fn rectangle_path_fills_inclusively() {
    let entity = entity_with_paths(
        5,
        5,
        vec![PathObject {
            color: [1, 2, 3],
            points: vec![[1, 1], [3, 1], [3, 3], [1, 3]],
        }],
    );
    let canvas = decode(&entity);
    for y in 0..5u16 {
        for x in 0..5u16 {
            let inside = (1..=3).contains(&x) && (1..=3).contains(&y);
            let expected = if inside { Rgb(1, 2, 3) } else { Rgb(255, 255, 255) };
            assert_eq!(pixel(&canvas, x, y), expected, "pixel ({}, {})", x, y);
        }
    }
}

#[test]
fn duplicated_closing_vertex_is_dropped() {
    let entity = entity_with_paths(
        4,
        4,
        vec![PathObject {
            color: [5, 5, 5],
            points: vec![[0, 0], [2, 0], [2, 2], [0, 2], [0, 0]],
        }],
    );
    let canvas = decode(&entity);
    assert_eq!(pixel(&canvas, 1, 1), Rgb(5, 5, 5));
    assert_eq!(pixel(&canvas, 3, 3), Rgb(255, 255, 255));
}

#[test]
fn later_path_wins_where_paths_overlap() {
    let entity = entity_with_paths(
        3,
        3,
        vec![
            PathObject { color: [10, 0, 0], points: vec![[0, 0], [2, 0], [2, 2], [0, 2]] },
            PathObject { color: [0, 10, 0], points: vec![[1, 1]] },
        ],
    );
    let canvas = decode(&entity);
    assert_eq!(pixel(&canvas, 1, 1), Rgb(0, 10, 0));
    assert_eq!(pixel(&canvas, 0, 0), Rgb(10, 0, 0));
}

#[test]
fn render_after_trace_reproduces_two_color_layout() {
    // A solid background with a single-pixel hole in the middle.
    let bg = Rgb(200, 200, 200);
    let hole = Rgb(0, 0, 0);
    let mut pixels = vec![bg; 9];
    pixels[4] = hole;
    let image = Image::new(3, 3, pixels.clone());
    let entity = encode(image, None);
    let canvas = decode(&entity);
    assert_eq!(canvas.width, 3);
    assert_eq!(canvas.height, 3);
    for y in 0..3u16 {
        for x in 0..3u16 {
            let expected = pixels[x as usize + y as usize * 3];
            assert_eq!(pixel(&canvas, x, y), expected, "pixel ({}, {})", x, y);
        }
    }
}

#[test]
fn render_after_trace_reproduces_block_layout() {
    // A 4x4 background holding a 2x2 block of a different color.
    let bg = Rgb(240, 240, 240);
    let blk = Rgb(40, 40, 40);
    let mut pixels = vec![bg; 16];
    for &(x, y) in &[(1u16, 1u16), (2, 1), (1, 2), (2, 2)] {
        pixels[x as usize + y as usize * 4] = blk;
    }
    let image = Image::new(4, 4, pixels.clone());
    let entity = encode(image, None);
    let canvas = decode(&entity);
    for y in 0..4u16 {
        for x in 0..4u16 {
            let expected = pixels[x as usize + y as usize * 4];
            assert_eq!(pixel(&canvas, x, y), expected, "pixel ({}, {})", x, y);
        }
    }
}

#[test]
fn full_pipeline_round_trip_preserves_the_raster() {
    // Trace, serialize, parse, render: the raster comes back exactly.
    let bg = Rgb(220, 220, 220);
    let ink = Rgb(30, 30, 30);
    let mut pixels = vec![bg; 25];
    pixels[12] = ink;
    let image = Image::new(5, 5, pixels.clone());
    let entity = encode(image, Some(7));
    let bytes = s7::serialization::write::write(&entity);
    let back = s7::serialization::read::read(&bytes).expect("container must parse");
    let canvas = decode(&back);
    for y in 0..5u16 {
        for x in 0..5u16 {
            let expected = pixels[x as usize + y as usize * 5];
            assert_eq!(pixel(&canvas, x, y), expected, "pixel ({}, {})", x, y);
        }
    }
}

#[test]
fn out_of_canvas_point_paints_nothing() {
    let entity = entity_with_paths(
        2,
        2,
        vec![PathObject { color: [1, 1, 1], points: vec![[5, 5]] }],
    );
    let canvas = decode(&entity);
    for p in &canvas.pixels {
        assert_eq!(*p, Rgb(255, 255, 255));
    }
}
