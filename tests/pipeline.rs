use image::codecs::png::PngEncoder;
use image::{ExtendedColorType, ImageEncoder};
use png2svg::color::Color;
use png2svg::options::VectorizeOptions;
use png2svg::components::find_connected_components;
use png2svg::contour::trace_contour;
use png2svg::palette::{build_palette, median_cut_quantize};
use png2svg::simplify::Point;
use png2svg::quantize::quantize_image;
use png2svg::raster::RasterImage;
use png2svg::{png_to_svg, VectorizeError};

fn image_from_fn(width: u32, height: u32, f: impl Fn(u32, u32) -> Color) -> RasterImage {
    let mut pixels = Vec::new();
    for y in 0..height {
        for x in 0..width {
            pixels.push(f(x, y));
        }
    }
    RasterImage::new(width, height, pixels).expect("pixel count matches the size")
}

fn rgba(r: u8, g: u8, b: u8, a: u8) -> Color {
    Color { r, g, b, a }
}

fn encode_png(image: &RasterImage) -> Vec<u8> {
    let mut raw = Vec::new();
    for p in &image.pixels {
        raw.extend_from_slice(&[p.r, p.g, p.b, p.a]);
    }
    let mut png_bytes = Vec::new();
    PngEncoder::new(&mut png_bytes)
        .write_image(&raw, image.width, image.height, ExtendedColorType::Rgba8)
        .expect("image should encode to png");
    png_bytes
}

fn checkerboard() -> RasterImage {
    image_from_fn(2, 2, |x, y| {
        let alpha = if (x + y) % 2 == 0 { 255 } else { 128 };
        rgba(x as u8 * 80, y as u8 * 40, 200, alpha)
    })
}

#[test]
fn creates_svg_output() {
    let png_bytes = encode_png(&checkerboard());
    let options = VectorizeOptions::default();
    let svg = png_to_svg(&png_bytes, &options).expect("svg generation should succeed");

    assert!(svg.contains("<svg"));
    assert!(
        svg.contains("path") || svg.contains("rect") || svg.contains("<g>"),
        "SVG should contain path, rect, or group. Got: {}",
        svg
    );
}

#[test]
fn respects_palette_size() {
    let image = image_from_fn(4, 4, |_, _| rgba(0, 0, 0, 0));
    let palette = build_palette(&image, 4);
    assert_eq!(palette.len(), 1, "empty images fall back to one color");

    let non_empty = image_from_fn(4, 4, |x, y| {
        let alpha = if (x + y) % 2 == 0 { 255 } else { 128 };
        rgba(x as u8 * 10, y as u8 * 10, 50, alpha)
    });
    let palette = build_palette(&non_empty, 3);
    assert!(palette.len() <= 3);
}

#[test]
fn quantize_image_tracks_dimensions() {
    let image = image_from_fn(3, 2, |x, y| {
        let alpha = if x == 0 { 0 } else { 255 };
        rgba(x as u8 * 20, y as u8 * 30, 10, alpha)
    });

    let options = VectorizeOptions::default();
    let quantized = quantize_image(&image, &options);

    assert_eq!(quantized.width, 3);
    assert_eq!(quantized.height, 2);
    assert_eq!(quantized.indices.len(), 6);
    assert!(!quantized.palette.is_empty());
}

#[test]
fn same_input_gives_same_document() {
    let png_bytes = encode_png(&image_from_fn(6, 5, |x, y| {
        if (x + 2 * y) % 3 == 0 { rgba(250, 10, 10, 255) } else { rgba(10, 10, 250, 255) }
    }));
    let options = VectorizeOptions::default();
    let first = png_to_svg(&png_bytes, &options).expect("first run");
    let second = png_to_svg(&png_bytes, &options).expect("second run");
    assert_eq!(first, second);
}

#[test]
fn few_colours_are_kept_exactly() {
    let colours = [rgba(255, 0, 0, 255), rgba(0, 255, 0, 255), rgba(0, 0, 255, 200)];
    let image = image_from_fn(3, 3, |x, y| colours[((x + y) % 3) as usize]);
    let palette = build_palette(&image, 8);
    assert_eq!(palette, vec![colours[0], colours[1], colours[2]]);
}

#[test]
fn many_colours_are_reduced_to_the_budget() {
    let image = image_from_fn(8, 8, |x, y| rgba(x as u8 * 30, y as u8 * 30, 0, 255));
    let palette = build_palette(&image, 5);
    assert!(!palette.is_empty() && palette.len() <= 5);
    assert!(palette.iter().all(|c| c.a > 0));
}

#[test]
fn every_index_is_a_palette_entry() {
    let image = image_from_fn(5, 4, |x, y| {
        let a = if x == 4 { 0 } else { 255 };
        rgba((x * 50) as u8, (y * 60) as u8, 7, a)
    });
    let options = VectorizeOptions { colors: 3, ..VectorizeOptions::default() };
    let q = quantize_image(&image, &options);
    assert_eq!(q.indices.len(), 20);
    assert!(q.indices.iter().all(|&i| i < q.palette.len()));
    assert_eq!(*q.palette.last().unwrap(), rgba(0, 0, 0, 0));
    assert_eq!(q.indices[4], q.palette.len() - 1);
}

#[test]
fn fully_transparent_image_has_one_colour() {
    let image = image_from_fn(4, 4, |_, _| rgba(0, 0, 0, 0));
    let options = VectorizeOptions { colors: 4, ..VectorizeOptions::default() };
    let q = quantize_image(&image, &options);
    assert_eq!(q.palette, vec![rgba(0, 0, 0, 0)]);
    assert!(q.indices.iter().all(|&i| i == 0));
}

#[test]
fn single_pixel_becomes_unit_square() {
    let png_bytes = encode_png(&image_from_fn(1, 1, |_, _| rgba(255, 0, 0, 255)));
    let svg = png_to_svg(&png_bytes, &VectorizeOptions::default()).expect("converts");
    assert!(svg.starts_with(
        "<svg xmlns=\"http://www.w3.org/2000/svg\" viewBox=\"0 0 1 1\" aria-label=\"vectorized\">\n"
    ));
    assert!(svg.contains("  <g fill=\"#ff0000\" fill-opacity=\"1.000\">\n"));
    assert!(svg.contains("    <path d=\"M 0 0 L 1 0 L 1 1 L 0 1 Z\"/>\n"));
    assert!(svg.ends_with("  </g>\n</svg>"));
}

#[test]
fn block_is_traced_as_closed_path() {
    let image = image_from_fn(4, 4, |x, y| {
        if (1..3).contains(&x) && (1..3).contains(&y) { rgba(0, 0, 0, 255) } else { rgba(0, 0, 0, 0) }
    });
    let png_bytes = encode_png(&image);
    let svg = png_to_svg(&png_bytes, &VectorizeOptions::default()).expect("converts");
    assert!(svg.contains("<path d=\"M 1.50 1.50 L 2.50 1.50 L 2.50 2.50 L 1.50 2.50 L 1.50 1.50 Z\"/>"));
    assert!(svg.contains("fill=\"#000000\" fill-opacity=\"1.000\""));
}

#[test]
fn undecodable_bytes_fail_to_decode() {
    let r = png_to_svg(b"not an image", &VectorizeOptions::default());
    assert!(matches!(r, Err(VectorizeError::Decode(_))));
}

#[test]
fn regions_join_diagonally_and_split_on_gaps() {
    let red = rgba(255, 0, 0, 255);
    let blue = rgba(0, 0, 255, 255);
    let row = image_from_fn(4, 1, |x, _| if x == 1 { blue } else { red });
    let q = quantize_image(&row, &VectorizeOptions::default());
    let r = q.palette.iter().position(|&c| c == red).unwrap();
    let comps = find_connected_components(&q, r);
    assert_eq!(comps.len(), 2);
    assert_eq!(comps[0], vec![(0, 0)]);
    let mut second = comps[1].clone();
    second.sort();
    assert_eq!(second, vec![(2, 0), (3, 0)]);

    let diagonal = image_from_fn(2, 2, |x, y| if x == y { red } else { blue });
    let q = quantize_image(&diagonal, &VectorizeOptions::default());
    let r = q.palette.iter().position(|&c| c == red).unwrap();
    let comps = find_connected_components(&q, r);
    assert_eq!(comps.len(), 1);
    assert_eq!(comps[0].len(), 2);
}

#[test]
fn median_cut_splits_the_widest_channel() {
    let px = vec![
        rgba(200, 0, 0, 255),
        rgba(0, 0, 0, 255),
        rgba(210, 0, 0, 255),
        rgba(10, 0, 0, 255),
    ];
    assert_eq!(median_cut_quantize(&px, 2), vec![rgba(5, 0, 0, 255), rgba(205, 0, 0, 255)]);
    assert_eq!(
        median_cut_quantize(&px, 3),
        vec![rgba(205, 0, 0, 255), rgba(0, 0, 0, 255), rgba(10, 0, 0, 255)]
    );
    assert_eq!(median_cut_quantize(&Vec::new(), 3), vec![rgba(0, 0, 0, 0)]);
}

#[test]
fn contour_starts_top_left_and_closes() {
    let image = image_from_fn(5, 4, |x, y| {
        if (1..4).contains(&x) && (1..3).contains(&y) { rgba(9, 9, 9, 255) } else { rgba(0, 0, 0, 0) }
    });
    let q = quantize_image(&image, &VectorizeOptions::default());
    let comps = find_connected_components(&q, 0);
    assert_eq!(comps.len(), 1);
    let c = trace_contour(&q, &comps[0], 0).expect("traced");
    assert!(c.len() >= 3);
    assert_eq!(c[0], Point { x: 3, y: 3 });
    assert_eq!(c.first(), c.last());
}

#[test]
fn thin_region_falls_back_to_its_box() {
    let png_bytes = encode_png(&image_from_fn(2, 1, |_, _| rgba(0, 128, 0, 255)));
    let svg = png_to_svg(&png_bytes, &VectorizeOptions::default()).expect("converts");
    assert!(svg.contains("    <path d=\"M 0 0 L 2 0 L 2 1 L 0 1 Z\"/>\n"));

    let png_bytes = encode_png(&image_from_fn(3, 1, |_, _| rgba(0, 128, 0, 255)));
    let svg = png_to_svg(&png_bytes, &VectorizeOptions::default()).expect("converts");
    assert!(svg.contains("<path d=\"M 0.50 0.50 L 1.50 0.50 L 2.50 0.50 L 0.50 0.50 Z\"/>"));
}

#[test]
fn checkerboard_document_is_exact() {
    let png_bytes = encode_png(&checkerboard());
    let svg = png_to_svg(&png_bytes, &VectorizeOptions::default()).expect("converts");
    assert!(svg.starts_with("<svg xmlns=\"http://www.w3.org/2000/svg\" viewBox=\"0 0 2 2\""));
    assert_eq!(svg.matches("<g ").count(), 4);
    assert_eq!(svg.matches("</g>").count(), 4);
    assert_eq!(svg.matches("<path").count(), 4);
    assert_eq!(svg.matches("fill-opacity=\"0.950\"").count(), 2);
    assert_eq!(svg.matches("fill-opacity=\"1.000\"").count(), 2);
    assert!(svg.contains("d=\"M 1 1 L 2 1 L 2 2 L 1 2 Z\""));
}

#[test]
fn solid_block_document_is_exact() {
    let png_bytes = encode_png(&image_from_fn(2, 2, |_, _| rgba(255, 0, 0, 255)));
    let svg = png_to_svg(&png_bytes, &VectorizeOptions::default()).expect("converts");
    assert_eq!(
        svg,
        "<svg xmlns=\"http://www.w3.org/2000/svg\" viewBox=\"0 0 2 2\" aria-label=\"vectorized\">\n\
         \x20 <g fill=\"#ff0000\" fill-opacity=\"1.000\">\n\
         \x20   <path d=\"M 0.50 0.50 L 1.50 0.50 L 1.50 1.50 L 0.50 1.50 L 0.50 0.50 Z\"/>\n\
         \x20 </g>\n\
         </svg>"
    );
}
