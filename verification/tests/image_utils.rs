use image::{DynamicImage, ImageBuffer, Rgb, RgbImage, Rgba, RgbaImage};
use pdf_text_extract::image_utils::{draw_boxes, draw_rect, draw_rects, image_file_name};

// Helper function to create a solid color image
fn create_solid_color_image(width: u32, height: u32, color: Rgba<u8>) -> DynamicImage {
    let img: RgbaImage = ImageBuffer::from_pixel(width, height, color);
    DynamicImage::ImageRgba8(img)
}

#[test]
fn test_draw_rect_filled() {
    let img = create_solid_color_image(50, 50, Rgba([255, 255, 255, 255])); // White background
    let result = draw_rect(&img, (10, 10, 20, 15), true);

    let rgba = result.to_rgba8();

    // Check that all pixels in the rectangle are red
    for y in 10..25 {
        for x in 10..30 {
            let pixel = rgba.get_pixel(x, y);
            assert_eq!(
                pixel,
                &Rgba([255, 0, 0, 255]),
                "Pixel at ({}, {}) should be red",
                x,
                y
            );
        }
    }

    // Check that pixels outside the rectangle are unchanged
    assert_eq!(rgba.get_pixel(9, 10), &Rgba([255, 255, 255, 255]));
    assert_eq!(rgba.get_pixel(30, 10), &Rgba([255, 255, 255, 255]));
    assert_eq!(rgba.get_pixel(10, 9), &Rgba([255, 255, 255, 255]));
    assert_eq!(rgba.get_pixel(10, 25), &Rgba([255, 255, 255, 255]));
}

#[test]
fn test_draw_rect_outline_only() {
    let img = create_solid_color_image(50, 50, Rgba([255, 255, 255, 255])); // White background
    let result = draw_rect(&img, (10, 10, 20, 15), false);

    let rgba = result.to_rgba8();

    // Check corners are red
    assert_eq!(rgba.get_pixel(10, 10), &Rgba([255, 0, 0, 255]));
    assert_eq!(rgba.get_pixel(29, 10), &Rgba([255, 0, 0, 255]));
    assert_eq!(rgba.get_pixel(10, 24), &Rgba([255, 0, 0, 255]));
    assert_eq!(rgba.get_pixel(29, 24), &Rgba([255, 0, 0, 255]));

    // Check edges are red
    assert_eq!(rgba.get_pixel(15, 10), &Rgba([255, 0, 0, 255])); // top edge
    assert_eq!(rgba.get_pixel(15, 24), &Rgba([255, 0, 0, 255])); // bottom edge
    assert_eq!(rgba.get_pixel(10, 15), &Rgba([255, 0, 0, 255])); // left edge
    assert_eq!(rgba.get_pixel(29, 15), &Rgba([255, 0, 0, 255])); // right edge

    // Check interior is unchanged (white)
    assert_eq!(rgba.get_pixel(15, 15), &Rgba([255, 255, 255, 255]));
    assert_eq!(rgba.get_pixel(20, 20), &Rgba([255, 255, 255, 255]));
}

#[test]
fn test_draw_rect_at_origin() {
    let img = create_solid_color_image(30, 30, Rgba([0, 255, 0, 255])); // Green background
    let result = draw_rect(&img, (0, 0, 10, 10), true);

    let rgba = result.to_rgba8();

    // Check top-left corner and some filled area
    assert_eq!(rgba.get_pixel(0, 0), &Rgba([255, 0, 0, 255]));
    assert_eq!(rgba.get_pixel(5, 5), &Rgba([255, 0, 0, 255]));
    assert_eq!(rgba.get_pixel(9, 9), &Rgba([255, 0, 0, 255]));

    // Check area outside rectangle is unchanged
    assert_eq!(rgba.get_pixel(10, 10), &Rgba([0, 255, 0, 255]));
    assert_eq!(rgba.get_pixel(15, 15), &Rgba([0, 255, 0, 255]));
}

#[test]
fn test_draw_rect_exceeds_bounds() {
    let img = create_solid_color_image(20, 20, Rgba([0, 0, 255, 255])); // Blue background
    let result = draw_rect(&img, (15, 15, 10, 10), true); // Rectangle extends beyond image

    let rgba = result.to_rgba8();

    // Check that pixels within bounds are drawn
    assert_eq!(rgba.get_pixel(15, 15), &Rgba([255, 0, 0, 255]));
    assert_eq!(rgba.get_pixel(19, 19), &Rgba([255, 0, 0, 255]));

    // Check that original pixels outside the attempted rectangle are unchanged
    assert_eq!(rgba.get_pixel(14, 14), &Rgba([0, 0, 255, 255]));
    assert_eq!(rgba.get_pixel(10, 10), &Rgba([0, 0, 255, 255]));
}

#[test]
fn test_draw_rect_completely_out_of_bounds() {
    let img = create_solid_color_image(10, 10, Rgba([128, 128, 128, 255])); // Gray background
    let result = draw_rect(&img, (20, 20, 5, 5), true); // Completely outside

    let rgba_original = img.to_rgba8();
    let rgba_result = result.to_rgba8();

    // Image should remain unchanged
    for y in 0..10 {
        for x in 0..10 {
            assert_eq!(
                rgba_result.get_pixel(x, y),
                rgba_original.get_pixel(x, y),
                "Pixel at ({}, {}) should be unchanged",
                x,
                y
            );
        }
    }
}

#[test]
fn test_draw_rect_single_pixel() {
    let img = create_solid_color_image(10, 10, Rgba([255, 255, 255, 255])); // White background
    let result = draw_rect(&img, (5, 5, 1, 1), true);

    let rgba = result.to_rgba8();

    // Only one pixel should be red
    assert_eq!(rgba.get_pixel(5, 5), &Rgba([255, 0, 0, 255]));

    // All other pixels should remain white
    assert_eq!(rgba.get_pixel(4, 5), &Rgba([255, 255, 255, 255]));
    assert_eq!(rgba.get_pixel(6, 5), &Rgba([255, 255, 255, 255]));
    assert_eq!(rgba.get_pixel(5, 4), &Rgba([255, 255, 255, 255]));
    assert_eq!(rgba.get_pixel(5, 6), &Rgba([255, 255, 255, 255]));
}

#[test]
fn test_draw_rect_zero_dimensions() {
    let img = create_solid_color_image(10, 10, Rgba([255, 255, 255, 255])); // White background
    let result = draw_rect(&img, (5, 5, 0, 0), true);

    let rgba_original = img.to_rgba8();
    let rgba_result = result.to_rgba8();

    // Image should remain unchanged when drawing zero-sized rectangle
    for y in 0..10 {
        for x in 0..10 {
            assert_eq!(
                rgba_result.get_pixel(x, y),
                rgba_original.get_pixel(x, y),
                "Pixel at ({}, {}) should be unchanged",
                x,
                y
            );
        }
    }
}

#[test]
fn test_draw_rect_thin_line_horizontal() {
    let img = create_solid_color_image(20, 20, Rgba([255, 255, 255, 255])); // White background
    let result = draw_rect(&img, (5, 10, 10, 1), true); // Thin horizontal line

    let rgba = result.to_rgba8();

    // Check horizontal line is drawn
    for x in 5..15 {
        assert_eq!(rgba.get_pixel(x, 10), &Rgba([255, 0, 0, 255]));
    }

    // Check pixels above and below are unchanged
    for x in 5..15 {
        assert_eq!(rgba.get_pixel(x, 9), &Rgba([255, 255, 255, 255]));
        assert_eq!(rgba.get_pixel(x, 11), &Rgba([255, 255, 255, 255]));
    }
}

#[test]
fn test_draw_rect_thin_line_vertical() {
    let img = create_solid_color_image(20, 20, Rgba([255, 255, 255, 255])); // White background
    let result = draw_rect(&img, (10, 5, 1, 10), true); // Thin vertical line

    let rgba = result.to_rgba8();

    // Check vertical line is drawn
    for y in 5..15 {
        assert_eq!(rgba.get_pixel(10, y), &Rgba([255, 0, 0, 255]));
    }

    // Check pixels left and right are unchanged
    for y in 5..15 {
        assert_eq!(rgba.get_pixel(9, y), &Rgba([255, 255, 255, 255]));
        assert_eq!(rgba.get_pixel(11, y), &Rgba([255, 255, 255, 255]));
    }
}

#[test]
fn test_draw_rect_outline_vs_filled() {
    let img1 = create_solid_color_image(20, 20, Rgba([255, 255, 255, 255])); // White background
    let img2 = img1.clone();

    let filled = draw_rect(&img1, (5, 5, 10, 8), true);
    let outline = draw_rect(&img2, (5, 5, 10, 8), false);

    let rgba_filled = filled.to_rgba8();
    let rgba_outline = outline.to_rgba8();

    // Interior should be different between filled and outline
    assert_eq!(rgba_filled.get_pixel(7, 7), &Rgba([255, 0, 0, 255])); // Red for filled
    assert_eq!(rgba_outline.get_pixel(7, 7), &Rgba([255, 255, 255, 255])); // White for outline

    // Edges should be the same (red) for both
    assert_eq!(rgba_filled.get_pixel(5, 5), rgba_outline.get_pixel(5, 5)); // Top-left corner
    assert_eq!(
        rgba_filled.get_pixel(14, 12),
        rgba_outline.get_pixel(14, 12)
    ); // Bottom-right corner
}

// ---- further cases ----

const RED: Rgba<u8> = Rgba([255, 0, 0, 255]);
const WHITE: Rgba<u8> = Rgba([255, 255, 255, 255]);

#[test]
fn draw_rect_converts_rgb_input_to_rgba() {
    let img: RgbImage = ImageBuffer::from_pixel(8, 6, Rgb([1, 2, 3]));
    let result = draw_rect(&DynamicImage::ImageRgb8(img), (1, 1, 2, 2), true);
    let rgba = result.as_rgba8().expect("the result is an RGBA8 image");
    assert_eq!(rgba.dimensions(), (8, 6));
    assert_eq!(rgba.get_pixel(0, 0), &Rgba([1, 2, 3, 255]));
    assert_eq!(rgba.get_pixel(1, 1), &RED);
    assert_eq!(rgba.get_pixel(2, 2), &RED);
    assert_eq!(rgba.get_pixel(3, 3), &Rgba([1, 2, 3, 255]));
}

#[test]
fn draw_rect_outline_of_two_by_two_is_all_border() {
    let img = create_solid_color_image(4, 4, WHITE);
    let rgba = draw_rect(&img, (1, 1, 2, 2), false).to_rgba8();
    for (x, y) in [(1, 1), (1, 2), (2, 1), (2, 2)] {
        assert_eq!(rgba.get_pixel(x, y), &RED);
    }
    assert_eq!(rgba.get_pixel(0, 0), &WHITE);
    assert_eq!(rgba.get_pixel(3, 3), &WHITE);
}

#[test]
fn draw_rect_outline_clipped_keeps_visible_edges() {
    let img = create_solid_color_image(10, 10, WHITE);
    // Right and bottom edges fall outside the image.
    let rgba = draw_rect(&img, (6, 6, 10, 10), false).to_rgba8();
    assert_eq!(rgba.get_pixel(6, 6), &RED);
    assert_eq!(rgba.get_pixel(9, 6), &RED);
    assert_eq!(rgba.get_pixel(6, 9), &RED);
    assert_eq!(rgba.get_pixel(9, 9), &WHITE);
    assert_eq!(rgba.get_pixel(7, 7), &WHITE);
}

#[test]
fn draw_rect_twice_equals_once() {
    let img = create_solid_color_image(12, 12, WHITE);
    let once = draw_rect(&img, (2, 3, 5, 4), false);
    let twice = draw_rect(&once, (2, 3, 5, 4), false);
    assert_eq!(once.to_rgba8(), twice.to_rgba8());
}

#[test]
fn fill_over_outline_equals_fill() {
    let img = create_solid_color_image(12, 12, WHITE);
    let outline = draw_rect(&img, (2, 3, 5, 4), false);
    let both = draw_rect(&outline, (2, 3, 5, 4), true);
    let filled = draw_rect(&img, (2, 3, 5, 4), true);
    assert_eq!(both.to_rgba8(), filled.to_rgba8());
}

#[test]
fn draw_rects_in_bounds_matches_draw_rect() {
    let img = create_solid_color_image(20, 20, WHITE);
    let rects = [(1, 1, 5, 5), (10, 2, 3, 7)];
    let result = draw_rects(&img, &rects, false).ok().expect("rectangles fit");
    let expected = draw_rect(&draw_rect(&img, rects[0], false), rects[1], false);
    assert_eq!(result.to_rgba8(), expected.to_rgba8());
}

#[test]
fn draw_rects_single_rect_matches_draw_rect() {
    let img = create_solid_color_image(20, 20, WHITE);
    let result = draw_rects(&img, &[(3, 4, 6, 2)], true).ok().expect("rectangle fits");
    assert_eq!(result.to_rgba8(), draw_rect(&img, (3, 4, 6, 2), true).to_rgba8());
}

#[test]
fn draw_rects_empty_list_is_plain_copy() {
    let img = create_solid_color_image(5, 5, WHITE);
    let result = draw_rects(&img, &[], true).ok().expect("no rectangles");
    assert_eq!(result.to_rgba8(), img.to_rgba8());
}

#[test]
fn draw_rects_reports_first_rect_out_of_bounds() {
    let img = create_solid_color_image(20, 20, WHITE);
    let rects = [(0, 0, 5, 5), (15, 15, 10, 10), (30, 30, 1, 1)];
    let err = draw_rects(&img, &rects, true).err().expect("second rectangle does not fit");
    assert_eq!(err.rect, (15, 15, 10, 10));
    assert_eq!(err.width, 20);
    assert_eq!(err.height, 20);
    assert_eq!(
        err.to_string(),
        "Rectangle (15, 15, 10, 10) exceeds image bounds (20, 20)"
    );
}

#[test]
fn draw_rects_empty_rect_outside_is_fine() {
    let img = create_solid_color_image(10, 10, WHITE);
    let result = draw_rects(&img, &[(50, 50, 0, 3), (50, 50, 3, 0)], true);
    assert!(result.is_ok());
}

#[test]
fn draw_rects_exactly_at_edge_fits() {
    let img = create_solid_color_image(10, 10, WHITE);
    assert!(draw_rects(&img, &[(5, 5, 5, 5)], true).is_ok());
    let err = draw_rects(&img, &[(5, 5, 6, 5)], true).err().expect("one column too wide");
    assert_eq!(err.to_string(), "Rectangle (5, 5, 6, 5) exceeds image bounds (10, 10)");
}

#[test]
fn draw_boxes_skips_invisible_boxes() {
    let img = create_solid_color_image(10, 10, WHITE);
    let rects = [(10, 0, 3, 3), (0, 10, 3, 3), (1, 1, 0, 4), (1, 1, 4, 0), (2, 2, 3, 3)];
    let result = draw_boxes(img.clone(), &rects);
    let expected = draw_rect(&img, (2, 2, 3, 3), false);
    assert_eq!(result.to_rgba8(), expected.to_rgba8());
}

#[test]
fn draw_boxes_draws_clipped_outlines() {
    let img = create_solid_color_image(10, 10, WHITE);
    let result = draw_boxes(img.clone(), &[(8, 8, 5, 5)]).to_rgba8();
    assert_eq!(result.get_pixel(8, 8), &RED);
    assert_eq!(result.get_pixel(9, 8), &RED);
    assert_eq!(result.get_pixel(9, 9), &WHITE);
}

#[test]
fn image_file_names_count_pages_from_one() {
    assert_eq!(image_file_name("test_pdf", 0), "test_pdf_1.png");
    assert_eq!(image_file_name("test_pdf", 1), "test_pdf_2.png");
    assert_eq!(image_file_name("bbox_output", 9), "bbox_output_10.png");
    assert_eq!(image_file_name("", 99), "_100.png");
}

#[test]
fn image_file_names_of_different_pages_differ() {
    let names: Vec<String> = (0..200).map(|i| image_file_name("doc", i)).collect();
    for i in 0..names.len() {
        for j in (i + 1)..names.len() {
            assert_ne!(names[i], names[j]);
        }
    }
}

#[test]
fn draw_results_are_rgba8_images() {
    let img: RgbImage = ImageBuffer::from_pixel(6, 6, Rgb([9, 9, 9]));
    let img = DynamicImage::ImageRgb8(img);
    assert!(draw_rect(&img, (1, 1, 2, 2), false).as_rgba8().is_some());
    let drawn = draw_rects(&img, &[(1, 1, 2, 2)], true).ok().expect("fits");
    assert!(drawn.as_rgba8().is_some());
    assert!(draw_boxes(img.clone(), &[(1, 1, 2, 2)]).as_rgba8().is_some());
}

#[test]
fn draw_boxes_without_visible_box_returns_input() {
    let img: RgbImage = ImageBuffer::from_pixel(6, 6, Rgb([9, 9, 9]));
    let img = DynamicImage::ImageRgb8(img);
    let result = draw_boxes(img.clone(), &[(6, 0, 2, 2), (0, 0, 0, 3)]);
    assert_eq!(result, img);
    assert!(result.as_rgb8().is_some());
}

#[test]
fn draw_rects_order_does_not_matter() {
    let img = create_solid_color_image(16, 16, WHITE);
    let a = [(1, 1, 6, 4), (3, 2, 8, 9), (1, 1, 6, 4)];
    let b = [(3, 2, 8, 9), (1, 1, 6, 4)];
    let ra = draw_rects(&img, &a, false).ok().expect("fits");
    let rb = draw_rects(&img, &b, false).ok().expect("fits");
    assert_eq!(ra.to_rgba8(), rb.to_rgba8());
}

#[test]
fn draw_rects_pixel_red_iff_some_rect_marks_it() {
    let img = create_solid_color_image(12, 12, WHITE);
    let rects = [(0, 0, 4, 4), (6, 6, 5, 3)];
    let out = draw_rects(&img, &rects, false).ok().expect("fits").to_rgba8();
    for y in 0..12u32 {
        for x in 0..12u32 {
            let marked = rects.iter().any(|&(rx, ry, w, h)| {
                rx <= x && x < rx + w && ry <= y && y < ry + h
                    && (x == rx || x == rx + w - 1 || y == ry || y == ry + h - 1)
            });
            let expected = if marked { RED } else { WHITE };
            assert_eq!(out.get_pixel(x, y), &expected, "pixel ({}, {})", x, y);
        }
    }
}
