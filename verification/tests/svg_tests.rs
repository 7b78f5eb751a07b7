use base64::Engine;
use image_cache::{svg_for_blur, Blur};

fn blur() -> Blur {
    Blur {
        width: 25,
        height: 25,
        svg_width: 100,
        svg_height: 100,
        sigma: 20,
    }
}

fn payload_of(svg: &str) -> Vec<u8> {
    let marker = "data:image/webp;base64,";
    let start = svg.find(marker).unwrap() + marker.len();
    let end = svg[start..].find('"').unwrap() + start;
    base64::engine::general_purpose::STANDARD
        .decode(&svg[start..end])
        .unwrap()
}

#[test]
fn blur_svg_declares_viewport_and_filter() {
    let bytes: Vec<u8> = vec![82, 73, 70, 70, 0, 1, 2, 3];
    let svg = svg_for_blur(&bytes, &blur());
    assert!(svg.contains("viewBox=\"0 0 100 100\""));
    assert!(svg.contains("stdDeviation=\"20\""));
    assert!(svg.contains("edgeMode=\"duplicate\""));
    assert!(svg.contains("preserveAspectRatio=\"none\""));
    assert!(svg.contains("data:image/webp;base64,"));
}

#[test]
fn blur_svg_embeds_the_exact_bytes() {
    let bytes: Vec<u8> = (0u16..=255).map(|b| b as u8).collect();
    let svg = svg_for_blur(&bytes, &blur());
    assert_eq!(payload_of(&svg), bytes);
}

#[test]
fn blur_svg_payload_is_a_webp_raster() {
    // build a small raster, shrink it like the pipeline does, and check the
    // embedded payload decodes back to a WebP of the requested raster size
    let img = image::DynamicImage::ImageRgb8(image::RgbImage::from_fn(50, 50, |x, y| {
        image::Rgb([(x * 5) as u8, (y * 5) as u8, 128])
    }));
    let small = img.resize(25, 25, image::imageops::FilterType::Nearest);
    let encoder = webp::Encoder::from_image(&small).unwrap();
    let webp_bytes = encoder.encode(80.0);
    let svg = svg_for_blur(&webp_bytes, &blur());

    let payload = payload_of(&svg);
    assert_eq!(&payload[..], &*webp_bytes);
    let decoded = webp::Decoder::new(&payload).decode().unwrap();
    let raster = decoded.to_image();
    assert!(raster.width() <= 25 && raster.height() <= 25);
    assert!(raster.width() == 25 || raster.height() == 25);
}
