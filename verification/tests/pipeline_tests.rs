use image_cache::{CachedImage, CachedImageOption, Resize};

#[test]
fn resize_pipeline_produces_bounded_webp() {
    // the final-raster transform: cubic resize into the target box, then
    // lossy WebP at the requested quality
    let img = image::DynamicImage::ImageRgb8(image::RgbImage::from_fn(200, 150, |x, y| {
        image::Rgb([(x % 256) as u8, (y % 256) as u8, 7])
    }));
    let resized = img.resize(100, 100, image::imageops::FilterType::CatmullRom);
    let encoder = webp::Encoder::from_image(&resized).unwrap();
    let bytes = encoder.encode(75.0);

    let decoded = webp::Decoder::new(&bytes).decode().unwrap();
    let raster = decoded.to_image();
    // bounded by the 100x100 box, aspect ratio kept by the resize filter
    assert_eq!((raster.width(), raster.height()), (100, 75));

    let d = CachedImage {
        src: "shots/wide.png".to_string(),
        option: CachedImageOption::Resize(Resize {
            width: 100,
            height: 100,
            quality: 75,
        }),
    };
    assert!(d.get_file_path().ends_with("/shots/wide.webp"));
}
