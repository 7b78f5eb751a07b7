use base64::Engine;
use image_cache::{path_from_segments, Blur, CachedImage, CachedImageOption, Resize};

const TEST_IMAGE: &str = "example/image-example/public/cute_ferris.png";

fn blur_descriptor() -> CachedImage {
    CachedImage {
        src: TEST_IMAGE.to_string(),
        option: CachedImageOption::Blur(Blur {
            width: 25,
            height: 25,
            svg_height: 100,
            svg_width: 100,
            sigma: 20,
        }),
    }
}

#[test]
fn file_path() {
    let spec = blur_descriptor();

    let file_path = spec.get_file_path();

    let result = CachedImage::from_file_path(&file_path).unwrap();

    assert_eq!(spec, result);
}

#[test]
fn segments_are_trimmed_and_joined() {
    assert_eq!(path_from_segments(vec!["/a/", "//b", "c/"]), "a/b/c");
    assert_eq!(path_from_segments(vec!["", "x", ""]), "x");
    assert_eq!(path_from_segments(vec!["///", "///"]), "");
    assert_eq!(path_from_segments(vec!["a//b", "c"]), "a//b/c");
}

#[test]
fn token_matches_reference_base64() {
    let d = blur_descriptor();
    let query = format!(
        "src={}&option[b][w]=25&option[b][h]=25&option[b][sw]=100&option[b][sh]=100&option[b][s]=20",
        TEST_IMAGE
    );
    let expected = base64::engine::general_purpose::STANDARD.encode(query.as_bytes());
    assert_eq!(d.encode_for_path(), expected);
}

#[test]
fn path_segment_round_trip() {
    let cases = vec![
        blur_descriptor(),
        CachedImage {
            src: "img/photo.jpeg".to_string(),
            option: CachedImageOption::Resize(Resize {
                width: 640,
                height: 480,
                quality: 75,
            }),
        },
        CachedImage {
            src: "".to_string(),
            option: CachedImageOption::Resize(Resize {
                width: 1,
                height: 1,
                quality: 0,
            }),
        },
    ];
    for d in cases {
        let token = d.encode_for_path();
        let back = CachedImage::decode_from_path_segment(&token).unwrap();
        assert_eq!(d, back);
    }
}

#[test]
fn from_file_path_sees_through_a_root_prefix() {
    let spec = blur_descriptor();
    let rooted = format!("srv/data/{}", spec.get_file_path());
    assert_eq!(CachedImage::from_file_path(&rooted).unwrap(), spec);
}

#[test]
fn from_file_path_needs_a_real_token() {
    assert!(CachedImage::from_file_path("no/descriptor/here.webp").is_none());
    assert!(CachedImage::from_file_path("").is_none());
}

#[test]
fn decode_from_path_segment_rejects_noise() {
    assert!(CachedImage::decode_from_path_segment("not base64!").is_err());
    // well-formed base64 of a non-query
    let tok = base64::engine::general_purpose::STANDARD.encode(b"hello world");
    assert!(CachedImage::decode_from_path_segment(&tok).is_err());
}

#[test]
fn extension_follows_the_variant() {
    let blur = blur_descriptor();
    assert!(blur.get_file_path().ends_with(".svg"));

    let resize = CachedImage {
        src: TEST_IMAGE.to_string(),
        option: CachedImageOption::Resize(Resize {
            width: 100,
            height: 100,
            quality: 75,
        }),
    };
    assert!(resize.get_file_path().ends_with(".webp"));
    assert!(resize.get_file_path().starts_with("cache/image/"));
}

#[test]
fn existing_extension_is_replaced() {
    let d = CachedImage {
        src: "dir/picture.png".to_string(),
        option: CachedImageOption::Resize(Resize {
            width: 10,
            height: 10,
            quality: 50,
        }),
    };
    let p = d.get_file_path();
    assert!(p.ends_with("/dir/picture.webp"), "{}", p);
    assert!(!p.contains("picture.png"));
}

#[test]
fn distinct_descriptors_resolve_to_distinct_paths() {
    let mk = |q: u8| CachedImage {
        src: "photo.jpg".to_string(),
        option: CachedImageOption::Resize(Resize {
            width: 100,
            height: 100,
            quality: q,
        }),
    };
    // only the quality differs: content addressing must separate the files
    assert_ne!(mk(75).get_file_path(), mk(7).get_file_path());
    assert_ne!(mk(75).get_file_path(), mk(76).get_file_path());

    let blur = CachedImage {
        src: "photo.jpg".to_string(),
        option: CachedImageOption::Blur(Blur {
            width: 100,
            height: 100,
            svg_width: 1,
            svg_height: 1,
            sigma: 1,
        }),
    };
    assert_ne!(mk(75).get_file_path(), blur.get_file_path());
}
