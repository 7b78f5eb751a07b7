use image_cache::{Blur, CachedImage, CachedImageOption, DecodeError, Resize};

fn resize_image(src: &str, width: u32, height: u32, quality: u8) -> CachedImage {
    CachedImage {
        src: src.to_string(),
        option: CachedImageOption::Resize(Resize {
            width,
            height,
            quality,
        }),
    }
}

fn blur_image(src: &str, width: u32, height: u32, svg_width: u32, svg_height: u32, sigma: u8) -> CachedImage {
    CachedImage {
        src: src.to_string(),
        option: CachedImageOption::Blur(Blur {
            width,
            height,
            svg_width,
            svg_height,
            sigma,
        }),
    }
}

#[test]
fn url_encode() {
    let img = CachedImage {
        src: "test.jpg".to_string(),
        option: CachedImageOption::Resize(Resize {
            quality: 75,
            width: 100,
            height: 100,
        }),
    };

    let encoded = img.get_url_encoded();
    let decoded: CachedImage = CachedImage::from_url_encoded(&encoded).unwrap();

    assert!(img == decoded);
}

#[test]
fn url_encoding_is_canonical() {
    let img = resize_image("test.jpg", 100, 100, 75);
    assert_eq!(
        img.get_url_encoded(),
        "/cache/image?src=test.jpg&option[r][w]=100&option[r][h]=100&option[r][q]=75"
    );

    let b = blur_image("a b.png", 20, 25, 100, 200, 15);
    assert_eq!(
        b.get_url_encoded(),
        "/cache/image?src=a+b.png&option[b][w]=20&option[b][h]=25&option[b][sw]=100&option[b][sh]=200&option[b][s]=15"
    );
}

#[test]
fn url_round_trip_special_characters() {
    let descriptors = vec![
        resize_image("images/caf\u{e9} & friends?.png", 1, 2, 3),
        resize_image("", 0, 0, 0),
        resize_image("100%+legit=name[1].jpg", 4294967295, 4294967295, 255),
        blur_image("\u{5716}\u{50cf}/nested//path.webp", 20, 20, 100, 100, 15),
        blur_image("trailing/slash/", 1, 1, 1, 1, 1),
    ];
    for d in descriptors {
        let encoded = d.get_url_encoded();
        let decoded = CachedImage::from_url_encoded(&encoded).unwrap();
        assert_eq!(d, decoded);
    }
}

#[test]
fn decode_accepts_bare_query_and_full_url() {
    let d = resize_image("x.png", 10, 20, 30);
    let bare = "src=x.png&option[r][w]=10&option[r][h]=20&option[r][q]=30";
    assert_eq!(CachedImage::from_url_encoded(bare).unwrap(), d);
    let full = format!("https://host/cache/image?{}", bare);
    assert_eq!(CachedImage::from_url_encoded(&full).unwrap(), d);
}

#[test]
fn decode_rejects_garbage() {
    let r = CachedImage::from_url_encoded("garbage");
    assert!(matches!(r, Err(DecodeError)));
}

#[test]
fn decode_rejects_malformed_queries() {
    let cases = vec![
        "",
        "src=a",
        "src=a&option[r][w]=1&option[r][h]=2",
        "src=a&option[r][w]=abc&option[r][h]=2&option[r][q]=3",
        "src=a&option[r][w]=4294967296&option[r][h]=2&option[r][q]=3",
        "src=a&option[r][w]=1&option[r][h]=2&option[r][q]=256",
        "src=a&option[b][w]=1&option[b][h]=2&option[b][sw]=3&option[b][sh]=4",
        "src=%zz&option[r][w]=1&option[r][h]=2&option[r][q]=3",
        "option[r][w]=1&option[r][h]=2&option[r][q]=3",
    ];
    for c in cases {
        assert!(
            matches!(CachedImage::from_url_encoded(c), Err(DecodeError)),
            "{}",
            c
        );
    }
}

#[test]
fn decode_accepts_any_field_order() {
    let d = resize_image("a", 1, 2, 3);
    let reordered = "option[r][q]=3&src=a&option[r][h]=2&option[r][w]=1";
    assert_eq!(CachedImage::from_url_encoded(reordered).unwrap(), d);

    let b = blur_image("x", 1, 2, 3, 4, 5);
    let shuffled = "option[b][s]=5&option[b][sh]=4&option[b][sw]=3&option[b][h]=2&option[b][w]=1&src=x";
    assert_eq!(CachedImage::from_url_encoded(shuffled).unwrap(), b);
}

#[test]
fn decode_ignores_unknown_keys() {
    let d = resize_image("a", 1, 2, 3);
    let q = "src=a&option[r][w]=1&option[r][h]=2&option[r][q]=3&extra=1&junk";
    assert_eq!(CachedImage::from_url_encoded(q).unwrap(), d);
}

#[test]
fn decode_lets_the_last_duplicate_win() {
    let q = "src=a&src=b&option[r][w]=1&option[r][w]=9&option[r][h]=2&option[r][q]=3";
    let d = CachedImage::from_url_encoded(q).unwrap();
    assert_eq!(d, resize_image("b", 9, 2, 3));
}

#[test]
fn decode_rejects_mixed_variants() {
    let q = "src=a&option[r][w]=1&option[r][h]=2&option[r][q]=3&option[b][w]=1&option[b][h]=2&option[b][sw]=3&option[b][sh]=4&option[b][s]=5";
    assert!(matches!(CachedImage::from_url_encoded(q), Err(DecodeError)));
}

#[test]
fn decode_accepts_escaped_keys() {
    // percent-escapes are resolved before key recognition
    let q = "sr%63=a&option[r][w]=1&option[r][h]=2&option[r][q]=3";
    assert_eq!(CachedImage::from_url_encoded(q).unwrap(), resize_image("a", 1, 2, 3));
}

#[test]
fn decode_bounds_are_exact() {
    let q = "src=a&option[r][w]=4294967295&option[r][h]=0&option[r][q]=255";
    let d = CachedImage::from_url_encoded(q).unwrap();
    assert_eq!(d, resize_image("a", 4294967295, 0, 255));
}

#[test]
fn plus_decodes_as_space() {
    let d = CachedImage::from_url_encoded("src=a+b&option[r][w]=1&option[r][h]=2&option[r][q]=3")
        .unwrap();
    assert_eq!(d.src, "a b");
}
