use image_cache::{CachedImage, CachedImageOption, CreateImageError, ImageOptimizer, Resize};

fn descriptor() -> CachedImage {
    CachedImage {
        src: "assets/pic.png".to_string(),
        option: CachedImageOption::Resize(Resize {
            width: 100,
            height: 100,
            quality: 75,
        }),
    }
}

#[test]
fn paths_are_rooted() {
    let opt = ImageOptimizer::new("/srv/data/".to_string(), 4);
    let d = descriptor();
    let rel = opt.get_file_path(&d);
    assert_eq!(rel, d.get_file_path());
    let full = opt.get_file_path_from_root(&d);
    assert_eq!(full, format!("srv/data/{}", rel));
    assert_eq!(opt.absolute_source_path(&d), "srv/data/assets/pic.png");
}

#[test]
fn outcome_reports_cache_hit_without_work() {
    let hit = ImageOptimizer::create_image_outcome(true, Ok(()));
    assert_eq!(hit.unwrap(), false);
    // the task verdict is ignored on a hit
    let hit2 = ImageOptimizer::create_image_outcome(
        true,
        Err(CreateImageError::IOError("disk".to_string())),
    );
    assert_eq!(hit2.unwrap(), false);
}

#[test]
fn outcome_reports_fresh_generation() {
    let miss = ImageOptimizer::create_image_outcome(false, Ok(()));
    assert_eq!(miss.unwrap(), true);
    let failed = ImageOptimizer::create_image_outcome(
        false,
        Err(CreateImageError::ImageError("bad source".to_string())),
    );
    assert!(matches!(failed, Err(CreateImageError::ImageError(_))));
}

#[test]
fn limiter_bounds_concurrent_permits() {
    let opt = ImageOptimizer::new("/srv".to_string(), 2);
    let rt = tokio::runtime::Runtime::new().unwrap();
    rt.block_on(async {
        let p1 = opt.limiter().clone().try_acquire_owned().unwrap();
        let _p2 = opt.limiter().clone().try_acquire_owned().unwrap();
        assert!(opt.limiter().clone().try_acquire_owned().is_err());
        drop(p1);
        assert!(opt.limiter().clone().try_acquire_owned().is_ok());
    });
}

#[test]
fn clones_share_the_limiter() {
    let opt = ImageOptimizer::new("/srv".to_string(), 1);
    let clone = opt.clone();
    let _p = opt.limiter().clone().try_acquire_owned().unwrap();
    assert!(clone.limiter().clone().try_acquire_owned().is_err());
}
