use charbs::assets::Assets;

#[test]
fn assets_keep_loaded_bytes() {
    let mut assets = Assets::new();

    assets.load("shaders/main.wgsl", vec![1, 2, 3]);

    let asset = assets.get("shaders/main.wgsl").expect("asset was loaded");
    assert_eq!(asset.data(), &vec![1, 2, 3]);
    assert!(assets.get("shaders/other.wgsl").is_none());
}

#[test]
fn assets_load_is_idempotent_per_path() {
    let mut assets = Assets::new();

    assets.load("img.png", vec![1]);
    assets.load("img.png", vec![2]);

    let asset = assets.get("img.png").expect("asset was loaded");
    assert_eq!(asset.data(), &vec![1]);
}

#[test]
fn assets_unload_drops_one_path() {
    let mut assets = Assets::new();

    assets.load("a", vec![1]);
    assets.load("b", vec![2]);

    assets.unload("a");

    assert!(assets.get("a").is_none());
    assert!(assets.get("b").is_some());
}

#[test]
fn assets_clear_drops_everything() {
    let mut assets = Assets::new();

    assets.load("a", vec![1]);
    assets.load("b", vec![2]);

    assets.clear();

    assert!(assets.get("a").is_none());
    assert!(assets.get("b").is_none());
}
