use std::io::Cursor;

use dreki::batch::TextureHandle;
use dreki::texture::{decode_texture, rgb_to_rgba, TextureError, TextureStore};

#[test]
fn store_starts_with_default_texture() {
    let store: TextureStore<&str> = TextureStore::new("white");
    assert_eq!(store.default_handle(), TextureHandle(0));
    assert_eq!(*store.get(store.default_handle()), "white");
    assert_eq!(store.len(), 1);
}

#[test]
fn same_path_gives_same_handle() {
    let mut store: TextureStore<&str> = TextureStore::new("white");
    let path = "assets/player.png".to_string();
    assert_eq!(store.cached(&path), None);
    let h = store.add(path.clone(), "player");
    assert_eq!(h, TextureHandle(1));
    let other = store.add("assets/enemy.png".to_string(), "enemy");
    assert_eq!(other, TextureHandle(2));
    assert_eq!(store.cached(&path), Some(h));
    assert_eq!(*store.get(h), "player");
}

#[test]
fn reload_keeps_the_handle() {
    let mut store: TextureStore<&str> = TextureStore::new("white");
    let path = "assets/player.png".to_string();
    let h = store.add(path.clone(), "player v1");
    store.reload_entry(h, "player v2");
    assert_eq!(store.cached(&path), Some(h));
    assert_eq!(*store.get(h), "player v2");
    assert_eq!(store.len(), 2);
}

#[test]
fn rgb_pixels_get_opaque_alpha() {
    assert_eq!(rgb_to_rgba(&vec![1, 2, 3, 4, 5, 6]), vec![1, 2, 3, 255, 4, 5, 6, 255]);
    assert_eq!(rgb_to_rgba(&vec![]), Vec::<u8>::new());
    assert_eq!(rgb_to_rgba(&vec![7, 8]), vec![7, 8, 255]);
}

fn png_bytes(width: u32, height: u32, pixels: Vec<u8>) -> Vec<u8> {
    let img = image::RgbaImage::from_raw(width, height, pixels).unwrap();
    let mut out = Cursor::new(Vec::new());
    img.write_to(&mut out, image::ImageFormat::Png).unwrap();
    out.into_inner()
}

#[test]
fn png_decodes_to_its_pixels() {
    let pixels = vec![255, 0, 0, 255, 0, 255, 0, 128];
    let bytes = png_bytes(2, 1, pixels.clone());
    let decoded = match decode_texture("sprites/red_green.png", &bytes) {
        Ok(t) => t,
        Err(TextureError::Decode(msg)) => panic!("decode failed: {msg}"),
    };
    assert_eq!(decoded.width, 2);
    assert_eq!(decoded.height, 1);
    assert_eq!(decoded.pixels, pixels);
    assert_ne!(decoded.pixels, bytes);
}

#[test]
fn garbage_does_not_decode() {
    match decode_texture("noise.png", &vec![1, 2, 3, 4, 5]) {
        Ok(_) => panic!("garbage decoded"),
        Err(TextureError::Decode(msg)) => assert!(!msg.is_empty()),
    }
}

#[test]
fn format_follows_the_extension() {
    let bytes = png_bytes(1, 1, vec![1, 2, 3, 4]);
    assert!(decode_texture("a.PNG", &bytes).is_ok());
    assert!(decode_texture("a.jpg", &bytes).is_err());
    assert!(decode_texture("a", &bytes).is_err());
    assert!(decode_texture("a.txt", &bytes).is_err());
}
