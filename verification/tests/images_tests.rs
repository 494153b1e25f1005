use rust_rim::images::ImageCache;

/// A one-pixel red PNG.
const RED_PIXEL_PNG: [u8; 69] = [
    0x89, 0x50, 0x4e, 0x47, 0x0d, 0x0a, 0x1a, 0x0a, 0x00, 0x00, 0x00, 0x0d, 0x49, 0x48, 0x44, 0x52,
    0x00, 0x00, 0x00, 0x01, 0x00, 0x00, 0x00, 0x01, 0x08, 0x02, 0x00, 0x00, 0x00, 0x90, 0x77, 0x53,
    0xde, 0x00, 0x00, 0x00, 0x0c, 0x49, 0x44, 0x41, 0x54, 0x78, 0x9c, 0x63, 0xf8, 0xcf, 0xc0, 0x00,
    0x00, 0x03, 0x01, 0x01, 0x00, 0xc9, 0xfe, 0x92, 0xef, 0x00, 0x00, 0x00, 0x00, 0x49, 0x45, 0x4e,
    0x44, 0xae, 0x42, 0x60, 0x82,
];

#[test]
fn image_requested_once() {
    let mut c = ImageCache::new();
    assert!(!c.is_busy());
    assert!(c.request("https://img/1.png"));
    assert!(c.is_busy());
    assert!(!c.request("https://img/1.png"));
    assert!(c.request("https://img/2.png"));
    assert!(!c.request(""));
}

#[test]
fn image_arrivals_recorded() {
    let mut c = ImageCache::new();
    assert!(c.request("https://img/1.png"));
    assert!(c.request("https://img/2.png"));
    c.record_arrival("https://img/1.png", true);
    assert!(c.is_loaded("https://img/1.png"));
    assert!(c.is_busy());
    assert!(!c.request("https://img/1.png"));
    c.record_arrival("https://img/2.png", false);
    assert!(!c.is_loaded("https://img/2.png"));
    assert!(!c.is_busy());
    assert!(c.request("https://img/2.png"));
}

#[test]
fn image_arrival_twice_listed_once() {
    let mut c = ImageCache::new();
    assert!(c.request("u"));
    c.record_arrival("u", true);
    c.record_arrival("u", true);
    assert!(c.is_loaded("u"));
    assert!(!c.is_busy());
    assert!(!c.request("u"));
}

#[test]
fn image_bytes_decoded() {
    let mut c = ImageCache::new();
    assert!(c.request("good"));
    assert!(c.request("bad"));
    c.received("good", &RED_PIXEL_PNG);
    c.received("bad", b"<html>not an image</html>");
    assert!(c.is_loaded("good"));
    assert!(!c.is_loaded("bad"));
    assert!(!c.is_busy());
    assert!(!c.request("good"));
    assert!(c.request("bad"));
}
