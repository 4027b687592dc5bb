use pageshelf::asset::{Asset, AssetError, AssetRef, MemoryAsset};

/// Can we get the same bytes back from the asset?
#[test]
fn memory_asset_bytes() {
    let data: Vec<u8> = vec![1, 2, 3, 4, 1, 2, 3, 4];
    let asset = MemoryAsset::from(data.clone());

    assert_eq!(asset.bytes(), data)
}

/// Can we get the same string back from the asset if it's created by value?
#[test]
fn memory_asset_string() {
    let data: String = "Sphinx of black quartz, judge my vow".to_string(); // A pangram
    let asset = MemoryAsset::from(data.clone());

    assert_eq!(asset.body().unwrap(), data)
}

/// Can we get the same bytes back from the asset if it's created by reference?
#[test]
fn memory_asset_str() {
    let data: &str = "Sphinx of black quartz, judge my vow"; // A pangram
    let asset = MemoryAsset::from(data);

    assert_eq!(asset.body().unwrap(), data)
}

/// Can we get the same string back from the asset?
#[test]
fn asset_memory_asset_str() {
    let data = "meow";
    let asset = MemoryAsset::from(data);

    assert_eq!(asset.body().unwrap(), data)
}

/// Can we get the same string back from the asset?
#[test]
fn memory_memory_asset_str() {
    let data = "meow";
    let asset = MemoryAsset::from(data);

    assert_eq!(asset.body().unwrap(), data)
}

#[test]
fn memory_asset() {
    let data = [8u8; 8];
    let asset = MemoryAsset::new_from_bytes(data.to_vec());

    assert!(asset.bytes().iter().count() == data.iter().count())
}

/// Bytes that are not UTF-8 cannot be interpreted as text.
#[test]
fn memory_asset_invalid_utf8() {
    let data: Vec<u8> = vec![0xff, 0xfe, 0x80];
    let asset = MemoryAsset::new_from_bytes(data);

    assert_eq!(asset.body().unwrap_err(), AssetError::CannotInterpret);
}

/// An empty asset has no content.
#[test]
fn memory_asset_empty() {
    let asset = MemoryAsset::empty();
    assert_eq!(asset.bytes().len(), 0);
    assert_eq!(asset.into_bytes(), Vec::<u8>::new());
}

/// An asset built from text holds its UTF-8 encoding.
#[test]
fn memory_asset_from_text() {
    let asset = MemoryAsset::from_str("gr\u{00fc}n");
    assert_eq!(asset.bytes(), "gr\u{00fc}n".as_bytes());
}

/// A borrowed view exposes the same bytes as the asset it borrows.
#[test]
fn asset_ref_views_bytes() {
    let asset = MemoryAsset::from("shared");
    let view = AssetRef::new(&asset);
    assert_eq!(view.bytes(), b"shared");
    assert_eq!(view.into_bytes(), b"shared".to_vec());
    assert_eq!(asset.mime_type(), None);
}
