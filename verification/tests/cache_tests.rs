use pageshelf::asset::{Asset, MemoryAsset};
use pageshelf::cache::{Cache, CacheConnection, CacheError, MemoryCacheConnection, MemoryCacheStore};
use pageshelf::cache_layer::CacheLayer;
use pageshelf::page::PageLocation;
use pageshelf::pages::{
    MemoryPageProvider, MemoryPageProviderFactory, PageSource, PageSourceFactory, PageSourceLayer,
};

fn provider(version: &str, index_body: &str) -> MemoryPageProvider {
    MemoryPageProviderFactory::new()
        .with_version("owner", "site", "pages", version)
        .with_asset("owner", "site", "pages", "/index.html", MemoryAsset::from(index_body))
        .with_asset(
            "owner",
            "site",
            "pages",
            "/.domain",
            MemoryAsset::from("claimed.example\n"),
        )
        .build()
        .unwrap()
}

fn loc() -> PageLocation {
    PageLocation::new("owner".to_string(), "site".to_string(), "pages".to_string())
}

/// The in-memory cache stores, reads and glob-deletes values.
#[test]
fn memory_cache_roundtrip() {
    let mut c = MemoryCacheConnection::new();
    assert!(matches!(c.get("a:1"), Err(CacheError::NotFound)));
    c.set("a:1", b"one").unwrap();
    c.set("a:2", b"two").unwrap();
    c.set("b:1", b"three").unwrap();
    assert_eq!(c.get("a:1").unwrap(), b"one");
    assert_eq!(c.get_string("a:2").unwrap(), "two");
    let removed = c.delete("a:*").unwrap();
    assert_eq!(removed, 2);
    assert!(c.get("a:1").is_err());
    assert!(c.get("a:2").is_err());
    assert_eq!(c.get("b:1").unwrap(), b"three");
}

/// A cache can hand out connections onto its contents.
#[test]
fn memory_cache_store_connects() {
    let store = MemoryCacheStore::new();
    let mut conn = store.connect().unwrap();
    assert!(matches!(conn.get("x"), Err(CacheError::NotFound)));
}

/// Cache transparency: the response bytes with the cache layer equal the
/// response bytes without it, on cold and warm lookups alike.
#[test]
fn cache_transparency() {
    let mut direct = provider("v1", "hello");
    let direct_body =
        direct.get_asset(&loc(), &"/index.html".to_string()).unwrap().into_bytes();

    let layer = CacheLayer::from_cache(MemoryCacheConnection::new());
    let mut layered = layer.wrap(provider("v1", "hello"));
    let cold = layered.get_asset(&loc(), &"/index.html".to_string()).unwrap().into_bytes();
    let warm = layered.get_asset(&loc(), &"/index.html".to_string()).unwrap().into_bytes();

    assert_eq!(cold, direct_body);
    assert_eq!(warm, direct_body);
}

/// Version invalidation: when the upstream version changes, the next request
/// serves the new asset, not the cached one.
#[test]
fn version_invalidation() {
    let layer = CacheLayer::from_cache(MemoryCacheConnection::new());
    let mut layered = layer.wrap(provider("v1", "old"));
    let first = layered.get_asset(&loc(), &"/index.html".to_string()).unwrap().into_bytes();
    assert_eq!(first, b"old");

    // Carry the cache over to a source whose version moved on.
    let (_, conn) = layered.into_parts();
    let layer2 = CacheLayer::from_cache(conn);
    let mut layered2 = layer2.wrap(provider("v2", "new"));
    let second = layered2.get_asset(&loc(), &"/index.html".to_string()).unwrap().into_bytes();
    assert_eq!(second, b"new");
}

/// A warm domain index answers the second lookup without a walk of the
/// pages, and with the same page.
#[test]
fn domain_index_warm() {
    let layer = CacheLayer::from_cache(MemoryCacheConnection::new());
    let mut layered = layer.wrap(provider("v1", "hello"));
    let domains = vec!["claimed.example".to_string()];

    let (first, first_indexed) = layered.find_by_domains_indexed(&domains);
    let first = first.unwrap();
    assert!(!first_indexed);
    assert_eq!(first.location, loc());

    let (second, second_indexed) = layered.find_by_domains_indexed(&domains);
    let second = second.unwrap();
    assert!(second_indexed);
    assert_eq!(second.location, loc());
}

/// A domain nobody claims is not found, warm or cold.
#[test]
fn domain_unclaimed_not_found() {
    let layer = CacheLayer::from_cache(MemoryCacheConnection::new());
    let mut layered = layer.wrap(provider("v1", "hello"));
    let domains = vec!["nobody.example".to_string()];
    let (r, indexed) = layered.find_by_domains_indexed(&domains);
    assert!(r.is_err());
    assert!(!indexed);
}

/// Setting with a TTL stores the value like a plain set; the in-memory cache
/// keeps it until deleted.
#[test]
fn memory_cache_set_with_ttl() {
    let mut c = MemoryCacheConnection::new();
    c.set_with_ttl("k", b"v", 60).unwrap();
    assert_eq!(c.get("k").unwrap(), b"v");
}

/// A layer built with a TTL caches and serves assets all the same.
#[test]
fn cache_layer_with_ttl() {
    let layer = CacheLayer::from_cache(MemoryCacheConnection::new()).with_ttl(3600);
    let mut layered = layer.wrap(provider("v1", "hello"));
    let cold = layered.get_asset(&loc(), &"/index.html".to_string()).unwrap().into_bytes();
    let warm = layered.get_asset(&loc(), &"/index.html".to_string()).unwrap().into_bytes();
    assert_eq!(cold, b"hello");
    assert_eq!(warm, b"hello");
}
