use pageshelf::asset::MemoryAsset;
use pageshelf::conf::ServerConfig;
use pageshelf::dispatch::{respond, PageResponse, ResponseBody};
use pageshelf::pages::{MemoryPageProvider, MemoryPageProviderFactory, PageSourceFactory};
use pageshelf::resolver::{DefaultUrlResolver, UrlResolver};
use pageshelf::urls::parse_request_url;

fn scenario_resolver(external_enabled: bool) -> DefaultUrlResolver {
    DefaultUrlResolver::new(
        parse_request_url("http://home.domain"),
        Some(vec![parse_request_url("http://pages.domain").unwrap()]),
        "pages".to_string(),
        "pages".to_string(),
        external_enabled,
    )
}

fn scenario_source() -> MemoryPageProvider {
    MemoryPageProviderFactory::new()
        .with_asset("nya", "pages", "pages", "/index.html", MemoryAsset::from("nya index"))
        .with_asset("nya", "repo", "branch", "/a/b.txt", MemoryAsset::from("plain text"))
        .with_asset("person", "page", "unstable", "/x.css", MemoryAsset::from("css body"))
        .with_asset(
            "claimer",
            "site",
            "pages",
            "/.domain",
            MemoryAsset::from("  custom.example  \nother.example\n"),
        )
        .with_asset("claimer", "site", "pages", "/index.html", MemoryAsset::from("claimed index"))
        .with_asset("bare", "pages", "pages", "/404.html", MemoryAsset::from("custom missing"))
        .build()
        .unwrap()
}

fn serve(url_text: &str, external_enabled: bool) -> PageResponse {
    let resolver = scenario_resolver(external_enabled);
    let mut source = scenario_source();
    let config = ServerConfig::default();
    let resolution = resolver.resolve(parse_request_url(url_text).unwrap());
    respond(&mut source, &config, resolution)
}

fn body_bytes(r: &PageResponse) -> Vec<u8> {
    match &r.body {
        ResponseBody::Bytes(b) => b.clone(),
        _ => panic!("expected asset bytes"),
    }
}

/// The root of the home domain serves the rendered index template.
#[test]
fn home_serves_index() {
    let r = serve("http://home.domain/", false);
    assert_eq!(r.status, 200);
    assert_eq!(r.content_type, "text/html");
    assert!(matches!(r.body, ResponseBody::RenderIndex(_)));
}

/// A bare owner path serves that page's index, with defaults applied.
#[test]
fn owner_path_serves_page_index() {
    let r = serve("http://home.domain/nya", false);
    assert_eq!(r.status, 200);
    assert_eq!(body_bytes(&r), b"nya index");
}

/// A full path with repository and branch serves the named asset, with the
/// content type guessed from the extension.
#[test]
fn full_path_serves_asset() {
    let r = serve("http://home.domain/nya/repo:branch/a/b.txt", false);
    assert_eq!(r.status, 200);
    assert_eq!(r.content_type, "text/plain");
    assert_eq!(body_bytes(&r), b"plain text");
}

/// The subdomain form addresses branch, repository and owner.
#[test]
fn subdomain_serves_asset() {
    let r = serve("http://unstable.page.person.pages.domain/x.css", false);
    assert_eq!(r.status, 200);
    assert_eq!(r.content_type, "text/css");
    assert_eq!(body_bytes(&r), b"css body");
}

/// An unrelated domain with external domains disabled serves the built-in
/// index.
#[test]
fn other_domain_builtin() {
    let r = serve("http://other.domain/", false);
    assert_eq!(r.status, 200);
    assert!(matches!(r.body, ResponseBody::RenderIndex(_)));
}

/// A host equal to a configured page domain stays built-in.
#[test]
fn page_host_builtin() {
    let r = serve("http://pages.domain/", false);
    assert_eq!(r.status, 200);
    assert!(matches!(r.body, ResponseBody::RenderIndex(_)));
}

/// With external domains enabled, a repository claiming the domain in its
/// domain file serves its index.
#[test]
fn custom_domain_serves_claimed_index() {
    let r = serve("http://custom.example/", true);
    assert_eq!(r.status, 200);
    assert_eq!(body_bytes(&r), b"claimed index");
}

/// When both the asset and its index fallback are missing and the page has a
/// `/404.html`, that document is served with status 404.
#[test]
fn custom_not_found_document() {
    let r = serve("http://home.domain/bare/pages:pages/missing.txt", false);
    assert_eq!(r.status, 404);
    assert_eq!(body_bytes(&r), b"custom missing");
}

/// When nothing at all matches, a rendered error page comes back with 404.
#[test]
fn missing_page_renders_error() {
    let r = serve("http://home.domain/nobody", false);
    assert_eq!(r.status, 404);
    assert!(matches!(r.body, ResponseBody::RenderError(_, _, _)));
}

/// A request for a directory (trailing slash lost in analysis) still finds
/// the index through the fallback.
#[test]
fn directory_request_falls_back_to_index() {
    let r = serve("http://home.domain/nya/pages:pages", false);
    assert_eq!(r.status, 200);
    assert_eq!(body_bytes(&r), b"nya index");
}

/// The lookup plan tries the asset, then its index, then the not-found
/// document; a directory request goes straight to its index.
#[test]
fn lookup_plan_order() {
    let plan = pageshelf::dispatch::lookup_plan(&"/a/b".to_string());
    assert_eq!(
        plan,
        vec![
            ("/a/b".to_string(), 200),
            ("/a/b/index.html".to_string(), 200),
            ("/404.html".to_string(), 404)
        ]
    );
    let dir = pageshelf::dispatch::lookup_plan(&"/".to_string());
    assert_eq!(
        dir,
        vec![("/index.html".to_string(), 200), ("/404.html".to_string(), 404)]
    );
}
