use pageshelf::page::{PageAssetLocation, PageLocation};
use pageshelf::resolver::{compose, DefaultUrlResolver, UrlResolution, UrlResolver};
use pageshelf::urls::parse_request_url;

fn url(s: &str) -> pageshelf::urls::RequestUrl {
    parse_request_url(s).unwrap()
}

#[test]
fn root_builtin() {
    let r = DefaultUrlResolver::new(
        Some(url("http://home.domain")),
        Some(vec![url("http://pages.domain")]),
        "pages".to_string(),
        "pages".to_string(),
        false,
    );

    assert_eq!(r.resolve(url("http://home.domain")), UrlResolution::BuiltIn);

    assert_eq!(r.resolve(url("http://home.domain/")), UrlResolution::BuiltIn);

    assert_eq!(r.resolve(url("http://other.domain")), UrlResolution::BuiltIn);

    assert_eq!(r.resolve(url("http://pages.domain")), UrlResolution::BuiltIn);

    let r = DefaultUrlResolver::new(
        Some(url("http://home.domain")),
        Some(vec![url("http://pages.domain")]),
        "pages".to_string(),
        "pages".to_string(),
        true,
    );

    assert_eq!(r.resolve(url("http://home.domain")), UrlResolution::BuiltIn);

    assert_ne!(r.resolve(url("http://other.domain")), UrlResolution::BuiltIn);

    assert_eq!(
        r.resolve(url("http://pages.domain")),
        UrlResolution::External(url("http://pages.domain"))
    );
}

/// Try and find a user via root URL
#[test]
fn root_user_identify() {
    let r = DefaultUrlResolver::new(
        Some(url("http://home.domain/nya")),
        Some(vec![url("http://pages.domain/nya")]),
        "pages".to_string(),
        "pages".to_string(),
        false,
    );

    assert_eq!(
        r.resolve(url("http://home.domain/nya")),
        UrlResolution::Page(PageAssetLocation {
            page: PageLocation {
                owner: "nya".to_string(),
                name: "pages".to_string(),
                branch: "pages".to_string()
            },
            asset: "/".to_string()
        })
    );

    assert_eq!(r.resolve(url("http://other.domain/nya")), UrlResolution::BuiltIn);
}

#[test]
fn resolver_root_user_identify() {
    let r = DefaultUrlResolver::new(
        Some(url("http://home.domain/mrrp")),
        Some(vec![url("http://pages.domain/mrrp")]),
        "pages".to_string(),
        "pages".to_string(),
        false,
    );

    assert_eq!(
        r.resolve(url("http://home.domain/mrrp")),
        UrlResolution::Page(PageAssetLocation {
            page: PageLocation {
                owner: "mrrp".to_string(),
                name: "pages".to_string(),
                branch: "pages".to_string()
            },
            asset: "/".to_string()
        })
    );

    assert_eq!(r.resolve(url("http://other.domain/mrrp")), UrlResolution::BuiltIn);
}

#[test]
fn default_to_root() {
    let r = DefaultUrlResolver::new(None, None, "pages".to_string(), "pages".to_string(), false);

    assert_eq!(
        r.resolve(url("http://home.domain/nya")),
        UrlResolution::Page(PageAssetLocation {
            page: PageLocation {
                owner: "nya".to_string(),
                name: "pages".to_string(),
                branch: "pages".to_string()
            },
            asset: "/".to_string()
        })
    );

    assert_eq!(
        r.resolve(url("http://other.domain/nya")),
        UrlResolution::Page(PageAssetLocation {
            page: PageLocation {
                owner: "nya".to_string(),
                name: "pages".to_string(),
                branch: "pages".to_string()
            },
            asset: "/".to_string()
        })
    );
}

#[test]
fn resolver_default_to_root() {
    let r = DefaultUrlResolver::new(None, None, "pages".to_string(), "pages".to_string(), false);

    assert_eq!(
        r.resolve(url("http://home.domain/mrrp")),
        UrlResolution::Page(PageAssetLocation {
            page: PageLocation {
                owner: "mrrp".to_string(),
                name: "pages".to_string(),
                branch: "pages".to_string()
            },
            asset: "/".to_string()
        })
    );

    assert_eq!(
        r.resolve(url("http://other.domain/mrrp")),
        UrlResolution::Page(PageAssetLocation {
            page: PageLocation {
                owner: "mrrp".to_string(),
                name: "pages".to_string(),
                branch: "pages".to_string()
            },
            asset: "/".to_string()
        })
    );
}

#[test]
fn subdomains() {
    let r = DefaultUrlResolver::new(
        None,
        Some(vec![url("http://home.domain")]),
        "pages".to_string(),
        "pages".to_string(),
        false,
    );

    assert_eq!(
        r.resolve(url("http://nya.home.domain")),
        UrlResolution::Page(PageAssetLocation {
            page: PageLocation {
                owner: "nya".to_string(),
                name: "pages".to_string(),
                branch: "pages".to_string()
            },
            asset: "/".to_string()
        })
    );

    assert_eq!(r.resolve(url("http://home.domain")), UrlResolution::BuiltIn);
}

#[test]
fn resolver_subdomains() {
    let r = DefaultUrlResolver::new(
        None,
        Some(vec![url("http://home.domain")]),
        "pages".to_string(),
        "pages".to_string(),
        false,
    );

    assert_eq!(
        r.resolve(url("http://mrrp.home.domain")),
        UrlResolution::Page(PageAssetLocation {
            page: PageLocation {
                owner: "mrrp".to_string(),
                name: "pages".to_string(),
                branch: "pages".to_string()
            },
            asset: "/".to_string()
        })
    );

    assert_eq!(r.resolve(url("http://home.domain")), UrlResolution::BuiltIn);
}

#[test]
fn domains() {
    let r = DefaultUrlResolver::new(
        Some(url("http://pages.home.domain")),
        Some(vec![url("http://home.domain")]),
        "pages".to_string(),
        "pages".to_string(),
        true,
    );

    assert_eq!(
        r.resolve(url("http://home.domain")),
        UrlResolution::External(url("http://home.domain"))
    );

    assert_eq!(
        r.resolve(url("http://other.domain")),
        UrlResolution::External(url("http://other.domain"))
    );
}

#[test]
fn resolver_domains() {
    let r = DefaultUrlResolver::new(
        Some(url("http://pages.home.domain")),
        Some(vec![url("http://home.domain")]),
        "pages".to_string(),
        "pages".to_string(),
        true,
    );

    assert_eq!(
        r.resolve(url("http://home.domain")),
        UrlResolution::External(url("http://home.domain"))
    );

    assert_eq!(
        r.resolve(url("http://other.domain")),
        UrlResolution::External(url("http://other.domain"))
    );
}

/// A location written in the default path form resolves back to itself.
#[test]
fn compose_roundtrip() {
    let loc = PageAssetLocation {
        page: PageLocation {
            owner: "person".to_string(),
            name: "page".to_string(),
            branch: "unstable".to_string(),
        },
        asset: "/a/b.txt".to_string(),
    };
    let path = compose(&loc);
    assert_eq!(path, "/person/page:unstable/a/b.txt");

    let r = DefaultUrlResolver::new(
        Some(url("http://home.domain")),
        None,
        "pages".to_string(),
        "pages".to_string(),
        false,
    );
    let composed = url(&format!("http://home.domain{}", path));
    assert_eq!(r.resolve(composed), UrlResolution::Page(loc));
}

/// A subdomain with four labels before the base host keeps the extra label
/// in the branch.
#[test]
fn subdomain_extra_labels() {
    let r = DefaultUrlResolver::new(
        None,
        Some(vec![url("http://pages.domain")]),
        "pages".to_string(),
        "pages".to_string(),
        false,
    );

    assert_eq!(
        r.resolve(url("http://extra.unstable.page.person.pages.domain/x.css")),
        UrlResolution::Page(PageAssetLocation {
            page: PageLocation {
                owner: "person".to_string(),
                name: "page".to_string(),
                branch: "extra.unstable".to_string()
            },
            asset: "/x.css".to_string()
        })
    );
}
