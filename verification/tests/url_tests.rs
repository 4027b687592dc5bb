use pageshelf::urls::{analyze_url, parse_request_url, UrlAnalysis};

#[test]
fn test_analyze_url_subdirectory() {
    let domain = "example.domain".to_string();

    let params: Vec<(&str, Option<UrlAnalysis>)> = vec![
        ("other.domain", None),
        ("other.domain/my_asset", None),
        (
            "example.domain",
            Some(UrlAnalysis {
                owner: None,
                repo: None,
                branch: None,
                asset: "/".to_string(),
            }),
        ),
        (
            "example.domain/person",
            Some(UrlAnalysis {
                owner: Some("person".to_string()),
                repo: None,
                branch: None,
                asset: "/".to_string(),
            }),
        ),
        (
            "example.domain/person/page",
            Some(UrlAnalysis {
                owner: Some("person".to_string()),
                repo: Some("page".to_string()),
                branch: None,
                asset: "/".to_string(),
            }),
        ),
        (
            "example.domain/person/page:unstable",
            Some(UrlAnalysis {
                owner: Some("person".to_string()),
                repo: Some("page".to_string()),
                branch: Some("unstable".to_string()),
                asset: "/".to_string(),
            }),
        ),
    ];

    for param in params {
        let url_str = format!("http://{}", param.0);
        let url = parse_request_url(url_str.as_str()).unwrap();
        let a = analyze_url(&url, Some(&domain));
        assert_eq!(a, param.1, "Analyzing {}", param.0)
    }
}

#[test]
fn test_analyze_url_subdomain() {
    let domain = "example.domain".to_string();

    let params: Vec<(&str, Option<UrlAnalysis>)> = vec![
        ("person.other.domain", None),
        ("person.other.domain/my_asset", None),
        ("page.person.other.domain", None),
        ("page.person.other.domain/my_asset", None),
        ("unstable.page.person.other.domain", None),
        ("unstable.page.person.other.domain/my_asset", None),
        (
            "person.example.domain",
            Some(UrlAnalysis {
                owner: Some("person".to_string()),
                repo: None,
                branch: None,
                asset: "/".to_string(),
            }),
        ),
        (
            "person.example.domain/my_asset",
            Some(UrlAnalysis {
                owner: Some("person".to_string()),
                repo: None,
                branch: None,
                asset: "/my_asset".to_string(),
            }),
        ),
        (
            "page.person.example.domain/my_asset",
            Some(UrlAnalysis {
                owner: Some("person".to_string()),
                repo: Some("page".to_string()),
                branch: None,
                asset: "/my_asset".to_string(),
            }),
        ),
        (
            "unstable.page.person.example.domain",
            Some(UrlAnalysis {
                owner: Some("person".to_string()),
                repo: Some("page".to_string()),
                branch: Some("unstable".to_string()),
                asset: "/".to_string(),
            }),
        ),
        (
            "unstable.page.person.example.domain/my_asset",
            Some(UrlAnalysis {
                owner: Some("person".to_string()),
                repo: Some("page".to_string()),
                branch: Some("unstable".to_string()),
                asset: "/my_asset".to_string(),
            }),
        ),
    ];

    for param in params {
        let url_str = format!("http://{}", param.0);
        let url = parse_request_url(url_str.as_str()).unwrap();
        let a = analyze_url(&url, Some(&domain));
        assert_eq!(a, param.1, "Analyzing {}", param.0)
    }
}
