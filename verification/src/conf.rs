//! The configuration the core consumes: server identity, home and page
//! URLs, the defaults applied during resolution, upstream and cache settings.

use vstd::prelude::*;

use crate::resolver::{hosts_of, DefaultUrlResolver};
use crate::templates::TemplateServerContext;
use crate::urls::RequestUrl;

verus! {

/// What kind of upstream platform serves the pages.
pub enum ServerConfigUpstreamType {
    Forgejo,
}

/// How page data is obtained from the upstream platform.
pub enum ServerConfigUpstreamMethod {
    Direct,
}

/// Where to get page data from.
pub struct ServerConfigUpstream {
    /// What kind of platform.
    pub kind: ServerConfigUpstreamType,
    /// How to get data from that platform.
    pub method: ServerConfigUpstreamMethod,
    pub url: String,
    pub default_branch: String,
    pub branches: Vec<String>,
    pub token: Option<String>,
    pub poll_interval: Option<u64>,
}

/// Access restrictions.
pub struct ServerConfigSecurity {
    pub whitelist: Option<String>,
    pub blacklist: Option<String>,
    pub show_private: bool,
}

/// Cache configuration.
pub struct ServerConfigCache {
    /// Should the cache be used?
    pub enabled: bool,
    /// Where to find the cache server (address).
    pub address: String,
    /// Where to find the cache server (port).
    pub port: u16,
    /// How long cached assets should live, in seconds.
    pub ttl: Option<u32>,
}

/// Aggregate configuration of the server.
pub struct ServerConfig {
    pub name: String,
    pub description: String,
    pub port: u16,
    pub url: Option<RequestUrl>,
    pub pages_urls: Option<Vec<RequestUrl>>,
    pub default_user: String,
    pub allow_domains: bool,
    pub security: ServerConfigSecurity,
    pub upstream: ServerConfigUpstream,
    pub cache: ServerConfigCache,
}

pub fn default_port() -> (r: u16)
    ensures
        r == 8080,
{
    8080
}

pub fn default_name() -> (r: String)
    ensures
        r@ == "Pageshelf"@,
{
    String::from_str("Pageshelf")
}

pub fn default_description() -> (r: String)
    ensures
        r@ == "A free and open source Pages server, written in Rust"@,
{
    String::from_str("A free and open source Pages server, written in Rust")
}

pub fn default_upstream_url() -> (r: String)
    ensures
        r@ == "https://codeberg.org"@,
{
    String::from_str("https://codeberg.org")
}

pub fn default_branch() -> (r: String)
    ensures
        r@ == "pages"@,
{
    String::from_str("pages")
}

pub fn default_branches_allowed() -> (r: Vec<String>)
    ensures
        r.deep_view() == seq!["pages"@],
{
    let mut v: Vec<String> = Vec::new();
    v.push(String::from_str("pages"));
    proof {
        assert(v.deep_view() =~= seq!["pages"@]);
    }
    v
}

pub fn default_security_show_private() -> (r: bool)
    ensures
        r == false,
{
    false
}

pub fn default_security() -> (r: ServerConfigSecurity)
    ensures
        r.whitelist is None,
        r.blacklist is None,
        r.show_private == false,
{
    ServerConfigSecurity { whitelist: None, blacklist: None, show_private: false }
}

pub fn default_user() -> (r: String)
    ensures
        r@ == "admin"@,
{
    String::from_str("admin")
}

pub fn default_cache_enabled() -> (r: bool)
    ensures
        r == false,
{
    false
}

pub fn default_cache_address() -> (r: String)
    ensures
        r@ == "127.0.0.1"@,
{
    String::from_str("127.0.0.1")
}

pub fn default_cache_port() -> (r: u16)
    ensures
        r == 6379,
{
    6379
}

pub fn default_cache_ttl() -> (r: Option<u32>)
    ensures
        r is None,
{
    None
}

pub fn default_cache() -> (r: ServerConfigCache)
    ensures
        r.enabled == false,
        r.address@ == "127.0.0.1"@,
        r.port == 6379,
        r.ttl is None,
{
    ServerConfigCache {
        enabled: false,
        address: default_cache_address(),
        port: 6379,
        ttl: None,
    }
}

pub fn default_domains_allowed() -> (r: bool)
    ensures
        r == false,
{
    false
}

/// The version the server reports about itself.
pub const SERVER_VERSION: &'static str = "0.1.0";

impl Default for ServerConfig {
    /// The configuration used when nothing is specified: no home or page
    /// URLs, no external domains, an empty upstream and a disabled cache.
    fn default() -> (r: ServerConfig)
        ensures
            r.name@ == "Pageshelf"@,
            r.description@ == "A free and open source Pages server, written in Rust"@,
            r.port == 8080,
            r.url is None,
            r.pages_urls is None,
            r.default_user@ == "admin"@,
            r.allow_domains == false,
            r.upstream.default_branch@ == "pages"@,
            r.upstream.branches@.len() == 0,
            r.cache.enabled == false,
    {
        ServerConfig {
            name: default_name(),
            description: default_description(),
            port: default_port(),
            url: None,
            pages_urls: None,
            default_user: default_user(),
            allow_domains: false,
            security: default_security(),
            upstream: ServerConfigUpstream {
                kind: ServerConfigUpstreamType::Forgejo,
                method: ServerConfigUpstreamMethod::Direct,
                poll_interval: None,
                url: String::new(),
                default_branch: default_branch(),
                branches: Vec::new(),
                token: None,
            },
            cache: default_cache(),
        }
    }
}

impl ServerConfig {
    /// The server context handed to templates.
    pub fn template_server_context(&self) -> (r: TemplateServerContext)
        ensures
            r.name@ == self.name@,
            r.about@ == self.description@,
            r.url.deep_view() == match self.url {
                Some(u) => Some(u.path@),
                None => None::<Seq<char>>,
            },
            r.icon_url.deep_view() == Some("/pages_favicon.webp"@),
            r.default_branch@ == self.upstream.default_branch@,
    {
        let url = match &self.url {
            Some(u) => Some(u.path.clone()),
            None => None,
        };
        TemplateServerContext {
            name: self.name.clone(),
            about: self.description.clone(),
            url,
            icon_url: Some(String::from_str("/pages_favicon.webp")),
            default_branch: self.upstream.default_branch.clone(),
            version: String::from_str(SERVER_VERSION),
        }
    }

    /// The resolver this configuration asks for: home and page domains from
    /// the configured URLs, `pages` as default repository and branch, and
    /// external domains as configured.
    pub fn url_resolver(&self) -> (r: DefaultUrlResolver)
        ensures
            r@.home == match self.url {
                Some(u) => u@.host,
                None => None::<Seq<char>>,
            },
            r@.page_domains == match self.pages_urls {
                Some(v) => Some(hosts_of(v.deep_view())),
                None => None::<Seq<Seq<char>>>,
            },
            r@.external_enabled == self.allow_domains,
            r@.default_repo == "pages"@,
            r@.default_branch == "pages"@,
    {
        let url = match &self.url {
            Some(u) => Some(RequestUrl { host: match &u.host {
                Some(h) => Some(h.clone()),
                None => None,
            }, path: u.path.clone() }),
            None => None,
        };
        let pages_urls = match &self.pages_urls {
            Some(v) => {
                let mut out: Vec<RequestUrl> = Vec::new();
                let mut i: usize = 0;
                while i < v.len()
                    invariant
                        i <= v@.len(),
                        out@.len() == i,
                        forall|j: int| 0 <= j < i ==> (#[trigger] out.deep_view()[j]) == v.deep_view()[j],
                    decreases v@.len() - i,
                {
                    let u = &v[i];
                    let host = match &u.host {
                        Some(h) => Some(h.clone()),
                        None => None,
                    };
                    let ghost prev = out.deep_view();
                    out.push(RequestUrl { host, path: u.path.clone() });
                    proof {
                        assert(out.deep_view() =~= prev.push(v.deep_view()[i as int]));
                    }
                    i += 1;
                }
                proof {
                    assert(out.deep_view() =~= v.deep_view());
                }
                Some(out)
            },
            None => None,
        };
        proof {
            reveal_strlit("pages");
        }
        DefaultUrlResolver::new(
            url,
            pages_urls,
            String::from_str("pages"),
            String::from_str("pages"),
            self.allow_domains,
        )
    }
}

} // verus!
