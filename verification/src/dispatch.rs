//! Request dispatch: gluing the resolver, a page source and the built-in
//! templates into responses. Rendering itself is the template collaborator's
//! job; the dispatcher decides status, content type and body.

use vstd::prelude::*;

use crate::asset::{norm_path, Asset, MemoryAsset};
use crate::conf::ServerConfig;
use crate::page::{PageError, PageLocation, PageLocationModel};
use crate::pages::{claims_domain, PageModel, PageSource};
use crate::resolver::{ResolutionModel, UrlResolution};
use crate::strutil::ends_with_str;
use crate::templates::{TemplateErrorContext, TemplatePageContext, TemplateServerContext};
use crate::urls::nonempty_segments;

verus! {

/// The MIME type that `mime_guess` derives from a file name, if any; a
/// function of the name alone.
pub uninterp spec fn mime_of(file_name: Seq<char>) -> Option<Seq<char>>;

/// Relies on mime_guess::from_path and MimeGuess::first_raw: the guessed
/// MIME type depends on the file name alone.
#[verifier::external_body]
fn guess_mime(file_name: &str) -> (r: Option<&'static str>)
    ensures
        r.deep_view() == mime_of(file_name@),
{
    mime_guess::from_path(file_name).first_raw()
}

/// The last path segment: the file name the MIME type is guessed from.
pub open spec fn file_name_of(p: Seq<char>) -> Seq<char> {
    let segs = nonempty_segments(p);
    if segs.len() > 0 {
        segs.last()
    } else {
        Seq::empty()
    }
}

/// The content type served for an asset path: the guessed MIME type of its
/// file name, or `application/octet-stream`.
pub open spec fn spec_content_type(p: Seq<char>) -> Seq<char> {
    match mime_of(file_name_of(p)) {
        Some(mm) => mm,
        None => "application/octet-stream"@,
    }
}

/// The content type to serve for an asset at this path.
pub fn content_type_for(path: &String) -> (r: String)
    ensures
        r@ == spec_content_type(path@),
{
    let parts = crate::strutil::split_char(path.as_str(), '/');
    let segs = crate::urls::filter_nonempty(&parts);
    let fname = if segs.len() > 0 {
        segs[segs.len() - 1].clone()
    } else {
        String::new()
    };
    proof {
        if segs.len() > 0 {
            assert(segs.deep_view()[segs.len() - 1] == nonempty_segments(path@).last());
        }
        assert(fname@ == file_name_of(path@));
    }
    match guess_mime(fname.as_str()) {
        Some(m) => m.to_owned(),
        None => String::from_str("application/octet-stream"),
    }
}

/// A response body: asset bytes, a template to render, or a plain message.
pub enum ResponseBody {
    /// Raw bytes of an asset.
    Bytes(Vec<u8>),
    /// The built-in index template with the server context.
    RenderIndex(TemplateServerContext),
    /// The error template with its contexts.
    RenderError(TemplateServerContext, TemplatePageContext, TemplateErrorContext),
    /// A brief plain-text reason.
    Plain(String),
}

/// A response of the dispatcher.
pub struct PageResponse {
    pub status: u16,
    pub content_type: String,
    pub body: ResponseBody,
}

/// What a response serves, as far as the model describes it.
pub ghost enum ServedModel {
    Asset { status: u16, content_type: Seq<char>, body: Seq<u8> },
    Index { status: u16 },
    ErrorPage { status: u16 },
    PlainMiss { status: u16 },
}

impl View for PageResponse {
    type V = ServedModel;

    open spec fn view(&self) -> ServedModel {
        match self.body {
            ResponseBody::Bytes(b) => ServedModel::Asset {
                status: self.status,
                content_type: self.content_type@,
                body: b@,
            },
            ResponseBody::RenderIndex(_) => ServedModel::Index { status: self.status },
            ResponseBody::RenderError(_, _, _) => ServedModel::ErrorPage { status: self.status },
            ResponseBody::Plain(_) => ServedModel::PlainMiss { status: self.status },
        }
    }
}

/// An asset path naming a directory: it ends in `/` (so `/` itself does).
pub open spec fn is_dir_request(p: Seq<char>) -> bool {
    p.len() > 0 && p.last() == '/'
}

/// The asset path looked up first: a directory request looks its index up.
pub open spec fn primary_lookup(asset: Seq<char>) -> Seq<char> {
    if is_dir_request(asset) {
        norm_path(asset + "index.html"@)
    } else {
        norm_path(asset)
    }
}

/// The index fallback for a file request that missed.
pub open spec fn index_fallback(asset: Seq<char>) -> Seq<char> {
    norm_path(asset + "/index.html"@)
}

/// The page's own not-found document.
pub open spec fn notfound_lookup() -> Seq<char> {
    norm_path("/404.html"@)
}

/// What a page request is answered with, per the model: the asset at the
/// (index-resolved) path with status 200; else, for file requests, the index
/// below the path; else the page's own `/404.html` with status 404; else a
/// plain 404. A missing page gives the rendered error page.
pub open spec fn spec_render_page(
    m: Map<PageLocationModel, PageModel>,
    k: PageLocationModel,
    asset: Seq<char>,
) -> ServedModel {
    if !m.contains_key(k) {
        ServedModel::ErrorPage { status: 404 }
    } else {
        let assets = m[k].assets;
        if assets.contains_key(primary_lookup(asset)) {
            ServedModel::Asset {
                status: 200,
                content_type: spec_content_type(primary_lookup(asset)),
                body: assets[primary_lookup(asset)],
            }
        } else if !is_dir_request(asset) && assets.contains_key(index_fallback(asset)) {
            ServedModel::Asset {
                status: 200,
                content_type: spec_content_type(index_fallback(asset)),
                body: assets[index_fallback(asset)],
            }
        } else if assets.contains_key(notfound_lookup()) {
            ServedModel::Asset {
                status: 404,
                content_type: spec_content_type(notfound_lookup()),
                body: assets[notfound_lookup()],
            }
        } else {
            ServedModel::PlainMiss { status: 404 }
        }
    }
}

/// The response body truly belongs to the page: some asset of it.
pub open spec fn serves_true_asset(
    m: Map<PageLocationModel, PageModel>,
    k: PageLocationModel,
    r: ServedModel,
) -> bool {
    match r {
        ServedModel::Asset { body, .. } => m.contains_key(k) && exists|p: Seq<char>|
            #[trigger] m[k].assets.contains_key(p) && m[k].assets[p] == body,
        _ => true,
    }
}

/// The rendered error page, served with status 404.
pub fn error_response(config: &ServerConfig, message: &str, about: &str) -> (r: PageResponse)
    ensures
        r@ == (ServedModel::ErrorPage { status: 404 }),
{
    PageResponse {
        status: 404,
        content_type: String::from_str("text/html"),
        body: ResponseBody::RenderError(
            config.template_server_context(),
            TemplatePageContext { owner: String::new(), repo: String::new() },
            TemplateErrorContext {
                code: 404,
                message: message.to_owned(),
                about: about.to_owned(),
            },
        ),
    }
}

/// An asset served as a response body, with its content type guessed from
/// the path.
pub fn asset_response(path: &String, asset: MemoryAsset, status: u16) -> (r: PageResponse)
    ensures
        r@ == (ServedModel::Asset {
            status: status,
            content_type: spec_content_type(path@),
            body: asset@,
        }),
{
    let content_type = content_type_for(path);
    PageResponse { status, content_type, body: ResponseBody::Bytes(asset.into_bytes()) }
}

/// The built-in index, served with status 200.
pub fn index_response(config: &ServerConfig) -> (r: PageResponse)
    ensures
        r@ == (ServedModel::Index { status: 200 }),
{
    PageResponse {
        status: 200,
        content_type: String::from_str("text/html"),
        body: ResponseBody::RenderIndex(config.template_server_context()),
    }
}

/// The brief plain-text answer when an asset and all its fallbacks miss.
pub fn miss_response() -> (r: PageResponse)
    ensures
        r@ == (ServedModel::PlainMiss { status: 404 }),
{
    proof {
        reveal_strlit("text/plain");
        reveal_strlit("asset not found");
    }
    PageResponse {
        status: 404,
        content_type: String::from_str("text/plain"),
        body: ResponseBody::Plain(String::from_str("asset not found")),
    }
}

/// The lookups a page request tries, in order, each with the status served
/// on a hit: the primary path (a directory request resolves to its index),
/// then, for file requests, the index below the path, then the page's own
/// not-found document with status 404.
pub fn lookup_plan(asset_path: &String) -> (r: Vec<(String, u16)>)
    ensures
        r@.len() == if is_dir_request(asset_path@) {
            2int
        } else {
            3int
        },
        norm_path(r@[0].0@) == primary_lookup(asset_path@) && r@[0].1 == 200,
        !is_dir_request(asset_path@) ==> norm_path(r@[1].0@) == index_fallback(asset_path@)
            && r@[1].1 == 200,
        norm_path(r@[r@.len() - 1].0@) == notfound_lookup() && r@[r@.len() - 1].1 == 404,
{
    proof {
        reveal_strlit("/");
    }
    let dir = ends_with_str(asset_path.as_str(), "/");
    proof {
        assert("/"@ =~= seq!['/']);
        if dir {
            assert(asset_path@.len() >= 1);
            assert(asset_path@.subrange(asset_path@.len() - 1, asset_path@.len() as int)
                =~= seq!['/']);
            assert(asset_path@.subrange(asset_path@.len() - 1, asset_path@.len() as int)[0]
                == asset_path@.last());
            assert(asset_path@.last() == '/');
        } else {
            if asset_path@.len() > 0 && asset_path@.last() == '/' {
                assert(asset_path@.subrange(asset_path@.len() - 1, asset_path@.len() as int)
                    =~= seq!['/']);
            }
        }
        assert(dir == is_dir_request(asset_path@));
    }
    let mut plan: Vec<(String, u16)> = Vec::new();
    if dir {
        proof {
            reveal_strlit("index.html");
        }
        let mut p = asset_path.clone();
        p.append("index.html");
        plan.push((p, 200));
    } else {
        plan.push((asset_path.clone(), 200));
        proof {
            reveal_strlit("/index.html");
        }
        let mut p = asset_path.clone();
        p.append("/index.html");
        proof {
            assert(p@ =~= asset_path@ + "/index.html"@);
        }
        plan.push((p, 200));
    }
    proof {
        reveal_strlit("/404.html");
    }
    plan.push((String::from_str("/404.html"), 404));
    plan
}

/// Answers a page request: fetches the page, then the asset, with the index
/// and not-found fallbacks of the dispatch rules. With a fault-free source
/// the answer is exactly `spec_render_page`; whatever faults occur, a `200`
/// only ever carries a true asset of the page.
pub fn render_page<PS: PageSource>(
    source: &mut PS,
    config: &ServerConfig,
    page: &PageLocation,
    asset_path: &String,
) -> (r: PageResponse)
    requires
        old(source).wf(),
    ensures
        final(source).wf(),
        final(source).total_source() == old(source).total_source(),
        final(source).source_model() == old(source).source_model(),
        final(source).default_branch_model() == old(source).default_branch_model(),
        old(source).total_source() ==> r@ == spec_render_page(
            old(source).source_model(),
            page@,
            asset_path@,
        ),
        serves_true_asset(old(source).source_model(), page@, r@),
        r@ is Asset ==> old(source).source_model().contains_key(page@),
{
    let ghost m = source.source_model();
    proof {
        reveal_strlit("/");
    }
    let dir = ends_with_str(asset_path.as_str(), "/");
    proof {
        assert("/"@ =~= seq!['/']);
        if dir {
            assert(asset_path@.len() >= 1 && asset_path@.subrange(
                asset_path@.len() - 1,
                asset_path@.len() as int,
            ) =~= seq!['/']);
            assert(asset_path@.last() == '/');
        } else {
            if asset_path@.len() > 0 && asset_path@.last() == '/' {
                assert(asset_path@.subrange(asset_path@.len() - 1, asset_path@.len() as int)
                    =~= seq!['/']);
            }
        }
        assert(dir == is_dir_request(asset_path@));
    }
    let primary = if dir {
        proof {
            reveal_strlit("index.html");
        }
        let mut p = asset_path.clone();
        p.append("index.html");
        p
    } else {
        asset_path.clone()
    };
    match source.page_at(
        page.owner.clone(),
        page.name.clone(),
        page.branch.clone(),
    ) {
        Ok(_) => {},
        Err(_) => {
            return error_response(config, "Page not found", "Failed to find the page you were looking for.");
        },
    }
    proof {
        assert(norm_path(primary@) == primary_lookup(asset_path@));
    }
    match source.get_asset(page, &primary) {
        Ok(a) => {
            proof {
                crate::urls::lemma_asset_from_segments_roundtrip(primary@);
                assert(file_name_of(norm_path(primary@)) == file_name_of(primary@));
            }
            return asset_response(&primary, a, 200);
        },
        Err(_) => {},
    }
    if !dir {
        proof {
            reveal_strlit("/index.html");
        }
        let mut retry = asset_path.clone();
        retry.append("/index.html");
        proof {
            assert(retry@ =~= asset_path@ + "/index.html"@);
        }
        match source.get_asset(page, &retry) {
            Ok(a) => {
                proof {
                    crate::urls::lemma_asset_from_segments_roundtrip(retry@);
                    assert(file_name_of(norm_path(retry@)) == file_name_of(retry@));
                }
                return asset_response(&retry, a, 200);
            },
            Err(_) => {},
        }
    }
    proof {
        reveal_strlit("/404.html");
    }
    let notfound = String::from_str("/404.html");
    match source.get_asset(page, &notfound) {
        Ok(a) => {
            proof {
                crate::urls::lemma_asset_from_segments_roundtrip(notfound@);
                assert(file_name_of(norm_path(notfound@)) == file_name_of(notfound@));
            }
            return asset_response(&notfound, a, 404);
        },
        Err(_) => {},
    }
    proof {
        reveal_strlit("text/plain");
        reveal_strlit("asset not found");
    }
    PageResponse {
        status: 404,
        content_type: String::from_str("text/plain"),
        body: ResponseBody::Plain(String::from_str("asset not found")),
    }
}

/// Answers a resolved request: the built-in index for the root, a page
/// request for a page resolution, a domain lookup for an external one, and
/// the rendered error page for a malformed one. With a fault-free source the
/// built-in, page and malformed answers are exact; an external answer serves
/// a page that claims the host, or the error page when none does.
pub fn respond<PS: PageSource>(
    source: &mut PS,
    config: &ServerConfig,
    resolution: UrlResolution,
) -> (r: PageResponse)
    requires
        old(source).wf(),
    ensures
        final(source).wf(),
        final(source).total_source() == old(source).total_source(),
        final(source).source_model() == old(source).source_model(),
        final(source).default_branch_model() == old(source).default_branch_model(),
        ({
            let m = old(source).source_model();
            match resolution@ {
                ResolutionModel::BuiltIn => r@ == (ServedModel::Index { status: 200 }),
                ResolutionModel::Page(l) => {
                    &&& (old(source).total_source() ==> r@ == spec_render_page(m, l.page, l.asset))
                    &&& serves_true_asset(m, l.page, r@)
                },
                ResolutionModel::External(u) => match u.host {
                    Some(h) => {
                        &&& (r@ is Asset ==> exists|k: PageLocationModel|
                            #[trigger] m.contains_key(k) && claims_domain(m[k], seq![h])
                                && serves_true_asset(m, k, r@))
                        &&& (old(source).total_source() && (forall|k: PageLocationModel|
                            m.contains_key(k) ==> !claims_domain(#[trigger] m[k], seq![h]))
                            ==> r@ == (ServedModel::ErrorPage { status: 404 }))
                        &&& (old(source).total_source() && (exists|k: PageLocationModel|
                            #[trigger] m.contains_key(k) && claims_domain(m[k], seq![h]))
                            ==> exists|k: PageLocationModel|
                            #[trigger] m.contains_key(k) && claims_domain(m[k], seq![h]) && r@
                                == spec_render_page(m, k, u.path))
                    },
                    None => r@ == (ServedModel::ErrorPage { status: 404 }),
                },
                ResolutionModel::Malformed(_) => r@ == (ServedModel::ErrorPage { status: 404 }),
            }
        }),
{
    let ghost m = source.source_model();
    match resolution {
        UrlResolution::BuiltIn => PageResponse {
            status: 200,
            content_type: String::from_str("text/html"),
            body: ResponseBody::RenderIndex(config.template_server_context()),
        },
        UrlResolution::Page(l) => render_page(source, config, &l.page, &l.asset),
        UrlResolution::External(u) => {
            match u.host {
                Some(h) => {
                    let mut domains: Vec<String> = Vec::new();
                    domains.push(h);
                    proof {
                        assert(domains.deep_view() =~= seq![domains@[0]@]);
                    }
                    match source.find_by_domains(&domains) {
                        Ok(p) => {
                            let ghost found = p@.location;
                            let r = render_page(source, config, &p.location, &u.path);
                            proof {
                                if r@ is Asset {
                                    assert(m.contains_key(p@.location));
                                }
                                if source.total_source() {
                                    assert(m.contains_key(found) && claims_domain(
                                        m[found],
                                        seq![domains@[0]@],
                                    ) && r@ == spec_render_page(m, found, u.path@));
                                }
                            }
                            r
                        },
                        Err(_) => error_response(
                            config,
                            "No page claims this domain",
                            "Failed to find a page for the requested domain.",
                        ),
                    }
                },
                None => error_response(
                    config,
                    "Malformed query",
                    "Failed to analyze query.",
                ),
            }
        },
        UrlResolution::Malformed(_) => error_response(
            config,
            "Malformed query",
            "Failed to analyze query.",
        ),
    }
}

} // verus!
