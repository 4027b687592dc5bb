//! Maps a request URL to a resolution: a built-in page, a page-asset
//! location, an external domain to look up, or (reserved) a malformed query.

use vstd::prelude::*;

use crate::page::{PageAssetLocation, PageAssetLocationModel, PageLocation, PageLocationModel};
use crate::strutil::{
    ends_with_str, find_char, lemma_find_char_at, lemma_split_concat, lemma_split_join,
    lemma_split_no_sep, lemma_split_tokens_sep_free, sep_free, spec_ends_with, spec_join,
    spec_split,
};
use crate::urls::{
    analyze_path_form, analyze_subdomain_form, keep_nonempty, lemma_keep_nonempty_concat,
    lemma_keep_nonempty_id, lemma_keep_nonempty_props, nonempty_segments, spec_analyze_path,
    spec_analyze_subdomain, spec_asset_from, RequestUrl, UrlAnalysis, UrlAnalysisModel, UrlModel,
};

verus! {

/// What a URL resolves to.
#[derive(Clone, Debug, PartialEq, Eq)]
pub enum UrlResolution {
    /// The URL pointed to a page at this location.
    Page(PageAssetLocation),
    /// The URL is a built-in page.
    BuiltIn,
    /// The URL points to an external domain.
    External(RequestUrl),
    /// The URL is invalid. Reserved for a future stricter mode.
    Malformed(String),
}

pub ghost enum ResolutionModel {
    Page(PageAssetLocationModel),
    BuiltIn,
    External(UrlModel),
    Malformed(Seq<char>),
}

impl View for UrlResolution {
    type V = ResolutionModel;

    open spec fn view(&self) -> ResolutionModel {
        match self {
            UrlResolution::Page(l) => ResolutionModel::Page(l@),
            UrlResolution::BuiltIn => ResolutionModel::BuiltIn,
            UrlResolution::External(u) => ResolutionModel::External(u@),
            UrlResolution::Malformed(s) => ResolutionModel::Malformed(s@),
        }
    }
}

/// The configuration a resolver works from.
pub ghost struct ResolverModel {
    pub home: Option<Seq<char>>,
    pub page_domains: Option<Seq<Seq<char>>>,
    pub external_enabled: bool,
    pub default_repo: Seq<char>,
    pub default_branch: Seq<char>,
}

/// The configured page domains, or the empty list when none are configured.
pub open spec fn pd_list(m: ResolverModel) -> Seq<Seq<char>> {
    match m.page_domains {
        Some(l) => l,
        None => Seq::empty(),
    }
}

/// The host is listed under one of the page domains: it equals one, or is a
/// subdomain of one.
pub open spec fn listed_under(pds: Seq<Seq<char>>, h: Seq<char>) -> bool {
    exists|i: int|
        0 <= i < pds.len() && (h == pds[i] || spec_ends_with(h, seq!['.'] + #[trigger] pds[i]))
}

/// Whether the request is served from the root (path) form: no page domains
/// configured and external domains disabled, or the host equals the home
/// domain, or no home domain is set, external domains are disabled and the
/// host is not listed under any configured page domain. A URL without a host
/// is root exactly when no page domains are configured.
pub open spec fn spec_is_root(m: ResolverModel, host: Option<Seq<char>>) -> bool {
    match host {
        None => m.page_domains is None,
        Some(h) => (m.page_domains is None && !m.external_enabled) || m.home == Some(h) || (
        m.home is None && !m.external_enabled && !listed_under(pd_list(m), h)),
    }
}

fn host_listed_under(pds: &Vec<String>, h: &String) -> (r: bool)
    ensures
        r == listed_under(pds.deep_view(), h@),
{
    let ghost pdv = pds.deep_view();
    let mut i: usize = 0;
    while i < pds.len()
        invariant
            i <= pds.len(),
            pdv == pds.deep_view(),
            forall|j: int|
                0 <= j < i ==> !(h@ == pdv[j] || spec_ends_with(h@, seq!['.'] + #[trigger] pdv[j])),
        decreases pds.len() - i,
    {
        if h.eq(&pds[i]) {
            proof {
                assert(h@ == pdv[i as int]);
            }
            return true;
        }
        proof {
            reveal_strlit(".");
        }
        let mut dotted = String::from_str(".");
        dotted.append(pds[i].as_str());
        proof {
            assert(dotted@ =~= seq!['.'] + pdv[i as int]);
        }
        if ends_with_str(h.as_str(), dotted.as_str()) {
            proof {
                assert(spec_ends_with(h@, seq!['.'] + pdv[i as int]));
            }
            return true;
        }
        i += 1;
    }
    proof {
        if listed_under(pdv, h@) {
            let j = choose|j: int|
                0 <= j < pdv.len() && (h@ == pdv[j] || spec_ends_with(h@, seq!['.'] + pdv[j]));
        }
    }
    false
}

/// Index of the first page domain that `h` is a strict subdomain of, or `-1`.
pub open spec fn first_suffix_match(pds: Seq<Seq<char>>, h: Seq<char>) -> int
    decreases pds.len(),
{
    if pds.len() == 0 {
        -1
    } else if spec_ends_with(h, seq!['.'] + pds[0]) {
        0
    } else {
        let r = first_suffix_match(pds.subrange(1, pds.len() as int), h);
        if r < 0 {
            -1
        } else {
            r + 1
        }
    }
}

pub proof fn lemma_first_suffix_match(pds: Seq<Seq<char>>, h: Seq<char>)
    ensures
        first_suffix_match(pds, h) >= 0 ==> first_suffix_match(pds, h) < pds.len()
            && spec_ends_with(h, seq!['.'] + pds[first_suffix_match(pds, h)]),
        forall|j: int|
            0 <= j < first_suffix_match(pds, h) ==> !spec_ends_with(h, seq!['.'] + pds[j]),
        first_suffix_match(pds, h) < 0 ==> forall|j: int|
            0 <= j < pds.len() ==> !spec_ends_with(h, seq!['.'] + pds[j]),
    decreases pds.len(),
{
    if pds.len() > 0 && !spec_ends_with(h, seq!['.'] + pds[0]) {
        let t = pds.subrange(1, pds.len() as int);
        lemma_first_suffix_match(t, h);
        assert forall|j: int|
            0 <= j < pds.len() && first_suffix_match(pds, h) < 0 implies !spec_ends_with(
            h,
            seq!['.'] + pds[j],
        ) by {
            if j > 0 {
                assert(pds[j] == t[j - 1]);
            }
        }
        assert forall|j: int| 0 <= j < first_suffix_match(pds, h) implies !spec_ends_with(
            h,
            seq!['.'] + pds[j],
        ) by {
            if j > 0 {
                assert(pds[j] == t[j - 1]);
            }
        }
    }
}

pub proof fn lemma_first_suffix_match_at(pds: Seq<Seq<char>>, h: Seq<char>, i: int)
    requires
        0 <= i < pds.len(),
        spec_ends_with(h, seq!['.'] + pds[i]),
        forall|j: int| 0 <= j < i ==> !spec_ends_with(h, seq!['.'] + pds[j]),
    ensures
        first_suffix_match(pds, h) == i,
    decreases pds.len(),
{
    if i > 0 {
        let t = pds.subrange(1, pds.len() as int);
        assert forall|j: int| 0 <= j < i - 1 implies !spec_ends_with(h, seq!['.'] + t[j]) by {
            assert(t[j] == pds[j + 1]);
        }
        assert(t[i - 1] == pds[i]);
        lemma_first_suffix_match_at(t, h, i - 1);
    }
}

/// The analysis the resolver applies to this URL, if any: the path form under
/// the root, the subdomain form against the first matching page domain.
pub open spec fn spec_resolve_analysis(m: ResolverModel, u: UrlModel) -> Option<UrlAnalysisModel> {
    if spec_is_root(m, u.host) {
        Some(spec_analyze_path(u.path))
    } else {
        match u.host {
            Some(h) => match m.page_domains {
                Some(pds) => {
                    let i = first_suffix_match(pds, h);
                    if i >= 0 {
                        Some(spec_analyze_subdomain(h, pds[i], u.path))
                    } else {
                        None
                    }
                },
                None => None,
            },
            None => None,
        }
    }
}

/// The page-asset location an analysis yields once the defaults are applied.
pub open spec fn apply_defaults(m: ResolverModel, a: UrlAnalysisModel) -> PageAssetLocationModel
    recommends
        a.owner is Some,
{
    PageAssetLocationModel {
        page: PageLocationModel {
            owner: a.owner->Some_0,
            name: match a.repo {
                Some(r) => r,
                None => m.default_repo,
            },
            branch: match a.branch {
                Some(b) => b,
                None => m.default_branch,
            },
        },
        asset: a.asset,
    }
}

/// What a URL resolves to: under the root, a page when the path names an
/// owner and the built-in page otherwise; elsewhere, a page when the host is
/// a strict subdomain of a configured page domain, and otherwise the external
/// domain when external domains are enabled, or the built-in page.
pub open spec fn spec_resolve(m: ResolverModel, u: UrlModel) -> ResolutionModel {
    if spec_is_root(m, u.host) {
        let a = spec_analyze_path(u.path);
        if a.owner is Some {
            ResolutionModel::Page(apply_defaults(m, a))
        } else {
            ResolutionModel::BuiltIn
        }
    } else {
        match spec_resolve_analysis(m, u) {
            Some(a) => if a.owner is Some {
                ResolutionModel::Page(apply_defaults(m, a))
            } else if m.external_enabled {
                ResolutionModel::External(u)
            } else {
                ResolutionModel::BuiltIn
            },
            None => if m.external_enabled {
                ResolutionModel::External(u)
            } else {
                ResolutionModel::BuiltIn
            },
        }
    }
}

/// A resolver: maps request URLs to resolutions.
pub trait UrlResolver: Sized {
    /// What this resolver resolves a URL to.
    spec fn resolution_of(&self, u: UrlModel) -> ResolutionModel;

    fn resolve(&self, url: RequestUrl) -> (r: UrlResolution)
        ensures
            r@ == self.resolution_of(url@),
    ;
}

/// The default resolver, configured with a home domain, page domains, the
/// defaults for missing repository and branch, and whether external domains
/// are considered.
#[derive(Clone)]
pub struct DefaultUrlResolver {
    home_domain: Option<String>,
    page_domains: Option<Vec<String>>,
    external_enabled: bool,
    default_repo: String,
    default_branch: String,
}

impl View for DefaultUrlResolver {
    type V = ResolverModel;

    closed spec fn view(&self) -> ResolverModel {
        ResolverModel {
            home: self.home_domain.deep_view(),
            page_domains: self.page_domains.deep_view(),
            external_enabled: self.external_enabled,
            default_repo: self.default_repo@,
            default_branch: self.default_branch@,
        }
    }
}

/// The hosts of a sequence of URLs, keeping only those that have one.
pub open spec fn hosts_of(urls: Seq<UrlModel>) -> Seq<Seq<char>>
    decreases urls.len(),
{
    if urls.len() == 0 {
        Seq::empty()
    } else {
        let rest = hosts_of(urls.drop_last());
        match urls.last().host {
            Some(h) => rest.push(h),
            None => rest,
        }
    }
}

fn host_strings(urls: &Vec<RequestUrl>) -> (r: Vec<String>)
    ensures
        r.deep_view() == hosts_of(urls.deep_view()),
{
    let ghost dv = urls.deep_view();
    let mut out: Vec<String> = Vec::new();
    let mut i: usize = 0;
    proof {
        assert(dv.take(0) =~= Seq::<UrlModel>::empty());
    }
    while i < urls.len()
        invariant
            i <= urls.len(),
            dv == urls.deep_view(),
            out.deep_view() == hosts_of(dv.take(i as int)),
        decreases urls.len() - i,
    {
        proof {
            assert(dv.take(i + 1).drop_last() =~= dv.take(i as int));
            assert(dv.take(i + 1).last() == dv[i as int]);
            assert(dv[i as int] == urls[i as int]@);
        }
        match &urls[i].host {
            Some(h) => {
                let ghost prev = out.deep_view();
                let hc = h.clone();
                out.push(hc);
                proof {
                    assert(out.deep_view() =~= prev.push(h@));
                }
            },
            None => {},
        }
        i += 1;
    }
    proof {
        assert(dv.take(urls.len() as int) =~= dv);
    }
    out
}

impl DefaultUrlResolver {
    /// Creates a default URL resolver. The home and page domains are reduced
    /// to their hosts; URLs without a host are dropped.
    pub fn new(
        home_domain: Option<RequestUrl>,
        page_domains: Option<Vec<RequestUrl>>,
        default_repo: String,
        default_branch: String,
        external_enabled: bool,
    ) -> (r: DefaultUrlResolver)
        ensures
            r@.home == match home_domain {
                Some(u) => u@.host,
                None => None::<Seq<char>>,
            },
            r@.page_domains == match page_domains {
                Some(v) => Some(hosts_of(v.deep_view())),
                None => None::<Seq<Seq<char>>>,
            },
            r@.external_enabled == external_enabled,
            r@.default_repo == default_repo@,
            r@.default_branch == default_branch@,
    {
        let home = match home_domain {
            Some(u) => u.host,
            None => None,
        };
        let pds = match page_domains {
            Some(v) => Some(host_strings(&v)),
            None => None,
        };
        DefaultUrlResolver {
            home_domain: home,
            page_domains: pds,
            external_enabled,
            default_repo,
            default_branch,
        }
    }
}

/// Runs the subdomain analysis against the first page domain that `h` is a
/// strict subdomain of, if any.
fn find_subdomain_analysis(pds: &Vec<String>, h: &String, path: &String) -> (r: Option<UrlAnalysis>)
    ensures
        match r {
            Some(a) => first_suffix_match(pds.deep_view(), h@) >= 0 && a@ == spec_analyze_subdomain(
                h@,
                pds.deep_view()[first_suffix_match(pds.deep_view(), h@)],
                path@,
            ),
            None => first_suffix_match(pds.deep_view(), h@) < 0,
        },
{
    let ghost pdv = pds.deep_view();
    let mut i: usize = 0;
    while i < pds.len()
        invariant
            i <= pds.len(),
            pdv == pds.deep_view(),
            forall|j: int| 0 <= j < i ==> !spec_ends_with(h@, seq!['.'] + pdv[j]),
        decreases pds.len() - i,
    {
        proof {
            reveal_strlit(".");
        }
        let mut dotted = String::from_str(".");
        dotted.append(pds[i].as_str());
        proof {
            assert(dotted@ =~= seq!['.'] + pdv[i as int]);
        }
        if ends_with_str(h.as_str(), dotted.as_str()) {
            proof {
                lemma_first_suffix_match_at(pdv, h@, i as int);
            }
            let a = analyze_subdomain_form(h, &pds[i], path);
            return Some(a);
        }
        i += 1;
    }
    proof {
        lemma_first_suffix_match(pdv, h@);
        if first_suffix_match(pdv, h@) >= 0 {
            assert(spec_ends_with(h@, seq!['.'] + pdv[first_suffix_match(pdv, h@)]));
        }
    }
    None
}

impl DefaultUrlResolver {
    fn is_root(&self, url: &RequestUrl) -> (r: bool)
        ensures
            r == spec_is_root(self@, url@.host),
    {
        match &url.host {
            None => self.page_domains.is_none(),
            Some(h) => {
                if self.page_domains.is_none() && !self.external_enabled {
                    return true;
                }
                match &self.home_domain {
                    Some(hd) => {
                        if hd.eq(h) {
                            return true;
                        }
                    },
                    None => {
                        if !self.external_enabled {
                            let listed = match &self.page_domains {
                                Some(v) => host_listed_under(v, h),
                                None => false,
                            };
                            if !listed {
                                return true;
                            }
                        }
                    },
                }
                false
            },
        }
    }

    fn page_from_analysis(&self, a: UrlAnalysis) -> (r: UrlResolution)
        requires
            a.owner is Some,
        ensures
            r@ == ResolutionModel::Page(apply_defaults(self@, a@)),
    {
        let owner = match a.owner {
            Some(o) => o,
            None => String::new(),
        };
        let name = match a.repo {
            Some(x) => x,
            None => self.default_repo.clone(),
        };
        let branch = match a.branch {
            Some(x) => x,
            None => self.default_branch.clone(),
        };
        UrlResolution::Page(
            PageAssetLocation { page: PageLocation { owner, name, branch }, asset: a.asset },
        )
    }
}

impl UrlResolver for DefaultUrlResolver {
    open spec fn resolution_of(&self, u: UrlModel) -> ResolutionModel {
        spec_resolve(self@, u)
    }

    fn resolve(&self, url: RequestUrl) -> (r: UrlResolution)
        ensures
            r@ == spec_resolve(self@, url@),
    {
        if self.is_root(&url) {
            let a = analyze_path_form(&url.path);
            match &a.owner {
                Some(_) => self.page_from_analysis(a),
                None => UrlResolution::BuiltIn,
            }
        } else {
            let fallback_external = self.external_enabled;
            let matched: Option<UrlAnalysis> = match &url.host {
                None => None,
                Some(h) => {
                    match &self.page_domains {
                        Some(pds) => find_subdomain_analysis(pds, h, &url.path),
                        None => None,
                    }
                },
            };
            match matched {
                Some(a) => {
                    match &a.owner {
                        Some(_) => self.page_from_analysis(a),
                        None => {
                            if self.external_enabled {
                                UrlResolution::External(url)
                            } else {
                                UrlResolution::BuiltIn
                            }
                        },
                    }
                },
                None => {
                    if fallback_external {
                        UrlResolution::External(url)
                    } else {
                        UrlResolution::BuiltIn
                    }
                },
            }
        }
    }
}

/// Law: resolution is total. Every URL resolves, to exactly one variant, and
/// the malformed variant is reserved and never produced.
pub proof fn lemma_resolution_totality(m: ResolverModel, u: UrlModel)
    ensures
        spec_resolve(m, u) is Page || spec_resolve(m, u) is BuiltIn || spec_resolve(m, u)
            is External,
        !(spec_resolve(m, u) is Malformed),
{
}

/// The analysis names no empty repository or branch explicitly.
pub open spec fn analysis_fields_nonempty(a: UrlAnalysisModel) -> bool {
    &&& match a.repo {
        Some(x) => x.len() > 0,
        None => true,
    }
    &&& match a.branch {
        Some(x) => x.len() > 0,
        None => true,
    }
}

/// Law: defaults are applied. Whenever resolution yields a page, its name and
/// branch are non-empty, provided the configured defaults are non-empty and
/// the URL spells no empty repository or branch explicitly.
pub proof fn lemma_default_application(m: ResolverModel, u: UrlModel)
    requires
        m.default_repo.len() > 0,
        m.default_branch.len() > 0,
        match spec_resolve_analysis(m, u) {
            Some(a) => analysis_fields_nonempty(a),
            None => true,
        },
    ensures
        match spec_resolve(m, u) {
            ResolutionModel::Page(l) => l.page.name.len() > 0 && l.page.branch.len() > 0,
            _ => true,
        },
{
}

/// Law: the empty path under the root resolves to the built-in page.
pub proof fn lemma_empty_path_builtin(m: ResolverModel, u: UrlModel)
    requires
        spec_is_root(m, u.host),
        u.path == seq!['/'],
    ensures
        spec_resolve(m, u) == ResolutionModel::BuiltIn,
{
    let s = u.path;
    assert(s[0] == '/');
    let rest = s.subrange(1, 1);
    assert(spec_split(s, '/') == seq![s.subrange(0, 0)] + spec_split(rest, '/'));
    assert(rest.len() == 0);
    assert(spec_split(rest, '/') == seq![rest]);
    let toks = spec_split(s, '/');
    assert(toks =~= seq![s.subrange(0, 0), rest]);
    let t1 = toks.drop_last();
    assert(t1 =~= seq![s.subrange(0, 0)]);
    assert(t1.drop_last() =~= Seq::<Seq<char>>::empty());
    assert(keep_nonempty(Seq::<Seq<char>>::empty()) == Seq::<Seq<char>>::empty());
    assert(keep_nonempty(t1) == keep_nonempty(t1.drop_last()));
    assert(keep_nonempty(toks) == keep_nonempty(t1));
    assert(keep_nonempty(toks).len() == 0);
}

/// Law: a host equal to a configured page domain resolves to the built-in
/// page — never to a page or an external domain — when external domains are
/// disabled, the host is not the home domain, and the host is not also a
/// strict subdomain of some other configured page domain.
pub proof fn lemma_page_host_builtin(m: ResolverModel, u: UrlModel, h: Seq<char>)
    requires
        !m.external_enabled,
        u.host == Some(h),
        m.page_domains is Some,
        pd_list(m).contains(h),
        m.home != Some(h),
        first_suffix_match(pd_list(m), h) < 0,
    ensures
        spec_resolve(m, u) == ResolutionModel::BuiltIn,
{
    let i = choose|i: int| 0 <= i < pd_list(m).len() && pd_list(m)[i] == h;
    assert(listed_under(pd_list(m), h));
    lemma_first_suffix_match(pd_list(m), h);
}

/// The default path form of a page-asset location:
/// `/owner/name:branch` followed by the asset path.
pub open spec fn spec_compose(l: PageAssetLocationModel) -> Seq<char> {
    seq!['/'] + l.page.owner + seq!['/'] + l.page.name + seq![':'] + l.page.branch + l.asset
}

/// Writes a page-asset location in the default path form.
pub fn compose(loc: &PageAssetLocation) -> (r: String)
    ensures
        r@ == spec_compose(loc@),
{
    proof {
        reveal_strlit("/");
        reveal_strlit(":");
    }
    let mut out = String::from_str("/");
    out.append(loc.page.owner.as_str());
    out.append("/");
    out.append(loc.page.name.as_str());
    out.append(":");
    out.append(loc.page.branch.as_str());
    out.append(loc.asset.as_str());
    proof {
        assert(out@ =~= spec_compose(loc@));
    }
    out
}

proof fn lemma_keep_nonempty_single(t: Seq<char>)
    ensures
        keep_nonempty(seq![t]) == if t.len() > 0 {
            seq![t]
        } else {
            Seq::<Seq<char>>::empty()
        },
{
    assert(seq![t].drop_last() =~= Seq::<Seq<char>>::empty());
    assert(seq![t].last() == t);
    assert(keep_nonempty(Seq::<Seq<char>>::empty()) == Seq::<Seq<char>>::empty());
    assert(keep_nonempty(seq![t]) == if t.len() > 0 {
        keep_nonempty(seq![t].drop_last()).push(t)
    } else {
        keep_nonempty(seq![t].drop_last())
    });
}

/// Law: composing a location in the default path form and resolving it under
/// the root yields that location back, for locations whose fields are
/// non-empty, whose owner and name avoid the delimiters, and whose asset path
/// is canonical (it equals `/` plus its own non-empty segments).
pub proof fn lemma_compose_roundtrip(m: ResolverModel, l: PageAssetLocationModel, host: Option<
    Seq<char>,
>)
    requires
        spec_is_root(m, host),
        l.page.owner.len() > 0,
        sep_free(l.page.owner, '/'),
        l.page.name.len() > 0,
        sep_free(l.page.name, '/'),
        sep_free(l.page.name, ':'),
        l.page.branch.len() > 0,
        sep_free(l.page.branch, '/'),
        l.asset == spec_asset_from(nonempty_segments(l.asset)),
    ensures
        spec_resolve(m, UrlModel { host, path: spec_compose(l) }) == ResolutionModel::Page(l),
{
    let owner = l.page.owner;
    let name = l.page.name;
    let branch = l.page.branch;
    let asset = l.asset;
    let nb = name + seq![':'] + branch;
    let path = spec_compose(l);
    let asegs = nonempty_segments(asset);

    // Each asset segment is non-empty and free of '/'.
    lemma_keep_nonempty_props(spec_split(asset, '/'));
    lemma_split_tokens_sep_free(asset, '/');
    assert forall|k: int| 0 <= k < asegs.len() implies (#[trigger] asegs[k]).len() > 0 && sep_free(
        asegs[k],
        '/',
    ) by {
        assert(spec_split(asset, '/').contains(asegs[k]));
        let j = choose|j: int|
            0 <= j < spec_split(asset, '/').len() && spec_split(asset, '/')[j] == asegs[k];
        assert(sep_free(spec_split(asset, '/')[j], '/'));
    }

    // nb is free of '/'.
    assert forall|j: int| 0 <= j < nb.len() implies nb[j] != '/' by {
        if j < name.len() {
            assert(nb[j] == name[j]);
        } else if j == name.len() {
            assert(nb[j] == ':');
        } else {
            assert(nb[j] == branch[j - name.len() - 1]);
        }
    }

    // Split the composed path: [""] + [owner] + split(nb + asset).
    let rest1 = owner + seq!['/'] + (nb + asset);
    assert(path =~= Seq::<char>::empty() + seq!['/'] + rest1);
    lemma_split_concat(Seq::empty(), rest1, '/');
    lemma_split_no_sep(Seq::empty(), '/');
    lemma_split_concat(owner, nb + asset, '/');
    lemma_split_no_sep(owner, '/');

    let e = Seq::<char>::empty();
    if asegs.len() == 0 {
        assert(asset =~= seq!['/']);
        assert(nb + asset =~= nb + seq!['/'] + e);
        lemma_split_concat(nb, e, '/');
        lemma_split_no_sep(nb, '/');
        lemma_split_no_sep(e, '/');
        assert(spec_split(path, '/') == (seq![e] + seq![owner]) + (seq![nb] + seq![e]));
    } else {
        assert(asset == seq!['/'] + spec_join(asegs, '/'));
        assert(nb + asset =~= nb + seq!['/'] + spec_join(asegs, '/'));
        lemma_split_concat(nb, spec_join(asegs, '/'), '/');
        lemma_split_no_sep(nb, '/');
        lemma_split_join(asegs, '/');
        assert(spec_split(path, '/') == (seq![e] + seq![owner]) + (seq![nb] + asegs));
    }

    // The non-empty segments are [owner, nb] + asegs.
    lemma_keep_nonempty_concat(seq![e] + seq![owner], seq![nb] + asegs);
    lemma_keep_nonempty_concat(seq![e], seq![owner]);
    lemma_keep_nonempty_concat(seq![nb], asegs);
    lemma_keep_nonempty_single(e);
    lemma_keep_nonempty_single(owner);
    lemma_keep_nonempty_single(nb);
    lemma_keep_nonempty_id(asegs);
    let segs = nonempty_segments(path);
    if asegs.len() == 0 {
        lemma_keep_nonempty_concat(seq![e] + seq![owner], seq![nb] + seq![e]);
        lemma_keep_nonempty_concat(seq![nb], seq![e]);
        assert(segs =~= seq![owner, nb]);
    } else {
        assert(segs =~= seq![owner, nb] + asegs);
    }
    assert(segs.len() == 2 + asegs.len());
    assert(segs[0] == owner);
    assert(segs[1] == nb);

    // The second segment splits at the first ':' into name and branch.
    assert forall|j: int| 0 <= j < name.len() implies nb[j] != ':' by {
        assert(nb[j] == name[j]);
    }
    assert(nb[name.len() as int] == ':');
    lemma_find_char_at(nb, ':', name.len() as int);
    assert(nb.subrange(0, name.len() as int) =~= name);
    assert(nb.subrange(name.len() as int + 1, nb.len() as int) =~= branch);

    // The remaining segments rebuild the asset path.
    let a = spec_analyze_path(path);
    if asegs.len() == 0 {
        assert(a.asset == seq!['/']);
        assert(asset =~= seq!['/']);
    } else {
        assert(segs.skip(2) =~= asegs);
        assert(a.asset == asset);
    }
    assert(a.owner == Some(owner));
    assert(a.repo == Some(name));
    assert(a.branch == Some(branch));
    assert(apply_defaults(m, a) == l);
}

} // verus!
