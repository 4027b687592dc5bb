//! Request URLs reduced to the parts the gateway reads (host and path), and
//! the analysis that extracts owner, repository, branch and asset path from
//! either the path form (`/owner/repo:branch/a/b`) or the subdomain form
//! (`branch.repo.owner.base`).

use vstd::prelude::*;

use crate::strutil::{
    find_char, lemma_find_char, lemma_find_char_at, lemma_split_len, spec_ends_with, spec_join,
    spec_split, ends_with_str, join_char, split_char,
};

verus! {

/// What the gateway reads of a request URL.
pub ghost struct UrlModel {
    pub host: Option<Seq<char>>,
    pub path: Seq<char>,
}

/// A request URL reduced to its host and path.
#[derive(Clone, Debug, PartialEq, Eq)]
pub struct RequestUrl {
    pub host: Option<String>,
    pub path: String,
}

impl View for RequestUrl {
    type V = UrlModel;

    open spec fn view(&self) -> UrlModel {
        UrlModel { host: self.host.deep_view(), path: self.path@ }
    }
}

impl DeepView for RequestUrl {
    type V = UrlModel;

    open spec fn deep_view(&self) -> UrlModel {
        self.view()
    }
}

impl RequestUrl {
    pub fn new(host: Option<String>, path: String) -> (r: RequestUrl)
        ensures
            r.host == host,
            r.path == path,
    {
        RequestUrl { host, path }
    }
}

/// The host and path that `url::Url::parse` extracts from a URL string, or
/// `None` where parsing fails; a function of the string alone.
pub uninterp spec fn url_parts_of(s: Seq<char>) -> Option<(Option<Seq<char>>, Seq<char>)>;

/// Relies on url::Url::parse, Url::host_str and Url::path: the parsed host and
/// path of an absolute URL string depend on the string alone.
#[verifier::external_body]
pub fn parse_request_url(s: &str) -> (r: Option<RequestUrl>)
    ensures
        match r {
            Some(u) => url_parts_of(s@) == Some((u.host.deep_view(), u.path@)),
            None => url_parts_of(s@) is None,
        },
{
    match url::Url::parse(s) {
        Ok(u) => Some(RequestUrl {
            host: u.host_str().map(|h| h.to_string()),
            path: u.path().to_string(),
        }),
        Err(_) => None,
    }
}

/// The fields a URL analysis yields before defaults are applied.
pub ghost struct UrlAnalysisModel {
    pub owner: Option<Seq<char>>,
    pub repo: Option<Seq<char>>,
    pub branch: Option<Seq<char>>,
    pub asset: Seq<char>,
}

/// Result of path or subdomain parsing, before defaults are applied.
#[derive(Clone, Debug, PartialEq, Eq)]
pub struct UrlAnalysis {
    pub owner: Option<String>,
    pub repo: Option<String>,
    pub branch: Option<String>,
    pub asset: String,
}

impl View for UrlAnalysis {
    type V = UrlAnalysisModel;

    open spec fn view(&self) -> UrlAnalysisModel {
        UrlAnalysisModel {
            owner: self.owner.deep_view(),
            repo: self.repo.deep_view(),
            branch: self.branch.deep_view(),
            asset: self.asset@,
        }
    }
}

/// The non-empty tokens of `parts`, in order.
pub open spec fn keep_nonempty(parts: Seq<Seq<char>>) -> Seq<Seq<char>>
    decreases parts.len(),
{
    if parts.len() == 0 {
        Seq::empty()
    } else {
        let rest = keep_nonempty(parts.drop_last());
        if parts.last().len() > 0 {
            rest.push(parts.last())
        } else {
            rest
        }
    }
}

/// Keeping non-empty tokens distributes over concatenation.
pub proof fn lemma_keep_nonempty_concat(a: Seq<Seq<char>>, b: Seq<Seq<char>>)
    ensures
        keep_nonempty(a + b) == keep_nonempty(a) + keep_nonempty(b),
    decreases b.len(),
{
    if b.len() == 0 {
        assert(a + b =~= a);
        assert(keep_nonempty(a) + keep_nonempty(b) =~= keep_nonempty(a));
    } else {
        assert((a + b).drop_last() =~= a + b.drop_last());
        assert((a + b).last() == b.last());
        lemma_keep_nonempty_concat(a, b.drop_last());
    }
}

/// Every token kept is non-empty and was among the tokens given.
pub proof fn lemma_keep_nonempty_props(parts: Seq<Seq<char>>)
    ensures
        forall|k: int|
            0 <= k < keep_nonempty(parts).len() ==> (#[trigger] keep_nonempty(parts)[k]).len() > 0,
        forall|k: int|
            0 <= k < keep_nonempty(parts).len() ==> parts.contains(
                #[trigger] keep_nonempty(parts)[k],
            ),
    decreases parts.len(),
{
    if parts.len() > 0 {
        let pre = parts.drop_last();
        lemma_keep_nonempty_props(pre);
        assert forall|k: int|
            0 <= k < keep_nonempty(parts).len() implies (#[trigger] keep_nonempty(parts)[k]).len()
            > 0 && parts.contains(keep_nonempty(parts)[k]) by {
            if k < keep_nonempty(pre).len() {
                assert(keep_nonempty(parts)[k] == keep_nonempty(pre)[k]);
                let j = choose|j: int| 0 <= j < pre.len() && pre[j] == keep_nonempty(pre)[k];
                assert(parts[j] == keep_nonempty(parts)[k]);
            } else {
                assert(keep_nonempty(parts)[k] == parts.last());
                assert(parts[parts.len() - 1] == parts.last());
            }
        }
    }
}

/// Tokens that are all non-empty are kept unchanged.
pub proof fn lemma_keep_nonempty_id(parts: Seq<Seq<char>>)
    requires
        forall|k: int| 0 <= k < parts.len() ==> (#[trigger] parts[k]).len() > 0,
    ensures
        keep_nonempty(parts) == parts,
    decreases parts.len(),
{
    if parts.len() > 0 {
        let pre = parts.drop_last();
        assert forall|k: int| 0 <= k < pre.len() implies (#[trigger] pre[k]).len() > 0 by {
            assert(pre[k] == parts[k]);
        }
        lemma_keep_nonempty_id(pre);
        assert(keep_nonempty(parts) =~= parts);
    }
}

/// The non-empty `/`-separated segments of a URL path.
pub open spec fn nonempty_segments(path: Seq<char>) -> Seq<Seq<char>> {
    keep_nonempty(spec_split(path, '/'))
}

/// An asset path built from segments: `/` followed by the segments joined
/// with `/`, or `/` alone when there are none.
pub open spec fn spec_asset_from(segs: Seq<Seq<char>>) -> Seq<char> {
    if segs.len() == 0 {
        seq!['/']
    } else {
        seq!['/'] + spec_join(segs, '/')
    }
}

/// Path-form analysis: first segment is the owner; the second splits on the
/// first `:` into repository and optional branch; the rest form the asset.
pub open spec fn spec_analyze_path(path: Seq<char>) -> UrlAnalysisModel {
    let segs = nonempty_segments(path);
    UrlAnalysisModel {
        owner: if segs.len() >= 1 {
            Some(segs[0])
        } else {
            None
        },
        repo: if segs.len() >= 2 {
            let i = find_char(segs[1], ':');
            if i >= 0 {
                Some(segs[1].subrange(0, i))
            } else {
                Some(segs[1])
            }
        } else {
            None
        },
        branch: if segs.len() >= 2 {
            let i = find_char(segs[1], ':');
            if i >= 0 {
                Some(segs[1].subrange(i + 1, segs[1].len() as int))
            } else {
                None
            }
        } else {
            None
        },
        asset: if segs.len() <= 2 {
            seq!['/']
        } else {
            spec_asset_from(segs.skip(2))
        },
    }
}

/// Subdomain-form analysis against a base host: of the labels left after
/// stripping `.base`, the rightmost is the owner, the next is the repository,
/// and anything further left is the branch (dots kept); the whole path forms
/// the asset.
pub open spec fn spec_analyze_subdomain(host: Seq<char>, base: Seq<char>, path: Seq<char>)
    -> UrlAnalysisModel
    recommends
        spec_ends_with(host, seq!['.'] + base),
{
    let prefix = host.take(host.len() - base.len() - 1);
    let parts = spec_split(prefix, '.');
    let n = parts.len() as int;
    UrlAnalysisModel {
        owner: Some(parts[n - 1]),
        repo: if n >= 2 {
            Some(parts[n - 2])
        } else {
            None
        },
        branch: if n >= 3 {
            Some(spec_join(parts.take(n - 2), '.'))
        } else {
            None
        },
        asset: spec_asset_from(nonempty_segments(path)),
    }
}

/// URL analysis: with no base host, the path form; with a base host, the path
/// form when the host equals the base, the subdomain form when the host is a
/// strict subdomain of the base, and nothing otherwise.
pub open spec fn spec_analyze_url(u: UrlModel, base: Option<Seq<char>>) -> Option<UrlAnalysisModel> {
    match base {
        None => Some(spec_analyze_path(u.path)),
        Some(b) => match u.host {
            None => None,
            Some(h) => if h == b {
                Some(spec_analyze_path(u.path))
            } else if spec_ends_with(h, seq!['.'] + b) {
                Some(spec_analyze_subdomain(h, b, u.path))
            } else {
                None
            },
        },
    }
}

pub open spec fn opt_str_view(o: Option<&String>) -> Option<Seq<char>> {
    match o {
        Some(s) => Some(s@),
        None => None,
    }
}

/// Keeps the non-empty strings of `v`, in order.
pub(crate) fn filter_nonempty(v: &Vec<String>) -> (r: Vec<String>)
    ensures
        r.deep_view() == keep_nonempty(v.deep_view()),
{
    let ghost dv = v.deep_view();
    let mut out: Vec<String> = Vec::new();
    let mut i: usize = 0;
    proof {
        assert(dv.take(0) =~= Seq::<Seq<char>>::empty());
    }
    while i < v.len()
        invariant
            i <= v.len(),
            dv == v.deep_view(),
            out.deep_view() == keep_nonempty(dv.take(i as int)),
        decreases v.len() - i,
    {
        proof {
            assert(dv.take(i + 1).drop_last() =~= dv.take(i as int));
            assert(dv.take(i + 1).last() == dv[i as int]);
        }
        if !v[i].as_str().is_empty() {
            let ghost prev = out.deep_view();
            out.push(v[i].clone());
            proof {
                assert(out.deep_view() =~= prev.push(dv[i as int]));
            }
        }
        i += 1;
    }
    proof {
        assert(dv.take(v.len() as int) =~= dv);
    }
    out
}

/// The elements of `v` from index `k` on.
fn tail_from(v: &Vec<String>, k: usize) -> (r: Vec<String>)
    requires
        k <= v.len(),
    ensures
        r.deep_view() == v.deep_view().skip(k as int),
{
    let mut out: Vec<String> = Vec::new();
    let mut i: usize = k;
    while i < v.len()
        invariant
            k <= i <= v.len(),
            out.deep_view() == v.deep_view().subrange(k as int, i as int),
        decreases v.len() - i,
    {
        let ghost prev = out.deep_view();
        out.push(v[i].clone());
        proof {
            assert(out.deep_view() =~= prev.push(v.deep_view()[i as int]));
            assert(v.deep_view().subrange(k as int, i + 1) =~= v.deep_view().subrange(
                k as int,
                i as int,
            ).push(v.deep_view()[i as int]));
        }
        i += 1;
    }
    out
}

/// The first `k` elements of `v`.
fn take_upto(v: &Vec<String>, k: usize) -> (r: Vec<String>)
    requires
        k <= v.len(),
    ensures
        r.deep_view() == v.deep_view().take(k as int),
{
    let mut out: Vec<String> = Vec::new();
    let mut i: usize = 0;
    while i < k
        invariant
            i <= k <= v.len(),
            out.deep_view() == v.deep_view().take(i as int),
        decreases k - i,
    {
        let ghost prev = out.deep_view();
        out.push(v[i].clone());
        proof {
            assert(out.deep_view() =~= prev.push(v.deep_view()[i as int]));
            assert(v.deep_view().take(i + 1) =~= v.deep_view().take(i as int).push(
                v.deep_view()[i as int],
            ));
        }
        i += 1;
    }
    out
}

/// Splits `s` at the first occurrence of `c`; the second component is `None`
/// when `c` does not occur.
fn split_once_char(s: &String, c: char) -> (r: (String, Option<String>))
    ensures
        ({
            let i = find_char(s@, c);
            if i >= 0 {
                r.0@ == s@.subrange(0, i) && r.1.deep_view() == Some(
                    s@.subrange(i + 1, s@.len() as int),
                )
            } else {
                r.0@ == s@ && r.1.deep_view() == None::<Seq<char>>
            }
        }),
{
    let st = s.as_str();
    let n = st.unicode_len();
    let mut i: usize = 0;
    while i < n
        invariant
            i <= n,
            n == st@.len(),
            st@ == s@,
            forall|j: int| 0 <= j < i ==> s@[j] != c,
        decreases n - i,
    {
        if st.get_char(i) == c {
            proof {
                lemma_find_char_at(s@, c, i as int);
            }
            let left = st.substring_char(0, i).to_owned();
            let right = st.substring_char(i + 1, n).to_owned();
            return (left, Some(right));
        }
        i += 1;
    }
    proof {
        lemma_find_char(s@, c);
        if find_char(s@, c) >= 0 {
            assert(s@[find_char(s@, c)] == c);
        }
    }
    (s.clone(), None)
}

/// Builds the asset path `/` + segments joined with `/`.
pub(crate) fn asset_from_segments(segs: &Vec<String>) -> (r: String)
    ensures
        r@ == spec_asset_from(segs.deep_view()),
{
    proof {
        reveal_strlit("/");
    }
    let mut out = String::from_str("/");
    proof {
        assert(out@ =~= seq!['/']);
    }
    if segs.len() > 0 {
        let joined = join_char(segs, "/");
        out.append(joined.as_str());
    }
    out
}

/// Analyzes a URL into owner, repository, branch and asset, against an
/// optional base host; `None` when a base host is given and the URL's host
/// is neither the base nor one of its subdomains.
pub fn analyze_url(url: &RequestUrl, base_host: Option<&String>) -> (r: Option<UrlAnalysis>)
    ensures
        match r {
            Some(a) => spec_analyze_url(url@, opt_str_view(base_host)) == Some(a@),
            None => spec_analyze_url(url@, opt_str_view(base_host)) is None,
        },
{
    match base_host {
        None => Some(analyze_path_form(&url.path)),
        Some(b) => match &url.host {
            None => None,
            Some(h) => {
                if h.eq(b) {
                    Some(analyze_path_form(&url.path))
                } else {
                    proof {
                        reveal_strlit(".");
                    }
                    let mut dotted = String::from_str(".");
                    dotted.append(b.as_str());
                    proof {
                        assert(dotted@ =~= seq!['.'] + b@);
                    }
                    if ends_with_str(h.as_str(), dotted.as_str()) {
                        Some(analyze_subdomain_form(h, b, &url.path))
                    } else {
                        None
                    }
                }
            },
        },
    }
}

/// Path-form analysis of a URL path.
pub fn analyze_path_form(path: &String) -> (r: UrlAnalysis)
    ensures
        r@ == spec_analyze_path(path@),
{
    let parts = split_char(path.as_str(), '/');
    let segs = filter_nonempty(&parts);
    let ghost sm = nonempty_segments(path@);
    proof {
        assert(segs.deep_view() == sm);
    }
    let owner: Option<String> = if segs.len() >= 1 {
        Some(segs[0].clone())
    } else {
        None
    };
    let mut repo: Option<String> = None;
    let mut branch: Option<String> = None;
    if segs.len() >= 2 {
        let (rp, bo) = split_once_char(&segs[1], ':');
        repo = Some(rp);
        branch = bo;
    }
    let asset = if segs.len() > 2 {
        let rest = tail_from(&segs, 2);
        asset_from_segments(&rest)
    } else {
        proof {
            reveal_strlit("/");
        }
        let slash = String::from_str("/");
        proof {
            assert(slash@ =~= seq!['/']);
        }
        slash
    };
    UrlAnalysis { owner, repo, branch, asset }
}

/// Subdomain-form analysis of a host against a base host it is a strict
/// subdomain of.
pub fn analyze_subdomain_form(host: &String, base: &String, path: &String) -> (r: UrlAnalysis)
    requires
        spec_ends_with(host@, seq!['.'] + base@),
    ensures
        r@ == spec_analyze_subdomain(host@, base@, path@),
{
    let hs = host.as_str();
    let hn = hs.unicode_len();
    let bn = base.as_str().unicode_len();
    proof {
        assert(hn >= bn + 1);
    }
    let prefix = hs.substring_char(0, hn - bn - 1);
    proof {
        assert(prefix@ =~= host@.take(host@.len() - base@.len() - 1));
    }
    let parts = split_char(prefix, '.');
    proof {
        lemma_split_len(prefix@, '.');
        assert(parts.deep_view().len() == spec_split(prefix@, '.').len());
    }
    let n = parts.len();
    let owner: Option<String> = Some(parts[n - 1].clone());
    let repo: Option<String> = if n >= 2 {
        Some(parts[n - 2].clone())
    } else {
        None
    };
    let branch: Option<String> = if n >= 3 {
        let lead = take_upto(&parts, n - 2);
        proof {
            reveal_strlit(".");
        }
        Some(join_char(&lead, "."))
    } else {
        None
    };
    let path_parts = split_char(path.as_str(), '/');
    let segs = filter_nonempty(&path_parts);
    let asset = asset_from_segments(&segs);
    UrlAnalysis { owner, repo, branch, asset }
}

/// Rebuilding an asset path from its segments keeps the segments: the
/// normalized form of a path has exactly the path's non-empty segments.
pub proof fn lemma_asset_from_segments_roundtrip(p: Seq<char>)
    ensures
        nonempty_segments(spec_asset_from(nonempty_segments(p))) == nonempty_segments(p),
{
    let segs = nonempty_segments(p);
    lemma_keep_nonempty_props(spec_split(p, '/'));
    crate::strutil::lemma_split_tokens_sep_free(p, '/');
    assert forall|k: int|
        0 <= k < segs.len() implies (#[trigger] segs[k]).len() > 0 && crate::strutil::sep_free(
        segs[k],
        '/',
    ) by {
        assert(spec_split(p, '/').contains(segs[k]));
        let j = choose|j: int|
            0 <= j < spec_split(p, '/').len() && spec_split(p, '/')[j] == segs[k];
        assert(crate::strutil::sep_free(spec_split(p, '/')[j], '/'));
    }
    let e = Seq::<char>::empty();
    if segs.len() == 0 {
        let a = spec_asset_from(segs);
        assert(a == seq!['/']);
        assert(a[0] == '/');
        crate::strutil::lemma_split_step(a, '/', 0);
        let rest = a.subrange(1, 1);
        assert(rest.len() == 0);
        assert(spec_split(rest, '/') == seq![rest]);
        let toks = spec_split(a, '/');
        assert(toks =~= seq![a.subrange(0, 0), rest]);
        let t1 = toks.drop_last();
        assert(t1 =~= seq![a.subrange(0, 0)]);
        assert(t1.drop_last() =~= Seq::<Seq<char>>::empty());
        assert(keep_nonempty(Seq::<Seq<char>>::empty()) == Seq::<Seq<char>>::empty());
        assert(keep_nonempty(t1) == keep_nonempty(t1.drop_last()));
        assert(keep_nonempty(toks) == keep_nonempty(t1));
        assert(nonempty_segments(a) =~= segs);
    } else {
        let a = spec_asset_from(segs);
        assert(a =~= e + seq!['/'] + spec_join(segs, '/'));
        crate::strutil::lemma_split_concat(e, spec_join(segs, '/'), '/');
        crate::strutil::lemma_split_no_sep(e, '/');
        crate::strutil::lemma_split_join(segs, '/');
        assert(spec_split(a, '/') == seq![e] + segs);
        lemma_keep_nonempty_concat(seq![e], segs);
        assert(seq![e].drop_last() =~= Seq::<Seq<char>>::empty());
        assert(keep_nonempty(Seq::<Seq<char>>::empty()) == Seq::<Seq<char>>::empty());
        assert(keep_nonempty(seq![e]) =~= Seq::<Seq<char>>::empty());
        lemma_keep_nonempty_id(segs);
        assert(nonempty_segments(a) =~= segs);
    }
}

/// Law: the subdomain form consumes only the three rightmost labels. With
/// four or more labels before the base host, the extra labels are absorbed
/// into the branch, dots kept; they promote no fourth field.
pub proof fn lemma_subdomain_absorbs_extra_labels(
    host: Seq<char>,
    base: Seq<char>,
    path: Seq<char>,
)
    requires
        spec_ends_with(host, seq!['.'] + base),
        spec_split(host.take(host.len() - base.len() - 1), '.').len() >= 3,
    ensures
        ({
            let parts = spec_split(host.take(host.len() - base.len() - 1), '.');
            let n = parts.len() as int;
            let a = spec_analyze_subdomain(host, base, path);
            a.owner == Some(parts[n - 1]) && a.repo == Some(parts[n - 2]) && a.branch == Some(
                spec_join(parts.take(n - 2), '.'),
            )
        }),
{
}

} // verus!
