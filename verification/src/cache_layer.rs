//! A layer that caches page versions, assets and a domain index in a
//! key-value cache, invalidating by version: when a page's version changes,
//! its cached entries are deleted as a group before the new version is
//! recorded. The layer changes no response: a wrapped source serves exactly
//! the assets of the source it wraps.

use vstd::prelude::*;
use vstd::string::StringSliceAdditionalSpecFns;
use vstd::utf8::{decode_utf8, encode_utf8, valid_utf8};

use crate::asset::{norm_path, normalize_path, Asset, AssetError, MemoryAsset};
use crate::cache::{key_matches_glob, CacheConnection};
use crate::page::{PageError, PageLocation, PageLocationModel};
use crate::pages::{
    claims_domain, PageData, PageModel, PageSource, PageSourceLayer,
};
use crate::strutil::{
    bytes_eq, contains_char, lemma_join_split, lemma_split_concat, lemma_split_no_sep, sep_free,
    spec_split, str_eq,
};

verus! {

/// The key under which a page's version is cached.
pub open spec fn version_key_of(k: PageLocationModel) -> Seq<char> {
    page_key_prefix(k) + seq![':', 'v', 'e', 'r', 's', 'i', 'o', 'n']
}

/// The key under which one asset of a page is cached.
pub open spec fn asset_key_of(k: PageLocationModel, p: Seq<char>) -> Seq<char> {
    page_key_prefix(k) + seq![':', 'a', 's', 's', 'e', 't', ':'] + p
}

/// The glob that covers every cached key of one page.
pub open spec fn glob_key_of(k: PageLocationModel) -> Seq<char> {
    page_key_prefix(k) + seq![':', '*']
}

/// `page:{owner}:{name}:{branch}`.
pub open spec fn page_key_prefix(k: PageLocationModel) -> Seq<char> {
    seq!['p', 'a', 'g', 'e', ':'] + k.owner + seq![':'] + k.name + seq![':'] + k.branch
}

/// The key under which the owner for a domain is indexed.
pub open spec fn domain_owner_key_of(d: Seq<char>) -> Seq<char> {
    seq!['d', 'o', 'm', 'a', 'i', 'n', ':'] + d + seq![':', 'o', 'w', 'n', 'e', 'r']
}

/// The key under which the repository name for a domain is indexed.
pub open spec fn domain_name_key_of(d: Seq<char>) -> Seq<char> {
    seq!['d', 'o', 'm', 'a', 'i', 'n', ':'] + d + seq![':', 'n', 'a', 'm', 'e']
}

/// A location whose parts are free of the key delimiter, so that its cache
/// keys name it unambiguously.
pub open spec fn loc_colon_free(k: PageLocationModel) -> bool {
    sep_free(k.owner, ':') && sep_free(k.name, ':') && sep_free(k.branch, ':')
}

/// Splitting a version key on `:` yields its five parts.
proof fn lemma_version_key_split(k: PageLocationModel)
    requires
        loc_colon_free(k),
    ensures
        spec_split(version_key_of(k), ':') == seq![
            seq!['p', 'a', 'g', 'e'],
            k.owner,
            k.name,
            k.branch,
            seq!['v', 'e', 'r', 's', 'i', 'o', 'n'],
        ],
{
    let pg = seq!['p', 'a', 'g', 'e'];
    let vn = seq!['v', 'e', 'r', 's', 'i', 'o', 'n'];
    let rest1 = k.owner + seq![':'] + (k.name + seq![':'] + (k.branch + seq![':'] + vn));
    assert(version_key_of(k) =~= pg + seq![':'] + rest1);
    lemma_split_concat(pg, rest1, ':');
    assert(forall|j: int| 0 <= j < pg.len() ==> pg[j] != ':');
    lemma_split_no_sep(pg, ':');
    lemma_split_concat(k.owner, k.name + seq![':'] + (k.branch + seq![':'] + vn), ':');
    lemma_split_no_sep(k.owner, ':');
    lemma_split_concat(k.name, k.branch + seq![':'] + vn, ':');
    lemma_split_no_sep(k.name, ':');
    lemma_split_concat(k.branch, vn, ':');
    lemma_split_no_sep(k.branch, ':');
    assert(forall|j: int| 0 <= j < vn.len() ==> vn[j] != ':');
    lemma_split_no_sep(vn, ':');
    assert(spec_split(version_key_of(k), ':') =~= seq![pg, k.owner, k.name, k.branch, vn]);
}

/// Splitting an asset key on `:` yields its five fixed parts followed by the
/// split of the asset path.
proof fn lemma_asset_key_split(k: PageLocationModel, p: Seq<char>)
    requires
        loc_colon_free(k),
    ensures
        spec_split(asset_key_of(k, p), ':') == seq![
            seq!['p', 'a', 'g', 'e'],
            k.owner,
            k.name,
            k.branch,
            seq!['a', 's', 's', 'e', 't'],
        ] + spec_split(p, ':'),
{
    let pg = seq!['p', 'a', 'g', 'e'];
    let at = seq!['a', 's', 's', 'e', 't'];
    let rest1 = k.owner + seq![':'] + (k.name + seq![':'] + (k.branch + seq![':'] + (at + seq![':']
        + p)));
    assert(asset_key_of(k, p) =~= pg + seq![':'] + rest1);
    lemma_split_concat(pg, rest1, ':');
    assert(forall|j: int| 0 <= j < pg.len() ==> pg[j] != ':');
    lemma_split_no_sep(pg, ':');
    lemma_split_concat(k.owner, k.name + seq![':'] + (k.branch + seq![':'] + (at + seq![':'] + p)), ':');
    lemma_split_no_sep(k.owner, ':');
    lemma_split_concat(k.name, k.branch + seq![':'] + (at + seq![':'] + p), ':');
    lemma_split_no_sep(k.name, ':');
    lemma_split_concat(k.branch, at + seq![':'] + p, ':');
    lemma_split_no_sep(k.branch, ':');
    lemma_split_concat(at, p, ':');
    assert(forall|j: int| 0 <= j < at.len() ==> at[j] != ':');
    lemma_split_no_sep(at, ':');
    assert(spec_split(asset_key_of(k, p), ':') =~= seq![pg, k.owner, k.name, k.branch, at]
        + spec_split(p, ':'));
}

/// Version keys of distinct unambiguous locations are distinct.
proof fn lemma_version_key_injective(k1: PageLocationModel, k2: PageLocationModel)
    requires
        loc_colon_free(k1),
        loc_colon_free(k2),
        version_key_of(k1) == version_key_of(k2),
    ensures
        k1 == k2,
{
    lemma_version_key_split(k1);
    lemma_version_key_split(k2);
    assert(k1.owner == spec_split(version_key_of(k1), ':')[1]);
    assert(k1.name == spec_split(version_key_of(k1), ':')[2]);
    assert(k1.branch == spec_split(version_key_of(k1), ':')[3]);
}

/// Asset keys determine their location and path, for unambiguous locations.
proof fn lemma_asset_key_injective(
    k1: PageLocationModel,
    p1: Seq<char>,
    k2: PageLocationModel,
    p2: Seq<char>,
)
    requires
        loc_colon_free(k1),
        loc_colon_free(k2),
        asset_key_of(k1, p1) == asset_key_of(k2, p2),
    ensures
        k1 == k2,
        p1 == p2,
{
    lemma_asset_key_split(k1, p1);
    lemma_asset_key_split(k2, p2);
    let s1 = spec_split(asset_key_of(k1, p1), ':');
    assert(k1.owner == s1[1] && k1.name == s1[2] && k1.branch == s1[3]);
    assert(k2.owner == s1[1] && k2.name == s1[2] && k2.branch == s1[3]);
    let front = seq![
        seq!['p', 'a', 'g', 'e'],
        k1.owner,
        k1.name,
        k1.branch,
        seq!['a', 's', 's', 'e', 't'],
    ];
    assert(spec_split(p1, ':') =~= s1.subrange(5, s1.len() as int));
    let front2 = seq![
        seq!['p', 'a', 'g', 'e'],
        k2.owner,
        k2.name,
        k2.branch,
        seq!['a', 's', 's', 'e', 't'],
    ];
    assert(spec_split(p2, ':') =~= s1.subrange(5, s1.len() as int));
    lemma_join_split(p1, ':');
    lemma_join_split(p2, ':');
}

/// An asset key is never a version key.
proof fn lemma_asset_key_not_version_key(
    k1: PageLocationModel,
    p: Seq<char>,
    k2: PageLocationModel,
)
    requires
        loc_colon_free(k1),
        loc_colon_free(k2),
    ensures
        asset_key_of(k1, p) != version_key_of(k2),
{
    if asset_key_of(k1, p) == version_key_of(k2) {
        lemma_asset_key_split(k1, p);
        lemma_version_key_split(k2);
        let s = spec_split(asset_key_of(k1, p), ':');
        assert(s[4] == seq!['a', 's', 's', 'e', 't']);
        assert(s[4] == seq!['v', 'e', 'r', 's', 'i', 'o', 'n']);
        assert(s[4].len() == 5 && s[4].len() == 7);
    }
}

/// Page keys and domain keys never collide: they begin differently.
proof fn lemma_page_key_not_domain_key(k: PageLocationModel, p: Seq<char>, d: Seq<char>)
    ensures
        version_key_of(k) != domain_owner_key_of(d),
        version_key_of(k) != domain_name_key_of(d),
        asset_key_of(k, p) != domain_owner_key_of(d),
        asset_key_of(k, p) != domain_name_key_of(d),
{
    assert(version_key_of(k)[0] == 'p');
    assert(asset_key_of(k, p)[0] == 'p');
    assert(domain_owner_key_of(d)[0] == 'd');
    assert(domain_name_key_of(d)[0] == 'd');
}

/// Domain keys determine their domain, for domains free of the delimiter;
/// and the owner and name keys of any domains never collide.
proof fn lemma_domain_key_injective(d1: Seq<char>, d2: Seq<char>)
    requires
        sep_free(d1, ':'),
        sep_free(d2, ':'),
    ensures
        domain_owner_key_of(d1) == domain_owner_key_of(d2) ==> d1 == d2,
        domain_name_key_of(d1) == domain_name_key_of(d2) ==> d1 == d2,
        domain_owner_key_of(d1) != domain_name_key_of(d2),
{
    let dm = seq!['d', 'o', 'm', 'a', 'i', 'n'];
    let ow = seq!['o', 'w', 'n', 'e', 'r'];
    let nm = seq!['n', 'a', 'm', 'e'];
    assert(forall|j: int| 0 <= j < dm.len() ==> dm[j] != ':');
    assert(forall|j: int| 0 <= j < ow.len() ==> ow[j] != ':');
    assert(forall|j: int| 0 <= j < nm.len() ==> nm[j] != ':');
    lemma_split_no_sep(dm, ':');
    lemma_split_no_sep(ow, ':');
    lemma_split_no_sep(nm, ':');
    lemma_split_no_sep(d1, ':');
    lemma_split_no_sep(d2, ':');
    assert(domain_owner_key_of(d1) =~= dm + seq![':'] + (d1 + seq![':'] + ow));
    lemma_split_concat(dm, d1 + seq![':'] + ow, ':');
    lemma_split_concat(d1, ow, ':');
    assert(domain_owner_key_of(d2) =~= dm + seq![':'] + (d2 + seq![':'] + ow));
    lemma_split_concat(dm, d2 + seq![':'] + ow, ':');
    lemma_split_concat(d2, ow, ':');
    assert(domain_name_key_of(d2) =~= dm + seq![':'] + (d2 + seq![':'] + nm));
    lemma_split_concat(dm, d2 + seq![':'] + nm, ':');
    lemma_split_concat(d2, nm, ':');
    assert(spec_split(domain_owner_key_of(d1), ':') =~= seq![dm, d1, ow]);
    assert(spec_split(domain_owner_key_of(d2), ':') =~= seq![dm, d2, ow]);
    assert(spec_split(domain_name_key_of(d2), ':') =~= seq![dm, d2, nm]);
    if domain_owner_key_of(d1) == domain_owner_key_of(d2) {
        assert(seq![dm, d1, ow][1] == seq![dm, d2, ow][1]);
    }
    if domain_name_key_of(d1) == domain_name_key_of(d2) {
        assert(domain_name_key_of(d1) =~= dm + seq![':'] + (d1 + seq![':'] + nm));
        lemma_split_concat(dm, d1 + seq![':'] + nm, ':');
        lemma_split_concat(d1, nm, ':');
        assert(spec_split(domain_name_key_of(d1), ':') =~= seq![dm, d1, nm]);
        assert(seq![dm, d1, nm][1] == seq![dm, d2, nm][1]);
    }
    if domain_owner_key_of(d1) == domain_name_key_of(d2) {
        assert(seq![dm, d1, ow][2] == seq![dm, d2, nm][2]);
        assert(ow.len() == 5 && nm.len() == 4);
    }
}

/// Every cached key of a page matches its glob.
proof fn lemma_glob_covers(k: PageLocationModel, p: Seq<char>)
    ensures
        key_matches_glob(glob_key_of(k), version_key_of(k)),
        key_matches_glob(glob_key_of(k), asset_key_of(k, p)),
{
    let g = glob_key_of(k);
    let stem = page_key_prefix(k) + seq![':'];
    assert(g.last() == '*');
    assert(g.take(g.len() - 1) =~= stem);
    assert(version_key_of(k).take(g.len() - 1) =~= stem);
    assert(asset_key_of(k, p).take(g.len() - 1) =~= stem);
}

/// The cache is consistent with a source model and its default branch:
/// a cached asset whose page's cached version matches the model holds
/// exactly the model's bytes, and the domain index points only at pages that
/// claim the domain.
pub open spec fn cache_consistent(
    c: Map<Seq<char>, Seq<u8>>,
    m: Map<PageLocationModel, PageModel>,
    db: Seq<char>,
) -> bool {
    &&& forall|k: PageLocationModel, p: Seq<char>|
        m.contains_key(k) && c.contains_key(#[trigger] asset_key_of(k, p)) && c.contains_key(
            version_key_of(k),
        ) && c[version_key_of(k)] == encode_utf8(m[k].version) ==> m[k].assets.contains_key(p)
            && c[asset_key_of(k, p)] == m[k].assets[p]
    &&& forall|d: Seq<char>|
        sep_free(d, ':') && c.contains_key(#[trigger] domain_owner_key_of(d)) && c.contains_key(
            domain_name_key_of(d),
        ) ==> valid_utf8(c[domain_owner_key_of(d)]) && valid_utf8(c[domain_name_key_of(d)]) && ((
        m.contains_key(
            PageLocationModel {
                owner: decode_utf8(c[domain_owner_key_of(d)]),
                name: decode_utf8(c[domain_name_key_of(d)]),
                branch: db,
            },
        )) ==> claims_domain(
            m[PageLocationModel {
                owner: decode_utf8(c[domain_owner_key_of(d)]),
                name: decode_utf8(c[domain_name_key_of(d)]),
                branch: db,
            }],
            seq![d],
        ))
}

/// Every location of the model is free of the key delimiter.
pub open spec fn model_unambiguous(m: Map<PageLocationModel, PageModel>) -> bool {
    forall|k: PageLocationModel| #[trigger] m.contains_key(k) ==> loc_colon_free(k)
}

/// Removing keys keeps consistency: the smaller cache claims less.
proof fn lemma_consistent_submap(
    c1: Map<Seq<char>, Seq<u8>>,
    c2: Map<Seq<char>, Seq<u8>>,
    m: Map<PageLocationModel, PageModel>,
    db: Seq<char>,
)
    requires
        cache_consistent(c1, m, db),
        forall|k: Seq<char>| #[trigger] c2.contains_key(k) ==> c1.contains_key(k) && c2[k] == c1[k],
    ensures
        cache_consistent(c2, m, db),
{
}

/// Recording a page's current version keeps consistency, provided no asset
/// of that page is cached.
proof fn lemma_consistent_set_version(
    c: Map<Seq<char>, Seq<u8>>,
    m: Map<PageLocationModel, PageModel>,
    db: Seq<char>,
    loc: PageLocationModel,
)
    requires
        cache_consistent(c, m, db),
        model_unambiguous(m),
        m.contains_key(loc),
        forall|p: Seq<char>| !c.contains_key(#[trigger] asset_key_of(loc, p)),
    ensures
        cache_consistent(
            c.insert(version_key_of(loc), encode_utf8(m[loc].version)),
            m,
            db,
        ),
{
    let c2 = c.insert(version_key_of(loc), encode_utf8(m[loc].version));
    assert forall|k: PageLocationModel, p: Seq<char>|
        m.contains_key(k) && c2.contains_key(#[trigger] asset_key_of(k, p)) && c2.contains_key(
            version_key_of(k),
        ) && c2[version_key_of(k)] == encode_utf8(m[k].version) implies m[k].assets.contains_key(p)
        && c2[asset_key_of(k, p)] == m[k].assets[p] by {
        lemma_asset_key_not_version_key(k, p, loc);
        if k == loc {
            assert(!c.contains_key(asset_key_of(loc, p)));
        } else {
            if version_key_of(k) == version_key_of(loc) {
                lemma_version_key_injective(k, loc);
            }
        }
    }
    assert forall|d: Seq<char>|
        sep_free(d, ':') && c2.contains_key(#[trigger] domain_owner_key_of(d))
            && c2.contains_key(domain_name_key_of(d)) implies valid_utf8(
        c2[domain_owner_key_of(d)],
    ) && valid_utf8(c2[domain_name_key_of(d)]) && ((m.contains_key(
        PageLocationModel {
            owner: decode_utf8(c2[domain_owner_key_of(d)]),
            name: decode_utf8(c2[domain_name_key_of(d)]),
            branch: db,
        },
    )) ==> claims_domain(
        m[PageLocationModel {
            owner: decode_utf8(c2[domain_owner_key_of(d)]),
            name: decode_utf8(c2[domain_name_key_of(d)]),
            branch: db,
        }],
        seq![d],
    )) by {
        lemma_page_key_not_domain_key(loc, Seq::empty(), d);
    }
}

/// Caching an asset with exactly the model's bytes keeps consistency.
proof fn lemma_consistent_set_asset(
    c: Map<Seq<char>, Seq<u8>>,
    m: Map<PageLocationModel, PageModel>,
    db: Seq<char>,
    loc: PageLocationModel,
    p: Seq<char>,
)
    requires
        cache_consistent(c, m, db),
        model_unambiguous(m),
        m.contains_key(loc),
        m[loc].assets.contains_key(p),
    ensures
        cache_consistent(c.insert(asset_key_of(loc, p), m[loc].assets[p]), m, db),
{
    let c2 = c.insert(asset_key_of(loc, p), m[loc].assets[p]);
    assert forall|k: PageLocationModel, p2: Seq<char>|
        m.contains_key(k) && c2.contains_key(#[trigger] asset_key_of(k, p2)) && c2.contains_key(
            version_key_of(k),
        ) && c2[version_key_of(k)] == encode_utf8(m[k].version) implies m[k].assets.contains_key(
        p2,
    ) && c2[asset_key_of(k, p2)] == m[k].assets[p2] by {
        lemma_asset_key_not_version_key(loc, p, k);
        if asset_key_of(k, p2) == asset_key_of(loc, p) {
            lemma_asset_key_injective(k, p2, loc, p);
        }
    }
    assert forall|d: Seq<char>|
        sep_free(d, ':') && c2.contains_key(#[trigger] domain_owner_key_of(d))
            && c2.contains_key(domain_name_key_of(d)) implies valid_utf8(
        c2[domain_owner_key_of(d)],
    ) && valid_utf8(c2[domain_name_key_of(d)]) && ((m.contains_key(
        PageLocationModel {
            owner: decode_utf8(c2[domain_owner_key_of(d)]),
            name: decode_utf8(c2[domain_name_key_of(d)]),
            branch: db,
        },
    )) ==> claims_domain(
        m[PageLocationModel {
            owner: decode_utf8(c2[domain_owner_key_of(d)]),
            name: decode_utf8(c2[domain_name_key_of(d)]),
            branch: db,
        }],
        seq![d],
    )) by {
        lemma_page_key_not_domain_key(loc, p, d);
    }
}

/// The cache holds nothing, so it is consistent with any source.
pub proof fn lemma_consistent_empty(
    m: Map<PageLocationModel, PageModel>,
    db: Seq<char>,
)
    ensures
        cache_consistent(Map::<Seq<char>, Seq<u8>>::empty(), m, db),
{
}

/// A page that claims a domain claims any list of domains containing it.
pub proof fn lemma_claims_domain_mono(pm: PageModel, d: Seq<char>, ds: Seq<Seq<char>>)
    requires
        claims_domain(pm, seq![d]),
        ds.contains(d),
    ensures
        claims_domain(pm, ds),
{
    let b = pm.assets[crate::pages::domain_file_key()];
    let lines = spec_split(decode_utf8(b), '\n');
    let i = choose|i: int|
        0 <= i < lines.len() && seq![d].contains(crate::strutil::spec_trim(#[trigger] lines[i]));
    assert(crate::strutil::spec_trim(lines[i]) == d);
    assert(ds.contains(crate::strutil::spec_trim(lines[i])));
}

fn page_prefix_string(loc: &PageLocation) -> (r: String)
    ensures
        r@ == page_key_prefix(loc@),
{
    proof {
        reveal_strlit("page:");
        reveal_strlit(":");
    }
    let mut s = String::from_str("page:");
    s.append(loc.owner.as_str());
    s.append(":");
    s.append(loc.name.as_str());
    s.append(":");
    s.append(loc.branch.as_str());
    proof {
        assert(s@ =~= page_key_prefix(loc@));
    }
    s
}

fn version_key_string(loc: &PageLocation) -> (r: String)
    ensures
        r@ == version_key_of(loc@),
{
    proof {
        reveal_strlit(":version");
    }
    let mut s = page_prefix_string(loc);
    s.append(":version");
    proof {
        assert(s@ =~= version_key_of(loc@));
    }
    s
}

fn asset_key_string(loc: &PageLocation, norm: &String) -> (r: String)
    ensures
        r@ == asset_key_of(loc@, norm@),
{
    proof {
        reveal_strlit(":asset:");
    }
    let mut s = page_prefix_string(loc);
    s.append(":asset:");
    s.append(norm.as_str());
    proof {
        assert(s@ =~= asset_key_of(loc@, norm@));
    }
    s
}

fn glob_key_string(loc: &PageLocation) -> (r: String)
    ensures
        r@ == glob_key_of(loc@),
{
    proof {
        reveal_strlit(":*");
    }
    let mut s = page_prefix_string(loc);
    s.append(":*");
    proof {
        assert(s@ =~= glob_key_of(loc@));
    }
    s
}

fn domain_owner_key_string(d: &String) -> (r: String)
    ensures
        r@ == domain_owner_key_of(d@),
{
    proof {
        reveal_strlit("domain:");
        reveal_strlit(":owner");
    }
    let mut s = String::from_str("domain:");
    s.append(d.as_str());
    s.append(":owner");
    proof {
        assert(s@ =~= domain_owner_key_of(d@));
    }
    s
}

fn domain_name_key_string(d: &String) -> (r: String)
    ensures
        r@ == domain_name_key_of(d@),
{
    proof {
        reveal_strlit("domain:");
        reveal_strlit(":name");
    }
    let mut s = String::from_str("domain:");
    s.append(d.as_str());
    s.append(":name");
    proof {
        assert(s@ =~= domain_name_key_of(d@));
    }
    s
}

/// The page's cached version matches the source's.
pub open spec fn synced(
    c: Map<Seq<char>, Seq<u8>>,
    m: Map<PageLocationModel, PageModel>,
    loc: PageLocationModel,
) -> bool {
    c.contains_key(version_key_of(loc)) && c[version_key_of(loc)] == encode_utf8(m[loc].version)
}

/// The domain index can answer a lookup for `d`.
pub open spec fn domain_index_usable(
    c: Map<Seq<char>, Seq<u8>>,
    m: Map<PageLocationModel, PageModel>,
    db: Seq<char>,
    d: Seq<char>,
) -> bool {
    &&& c.contains_key(domain_owner_key_of(d))
    &&& c.contains_key(domain_name_key_of(d))
    &&& valid_utf8(c[domain_owner_key_of(d)])
    &&& valid_utf8(c[domain_name_key_of(d)])
    &&& m.contains_key(
        PageLocationModel {
            owner: decode_utf8(c[domain_owner_key_of(d)]),
            name: decode_utf8(c[domain_name_key_of(d)]),
            branch: db,
        },
    )
}

/// A page source wrapped with a key-value cache: versions, assets and a
/// domain index are cached; entries of a page are invalidated together when
/// its version changes.
pub struct CacheLayerSource<PS: PageSource, C: CacheConnection> {
    upstream: PS,
    conn: C,
    ttl: Option<u32>,
}

impl<PS: PageSource, C: CacheConnection> CacheLayerSource<PS, C> {
    /// The cache's contents.
    pub closed spec fn cache_view(&self) -> Map<Seq<char>, Seq<u8>> {
        self.conn.cache_model()
    }

    /// Whether the cache connection answers every operation.
    pub closed spec fn conn_reliable(&self) -> bool {
        self.conn.reliable()
    }

    /// Records the page's version in the cache; on a change (or a missing
    /// version entry) the page's cached entries are deleted first. Returns
    /// whether the cache is known to carry the page's current version.
    fn sync_version(&mut self, page: &PageData) -> (ok: bool)
        requires
            old(self).wf(),
            old(self).source_model().contains_key(page@.location),
            page@.version == old(self).source_model()[page@.location].version,
        ensures
            final(self).wf(),
            final(self).upstream == old(self).upstream,
            final(self).conn_reliable() == old(self).conn_reliable(),
            ok ==> synced(
                final(self).cache_view(),
                final(self).source_model(),
                page@.location,
            ),
            old(self).conn_reliable() ==> ok,
    {
        let ghost m = self.upstream.source_model();
        let ghost db = self.upstream.default_branch_model();
        let ghost loc = page@.location;
        let vkey = version_key_string(&page.location);
        proof {
            assert(loc_colon_free(loc));
        }
        let vbytes = page.version.as_str().as_bytes();
        proof {
            assert(vbytes@ == encode_utf8(m[loc].version));
        }
        let cached = self.conn.get(vkey.as_str());
        match cached {
            Ok(v) => {
                if bytes_eq(v.as_slice(), vbytes) {
                    return true;
                }
            },
            Err(CacheError::NotFound) => {},
            Err(_) => {
                return false;
            },
        }
        // The cached version is absent or stale: purge and re-record.
        let glob = glob_key_string(&page.location);
        match self.conn.delete(glob.as_str()) {
            Ok(_) => {},
            Err(_) => {
                return false;
            },
        }
        proof {
            lemma_consistent_submap(
                old(self).cache_view(),
                self.conn.cache_model(),
                m,
                db,
            );
            assert forall|p: Seq<char>|
                !self.conn.cache_model().contains_key(#[trigger] asset_key_of(loc, p)) by {
                lemma_glob_covers(loc, p);
            }
            lemma_consistent_set_version(self.conn.cache_model(), m, db, loc);
        }
        match self.conn.set(vkey.as_str(), vbytes) {
            Ok(()) => true,
            Err(_) => {
                proof {
                    lemma_consistent_submap(
                        old(self).cache_view(),
                        self.conn.cache_model(),
                        m,
                        db,
                    );
                }
                false
            },
        }
    }
}

use crate::cache::CacheError;

impl<PS: PageSource, C: CacheConnection> PageSource for CacheLayerSource<PS, C> {
    /// The wrapped source is consistent, names its pages unambiguously, and
    /// the cache agrees with it.
    closed spec fn wf(&self) -> bool {
        &&& self.upstream.wf()
        &&& model_unambiguous(self.upstream.source_model())
        &&& cache_consistent(
            self.conn.cache_model(),
            self.upstream.source_model(),
            self.upstream.default_branch_model(),
        )
    }

    /// The cache is advisory: only the wrapped source's faults can surface.
    closed spec fn total_source(&self) -> bool {
        self.upstream.total_source()
    }

    closed spec fn source_model(&self) -> Map<PageLocationModel, PageModel> {
        self.upstream.source_model()
    }

    closed spec fn default_branch_model(&self) -> Seq<char> {
        self.upstream.default_branch_model()
    }

    fn page_at(&mut self, owner: String, name: String, branch: String) -> (r: Result<
        PageData,
        PageError,
    >)
    {
        self.page_at_cached(owner, name, branch)
    }

    fn get_asset(&mut self, loc: &PageLocation, path: &String) -> (r: Result<
        MemoryAsset,
        AssetError,
    >)
    {
        let ghost m = self.upstream.source_model();
        let page = match self.upstream.page_at(
            loc.owner.clone(),
            loc.name.clone(),
            loc.branch.clone(),
        ) {
            Ok(p) => p,
            Err(PageError::NotFound) => {
                return Err(AssetError::NotFound);
            },
            Err(PageError::ProviderError) => {
                return Err(AssetError::ProviderError);
            },
        };
        proof {
            assert(page@.location == loc@);
        }
        let synced_ok = self.sync_version(&page);
        let norm = normalize_path(path);
        let akey = asset_key_string(loc, &norm);
        if synced_ok {
            let cached = self.conn.get(akey.as_str());
            match cached {
                Ok(v) => {
                    return Ok(MemoryAsset::new_from_bytes(v));
                },
                Err(_) => {},
            }
        }
        match self.upstream.get_asset(loc, path) {
            Ok(a) => {
                if synced_ok {
                    proof {
                        lemma_consistent_set_asset(
                            self.conn.cache_model(),
                            self.upstream.source_model(),
                            self.upstream.default_branch_model(),
                            loc@,
                            norm@,
                        );
                    }
                    match self.ttl {
                        Some(seconds) => {
                            let _ = self.conn.set_with_ttl(akey.as_str(), a.bytes(), seconds);
                        },
                        None => {
                            let _ = self.conn.set(akey.as_str(), a.bytes());
                        },
                    }
                }
                Ok(a)
            },
            Err(e) => Err(e),
        }
    }

    fn pages(&mut self) -> (r: Result<Vec<PageData>, PageError>)
    {
        self.upstream.pages()
    }

    fn default_branch(&self) -> (r: String)
    {
        self.upstream.default_branch()
    }

    fn find_by_domains(&mut self, domains: &Vec<String>) -> (r: Result<PageData, PageError>)
    {
        let (res, _) = self.find_by_domains_indexed(domains);
        res
    }
}

impl<PS: PageSource, C: CacheConnection> CacheLayerSource<PS, C> {
    /// The cached page lookup behind the source's `page_at`: delegates to
    /// the wrapped source, and on success records the page's version —
    /// purging the page's cached entries first when the version moved. On an
    /// error nothing in the cache changes; on success with an answering
    /// cache the page's current version stands recorded.
    pub fn page_at_cached(&mut self, owner: String, name: String, branch: String) -> (r: Result<
        PageData,
        PageError,
    >)
        requires
            old(self).wf(),
        ensures
            final(self).wf(),
            final(self).total_source() == old(self).total_source(),
            final(self).source_model() == old(self).source_model(),
            final(self).default_branch_model() == old(self).default_branch_model(),
            final(self).conn_reliable() == old(self).conn_reliable(),
            old(self).total_source() && r is Err ==> r->Err_0 is NotFound,
            r is Err ==> final(self).cache_view() == old(self).cache_view(),
            ({
                let k = PageLocationModel { owner: owner@, name: name@, branch: branch@ };
                match r {
                    Ok(p) => old(self).source_model().contains_key(k) && p@.location == k
                        && p@.version == old(self).source_model()[k].version && (old(
                        self,
                    ).conn_reliable() ==> synced(
                        final(self).cache_view(),
                        old(self).source_model(),
                        k,
                    )),
                    Err(PageError::NotFound) => !old(self).source_model().contains_key(k),
                    Err(PageError::ProviderError) => true,
                }
            }),
    {
        match self.upstream.page_at(owner, name, branch) {
            Ok(page) => {
                let _ = self.sync_version(&page);
                Ok(page)
            },
            Err(e) => Err(e),
        }
    }

    /// Finds a page claiming one of `domains`, consulting the cached
    /// domain→owner/name index first. The second component tells whether the
    /// index answered — when it did, no walk over the pages was issued. A
    /// fault-free source and cache with a warm index always answer from the
    /// index; a walk that found a default-branch page for a single,
    /// colon-free domain warms the index. (For requests naming several
    /// domains the index is left alone: the walk does not tell which domain
    /// matched, so an entry for every requested domain could lie.)
    pub fn find_by_domains_indexed(&mut self, domains: &Vec<String>) -> (r: (
        Result<PageData, PageError>,
        bool,
    ))
        requires
            old(self).wf(),
        ensures
            final(self).wf(),
            final(self).total_source() == old(self).total_source(),
            final(self).source_model() == old(self).source_model(),
            final(self).default_branch_model() == old(self).default_branch_model(),
            old(self).total_source() && r.0 is Err ==> r.0->Err_0 is NotFound,
            match r.0 {
                Ok(p) => old(self).source_model().contains_key(p@.location) && p@.version == old(
                    self,
                ).source_model()[p@.location].version && claims_domain(
                    old(self).source_model()[p@.location],
                    domains.deep_view(),
                ),
                Err(PageError::NotFound) => forall|k: PageLocationModel|
                    old(self).source_model().contains_key(k) ==> !claims_domain(
                        #[trigger] old(self).source_model()[k],
                        domains.deep_view(),
                    ),
                Err(PageError::ProviderError) => true,
            },
            final(self).conn_reliable() == old(self).conn_reliable(),
            r.0 is Err ==> final(self).cache_view() == old(self).cache_view(),
            (old(self).total_source() && old(self).conn_reliable() && domains.len() >= 1 && ({
                let d = domains.deep_view()[0];
                sep_free(d, ':') && domain_index_usable(
                    old(self).cache_view(),
                    old(self).source_model(),
                    old(self).default_branch_model(),
                    d,
                )
            })) ==> r.1 && r.0 is Ok,
            (old(self).conn_reliable() && !r.1 && domains.len() == 1 && ({
                let d = domains.deep_view()[0];
                sep_free(d, ':') && (match r.0 {
                    Ok(p) => p@.location.branch == old(self).default_branch_model(),
                    _ => false,
                })
            })) ==> domain_index_usable(
                final(self).cache_view(),
                old(self).source_model(),
                old(self).default_branch_model(),
                domains.deep_view()[0],
            ),
    {
        let ghost m = self.upstream.source_model();
        let ghost dbm = self.upstream.default_branch_model();
        let db = self.upstream.default_branch();
        let mut i: usize = 0;
        while i < domains.len()
            invariant
                old(self).wf(),
                self.wf(),
                m == old(self).source_model(),
                self.source_model() == m,
                self.total_source() == old(self).total_source(),
                self.default_branch_model() == dbm,
                dbm == old(self).default_branch_model(),
                self.cache_view() == old(self).cache_view(),
                self.conn_reliable() == old(self).conn_reliable(),
                db@ == dbm,
                i <= domains.len(),
                !(old(self).total_source() && old(self).conn_reliable() && 0 < domains.len()
                    && i > 0 && ({
                    let d = domains.deep_view()[0];
                    sep_free(d, ':') && domain_index_usable(
                        old(self).cache_view(),
                        m,
                        dbm,
                        d,
                    )
                })),
            decreases domains.len() - i,
        {
            let d = &domains[i];
            if !contains_char(d.as_str(), ':') {
                let okey = domain_owner_key_string(d);
                let nkey = domain_name_key_string(d);
                let got_owner = self.conn.get_string(okey.as_str());
                match got_owner {
                    Ok(o) => {
                        let got_name = self.conn.get_string(nkey.as_str());
                        match got_name {
                            Ok(n) => {
                                match self.upstream.page_at(o, n, db.clone()) {
                                    Ok(p) => {
                                        proof {
                                            let dd = domains.deep_view()[i as int];
                                            assert(d@ == dd);
                                            lemma_claims_domain_mono(
                                                m[p@.location],
                                                dd,
                                                domains.deep_view(),
                                            );
                                        }
                                        let _ = self.sync_version(&p);
                                        return (Ok(p), true);
                                    },
                                    Err(_) => {},
                                }
                            },
                            Err(_) => {},
                        }
                    },
                    Err(_) => {},
                }
            }
            i += 1;
        }
        // The index gave no answer: walk the pages upstream.
        let walked = self.upstream.find_by_domains(domains);
        match walked {
            Ok(p) => {
                if domains.len() == 1 {
                    let d = &domains[0];
                    if !contains_char(d.as_str(), ':') && str_eq(
                        p.location.branch.as_str(),
                        db.as_str(),
                    ) {
                        proof {
                            assert(domains.deep_view() =~= seq![d@]);
                        }
                        self.index_domain(d, &p);
                    }
                }
                (Ok(p), false)
            },
            Err(e) => (Err(e), false),
        }
    }

    /// Records the domain index entry for `d`: the page's owner and name.
    /// Both old entries are removed first, so a partial write leaves no
    /// usable pair behind.
    fn index_domain(&mut self, d: &String, p: &PageData)
        requires
            old(self).wf(),
            sep_free(d@, ':'),
            old(self).source_model().contains_key(p@.location),
            p@.location.branch == old(self).default_branch_model(),
            claims_domain(old(self).source_model()[p@.location], seq![d@]),
        ensures
            final(self).wf(),
            final(self).upstream == old(self).upstream,
            final(self).conn_reliable() == old(self).conn_reliable(),
            old(self).conn_reliable() ==> domain_index_usable(
                final(self).cache_view(),
                old(self).source_model(),
                old(self).default_branch_model(),
                d@,
            ),
    {
        let ghost m = self.upstream.source_model();
        let ghost db = self.upstream.default_branch_model();
        let okey = domain_owner_key_string(d);
        let nkey = domain_name_key_string(d);
        match self.conn.delete(okey.as_str()) {
            Ok(_) => {},
            Err(_) => {
                return ;
            },
        }
        proof {
            lemma_consistent_submap(old(self).cache_view(), self.conn.cache_model(), m, db);
        }
        let ghost c1 = self.conn.cache_model();
        match self.conn.delete(nkey.as_str()) {
            Ok(_) => {},
            Err(_) => {
                proof {
                    lemma_consistent_submap(c1, self.conn.cache_model(), m, db);
                }
                return ;
            },
        }
        proof {
            lemma_consistent_submap(c1, self.conn.cache_model(), m, db);
        }
        let ghost c2 = self.conn.cache_model();
        let ob = p.location.owner.as_str().as_bytes();
        let nb = p.location.name.as_str().as_bytes();
        let set_owner = self.conn.set(okey.as_str(), ob);
        match set_owner {
            Ok(()) => {},
            Err(_) => {
                return ;
            },
        }
        proof {
            lemma_consistent_set_domain_partial(c2, m, db, d@, p@.location);
        }
        let ghost c3 = self.conn.cache_model();
        let set_name = self.conn.set(nkey.as_str(), nb);
        match set_name {
            Ok(()) => {},
            Err(_) => {
                return ;
            },
        }
        proof {
            lemma_consistent_set_domain_full(c2, m, db, d@, p@.location);
            if old(self).conn_reliable() {
                broadcast use vstd::utf8::encode_utf8_valid_utf8, vstd::utf8::encode_utf8_decode_utf8;

                lemma_domain_key_injective(d@, d@);
                let cm = self.conn.cache_model();
                assert(cm == c2.insert(domain_owner_key_of(d@), encode_utf8(p@.location.owner))
                    .insert(domain_name_key_of(d@), encode_utf8(p@.location.name)));
                assert(cm[domain_owner_key_of(d@)] == encode_utf8(p@.location.owner));
                assert(cm[domain_name_key_of(d@)] == encode_utf8(p@.location.name));
                assert(PageLocationModel {
                    owner: decode_utf8(cm[domain_owner_key_of(d@)]),
                    name: decode_utf8(cm[domain_name_key_of(d@)]),
                    branch: db,
                } == p@.location);
            }
        }
    }
}

impl<PS: PageSource, C: CacheConnection> CacheLayerSource<PS, C> {
    /// Takes the layered source apart, handing back the wrapped source and
    /// the cache connection with everything cached so far.
    pub fn into_parts(self) -> (r: (PS, C))
        ensures
            self.wf() ==> r.0.wf(),
            r.0.source_model() == self.source_model(),
            r.0.default_branch_model() == self.default_branch_model(),
            r.0.total_source() == self.total_source(),
            r.1.cache_model() == self.cache_view(),
            r.1.reliable() == self.conn_reliable(),
    {
        (self.upstream, self.conn)
    }
}

/// Writing only the owner half of a domain index entry keeps consistency:
/// the name key was removed, so the pair is unusable.
proof fn lemma_consistent_set_domain_partial(
    c: Map<Seq<char>, Seq<u8>>,
    m: Map<PageLocationModel, PageModel>,
    db: Seq<char>,
    d: Seq<char>,
    loc: PageLocationModel,
)
    requires
        cache_consistent(c, m, db),
        sep_free(d, ':'),
        !c.contains_key(domain_name_key_of(d)),
    ensures
        cache_consistent(
            c.insert(domain_owner_key_of(d), encode_utf8(loc.owner)),
            m,
            db,
        ),
{
    let c2 = c.insert(domain_owner_key_of(d), encode_utf8(loc.owner));
    assert forall|k: PageLocationModel, p: Seq<char>|
        m.contains_key(k) && c2.contains_key(#[trigger] asset_key_of(k, p)) && c2.contains_key(
            version_key_of(k),
        ) && c2[version_key_of(k)] == encode_utf8(m[k].version) implies m[k].assets.contains_key(p)
        && c2[asset_key_of(k, p)] == m[k].assets[p] by {
        lemma_page_key_not_domain_key(k, p, d);
    }
    assert forall|d2: Seq<char>|
        sep_free(d2, ':') && c2.contains_key(#[trigger] domain_owner_key_of(d2))
            && c2.contains_key(domain_name_key_of(d2)) implies valid_utf8(
        c2[domain_owner_key_of(d2)],
    ) && valid_utf8(c2[domain_name_key_of(d2)]) && ((m.contains_key(
        PageLocationModel {
            owner: decode_utf8(c2[domain_owner_key_of(d2)]),
            name: decode_utf8(c2[domain_name_key_of(d2)]),
            branch: db,
        },
    )) ==> claims_domain(
        m[PageLocationModel {
            owner: decode_utf8(c2[domain_owner_key_of(d2)]),
            name: decode_utf8(c2[domain_name_key_of(d2)]),
            branch: db,
        }],
        seq![d2],
    )) by {
        lemma_domain_key_injective(d2, d);
        lemma_domain_key_injective(d, d2);
        if d2 == d {
            assert(!c.contains_key(domain_name_key_of(d)));
            assert(domain_name_key_of(d2) != domain_owner_key_of(d));
            assert(!c2.contains_key(domain_name_key_of(d2)));
        }
    }
}

/// Writing both halves of an accurate domain index entry keeps consistency.
proof fn lemma_consistent_set_domain_full(
    c: Map<Seq<char>, Seq<u8>>,
    m: Map<PageLocationModel, PageModel>,
    db: Seq<char>,
    d: Seq<char>,
    loc: PageLocationModel,
)
    requires
        cache_consistent(c, m, db),
        sep_free(d, ':'),
        loc.branch == db,
        m.contains_key(loc),
        claims_domain(m[loc], seq![d]),
    ensures
        cache_consistent(
            c.insert(domain_owner_key_of(d), encode_utf8(loc.owner)).insert(
                domain_name_key_of(d),
                encode_utf8(loc.name),
            ),
            m,
            db,
        ),
{
    broadcast use vstd::utf8::encode_utf8_valid_utf8, vstd::utf8::encode_utf8_decode_utf8;

    let c2 = c.insert(domain_owner_key_of(d), encode_utf8(loc.owner)).insert(
        domain_name_key_of(d),
        encode_utf8(loc.name),
    );
    assert forall|k: PageLocationModel, p: Seq<char>|
        m.contains_key(k) && c2.contains_key(#[trigger] asset_key_of(k, p)) && c2.contains_key(
            version_key_of(k),
        ) && c2[version_key_of(k)] == encode_utf8(m[k].version) implies m[k].assets.contains_key(p)
        && c2[asset_key_of(k, p)] == m[k].assets[p] by {
        lemma_page_key_not_domain_key(k, p, d);
    }
    assert forall|d2: Seq<char>|
        sep_free(d2, ':') && c2.contains_key(#[trigger] domain_owner_key_of(d2))
            && c2.contains_key(domain_name_key_of(d2)) implies valid_utf8(
        c2[domain_owner_key_of(d2)],
    ) && valid_utf8(c2[domain_name_key_of(d2)]) && ((m.contains_key(
        PageLocationModel {
            owner: decode_utf8(c2[domain_owner_key_of(d2)]),
            name: decode_utf8(c2[domain_name_key_of(d2)]),
            branch: db,
        },
    )) ==> claims_domain(
        m[PageLocationModel {
            owner: decode_utf8(c2[domain_owner_key_of(d2)]),
            name: decode_utf8(c2[domain_name_key_of(d2)]),
            branch: db,
        }],
        seq![d2],
    )) by {
        lemma_domain_key_injective(d2, d);
        lemma_domain_key_injective(d, d2);
        if d2 == d {
            assert(c2[domain_owner_key_of(d)] == encode_utf8(loc.owner));
            assert(c2[domain_name_key_of(d)] == encode_utf8(loc.name));
            assert(decode_utf8(encode_utf8(loc.owner)) == loc.owner);
            assert(decode_utf8(encode_utf8(loc.name)) == loc.name);
            assert(PageLocationModel {
                owner: decode_utf8(c2[domain_owner_key_of(d)]),
                name: decode_utf8(c2[domain_name_key_of(d)]),
                branch: db,
            } == loc);
        }
    }
}

/// The layer over a cache connection, with the time-to-live applied to
/// cached assets where one is configured.
pub struct CacheLayer<C: CacheConnection> {
    cache: C,
    ttl: Option<u32>,
}

impl<C: CacheConnection> CacheLayer<C> {
    /// The contents of the cache this layer works through.
    pub closed spec fn layer_cache_model(&self) -> Map<Seq<char>, Seq<u8>> {
        self.cache.cache_model()
    }

    /// Whether the cache this layer works through answers every operation.
    pub closed spec fn layer_cache_reliable(&self) -> bool {
        self.cache.reliable()
    }

    /// A layer caching through the given connection, without expiry.
    pub fn from_cache(cache: C) -> (r: CacheLayer<C>)
        ensures
            r.layer_cache_model() == cache.cache_model(),
            r.layer_cache_reliable() == cache.reliable(),
    {
        CacheLayer { cache, ttl: None }
    }

    /// This layer with cached assets living for at most `ttl_seconds` in a
    /// cache that expires entries.
    pub fn with_ttl(self, ttl_seconds: u32) -> (r: CacheLayer<C>)
        ensures
            r.layer_cache_model() == self.layer_cache_model(),
            r.layer_cache_reliable() == self.layer_cache_reliable(),
    {
        CacheLayer { cache: self.cache, ttl: Some(ttl_seconds) }
    }
}

/// What it takes for the cache layer to wrap a source: the cache's contents
/// must be consistent with the source's model, and the model's locations
/// must be free of the key delimiter.
pub proof fn lemma_cache_layer_wrap_ok<PS: PageSource, C: CacheConnection>(
    l: &CacheLayer<C>,
    m: Map<PageLocationModel, PageModel>,
    db: Seq<char>,
)
    ensures
        <CacheLayer<C> as PageSourceLayer<PS>>::wrap_ok(l, m, db) <==> (cache_consistent(
            l.layer_cache_model(),
            m,
            db,
        ) && model_unambiguous(m)),
        <CacheLayer<C> as PageSourceLayer<PS>>::layer_total(l),
{
}

impl<PS: PageSource, C: CacheConnection> PageSourceLayer<PS> for CacheLayer<C> {
    type Source = CacheLayerSource<PS, C>;

    closed spec fn wrap_ok(
        &self,
        model: Map<PageLocationModel, PageModel>,
        default_branch: Seq<char>,
    ) -> bool {
        cache_consistent(self.cache.cache_model(), model, default_branch) && model_unambiguous(
            model,
        )
    }

    /// The cache is advisory: the layer adds no faults of its own.
    closed spec fn layer_total(&self) -> bool {
        true
    }

    fn wrap(&self, page_source: PS) -> (r: Self::Source)
    {
        CacheLayerSource { upstream: page_source, conn: self.cache.duplicate(), ttl: self.ttl }
    }
}

/// Law: cache transparency. A successful asset lookup returns exactly the
/// model's bytes whether or not the cache layer stands in front of the
/// source — the contracts of `PageSource::get_asset` pin both to the same
/// value, so the two response bodies are identical.
pub proof fn lemma_cache_transparency(
    m: Map<PageLocationModel, PageModel>,
    loc: PageLocationModel,
    p: Seq<char>,
    direct: Seq<u8>,
    layered: Seq<u8>,
)
    requires
        m.contains_key(loc),
        m[loc].assets.contains_key(p),
        direct == m[loc].assets[p],
        layered == m[loc].assets[p],
    ensures
        direct == layered,
{
}

/// Law: version invalidation. When the cached version of a page differs
/// from the source's, purging the page's keys and recording the new version
/// leaves no cached asset of that page behind: the next lookup must fetch
/// from the source, whose answer is the current asset.
pub proof fn lemma_version_invalidation(
    c: Map<Seq<char>, Seq<u8>>,
    m: Map<PageLocationModel, PageModel>,
    loc: PageLocationModel,
    p: Seq<char>,
)
    requires
        m.contains_key(loc),
        c.contains_key(version_key_of(loc)),
        c[version_key_of(loc)] != encode_utf8(m[loc].version),
    ensures
        ({
            let purged = crate::cache::remove_glob(c, glob_key_of(loc));
            let resynced = purged.insert(version_key_of(loc), encode_utf8(m[loc].version));
            !resynced.contains_key(asset_key_of(loc, p))
        }),
{
    lemma_glob_covers(loc, p);
    if asset_key_of(loc, p) == version_key_of(loc) {
        assert(asset_key_of(loc, p).len() == page_key_prefix(loc).len() + 7 + p.len());
        assert(version_key_of(loc).len() == page_key_prefix(loc).len() + 8);
        assert(asset_key_of(loc, p)[page_key_prefix(loc).len() as int + 1] == 'a');
        assert(version_key_of(loc)[page_key_prefix(loc).len() as int + 1] == 'v');
    }
}

} // verus!
