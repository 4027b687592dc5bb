//! Page sources: the page and asset-source abstractions, an in-memory
//! provider for tests and mocking, and the search over pages by claimed
//! domain.

use vstd::prelude::*;
use vstd::utf8::{decode_utf8, valid_utf8};

use crate::asset::{norm_path, normalize_path, Asset, AssetError, MemoryAsset};
use crate::page::{PageError, PageLocation, PageLocationModel};
use crate::strutil::{spec_split, spec_trim, split_char, trim_spaces};

verus! {

/// The reserved in-repo asset listing the domains a page claims.
pub const DOMAIN_FILE_PATH: &'static str = "/.domain";

/// The reserved asset path of the domain file, normalized.
pub open spec fn domain_file_key() -> Seq<char> {
    seq!['/', '.', 'd', 'o', 'm', 'a', 'i', 'n']
}

/// A source of assets, modeled as a map from normalized asset paths to bytes.
pub trait AssetSource: Sized {
    /// The assets held, keyed by normalized path.
    spec fn asset_map(&self) -> Map<Seq<char>, Seq<u8>>;

    /// Looks one asset up; fails with `NotFound` exactly when no asset is
    /// stored under the path.
    fn get_asset(&self, path: &String) -> (r: Result<MemoryAsset, AssetError>)
        ensures
            match r {
                Ok(a) => self.asset_map().contains_key(norm_path(path@)) && a@
                    == self.asset_map()[norm_path(path@)],
                Err(e) => e is NotFound && !self.asset_map().contains_key(norm_path(path@)),
            },
    ;

    /// The total bytes taken by the assets, where a source counts them; this
    /// kind does not.
    fn total_bytes(&self) -> (r: Option<u32>)
        ensures
            r is None,
    {
        None
    }
}

/// An asset source whose contents can be changed.
pub trait AssetWritable: AssetSource {
    /// Stores an asset under a path, creating or replacing it.
    fn set_asset(&mut self, path: &String, asset: &MemoryAsset) -> (r: Result<(), AssetError>)
        ensures
            final(self).asset_map() == old(self).asset_map().insert(norm_path(path@), asset@),
            r is Ok,
    ;

    /// Removes the asset under a path; fails with `NotFound` exactly when no
    /// asset is stored under it.
    fn delete_asset(&mut self, path: &String) -> (r: Result<(), AssetError>)
        ensures
            final(self).asset_map() == old(self).asset_map().remove(norm_path(path@)),
            match r {
                Ok(()) => old(self).asset_map().contains_key(norm_path(path@)),
                Err(e) => e is NotFound && !old(self).asset_map().contains_key(norm_path(path@)),
            },
    ;
}

/// A group of assets stored in memory, keyed by normalized path.
pub struct MemoryCache {
    items: Vec<(String, MemoryAsset)>,
}

/// The association-list model of a store: the last entry with a key decides.
pub open spec fn map_of_assets(items: Seq<(String, MemoryAsset)>) -> Map<Seq<char>, Seq<u8>>
    decreases items.len(),
{
    if items.len() == 0 {
        Map::empty()
    } else {
        map_of_assets(items.drop_last()).insert(items.last().0@, items.last().1@)
    }
}

proof fn lemma_map_of_assets_props(items: Seq<(String, MemoryAsset)>)
    ensures
        forall|k: Seq<char>|
            #[trigger] map_of_assets(items).contains_key(k) <==> exists|i: int|
                0 <= i < items.len() && items[i].0@ == k,
        forall|i: int|
            0 <= i < items.len() && (forall|j: int|
                i < j < items.len() ==> items[j].0@ != items[i].0@) ==> map_of_assets(items)[(
            #[trigger] items[i]).0@] == items[i].1@,
    decreases items.len(),
{
    if items.len() > 0 {
        let pre = items.drop_last();
        lemma_map_of_assets_props(pre);
        assert forall|k: Seq<char>| #[trigger]
            map_of_assets(items).contains_key(k) implies exists|i: int|
            0 <= i < items.len() && items[i].0@ == k by {
            if k == items.last().0@ {
                assert(items[items.len() - 1].0@ == k);
            } else {
                assert(map_of_assets(pre).contains_key(k));
                let i = choose|i: int| 0 <= i < pre.len() && pre[i].0@ == k;
                assert(pre[i] == items[i]);
                assert(items[i].0@ == k);
            }
        }
        assert forall|k: Seq<char>|
            (exists|i: int| 0 <= i < items.len() && items[i].0@ == k) implies #[trigger]
            map_of_assets(items).contains_key(k) by {
            let i = choose|i: int| 0 <= i < items.len() && items[i].0@ == k;
            if i < items.len() - 1 {
                assert(pre[i] == items[i]);
                assert(pre[i].0@ == k);
                assert(map_of_assets(pre).contains_key(k));
            } else {
                assert(items.last().0@ == k);
            }
        }
        assert forall|i: int|
            0 <= i < items.len() && (forall|j: int|
                i < j < items.len() ==> items[j].0@ != items[i].0@) implies map_of_assets(items)[(
            #[trigger] items[i]).0@] == items[i].1@ by {
            if i < items.len() - 1 {
                assert(items[i].0@ != items[items.len() - 1].0@);
                assert forall|j: int| i < j < pre.len() implies pre[j].0@ != pre[i].0@ by {
                    assert(pre[j].0@ == items[j].0@);
                }
                assert(map_of_assets(pre)[pre[i].0@] == pre[i].1@);
                assert(pre[i].0@ == items[i].0@);
            }
        }
    }
}

/// The entries of `items` whose key differs from `k`.
spec fn entries_without(items: Seq<(String, MemoryAsset)>, k: Seq<char>) -> Seq<
    (String, MemoryAsset),
>
    decreases items.len(),
{
    if items.len() == 0 {
        Seq::empty()
    } else {
        let rest = entries_without(items.drop_last(), k);
        if items.last().0@ == k {
            rest
        } else {
            rest.push(items.last())
        }
    }
}

proof fn lemma_entries_without(items: Seq<(String, MemoryAsset)>, k: Seq<char>)
    ensures
        map_of_assets(entries_without(items, k)) == map_of_assets(items).remove(k),
    decreases items.len(),
{
    if items.len() == 0 {
        assert(map_of_assets(items).remove(k) =~= Map::<Seq<char>, Seq<u8>>::empty());
    } else {
        let pre = items.drop_last();
        lemma_entries_without(pre, k);
        if items.last().0@ == k {
            assert(map_of_assets(items).remove(k) =~= map_of_assets(pre).remove(k));
        } else {
            let ew = entries_without(pre, k).push(items.last());
            assert(ew.drop_last() =~= entries_without(pre, k));
            assert(ew.last() == items.last());
            assert(map_of_assets(entries_without(items, k)) == map_of_assets(
                entries_without(pre, k),
            ).insert(items.last().0@, items.last().1@));
            assert(map_of_assets(pre).remove(k).insert(items.last().0@, items.last().1@)
                =~= map_of_assets(items).remove(k));
        }
    }
}

impl View for MemoryCache {
    type V = Map<Seq<char>, Seq<u8>>;

    closed spec fn view(&self) -> Map<Seq<char>, Seq<u8>> {
        map_of_assets(self.items@)
    }
}

impl Clone for MemoryCache {
    fn clone(&self) -> (r: MemoryCache)
        ensures
            r@ == self@,
    {
        let mut items: Vec<(String, MemoryAsset)> = Vec::new();
        let mut i: usize = 0;
        while i < self.items.len()
            invariant
                i <= self.items@.len(),
                items@.len() == i,
                forall|j: int|
                    0 <= j < i ==> (#[trigger] items@[j]).0@ == self.items@[j].0@ && items@[j].1@
                        == self.items@[j].1@,
            decreases self.items@.len() - i,
        {
            let key = self.items[i].0.clone();
            let val = self.items[i].1.clone();
            items.push((key, val));
            i += 1;
        }
        proof {
            lemma_map_of_assets_same(items@, self.items@);
        }
        MemoryCache { items }
    }
}

/// Two entry lists with pointwise equal views have the same model.
proof fn lemma_map_of_assets_same(a: Seq<(String, MemoryAsset)>, b: Seq<(String, MemoryAsset)>)
    requires
        a.len() == b.len(),
        forall|j: int| 0 <= j < a.len() ==> (#[trigger] a[j]).0@ == b[j].0@ && a[j].1@ == b[j].1@,
    ensures
        map_of_assets(a) == map_of_assets(b),
    decreases a.len(),
{
    if a.len() > 0 {
        assert forall|j: int|
            0 <= j < a.drop_last().len() implies (#[trigger] a.drop_last()[j]).0@
            == b.drop_last()[j].0@ && a.drop_last()[j].1@ == b.drop_last()[j].1@ by {
            assert(a[j].0@ == b[j].0@ && a[j].1@ == b[j].1@);
        }
        lemma_map_of_assets_same(a.drop_last(), b.drop_last());
        assert(a[a.len() - 1].0@ == b[a.len() - 1].0@ && a[a.len() - 1].1@ == b[a.len() - 1].1@);
    }
}

impl MemoryCache {
    /// An empty store.
    pub fn new() -> (r: MemoryCache)
        ensures
            r@ == Map::<Seq<char>, Seq<u8>>::empty(),
    {
        let items: Vec<(String, MemoryAsset)> = Vec::new();
        MemoryCache { items }
    }

    /// Index of the last entry with the given normalized key, if any.
    fn rfind_index(&self, norm: &String) -> (r: Option<usize>)
        ensures
            match r {
                Some(i) => i < self.items@.len() && self.items@[i as int].0@ == norm@ && forall|
                    j: int,
                |
                    i < j < self.items@.len() ==> self.items@[j].0@ != norm@,
                None => forall|j: int| 0 <= j < self.items@.len() ==> self.items@[j].0@ != norm@,
            },
    {
        let mut i: usize = self.items.len();
        while i > 0
            invariant
                i <= self.items@.len(),
                forall|j: int| i <= j < self.items@.len() ==> self.items@[j].0@ != norm@,
            decreases i,
        {
            i -= 1;
            if self.items[i].0.eq(norm) {
                return Some(i);
            }
        }
        None
    }

    /// Removes every entry under the given normalized key.
    fn remove_entries(&mut self, norm: &String)
        ensures
            final(self)@ == old(self)@.remove(norm@),
    {
        let ghost orig = self.items@;
        let mut kept: Vec<(String, MemoryAsset)> = Vec::new();
        let mut i: usize = 0;
        proof {
            assert(orig.take(0) =~= Seq::<(String, MemoryAsset)>::empty());
        }
        while i < self.items.len()
            invariant
                i <= self.items@.len(),
                orig == self.items@,
                kept@.len() == entries_without(orig.take(i as int), norm@).len(),
                forall|j: int|
                    0 <= j < kept@.len() ==> (#[trigger] kept@[j]).0@ == entries_without(
                        orig.take(i as int),
                        norm@,
                    )[j].0@ && kept@[j].1@ == entries_without(orig.take(i as int), norm@)[j].1@,
            decreases self.items@.len() - i,
        {
            proof {
                assert(orig.take(i + 1).drop_last() =~= orig.take(i as int));
                assert(orig.take(i + 1).last() == orig[i as int]);
            }
            if !self.items[i].0.eq(norm) {
                let key = self.items[i].0.clone();
                let val = self.items[i].1.clone();
                let ghost prev = kept@;
                kept.push((key, val));
                proof {
                    assert(kept@ =~= prev.push((key, val)));
                }
            }
            i += 1;
        }
        proof {
            assert(orig.take(orig.len() as int) =~= orig);
            lemma_map_of_assets_same(kept@, entries_without(orig, norm@));
            lemma_entries_without(orig, norm@);
        }
        self.items = kept;
    }
}

impl AssetSource for MemoryCache {
    open spec fn asset_map(&self) -> Map<Seq<char>, Seq<u8>> {
        self@
    }

    fn get_asset(&self, path: &String) -> (r: Result<MemoryAsset, AssetError>)
        ensures
            match r {
                Ok(a) => self.asset_map().contains_key(norm_path(path@)) && a@
                    == self.asset_map()[norm_path(path@)],
                Err(e) => e is NotFound && !self.asset_map().contains_key(norm_path(path@)),
            },
    {
        proof {
            lemma_map_of_assets_props(self.items@);
        }
        let norm = normalize_path(path);
        match self.rfind_index(&norm) {
            Some(i) => Ok(self.items[i].1.clone()),
            None => Err(AssetError::NotFound),
        }
    }
}

impl AssetWritable for MemoryCache {
    fn set_asset(&mut self, path: &String, asset: &MemoryAsset) -> (r: Result<(), AssetError>)
        ensures
            final(self).asset_map() == old(self).asset_map().insert(norm_path(path@), asset@),
            r is Ok,
    {
        let norm = normalize_path(path);
        self.remove_entries(&norm);
        let ghost removed = self@;
        let entry = (norm, asset.clone());
        let ghost k = entry.0@;
        let ghost before = self.items@;
        self.items.push(entry);
        proof {
            assert(self.items@.drop_last() =~= before);
            assert(removed.insert(k, asset@) =~= old(self).asset_map().insert(
                norm_path(path@),
                asset@,
            ));
        }
        Ok(())
    }

    fn delete_asset(&mut self, path: &String) -> (r: Result<(), AssetError>)
        ensures
            final(self).asset_map() == old(self).asset_map().remove(norm_path(path@)),
            match r {
                Ok(()) => old(self).asset_map().contains_key(norm_path(path@)),
                Err(e) => e is NotFound && !old(self).asset_map().contains_key(norm_path(path@)),
            },
    {
        proof {
            lemma_map_of_assets_props(self.items@);
        }
        let norm = normalize_path(path);
        let found = match self.rfind_index(&norm) {
            Some(_) => true,
            None => false,
        };
        self.remove_entries(&norm);
        if found {
            Ok(())
        } else {
            Err(AssetError::NotFound)
        }
    }
}

/// The model of one page: its version and its assets by normalized path.
pub ghost struct PageModel {
    pub version: Seq<char>,
    pub assets: Map<Seq<char>, Seq<u8>>,
}

pub ghost struct PageDataModel {
    pub location: PageLocationModel,
    pub version: Seq<char>,
}

/// A page found by a source: its location and its version, an opaque commit
/// identifier compared only for equality.
pub struct PageData {
    pub location: PageLocation,
    pub version: String,
}

impl View for PageData {
    type V = PageDataModel;

    open spec fn view(&self) -> PageDataModel {
        PageDataModel { location: self.location@, version: self.version@ }
    }
}

impl DeepView for PageData {
    type V = PageDataModel;

    open spec fn deep_view(&self) -> PageDataModel {
        self.view()
    }
}

impl Clone for PageData {
    fn clone(&self) -> (r: PageData)
        ensures
            r@ == self@,
    {
        PageData {
            location: PageLocation {
                owner: self.location.owner.clone(),
                name: self.location.name.clone(),
                branch: self.location.branch.clone(),
            },
            version: self.version.clone(),
        }
    }
}

/// A specific site to be hosted: one owner, repository and branch.
pub trait Page: Sized {
    spec fn page_model(&self) -> PageDataModel;

    fn owner(&self) -> (r: &str)
        ensures
            r@ == self.page_model().location.owner,
    ;

    fn name(&self) -> (r: &str)
        ensures
            r@ == self.page_model().location.name,
    ;

    /// The branch of the page; branches let one repository carry variants of
    /// a page that are addressed individually.
    fn branch(&self) -> (r: &str)
        ensures
            r@ == self.page_model().location.branch,
    ;

    /// The version of the page: opaque, compared only for equality.
    fn version(&self) -> (r: &str)
        ensures
            r@ == self.page_model().version,
    ;

    fn location(&self) -> (r: PageLocation)
        ensures
            r@ == self.page_model().location,
    ;
}

impl Page for PageData {
    open spec fn page_model(&self) -> PageDataModel {
        self@
    }

    fn owner(&self) -> (r: &str)
        ensures
            r@ == self.page_model().location.owner,
    {
        self.location.owner.as_str()
    }

    fn name(&self) -> (r: &str)
        ensures
            r@ == self.page_model().location.name,
    {
        self.location.name.as_str()
    }

    fn branch(&self) -> (r: &str)
        ensures
            r@ == self.page_model().location.branch,
    {
        self.location.branch.as_str()
    }

    fn version(&self) -> (r: &str)
        ensures
            r@ == self.page_model().version,
    {
        self.version.as_str()
    }

    fn location(&self) -> (r: PageLocation)
        ensures
            r@ == self.page_model().location,
    {
        PageLocation {
            owner: self.location.owner.clone(),
            name: self.location.name.clone(),
            branch: self.location.branch.clone(),
        }
    }
}

/// The domain file's text claims one of `ds`: some line of it, trimmed,
/// equals one of the domains.
pub open spec fn text_claims_domain(b: Seq<u8>, ds: Seq<Seq<char>>) -> bool {
    valid_utf8(b) && exists|i: int|
        0 <= i < spec_split(decode_utf8(b), '\n').len() && ds.contains(
            spec_trim(#[trigger] spec_split(decode_utf8(b), '\n')[i]),
        )
}

/// The page claims one of the domains `ds` through its domain file.
pub open spec fn claims_domain(pm: PageModel, ds: Seq<Seq<char>>) -> bool {
    pm.assets.contains_key(domain_file_key()) && text_claims_domain(
        pm.assets[domain_file_key()],
        ds,
    )
}

/// Whether the asset's text, read as a domain file, claims one of `domains`.
pub fn domain_text_matches(a: &MemoryAsset, domains: &Vec<String>) -> (r: bool)
    ensures
        r == text_claims_domain(a@, domains.deep_view()),
{
    match a.body() {
        Err(_) => false,
        Ok(s) => {
            let ghost text = decode_utf8(a@);
            let lines = split_char(s, '\n');
            let mut i: usize = 0;
            while i < lines.len()
                invariant
                    i <= lines@.len(),
                    valid_utf8(a@),
                    text == decode_utf8(a@),
                    lines.deep_view() == spec_split(text, '\n'),
                    forall|j: int|
                        0 <= j < i ==> !domains.deep_view().contains(
                            spec_trim(#[trigger] spec_split(text, '\n')[j]),
                        ),
                decreases lines@.len() - i,
            {
                let trimmed = trim_spaces(lines[i].as_str());
                if crate::strutil::vec_contains_string(domains, &trimmed) {
                    proof {
                        assert(valid_utf8(a@));
                        assert(lines.deep_view().len() == lines@.len());
                        assert(0 <= i < spec_split(text, '\n').len());
                        assert(spec_split(text, '\n')[i as int] == lines.deep_view()[i as int]);
                        assert(trimmed@ == spec_trim(spec_split(text, '\n')[i as int]));
                        assert(domains.deep_view().contains(
                            spec_trim(spec_split(text, '\n')[i as int]),
                        ));
                        assert(text_claims_domain(a@, domains.deep_view()));
                    }
                    return true;
                }
                i += 1;
            }
            false
        },
    }
}

/// The domain file's path.
pub fn domain_file_path() -> (r: String)
    ensures
        r@ == domain_file_key(),
        norm_path(r@) == domain_file_key(),
{
    proof {
        reveal_strlit("/.domain");
    }
    let r = String::from_str(DOMAIN_FILE_PATH);
    proof {
        let s = domain_file_key();
        assert(r@ =~= s);
        assert(s[0] == '/');
        let tail = s.subrange(1, s.len() as int);
        assert(forall|j: int| 0 <= j < tail.len() ==> tail[j] != '/');
        crate::strutil::lemma_split_step(s, '/', 0);
        crate::strutil::lemma_split_no_sep(tail, '/');
        let toks = spec_split(s, '/');
        assert(toks =~= seq![s.subrange(0, 0), tail]);
        let t1 = toks.drop_last();
        assert(t1 =~= seq![s.subrange(0, 0)]);
        assert(t1.drop_last() =~= Seq::<Seq<char>>::empty());
        assert(crate::urls::keep_nonempty(Seq::<Seq<char>>::empty()) =~= Seq::<Seq<char>>::empty());
        assert(crate::urls::keep_nonempty(t1) =~= Seq::<Seq<char>>::empty());
        assert(crate::urls::keep_nonempty(toks) =~= seq![tail]);
        assert(crate::strutil::spec_join(seq![tail], '/') == tail);
        assert(norm_path(s) =~= s);
    }
    r
}

/// A page listing is faithful to a model: every entry is a page of the
/// model with its version, every page of the model is listed, and no
/// location repeats.
pub open spec fn pages_list_ok(m: Map<PageLocationModel, PageModel>, v: Seq<PageDataModel>) -> bool {
    &&& forall|i: int|
        0 <= i < v.len() ==> m.contains_key((#[trigger] v[i]).location) && v[i].version
            == m[v[i].location].version
    &&& forall|k: PageLocationModel|
        m.contains_key(k) ==> exists|i: int| 0 <= i < v.len() && (#[trigger] v[i]).location == k
    &&& forall|i: int, j: int|
        0 <= i < j < v.len() ==> (#[trigger] v[i]).location != (#[trigger] v[j]).location
}

/// A source of pages, modeled as a map from page locations to page models.
/// A layer over a source keeps the model: caching changes no response.
pub trait PageSource: Sized {
    /// The source's internal consistency; methods keep it.
    spec fn wf(&self) -> bool;

    /// Whether this source answers every request without provider faults.
    /// An in-memory source does; one backed by a network need not.
    spec fn total_source(&self) -> bool;

    /// The pages available, with their versions and assets.
    spec fn source_model(&self) -> Map<PageLocationModel, PageModel>;

    /// The branch inferred when none is specified.
    spec fn default_branch_model(&self) -> Seq<char>;

    /// Tries to get the page at the specified location. `NotFound` exactly
    /// when the source does not hold the location; a provider fault may
    /// surface as `ProviderError` instead of an answer.
    fn page_at(&mut self, owner: String, name: String, branch: String) -> (r: Result<
        PageData,
        PageError,
    >)
        requires
            old(self).wf(),
        ensures
            final(self).wf(),
            final(self).total_source() == old(self).total_source(),
            final(self).source_model() == old(self).source_model(),
            final(self).default_branch_model() == old(self).default_branch_model(),
            old(self).total_source() && r is Err ==> r->Err_0 is NotFound,
            ({
                let k = PageLocationModel { owner: owner@, name: name@, branch: branch@ };
                match r {
                    Ok(p) => old(self).source_model().contains_key(k) && p@.location == k
                        && p@.version == old(self).source_model()[k].version,
                    Err(PageError::NotFound) => !old(self).source_model().contains_key(k),
                    Err(PageError::ProviderError) => true,
                }
            }),
    ;

    /// Fetches one asset of one page. `NotFound` exactly when the page or the
    /// asset is absent; a provider fault may surface as `ProviderError`.
    fn get_asset(&mut self, loc: &PageLocation, path: &String) -> (r: Result<
        MemoryAsset,
        AssetError,
    >)
        requires
            old(self).wf(),
        ensures
            final(self).wf(),
            final(self).total_source() == old(self).total_source(),
            final(self).source_model() == old(self).source_model(),
            final(self).default_branch_model() == old(self).default_branch_model(),
            old(self).total_source() && r is Err ==> r->Err_0 is NotFound,
            match r {
                Ok(a) => old(self).source_model().contains_key(loc@) && old(
                    self,
                ).source_model()[loc@].assets.contains_key(norm_path(path@)) && a@ == old(
                    self,
                ).source_model()[loc@].assets[norm_path(path@)],
                Err(AssetError::NotFound) => !(old(self).source_model().contains_key(loc@) && old(
                    self,
                ).source_model()[loc@].assets.contains_key(norm_path(path@))),
                Err(AssetError::ProviderError) => true,
                Err(_) => false,
            },
    ;

    /// All pages available to this source, one entry per location.
    fn pages(&mut self) -> (r: Result<Vec<PageData>, PageError>)
        requires
            old(self).wf(),
        ensures
            final(self).wf(),
            final(self).total_source() == old(self).total_source(),
            final(self).source_model() == old(self).source_model(),
            final(self).default_branch_model() == old(self).default_branch_model(),
            old(self).total_source() ==> r is Ok,
            match r {
                Ok(v) => pages_list_ok(old(self).source_model(), v.deep_view()),
                Err(e) => e is ProviderError,
            },
    ;

    /// The branch to infer when none is specified.
    fn default_branch(&self) -> (r: String)
        ensures
            r@ == self.default_branch_model(),
    ;

    /// Finds a page that claims one of `domains` in its domain file: each
    /// page's `/.domain` asset is consulted in turn. `NotFound` exactly when
    /// no page claims any of the domains; a fault while walking the pages or
    /// fetching a domain file surfaces as `ProviderError`.
    fn find_by_domains(&mut self, domains: &Vec<String>) -> (r: Result<PageData, PageError>)
        requires
            old(self).wf(),
        ensures
            final(self).wf(),
            final(self).total_source() == old(self).total_source(),
            final(self).source_model() == old(self).source_model(),
            final(self).default_branch_model() == old(self).default_branch_model(),
            old(self).total_source() && r is Err ==> r->Err_0 is NotFound,
            match r {
                Ok(p) => old(self).source_model().contains_key(p@.location) && p@.version == old(
                    self,
                ).source_model()[p@.location].version && claims_domain(
                    old(self).source_model()[p@.location],
                    domains.deep_view(),
                ),
                Err(PageError::NotFound) => forall|k: PageLocationModel|
                    old(self).source_model().contains_key(k) ==> !claims_domain(
                        #[trigger] old(self).source_model()[k],
                        domains.deep_view(),
                    ),
                Err(PageError::ProviderError) => true,
            },
    {
        let ghost m = old(self).source_model();
        let pages = match self.pages() {
            Ok(v) => v,
            Err(_) => {
                return Err(PageError::ProviderError);
            },
        };
        let dpath = domain_file_path();
        let mut i: usize = 0;
        while i < pages.len()
            invariant
                old(self).wf(),
                self.wf(),
                i <= pages@.len(),
                m == old(self).source_model(),
                self.source_model() == m,
                self.total_source() == old(self).total_source(),
                self.default_branch_model() == old(self).default_branch_model(),
                norm_path(dpath@) == domain_file_key(),
                forall|x: int|
                    0 <= x < pages.len() ==> m.contains_key((#[trigger] pages.deep_view()[x]).location)
                        && pages.deep_view()[x].version == m[pages.deep_view()[x].location].version,
                forall|k: PageLocationModel|
                    m.contains_key(k) ==> exists|x: int|
                        0 <= x < pages.len() && (#[trigger] pages.deep_view()[x]).location == k,
                forall|j: int|
                    0 <= j < i ==> !claims_domain(
                        m[(#[trigger] pages.deep_view()[j]).location],
                        domains.deep_view(),
                    ),
            decreases pages@.len() - i,
        {
            let loc = pages[i].location();
            proof {
                assert(loc@ == pages.deep_view()[i as int].location);
            }
            match self.get_asset(&loc, &dpath) {
                Ok(a) => {
                    if domain_text_matches(&a, domains) {
                        return Ok(pages[i].clone());
                    }
                },
                Err(AssetError::NotFound) => {},
                Err(_) => {
                    return Err(PageError::ProviderError);
                },
            }
            i += 1;
        }
        proof {
            assert forall|k: PageLocationModel| m.contains_key(k) implies !claims_domain(
                #[trigger] m[k],
                domains.deep_view(),
            ) by {
                let x = choose|x: int|
                    0 <= x < pages.len() && (#[trigger] pages.deep_view()[x]).location == k;
                assert(!claims_domain(m[pages.deep_view()[x].location], domains.deep_view()));
            }
        }
        Err(PageError::NotFound)
    }
}

pub ghost struct PageQueryModel {
    pub owner: Option<Seq<Seq<char>>>,
    pub name: Option<Seq<Seq<char>>>,
    pub branch: Option<Seq<Seq<char>>>,
}

/// A query over pages: each field, when set, restricts the matching pages to
/// those whose part is among the listed values.
pub struct PageQuery {
    owner: Option<Vec<String>>,
    name: Option<Vec<String>>,
    branch: Option<Vec<String>>,
}

impl View for PageQuery {
    type V = PageQueryModel;

    closed spec fn view(&self) -> PageQueryModel {
        PageQueryModel {
            owner: self.owner.deep_view(),
            name: self.name.deep_view(),
            branch: self.branch.deep_view(),
        }
    }
}

/// Whether a location meets a query: every set field lists the location's
/// part.
pub open spec fn query_matches(q: PageQueryModel, loc: PageLocationModel) -> bool {
    &&& match q.owner {
        Some(l) => l.contains(loc.owner),
        None => true,
    }
    &&& match q.name {
        Some(l) => l.contains(loc.name),
        None => true,
    }
    &&& match q.branch {
        Some(l) => l.contains(loc.branch),
        None => true,
    }
}

impl PageQuery {
    /// A query that matches every page.
    pub fn anything() -> (r: PageQuery)
        ensures
            r@.owner is None,
            r@.name is None,
            r@.branch is None,
    {
        PageQuery { owner: None, name: None, branch: None }
    }

    /// Restricts this query to pages with one of the given owners.
    pub fn with_owners(self, owners: Vec<String>) -> (r: PageQuery)
        ensures
            r@.owner == Some(owners.deep_view()),
            r@.name == self@.name,
            r@.branch == self@.branch,
    {
        PageQuery { owner: Some(owners), name: self.name, branch: self.branch }
    }

    /// Restricts this query to pages with one of the given names.
    pub fn with_names(self, names: Vec<String>) -> (r: PageQuery)
        ensures
            r@.name == Some(names.deep_view()),
            r@.owner == self@.owner,
            r@.branch == self@.branch,
    {
        PageQuery { owner: self.owner, name: Some(names), branch: self.branch }
    }

    /// Restricts this query to pages with one of the given branches.
    pub fn with_branches(self, branches: Vec<String>) -> (r: PageQuery)
        ensures
            r@.branch == Some(branches.deep_view()),
            r@.owner == self@.owner,
            r@.name == self@.name,
    {
        PageQuery { owner: self.owner, name: self.name, branch: Some(branches) }
    }

    /// Whether the location meets this query.
    pub fn matches_location(&self, loc: &PageLocation) -> (r: bool)
        ensures
            r == query_matches(self@, loc@),
    {
        let owner_ok = match &self.owner {
            Some(l) => crate::strutil::vec_contains_string(l, &loc.owner),
            None => true,
        };
        let name_ok = match &self.name {
            Some(l) => crate::strutil::vec_contains_string(l, &loc.name),
            None => true,
        };
        let branch_ok = match &self.branch {
            Some(l) => crate::strutil::vec_contains_string(l, &loc.branch),
            None => true,
        };
        owner_ok && name_ok && branch_ok
    }
}

impl Default for PageQuery {
    /// The query that matches every page.
    fn default() -> (r: PageQuery)
        ensures
            r@.owner is None,
            r@.name is None,
            r@.branch is None,
    {
        PageQuery::anything()
    }
}

/// A search result is faithful: every entry is a matching page of the model
/// with its version, every matching page is listed, and no location repeats.
pub open spec fn search_list_ok(
    m: Map<PageLocationModel, PageModel>,
    q: PageQueryModel,
    v: Seq<PageDataModel>,
) -> bool {
    &&& forall|i: int|
        0 <= i < v.len() ==> m.contains_key((#[trigger] v[i]).location) && v[i].version
            == m[v[i].location].version && query_matches(q, v[i].location)
    &&& forall|k: PageLocationModel|
        m.contains_key(k) && query_matches(q, k) ==> exists|i: int|
            0 <= i < v.len() && (#[trigger] v[i]).location == k
    &&& forall|i: int, j: int|
        0 <= i < j < v.len() ==> (#[trigger] v[i]).location != (#[trigger] v[j]).location
}

/// Finds the pages of a source that meet a query.
#[verifier::rlimit(60)]
pub fn search_pages<PS: PageSource>(source: &mut PS, query: &PageQuery) -> (r: Result<
    Vec<PageData>,
    PageError,
>)
    requires
        old(source).wf(),
    ensures
        final(source).wf(),
        final(source).total_source() == old(source).total_source(),
        final(source).source_model() == old(source).source_model(),
        final(source).default_branch_model() == old(source).default_branch_model(),
        old(source).total_source() ==> r is Ok,
        match r {
            Ok(v) => search_list_ok(old(source).source_model(), query@, v.deep_view()),
            Err(e) => e is ProviderError,
        },
{
    let ghost m = old(source).source_model();
    let all = match source.pages() {
        Ok(v) => v,
        Err(e) => {
            return Err(e);
        },
    };
    let mut out: Vec<PageData> = Vec::new();
    let mut i: usize = 0;
    while i < all.len()
        invariant
            i <= all@.len(),
            pages_list_ok(m, all.deep_view()),
            forall|x: int|
                0 <= x < out.len() ==> m.contains_key((#[trigger] out.deep_view()[x]).location)
                    && out.deep_view()[x].version == m[out.deep_view()[x].location].version
                    && query_matches(query@, out.deep_view()[x].location),
            forall|y: int|
                0 <= y < i && query_matches(query@, (#[trigger] all.deep_view()[y]).location)
                    ==> exists|x: int|
                    0 <= x < out.len() && (#[trigger] out.deep_view()[x]).location
                        == all.deep_view()[y].location,
            forall|x: int|
                0 <= x < out.len() ==> exists|y: int|
                    0 <= y < i && (#[trigger] out.deep_view()[x]).location
                        == all.deep_view()[y].location,
            forall|x1: int, x2: int|
                0 <= x1 < x2 < out.len() ==> (#[trigger] out.deep_view()[x1]).location != (
                #[trigger] out.deep_view()[x2]).location,
        decreases all@.len() - i,
    {
        if query.matches_location(&all[i].location) {
            proof {
                assert(all[i as int]@.location == all.deep_view()[i as int].location);
            }
            let ghost prev = out.deep_view();
            out.push(all[i].clone());
            proof {
                assert(out.deep_view() =~= prev.push(all.deep_view()[i as int]));
                assert forall|x1: int, x2: int|
                    0 <= x1 < x2 < out.len() implies (#[trigger] out.deep_view()[x1]).location != (
                #[trigger] out.deep_view()[x2]).location by {
                    if x2 == out.len() - 1 {
                        let y = choose|y: int|
                            0 <= y < i && (#[trigger] prev[x1]).location
                                == all.deep_view()[y].location;
                        assert(all.deep_view()[y].location != all.deep_view()[i as int].location);
                    }
                }
                assert forall|y: int|
                    0 <= y < i + 1 && query_matches(
                        query@,
                        (#[trigger] all.deep_view()[y]).location,
                    ) implies exists|x: int|
                    0 <= x < out.len() && (#[trigger] out.deep_view()[x]).location
                        == all.deep_view()[y].location by {
                    if y < i {
                        let x = choose|x: int|
                            0 <= x < prev.len() && (#[trigger] prev[x]).location
                                == all.deep_view()[y].location;
                        assert(out.deep_view()[x].location == all.deep_view()[y].location);
                    } else {
                        assert(out.deep_view()[out.len() - 1].location
                            == all.deep_view()[i as int].location);
                    }
                }
                assert forall|x: int| 0 <= x < out.len() implies exists|y: int|
                    0 <= y < i + 1 && (#[trigger] out.deep_view()[x]).location
                        == all.deep_view()[y].location by {
                    if x < prev.len() {
                        let y = choose|y: int|
                            0 <= y < i && (#[trigger] prev[x]).location
                                == all.deep_view()[y].location;
                        assert(out.deep_view()[x].location == all.deep_view()[y].location);
                    } else {
                        assert(out.deep_view()[x].location == all.deep_view()[i as int].location);
                    }
                }
            }
        } else {
            proof {
                assert(all[i as int]@.location == all.deep_view()[i as int].location);
                assert(!query_matches(query@, all.deep_view()[i as int].location));
            }
        }
        i += 1;
    }
    proof {
        assert forall|k: PageLocationModel|
            m.contains_key(k) && query_matches(query@, k) implies exists|x: int|
            0 <= x < out.len() && (#[trigger] out.deep_view()[x]).location == k by {
            let y = choose|y: int|
                0 <= y < all.len() && (#[trigger] all.deep_view()[y]).location == k;
            assert(query_matches(query@, all.deep_view()[y].location));
        }
    }
    Ok(out)
}

/// Some page of the model meets the query on this branch.
pub open spec fn branch_of_matching(
    m: Map<PageLocationModel, PageModel>,
    q: PageQueryModel,
    b: Seq<char>,
) -> bool {
    exists|k: PageLocationModel|
        (#[trigger] m.contains_key(k)) && query_matches(q, k) && k.branch == b
}

/// The branch appears in the listing.
pub open spec fn listed_branch(bs: Seq<Seq<char>>, b: Seq<char>) -> bool {
    exists|i: int| 0 <= i < bs.len() && #[trigger] bs[i] == b
}

/// A branch listing is faithful: every listed branch belongs to a matching
/// page, and every matching page's branch is listed.
pub open spec fn branches_list_ok(
    m: Map<PageLocationModel, PageModel>,
    q: PageQueryModel,
    bs: Seq<Seq<char>>,
) -> bool {
    &&& forall|i: int| 0 <= i < bs.len() ==> branch_of_matching(m, q, #[trigger] bs[i])
    &&& forall|k: PageLocationModel|
        #[trigger] m.contains_key(k) && query_matches(q, k) ==> listed_branch(bs, k.branch)
}

/// The branches in use among the pages that meet a query.
pub fn branches_used<PS: PageSource>(source: &mut PS, query: &PageQuery) -> (r: Result<
    Vec<String>,
    PageError,
>)
    requires
        old(source).wf(),
    ensures
        final(source).wf(),
        final(source).total_source() == old(source).total_source(),
        final(source).source_model() == old(source).source_model(),
        final(source).default_branch_model() == old(source).default_branch_model(),
        old(source).total_source() ==> r is Ok,
        match r {
            Ok(bs) => branches_list_ok(old(source).source_model(), query@, bs.deep_view()),
            Err(e) => e is ProviderError,
        },
{
    let ghost m = old(source).source_model();
    let found = match search_pages(source, query) {
        Ok(v) => v,
        Err(e) => {
            return Err(e);
        },
    };
    let mut out: Vec<String> = Vec::new();
    let mut i: usize = 0;
    while i < found.len()
        invariant
            i <= found@.len(),
            out@.len() == i,
            search_list_ok(m, query@, found.deep_view()),
            forall|x: int|
                0 <= x < i ==> (#[trigger] out.deep_view()[x]) == found.deep_view()[x].location.branch,
        decreases found@.len() - i,
    {
        let ghost prev = out.deep_view();
        out.push(found[i].location.branch.clone());
        proof {
            assert(out.deep_view() =~= prev.push(found.deep_view()[i as int].location.branch));
        }
        i += 1;
    }
    proof {
        let bs = out.deep_view();
        assert forall|x: int| 0 <= x < bs.len() implies branch_of_matching(
            m,
            query@,
            #[trigger] bs[x],
        ) by {
            assert(m.contains_key(found.deep_view()[x].location));
            assert(bs[x] == found.deep_view()[x].location.branch);
        }
        assert forall|k: PageLocationModel|
            #[trigger] m.contains_key(k) && query_matches(query@, k) implies listed_branch(
            bs,
            k.branch,
        ) by {
            let y = choose|y: int|
                0 <= y < found.len() && (#[trigger] found.deep_view()[y]).location == k;
            assert(bs[y] == k.branch);
        }
        assert(branches_list_ok(m, query@, bs));
    }
    Ok(out)
}

/// An in-memory page provider: pages and their assets held directly in
/// memory. Useful for tests and mocking.
pub struct MemoryPageProvider {
    entries: Vec<(PageLocation, String, MemoryCache)>,
    default_branch: String,
}

/// The association-list model of a provider: the last entry with a location
/// decides.
pub open spec fn map_of_pages(entries: Seq<(PageLocation, String, MemoryCache)>) -> Map<
    PageLocationModel,
    PageModel,
>
    decreases entries.len(),
{
    if entries.len() == 0 {
        Map::empty()
    } else {
        map_of_pages(entries.drop_last()).insert(
            entries.last().0@,
            PageModel { version: entries.last().1@, assets: entries.last().2@ },
        )
    }
}

proof fn lemma_map_of_pages_props(entries: Seq<(PageLocation, String, MemoryCache)>)
    ensures
        forall|k: PageLocationModel|
            #[trigger] map_of_pages(entries).contains_key(k) <==> exists|i: int|
                0 <= i < entries.len() && entries[i].0@ == k,
        forall|i: int|
            0 <= i < entries.len() && (forall|j: int|
                i < j < entries.len() ==> entries[j].0@ != entries[i].0@) ==> map_of_pages(entries)[(
            #[trigger] entries[i]).0@] == (PageModel {
                version: entries[i].1@,
                assets: entries[i].2@,
            }),
    decreases entries.len(),
{
    if entries.len() > 0 {
        let pre = entries.drop_last();
        lemma_map_of_pages_props(pre);
        assert forall|k: PageLocationModel| #[trigger]
            map_of_pages(entries).contains_key(k) implies exists|i: int|
            0 <= i < entries.len() && entries[i].0@ == k by {
            if k == entries.last().0@ {
                assert(entries[entries.len() - 1].0@ == k);
            } else {
                assert(map_of_pages(pre).contains_key(k));
                let i = choose|i: int| 0 <= i < pre.len() && pre[i].0@ == k;
                assert(pre[i] == entries[i]);
                assert(entries[i].0@ == k);
            }
        }
        assert forall|k: PageLocationModel|
            (exists|i: int| 0 <= i < entries.len() && entries[i].0@ == k) implies #[trigger]
            map_of_pages(entries).contains_key(k) by {
            let i = choose|i: int| 0 <= i < entries.len() && entries[i].0@ == k;
            if i < entries.len() - 1 {
                assert(pre[i] == entries[i]);
                assert(pre[i].0@ == k);
                assert(map_of_pages(pre).contains_key(k));
            } else {
                assert(entries.last().0@ == k);
            }
        }
        assert forall|i: int|
            0 <= i < entries.len() && (forall|j: int|
                i < j < entries.len() ==> entries[j].0@ != entries[i].0@) implies map_of_pages(
            entries,
        )[(#[trigger] entries[i]).0@] == PageModel {
            version: entries[i].1@,
            assets: entries[i].2@,
        } by {
            if i < entries.len() - 1 {
                assert(entries[i].0@ != entries[entries.len() - 1].0@);
                assert forall|j: int| i < j < pre.len() implies pre[j].0@ != pre[i].0@ by {
                    assert(pre[j].0@ == entries[j].0@);
                }
                assert(map_of_pages(pre)[pre[i].0@] == PageModel {
                    version: pre[i].1@,
                    assets: pre[i].2@,
                });
                assert(pre[i].0@ == entries[i].0@);
            }
        }
    }
}

/// Whether two page locations are the same.
fn loc_eq(a: &PageLocation, b: &PageLocation) -> (r: bool)
    ensures
        r == (a@ == b@),
{
    a.owner.eq(&b.owner) && a.name.eq(&b.name) && a.branch.eq(&b.branch)
}

impl MemoryPageProvider {
    /// Index of the last entry with the given location, if any.
    fn rfind_page(&self, loc: &PageLocation) -> (r: Option<usize>)
        ensures
            match r {
                Some(i) => i < self.entries@.len() && self.entries@[i as int].0@ == loc@ && forall|
                    j: int,
                |
                    i < j < self.entries@.len() ==> self.entries@[j].0@ != loc@,
                None => forall|j: int| 0 <= j < self.entries@.len() ==> self.entries@[j].0@ != loc@,
            },
    {
        let mut i: usize = self.entries.len();
        while i > 0
            invariant
                i <= self.entries@.len(),
                forall|j: int| i <= j < self.entries@.len() ==> self.entries@[j].0@ != loc@,
            decreases i,
        {
            i -= 1;
            if loc_eq(&self.entries[i].0, loc) {
                return Some(i);
            }
        }
        None
    }

    /// The page descriptors, one per entry.
    #[verifier::rlimit(40)]
    fn pages_vec(&self) -> (out: Vec<PageData>)
        requires
            self.wf(),
        ensures
            pages_list_ok(self.source_model(), out.deep_view()),
    {
        proof {
            lemma_map_of_pages_props(self.entries@);
        }
        let mut out: Vec<PageData> = Vec::new();
        let mut i: usize = 0;
        while i < self.entries.len()
            invariant
                self.wf(),
                i <= self.entries@.len(),
                out@.len() == i,
                forall|x: int|
                    0 <= x < i ==> (#[trigger] out.deep_view()[x]).location
                        == self.entries@[x].0@ && out.deep_view()[x].version
                        == self.entries@[x].1@,
            decreases self.entries@.len() - i,
        {
            let p = PageData {
                location: PageLocation {
                    owner: self.entries[i].0.owner.clone(),
                    name: self.entries[i].0.name.clone(),
                    branch: self.entries[i].0.branch.clone(),
                },
                version: self.entries[i].1.clone(),
            };
            let ghost prev = out.deep_view();
            let ghost pv = p@;
            out.push(p);
            proof {
                assert(out.deep_view() =~= prev.push(pv));
            }
            i += 1;
        }
        proof {
            lemma_map_of_pages_props(self.entries@);
            assert forall|k: PageLocationModel|
                self.source_model().contains_key(k) implies exists|x: int|
                0 <= x < out.len() && (#[trigger] out.deep_view()[x]).location == k by {
                let y = choose|y: int| 0 <= y < self.entries@.len() && self.entries@[y].0@ == k;
                assert(out.deep_view()[y].location == k);
            }
            assert forall|x: int|
                0 <= x < out.len() implies self.source_model().contains_key(
                (#[trigger] out.deep_view()[x]).location,
            ) && out.deep_view()[x].version
                == self.source_model()[out.deep_view()[x].location].version by {
                assert(self.entries@[x].0@ == out.deep_view()[x].location);
                assert forall|j: int|
                    x < j < self.entries@.len() implies self.entries@[j].0@
                    != self.entries@[x].0@ by {}
                assert(map_of_pages(self.entries@)[self.entries@[x].0@] == (PageModel {
                    version: self.entries@[x].1@,
                    assets: self.entries@[x].2@,
                }));
            }
            assert forall|x: int, y: int|
                0 <= x < y < out.len() implies (#[trigger] out.deep_view()[x]).location != (
            #[trigger] out.deep_view()[y]).location by {
                assert(self.entries@[x].0@ != self.entries@[y].0@);
            }
            assert(pages_list_ok(self.source_model(), out.deep_view()));
        }
        out
    }

}

impl PageSource for MemoryPageProvider {
    /// The in-memory source answers every request.
    open spec fn total_source(&self) -> bool {
        true
    }

    /// Each location appears at most once.
    closed spec fn wf(&self) -> bool {
        forall|i: int, j: int|
            0 <= i < j < self.entries@.len() ==> (#[trigger] self.entries@[i]).0@ != (
            #[trigger] self.entries@[j]).0@
    }

    closed spec fn source_model(&self) -> Map<PageLocationModel, PageModel> {
        map_of_pages(self.entries@)
    }

    closed spec fn default_branch_model(&self) -> Seq<char> {
        self.default_branch@
    }

    fn page_at(&mut self, owner: String, name: String, branch: String) -> (r: Result<
        PageData,
        PageError,
    >)
    {
        proof {
            lemma_map_of_pages_props(self.entries@);
        }
        let loc = PageLocation { owner, name, branch };
        match self.rfind_page(&loc) {
            Some(i) => Ok(
                PageData {
                    location: PageLocation {
                        owner: self.entries[i].0.owner.clone(),
                        name: self.entries[i].0.name.clone(),
                        branch: self.entries[i].0.branch.clone(),
                    },
                    version: self.entries[i].1.clone(),
                },
            ),
            None => Err(PageError::NotFound),
        }
    }

    fn get_asset(&mut self, loc: &PageLocation, path: &String) -> (r: Result<
        MemoryAsset,
        AssetError,
    >)
    {
        proof {
            lemma_map_of_pages_props(self.entries@);
        }
        match self.rfind_page(loc) {
            Some(i) => {
                match self.entries[i].2.get_asset(path) {
                    Ok(a) => Ok(a),
                    Err(_) => Err(AssetError::NotFound),
                }
            },
            None => Err(AssetError::NotFound),
        }
    }

    fn pages(&mut self) -> (r: Result<Vec<PageData>, PageError>)
    {
        Ok(self.pages_vec())
    }

    fn default_branch(&self) -> (r: String)
    {
        self.default_branch.clone()
    }
}

impl Clone for MemoryPageProvider {
    fn clone(&self) -> (r: MemoryPageProvider)
        ensures
            self.wf() ==> r.wf(),
            r.source_model() == self.source_model(),
            r.default_branch_model() == self.default_branch_model(),
    {
        let mut entries: Vec<(PageLocation, String, MemoryCache)> = Vec::new();
        let mut i: usize = 0;
        while i < self.entries.len()
            invariant
                i <= self.entries@.len(),
                entries@.len() == i,
                forall|j: int|
                    0 <= j < i ==> (#[trigger] entries@[j]).0@ == self.entries@[j].0@
                        && entries@[j].1@ == self.entries@[j].1@ && entries@[j].2@
                        == self.entries@[j].2@,
            decreases self.entries@.len() - i,
        {
            let e = &self.entries[i];
            let loc = PageLocation {
                owner: e.0.owner.clone(),
                name: e.0.name.clone(),
                branch: e.0.branch.clone(),
            };
            let version = e.1.clone();
            let cache = e.2.clone();
            entries.push((loc, version, cache));
            i += 1;
        }
        proof {
            lemma_map_of_pages_same(entries@, self.entries@);
            if self.wf() {
                assert forall|x: int, y: int|
                    0 <= x < y < entries@.len() implies (#[trigger] entries@[x]).0@ != (
                #[trigger] entries@[y]).0@ by {
                    assert(self.entries@[x].0@ != self.entries@[y].0@);
                }
            }
        }
        MemoryPageProvider { entries, default_branch: self.default_branch.clone() }
    }
}

/// Entry lists with pointwise equal views have the same model.
proof fn lemma_map_of_pages_same(
    a: Seq<(PageLocation, String, MemoryCache)>,
    b: Seq<(PageLocation, String, MemoryCache)>,
)
    requires
        a.len() == b.len(),
        forall|j: int|
            0 <= j < a.len() ==> (#[trigger] a[j]).0@ == b[j].0@ && a[j].1@ == b[j].1@ && a[j].2@
                == b[j].2@,
    ensures
        map_of_pages(a) == map_of_pages(b),
    decreases a.len(),
{
    if a.len() > 0 {
        assert forall|j: int|
            0 <= j < a.drop_last().len() implies (#[trigger] a.drop_last()[j]).0@
            == b.drop_last()[j].0@ && a.drop_last()[j].1@ == b.drop_last()[j].1@
            && a.drop_last()[j].2@ == b.drop_last()[j].2@ by {
            assert(a[j].0@ == b[j].0@ && a[j].1@ == b[j].1@ && a[j].2@ == b[j].2@);
        }
        lemma_map_of_pages_same(a.drop_last(), b.drop_last());
        assert(a[a.len() - 1].0@ == b[a.len() - 1].0@ && a[a.len() - 1].1@ == b[a.len() - 1].1@
            && a[a.len() - 1].2@ == b[a.len() - 1].2@);
    }
}

/// The model transformation of adding one asset: the page at `k` keeps its
/// version (an empty one for a new page) and gains the asset.
pub open spec fn model_with_asset(
    m: Map<PageLocationModel, PageModel>,
    k: PageLocationModel,
    p: Seq<char>,
    data: Seq<u8>,
) -> Map<PageLocationModel, PageModel> {
    let pm = if m.contains_key(k) {
        m[k]
    } else {
        PageModel { version: Seq::empty(), assets: Map::empty() }
    };
    m.insert(k, PageModel { version: pm.version, assets: pm.assets.insert(norm_path(p), data) })
}

/// The model transformation of setting a page's version: its assets are kept
/// (none for a new page).
pub open spec fn model_with_version(
    m: Map<PageLocationModel, PageModel>,
    k: PageLocationModel,
    version: Seq<char>,
) -> Map<PageLocationModel, PageModel> {
    let pm = if m.contains_key(k) {
        m[k]
    } else {
        PageModel { version: Seq::empty(), assets: Map::empty() }
    };
    m.insert(k, PageModel { version: version, assets: pm.assets })
}

/// Builds in-memory page providers.
pub struct MemoryPageProviderFactory {
    provider: MemoryPageProvider,
}

impl MemoryPageProviderFactory {
    /// A factory for an empty provider whose default branch is `pages`.
    pub fn new() -> (r: MemoryPageProviderFactory)
        ensures
            r.factory_wf(),
            r.factory_model() == Map::<PageLocationModel, PageModel>::empty(),
            r.factory_default_branch() == "pages"@,
    {
        proof {
            reveal_strlit("pages");
        }
        let entries: Vec<(PageLocation, String, MemoryCache)> = Vec::new();
        MemoryPageProviderFactory {
            provider: MemoryPageProvider { entries, default_branch: String::from_str("pages") },
        }
    }

    /// Takes the entry at the location out of the provider, returning its
    /// version and assets, or fresh ones when the location is new.
    fn take_entry(&mut self, loc: &PageLocation) -> (r: (String, MemoryCache))
        requires
            old(self).factory_wf(),
        ensures
            final(self).factory_wf(),
            !final(self).factory_model().contains_key(loc@),
            final(self).factory_model() == old(self).factory_model().remove(loc@),
            final(self).factory_default_branch() == old(self).factory_default_branch(),
            ({
                let m = old(self).factory_model();
                if m.contains_key(loc@) {
                    r.0@ == m[loc@].version && r.1@ == m[loc@].assets
                } else {
                    r.0@ == Seq::<char>::empty() && r.1@ == Map::<Seq<char>, Seq<u8>>::empty()
                }
            }),
    {
        proof {
            lemma_map_of_pages_props(self.provider.entries@);
        }
        let ghost orig = self.provider.entries@;
        let found = self.provider.rfind_page(loc);
        let mut kept: Vec<(PageLocation, String, MemoryCache)> = Vec::new();
        let mut i: usize = 0;
        proof {
            assert(orig.take(0) =~= Seq::<(PageLocation, String, MemoryCache)>::empty());
        }
        while i < self.provider.entries.len()
            invariant
                self == old(self),
                orig == self.provider.entries@,
                old(self).factory_wf(),
                i <= orig.len(),
                kept@.len() == entries_without_page(orig.take(i as int), loc@).len(),
                forall|x: int|
                    0 <= x < kept@.len() ==> {
                        let claim = entries_without_page(orig.take(i as int), loc@);
                        (#[trigger] kept@[x]).0@ == claim[x].0@ && kept@[x].1@ == claim[x].1@
                            && kept@[x].2@ == claim[x].2@
                    },
                forall|x: int|
                    0 <= x < kept@.len() ==> exists|y: int|
                        0 <= y < i && (#[trigger] kept@[x]).0@ == orig[y].0@,
            decreases orig.len() - i,
        {
            proof {
                assert(orig.take(i + 1).drop_last() =~= orig.take(i as int));
                assert(orig.take(i + 1).last() == orig[i as int]);
            }
            if !loc_eq(&self.provider.entries[i].0, loc) {
                let e = &self.provider.entries[i];
                let k2 = PageLocation {
                    owner: e.0.owner.clone(),
                    name: e.0.name.clone(),
                    branch: e.0.branch.clone(),
                };
                let ghost prev = kept@;
                kept.push((k2, e.1.clone(), e.2.clone()));
                proof {
                    assert(kept@ =~= prev.push(kept@[kept@.len() - 1]));
                    assert(kept@[kept@.len() - 1].0@ == orig[i as int].0@);
                }
            }
            i += 1;
        }
        let (version, cache) = match found {
            Some(i) => (self.provider.entries[i].1.clone(), self.provider.entries[i].2.clone()),
            None => (String::new(), MemoryCache::new()),
        };
        proof {
            assert(orig.take(orig.len() as int) =~= orig);
            lemma_map_of_pages_same_views(kept@, entries_without_page(orig, loc@));
            lemma_entries_without_page(orig, loc@);
            lemma_entries_without_page_distinct(orig, loc@);
            lemma_map_of_pages_props(entries_without_page(orig, loc@));
        }
        self.provider.entries = kept;
        (version, cache)
    }

    /// Returns this factory with the asset stored in the page at the
    /// location, creating the page (with an empty version) when it is new.
    pub fn with_asset(self, owner: &str, name: &str, branch: &str, path: &str, asset: MemoryAsset)
        -> (r: MemoryPageProviderFactory)
        requires
            self.factory_wf(),
        ensures
            r.factory_wf(),
            r.factory_model() == model_with_asset(
                self.factory_model(),
                PageLocationModel { owner: owner@, name: name@, branch: branch@ },
                path@,
                asset@,
            ),
            r.factory_default_branch() == self.factory_default_branch(),
    {
        let ghost m = self.factory_model();
        let loc = PageLocation {
            owner: owner.to_owned(),
            name: name.to_owned(),
            branch: branch.to_owned(),
        };
        let mut this = self;
        let (version, mut cache) = this.take_entry(&loc);
        let path_string = path.to_owned();
        let _ = cache.set_asset(&path_string, &asset);
        let ghost removed = this.factory_model();
        let ghost before = this.provider.entries@;
        this.provider.entries.push((loc, version, cache));
        proof {
            assert(this.provider.entries@.drop_last() =~= before);
            assert(this.factory_model() == map_of_pages(before).insert(
                this.provider.entries@.last().0@,
                PageModel {
                    version: this.provider.entries@.last().1@,
                    assets: this.provider.entries@.last().2@,
                },
            ));
            assert(this.factory_model() =~= model_with_asset(
                m,
                PageLocationModel { owner: owner@, name: name@, branch: branch@ },
                path@,
                asset@,
            ));
            lemma_map_of_pages_props(before);
            assert forall|i: int, j: int|
                0 <= i < j < this.provider.entries@.len() implies (
            #[trigger] this.provider.entries@[i]).0@ != (
            #[trigger] this.provider.entries@[j]).0@ by {
                if j == this.provider.entries@.len() - 1 {
                    assert(before[i] == this.provider.entries@[i]);
                    assert(!removed.contains_key(
                        PageLocationModel { owner: owner@, name: name@, branch: branch@ },
                    ));
                }
            }
        }
        this
    }

    /// Returns this factory with the page at the location carrying the given
    /// version, creating the page (with no assets) when it is new.
    pub fn with_version(self, owner: &str, name: &str, branch: &str, version: &str) -> (r:
        MemoryPageProviderFactory)
        requires
            self.factory_wf(),
        ensures
            r.factory_wf(),
            r.factory_model() == model_with_version(
                self.factory_model(),
                PageLocationModel { owner: owner@, name: name@, branch: branch@ },
                version@,
            ),
            r.factory_default_branch() == self.factory_default_branch(),
    {
        let ghost m = self.factory_model();
        let loc = PageLocation {
            owner: owner.to_owned(),
            name: name.to_owned(),
            branch: branch.to_owned(),
        };
        let mut this = self;
        let (_, cache) = this.take_entry(&loc);
        let ghost removed = this.factory_model();
        let ghost before = this.provider.entries@;
        this.provider.entries.push((loc, version.to_owned(), cache));
        proof {
            assert(this.provider.entries@.drop_last() =~= before);
            assert(this.factory_model() =~= model_with_version(
                m,
                PageLocationModel { owner: owner@, name: name@, branch: branch@ },
                version@,
            ));
            lemma_map_of_pages_props(before);
            assert forall|i: int, j: int|
                0 <= i < j < this.provider.entries@.len() implies (
            #[trigger] this.provider.entries@[i]).0@ != (
            #[trigger] this.provider.entries@[j]).0@ by {
                if j == this.provider.entries@.len() - 1 {
                    assert(before[i] == this.provider.entries@[i]);
                    assert(!removed.contains_key(
                        PageLocationModel { owner: owner@, name: name@, branch: branch@ },
                    ));
                }
            }
        }
        this
    }
}

/// The entries of `entries` whose location differs from `k`.
spec fn entries_without_page(
    entries: Seq<(PageLocation, String, MemoryCache)>,
    k: PageLocationModel,
) -> Seq<(PageLocation, String, MemoryCache)>
    decreases entries.len(),
{
    if entries.len() == 0 {
        Seq::empty()
    } else {
        let rest = entries_without_page(entries.drop_last(), k);
        if entries.last().0@ == k {
            rest
        } else {
            rest.push(entries.last())
        }
    }
}

proof fn lemma_entries_without_page(entries: Seq<(PageLocation, String, MemoryCache)>, k: PageLocationModel)
    ensures
        map_of_pages(entries_without_page(entries, k)) == map_of_pages(entries).remove(k),
    decreases entries.len(),
{
    if entries.len() == 0 {
        assert(map_of_pages(entries).remove(k) =~= Map::<PageLocationModel, PageModel>::empty());
    } else {
        let pre = entries.drop_last();
        lemma_entries_without_page(pre, k);
        if entries.last().0@ == k {
            assert(map_of_pages(entries).remove(k) =~= map_of_pages(pre).remove(k));
        } else {
            let ew = entries_without_page(pre, k).push(entries.last());
            assert(ew.drop_last() =~= entries_without_page(pre, k));
            assert(ew.last() == entries.last());
            assert(map_of_pages(pre).remove(k).insert(
                entries.last().0@,
                PageModel { version: entries.last().1@, assets: entries.last().2@ },
            ) =~= map_of_pages(entries).remove(k));
        }
    }
}

/// Filtering with distinct keys keeps the keys distinct and drops `k`.
proof fn lemma_entries_without_page_distinct(
    entries: Seq<(PageLocation, String, MemoryCache)>,
    k: PageLocationModel,
)
    requires
        forall|i: int, j: int|
            0 <= i < j < entries.len() ==> (#[trigger] entries[i]).0@ != (#[trigger] entries[j]).0@,
    ensures
        forall|i: int, j: int|
            0 <= i < j < entries_without_page(entries, k).len() ==> (#[trigger] entries_without_page(
                entries,
                k,
            )[i]).0@ != (#[trigger] entries_without_page(entries, k)[j]).0@,
        forall|i: int|
            0 <= i < entries_without_page(entries, k).len() ==> (#[trigger] entries_without_page(
                entries,
                k,
            )[i]).0@ != k,
    decreases entries.len(),
{
    if entries.len() > 0 {
        let pre = entries.drop_last();
        assert forall|i: int, j: int|
            0 <= i < j < pre.len() implies (#[trigger] pre[i]).0@ != (#[trigger] pre[j]).0@ by {
            assert(entries[i].0@ != entries[j].0@);
        }
        lemma_entries_without_page_distinct(pre, k);
        lemma_entries_without_page_membership(pre, k);
        let few = entries_without_page(entries, k);
        let fpre = entries_without_page(pre, k);
        if entries.last().0@ != k {
            assert(few == fpre.push(entries.last()));
            assert forall|i: int| 0 <= i < few.len() implies (#[trigger] few[i]).0@ != k by {
                if i < fpre.len() {
                    assert(few[i] == fpre[i]);
                } else {
                    assert(few[i] == entries.last());
                }
            }
            assert forall|i: int, j: int|
                0 <= i < j < few.len() implies (#[trigger] few[i]).0@ != (
            #[trigger] few[j]).0@ by {
                if j < fpre.len() {
                    assert(few[i] == fpre[i] && few[j] == fpre[j]);
                } else {
                    assert(few[j] == entries.last());
                    assert(few[i] == fpre[i]);
                    let y = choose|y: int| 0 <= y < pre.len() && fpre[i] == pre[y];
                    assert(pre[y] == entries[y]);
                    assert(entries[y].0@ != entries[entries.len() - 1].0@);
                }
            }
        }
    }
}

/// Every filtered entry appears in the list filtered from.
proof fn lemma_entries_without_page_membership(
    entries: Seq<(PageLocation, String, MemoryCache)>,
    k: PageLocationModel,
)
    ensures
        forall|i: int|
            0 <= i < entries_without_page(entries, k).len() ==> exists|y: int|
                0 <= y < entries.len() && (#[trigger] entries_without_page(entries, k)[i])
                    == entries[y],
    decreases entries.len(),
{
    if entries.len() > 0 {
        let pre = entries.drop_last();
        lemma_entries_without_page_membership(pre, k);
        assert forall|i: int|
            0 <= i < entries_without_page(entries, k).len() implies exists|y: int|
            0 <= y < entries.len() && (#[trigger] entries_without_page(entries, k)[i])
                == entries[y] by {
            let few = entries_without_page(entries, k);
            let fpre = entries_without_page(pre, k);
            if i < fpre.len() {
                assert(few[i] == fpre[i]);
                let y = choose|y: int| 0 <= y < pre.len() && fpre[i] == pre[y];
                assert(entries[y] == pre[y]);
            } else {
                assert(few[i] == entries.last());
                assert(entries[entries.len() - 1] == entries.last());
            }
        }
    }
}

/// Entry lists with pointwise equal views have the same model (view form).
proof fn lemma_map_of_pages_same_views(
    a: Seq<(PageLocation, String, MemoryCache)>,
    b: Seq<(PageLocation, String, MemoryCache)>,
)
    requires
        a.len() == b.len(),
        forall|j: int|
            0 <= j < a.len() ==> (#[trigger] a[j]).0@ == b[j].0@ && a[j].1@ == b[j].1@ && a[j].2@
                == b[j].2@,
    ensures
        map_of_pages(a) == map_of_pages(b),
{
    lemma_map_of_pages_same(a, b);
}

/// Builds page sources; a factory may be wrapped by layers.
pub trait PageSourceFactory: Sized {
    type Source: PageSource;

    /// Whether this factory can build.
    spec fn factory_wf(&self) -> bool;

    /// Whether the built source answers every request without faults.
    spec fn factory_total(&self) -> bool;

    /// The pages the built source will hold.
    spec fn factory_model(&self) -> Map<PageLocationModel, PageModel>;

    /// The default branch the built source will use.
    spec fn factory_default_branch(&self) -> Seq<char>;

    /// Builds the page source; a fault-free factory builds.
    fn build(&self) -> (r: Result<Self::Source, ()>)
        requires
            self.factory_wf(),
        ensures
            self.factory_total() ==> r is Ok,
            match r {
                Ok(s) => s.wf() && s.source_model() == self.factory_model()
                    && s.default_branch_model() == self.factory_default_branch()
                    && s.total_source() == self.factory_total(),
                Err(_) => true,
            },
    ;

    /// Wraps this factory in a layer: the layered factory builds the inner
    /// source first and then hands it to the layer.
    fn wrap<L: PageSourceLayer<Self::Source>>(self, layer: L) -> (r: PageSourceFactoryLayer<
        Self,
        L,
    >)
        ensures
            r.parent == self,
            r.layer == layer,
    {
        PageSourceFactoryLayer { parent: self, layer }
    }
}

/// Layers over a page source, adding cross-cutting behavior without changing
/// which assets are served: the wrapped source keeps the model.
pub trait PageSourceLayer<PS: PageSource>: Sized {
    type Source: PageSource;

    /// Whether this layer may wrap a source with the given model and default
    /// branch.
    spec fn wrap_ok(&self, model: Map<PageLocationModel, PageModel>, default_branch: Seq<char>) -> bool;

    /// Whether the layer itself answers every request without faults.
    spec fn layer_total(&self) -> bool;

    fn wrap(&self, page_source: PS) -> (r: Self::Source)
        requires
            page_source.wf(),
            self.wrap_ok(page_source.source_model(), page_source.default_branch_model()),
        ensures
            r.wf(),
            r.source_model() == page_source.source_model(),
            r.default_branch_model() == page_source.default_branch_model(),
            r.total_source() == (page_source.total_source() && self.layer_total()),
    ;
}

/// A factory wrapped by a layer.
pub struct PageSourceFactoryLayer<F: PageSourceFactory, L: PageSourceLayer<F::Source>> {
    pub parent: F,
    pub layer: L,
}

impl<F: PageSourceFactory, L: PageSourceLayer<F::Source>> PageSourceFactory for PageSourceFactoryLayer<
    F,
    L,
> {
    type Source = L::Source;

    open spec fn factory_wf(&self) -> bool {
        self.parent.factory_wf() && self.layer.wrap_ok(
            self.parent.factory_model(),
            self.parent.factory_default_branch(),
        )
    }

    open spec fn factory_total(&self) -> bool {
        self.parent.factory_total() && self.layer.layer_total()
    }

    open spec fn factory_model(&self) -> Map<PageLocationModel, PageModel> {
        self.parent.factory_model()
    }

    open spec fn factory_default_branch(&self) -> Seq<char> {
        self.parent.factory_default_branch()
    }

    fn build(&self) -> (r: Result<Self::Source, ()>)
    {
        let built = match self.parent.build() {
            Ok(v) => v,
            Err(_) => {
                return Err(());
            },
        };
        Ok(self.layer.wrap(built))
    }
}

impl PageSourceFactory for MemoryPageProviderFactory {
    type Source = MemoryPageProvider;

    closed spec fn factory_wf(&self) -> bool {
        self.provider.wf()
    }

    open spec fn factory_total(&self) -> bool {
        true
    }

    closed spec fn factory_model(&self) -> Map<PageLocationModel, PageModel> {
        self.provider.source_model()
    }

    closed spec fn factory_default_branch(&self) -> Seq<char> {
        self.provider.default_branch_model()
    }

    fn build(&self) -> (r: Result<Self::Source, ()>)
    {
        Ok(self.provider.clone())
    }
}

} // verus!
