use pageshelf::asset::{Asset, AssetError, MemoryAsset};
use pageshelf::pages::{AssetSource, AssetWritable, MemoryCache};
use pageshelf::page::{PageError, PageLocation};
use pageshelf::pages::{
    search_pages, MemoryPageProvider, MemoryPageProviderFactory, Page, PageQuery, PageSource,
    PageSourceFactory,
};

use pageshelf::scanner::ScanCycle;

const OWNER_1: &str = "owner_1";
const OWNER_2: &str = "owner_2";

const NAME_1: &str = "name_1";
const NAME_2: &str = "name_2";

const BRANCH_1: &str = "pages";
const BRANCH_2: &str = "pages";

const DATA_1: &str = "data_1";
const DATA_2: &str = "data_2";

fn create_example_provider() -> MemoryPageProvider {
    MemoryPageProviderFactory::new()
        .with_asset(OWNER_1, NAME_1, BRANCH_1, "asset_1", MemoryAsset::from(DATA_1))
        .with_asset(OWNER_2, NAME_2, BRANCH_2, "asset_2", MemoryAsset::from(DATA_2))
        .build()
        .unwrap()
}

fn page_at(
    p: &mut MemoryPageProvider,
    owner: &str,
    name: &str,
    branch: &str,
) -> Result<pageshelf::pages::PageData, PageError> {
    p.page_at(owner.to_string(), name.to_string(), branch.to_string())
}

/// The memory provider built from a factory serves back what was stored, and
/// nothing else.
#[test]
fn factory_read() {
    let mut p = create_example_provider();

    assert_eq!(p.pages().unwrap().len(), 2);

    let page_1 = page_at(&mut p, OWNER_1, NAME_1, BRANCH_1).unwrap();
    assert_eq!(page_1.owner(), OWNER_1);
    assert_eq!(page_1.name(), NAME_1);
    assert_eq!(page_1.branch(), BRANCH_1);
    let page_2 = page_at(&mut p, OWNER_2, NAME_2, BRANCH_2).unwrap();
    assert_eq!(page_2.name(), NAME_2);

    // Validate asset accessing (paths are normalized with a leading slash).
    let loc_1 = page_1.location();
    let loc_2 = page_2.location();
    assert_eq!(
        p.get_asset(&loc_1, &"/asset_1".to_string()).unwrap().bytes(),
        DATA_1.as_bytes()
    );
    assert_eq!(
        p.get_asset(&loc_2, &"/asset_2".to_string()).unwrap().bytes(),
        DATA_2.as_bytes()
    );
    assert!(p.get_asset(&loc_1, &"/asset_2".to_string()).is_err());
    assert!(p.get_asset(&loc_2, &"/asset_1".to_string()).is_err());

    // Validate incorrect page accessing
    assert!(page_at(&mut p, OWNER_2, NAME_1, BRANCH_1).is_err());
    assert!(page_at(&mut p, OWNER_2, NAME_1, BRANCH_2).is_err());
    assert!(page_at(&mut p, OWNER_1, NAME_2, BRANCH_1).is_err());
    assert!(page_at(&mut p, OWNER_1, NAME_2, BRANCH_2).is_err());
    if BRANCH_1 == BRANCH_2 {
        assert!(page_at(&mut p, OWNER_1, NAME_1, BRANCH_2).is_ok());
        assert!(page_at(&mut p, OWNER_2, NAME_2, BRANCH_1).is_ok());
        assert!(page_at(&mut p, OWNER_2, NAME_1, BRANCH_2).is_err());
    }
}

/// The domain-file walk finds the claiming page, comparing trimmed lines.
#[test]
fn find_by_domains_walk() {
    let mut p = MemoryPageProviderFactory::new()
        .with_asset("a", "pages", "pages", "/.domain", MemoryAsset::from("  my.example \n"))
        .with_asset("b", "pages", "pages", "/index.html", MemoryAsset::from("x"))
        .build()
        .unwrap();

    let found = p.find_by_domains(&vec!["my.example".to_string()]).unwrap();
    assert_eq!(found.owner(), "a");

    let missing = p.find_by_domains(&vec!["nobody.example".to_string()]);
    assert!(matches!(missing, Err(PageError::NotFound)));
}

/// The asset store keeps assets under normalized paths and deletes them.
#[test]
fn memory_cache_assets() {
    let mut c = MemoryCache::new();
    assert!(matches!(
        c.get_asset(&"/a.txt".to_string()),
        Err(AssetError::NotFound)
    ));
    c.set_asset(&"a.txt".to_string(), &MemoryAsset::from("one")).unwrap();
    assert_eq!(c.get_asset(&"/a.txt".to_string()).unwrap().bytes(), b"one");
    c.set_asset(&"/a.txt".to_string(), &MemoryAsset::from("two")).unwrap();
    assert_eq!(c.get_asset(&"a.txt".to_string()).unwrap().bytes(), b"two");
    c.delete_asset(&"/a.txt".to_string()).unwrap();
    assert!(c.get_asset(&"/a.txt".to_string()).is_err());
    assert!(c.delete_asset(&"/a.txt".to_string()).is_err());
}

/// Queries restrict searches to the listed owners, names and branches.
#[test]
fn search_pages_by_query() {
    let mut p = create_example_provider();

    let all = search_pages(&mut p, &PageQuery::anything()).unwrap();
    assert_eq!(all.len(), 2);

    let q = PageQuery::anything().with_owners(vec![OWNER_1.to_string()]);
    let found = search_pages(&mut p, &q).unwrap();
    assert_eq!(found.len(), 1);
    assert_eq!(found[0].owner(), OWNER_1);

    let q = PageQuery::anything().with_names(vec!["nothing".to_string()]);
    assert_eq!(search_pages(&mut p, &q).unwrap().len(), 0);

    let q = PageQuery::default().with_branches(vec![BRANCH_1.to_string()]);
    assert_eq!(search_pages(&mut p, &q).unwrap().len(), 2);
}

/// A scan cycle records only target branches that carry a commit id, and the
/// published snapshot answers page decisions accordingly.
#[test]
fn scan_cycle_shape() {
    let mut cycle = ScanCycle::begin(vec!["pages".to_string()]);
    cycle.record_branch("a", "site", "pages", Some("c1".to_string()));
    cycle.record_branch("a", "site", "main", Some("c2".to_string()));
    cycle.record_branch("b", "site", "pages", None);
    let snapshot = cycle.finish();

    let hit = PageLocation::new("a".to_string(), "site".to_string(), "pages".to_string());
    assert_eq!(snapshot.page_at_decision(&hit).unwrap(), "c1");

    let wrong_branch = PageLocation::new("a".to_string(), "site".to_string(), "main".to_string());
    assert_eq!(
        snapshot.page_at_decision(&wrong_branch).unwrap_err(),
        PageError::NotFound
    );

    let missing = PageLocation::new("b".to_string(), "site".to_string(), "pages".to_string());
    assert_eq!(
        snapshot.page_at_decision(&missing).unwrap_err(),
        PageError::ProviderError
    );

    assert_eq!(snapshot.locations().len(), 1);
}

/// An empty target list defaults to the single branch `pages`.
#[test]
fn scan_cycle_default_branch() {
    let mut cycle = ScanCycle::begin(Vec::new());
    cycle.record_branch("a", "site", "pages", Some("c1".to_string()));
    let snapshot = cycle.finish();
    let hit = PageLocation::new("a".to_string(), "site".to_string(), "pages".to_string());
    assert_eq!(snapshot.page_at_decision(&hit).unwrap(), "c1");
}

/// Error descriptions are stable.
#[test]
fn page_error_messages() {
    assert_eq!(PageError::NotFound.message(), "Not found");
    assert_eq!(PageError::ProviderError.message(), "Provider error");
}

/// Storing an asset twice for the same page replaces it and keeps one page.
#[test]
fn factory_overwrites_same_location() {
    let mut p = MemoryPageProviderFactory::new()
        .with_asset("a", "site", "pages", "/f.txt", MemoryAsset::from("one"))
        .with_asset("a", "site", "pages", "/f.txt", MemoryAsset::from("two"))
        .build()
        .unwrap();
    assert_eq!(p.pages().unwrap().len(), 1);
    let loc = PageLocation::new("a".to_string(), "site".to_string(), "pages".to_string());
    assert_eq!(p.get_asset(&loc, &"/f.txt".to_string()).unwrap().bytes(), b"two");
}

/// An empty provider holds no pages and finds nothing.
#[test]
fn empty_provider() {
    let mut p = MemoryPageProviderFactory::new().build().unwrap();
    assert_eq!(p.pages().unwrap().len(), 0);
    assert!(p.find_by_domains(&vec!["any.example".to_string()]).is_err());
    assert_eq!(p.default_branch(), "pages");
}

/// The branches in use follow the search results.
#[test]
fn branches_used_by_query() {
    let mut p = create_example_provider();
    let branches =
        pageshelf::pages::branches_used(&mut p, &PageQuery::anything()).unwrap();
    assert_eq!(branches.len(), 2);
    assert!(branches.iter().all(|b| b == "pages"));
}

/// Recording a location twice keeps one listing entry, with the last
/// recorded version deciding.
#[test]
fn scan_cycle_rerecord_dedups() {
    let mut cycle = ScanCycle::begin(vec!["pages".to_string()]);
    cycle.record_branch("a", "site", "pages", Some("c1".to_string()));
    cycle.record_branch("b", "site", "pages", Some("c9".to_string()));
    cycle.record_branch("a", "site", "pages", Some("c2".to_string()));
    let snapshot = cycle.finish();

    let listed = snapshot.locations();
    assert_eq!(listed.len(), 2);
    assert!(listed.contains(&PageLocation::new(
        "a".to_string(),
        "site".to_string(),
        "pages".to_string()
    )));
    assert!(listed.contains(&PageLocation::new(
        "b".to_string(),
        "site".to_string(),
        "pages".to_string()
    )));

    let hit = PageLocation::new("a".to_string(), "site".to_string(), "pages".to_string());
    assert_eq!(snapshot.page_at_decision(&hit).unwrap(), "c2");
}
