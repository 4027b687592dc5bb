//! The scanner's snapshot: the pages discovered on the upstream forge, with
//! their current versions, restricted to the target branches. A scan cycle
//! gathers results one branch at a time and is published as a whole; the
//! decisions of the forge-backed source read the published snapshot.

use vstd::prelude::*;

use crate::page::{PageError, PageLocation, PageLocationModel};
use crate::strutil::vec_contains_string;

verus! {

/// What the scanner records of one repository branch.
pub struct ForgejoScannedRepo {
    /// The branch's current commit id.
    pub version: String,
}

/// The association-list model of scanned entries: the last entry decides.
pub open spec fn map_of_scanned(entries: Seq<(PageLocation, ForgejoScannedRepo)>) -> Map<
    PageLocationModel,
    Seq<char>,
>
    decreases entries.len(),
{
    if entries.len() == 0 {
        Map::empty()
    } else {
        map_of_scanned(entries.drop_last()).insert(entries.last().0@, entries.last().1.version@)
    }
}

proof fn lemma_map_of_scanned_props(entries: Seq<(PageLocation, ForgejoScannedRepo)>)
    ensures
        forall|k: PageLocationModel|
            #[trigger] map_of_scanned(entries).contains_key(k) <==> exists|i: int|
                0 <= i < entries.len() && entries[i].0@ == k,
        forall|i: int|
            0 <= i < entries.len() && (forall|j: int|
                i < j < entries.len() ==> entries[j].0@ != entries[i].0@) ==> map_of_scanned(
                entries,
            )[(#[trigger] entries[i]).0@] == entries[i].1.version@,
    decreases entries.len(),
{
    if entries.len() > 0 {
        let pre = entries.drop_last();
        lemma_map_of_scanned_props(pre);
        assert forall|k: PageLocationModel| #[trigger]
            map_of_scanned(entries).contains_key(k) implies exists|i: int|
            0 <= i < entries.len() && entries[i].0@ == k by {
            if k == entries.last().0@ {
                assert(entries[entries.len() - 1].0@ == k);
            } else {
                assert(map_of_scanned(pre).contains_key(k));
                let i = choose|i: int| 0 <= i < pre.len() && pre[i].0@ == k;
                assert(pre[i] == entries[i]);
                assert(entries[i].0@ == k);
            }
        }
        assert forall|k: PageLocationModel|
            (exists|i: int| 0 <= i < entries.len() && entries[i].0@ == k) implies #[trigger]
            map_of_scanned(entries).contains_key(k) by {
            let i = choose|i: int| 0 <= i < entries.len() && entries[i].0@ == k;
            if i < entries.len() - 1 {
                assert(pre[i] == entries[i]);
                assert(pre[i].0@ == k);
                assert(map_of_scanned(pre).contains_key(k));
            } else {
                assert(entries.last().0@ == k);
            }
        }
        assert forall|i: int|
            0 <= i < entries.len() && (forall|j: int|
                i < j < entries.len() ==> entries[j].0@ != entries[i].0@) implies map_of_scanned(
            entries,
        )[(#[trigger] entries[i]).0@] == entries[i].1.version@ by {
            if i < entries.len() - 1 {
                assert(entries[i].0@ != entries[entries.len() - 1].0@);
                assert forall|j: int| i < j < pre.len() implies pre[j].0@ != pre[i].0@ by {
                    assert(pre[j].0@ == entries[j].0@);
                }
                assert(map_of_scanned(pre)[pre[i].0@] == pre[i].1.version@);
                assert(pre[i].0@ == entries[i].0@);
            }
        }
    }
}

/// One scan cycle under construction: results are recorded repository by
/// repository, branch by branch, and published as a whole when the cycle
/// finishes.
pub struct ScanCycle {
    entries: Vec<(PageLocation, ForgejoScannedRepo)>,
    target_branches: Vec<String>,
}

impl ScanCycle {
    /// The target branches of this cycle.
    pub closed spec fn targets(&self) -> Seq<Seq<char>> {
        self.target_branches.deep_view()
    }

    /// The versions recorded so far.
    pub closed spec fn recorded(&self) -> Map<PageLocationModel, Seq<char>> {
        map_of_scanned(self.entries@)
    }

    /// Only target branches are recorded.
    pub closed spec fn wf(&self) -> bool {
        forall|i: int|
            0 <= i < self.entries@.len() ==> self.targets().contains(
                (#[trigger] self.entries@[i]).0@.branch,
            )
    }

    /// Begins a cycle over the given target branches; with none given, the
    /// single branch `pages` is targeted.
    pub fn begin(target_branches: Vec<String>) -> (r: ScanCycle)
        ensures
            r.wf(),
            r.recorded() == Map::<PageLocationModel, Seq<char>>::empty(),
            r.targets() == if target_branches.deep_view().len() == 0 {
                seq!["pages"@]
            } else {
                target_branches.deep_view()
            },
    {
        proof {
            reveal_strlit("pages");
        }
        let mut targets = target_branches;
        if targets.is_empty() {
            targets.push(String::from_str("pages"));
            proof {
                assert(targets.deep_view() =~= seq!["pages"@]);
            }
        }
        let entries: Vec<(PageLocation, ForgejoScannedRepo)> = Vec::new();
        ScanCycle { entries, target_branches: targets }
    }

    /// Records the outcome of fetching one branch of one repository: the
    /// branch's commit id, or nothing when the branch was missing or carried
    /// no commit id. Only target branches with a commit id are recorded.
    pub fn record_branch(
        &mut self,
        owner: &str,
        name: &str,
        branch: &str,
        commit_id: Option<String>,
    )
        requires
            old(self).wf(),
        ensures
            final(self).wf(),
            final(self).targets() == old(self).targets(),
            final(self).recorded() == ({
                let k = PageLocationModel { owner: owner@, name: name@, branch: branch@ };
                match commit_id {
                    Some(v) => if old(self).targets().contains(branch@) {
                        old(self).recorded().insert(k, v@)
                    } else {
                        old(self).recorded()
                    },
                    None => old(self).recorded(),
                }
            }),
    {
        let id = match commit_id {
            Some(v) => v,
            None => {
                return ;
            },
        };
        let branch_string = branch.to_owned();
        if !vec_contains_string(&self.target_branches, &branch_string) {
            return ;
        }
        let loc = PageLocation {
            owner: owner.to_owned(),
            name: name.to_owned(),
            branch: branch_string,
        };
        let ghost before = self.entries@;
        self.entries.push((loc, ForgejoScannedRepo { version: id }));
        proof {
            assert(self.entries@.drop_last() =~= before);
        }
    }

    /// Publishes the cycle's results as a snapshot.
    pub fn finish(self) -> (r: ScannerSnapshot)
        requires
            self.wf(),
        ensures
            r.wf(),
            r.versions() == self.recorded(),
            r.targets() == self.targets(),
    {
        ScannerSnapshot { entries: self.entries, target_branches: self.target_branches }
    }
}

/// The scanner's published view: the pages available upstream, with their
/// versions, restricted to the target branches.
pub struct ScannerSnapshot {
    entries: Vec<(PageLocation, ForgejoScannedRepo)>,
    target_branches: Vec<String>,
}

impl ScannerSnapshot {
    /// The versions by location.
    pub closed spec fn versions(&self) -> Map<PageLocationModel, Seq<char>> {
        map_of_scanned(self.entries@)
    }

    /// The branches the scanner targets.
    pub closed spec fn targets(&self) -> Seq<Seq<char>> {
        self.target_branches.deep_view()
    }

    /// Only target branches appear.
    pub closed spec fn wf(&self) -> bool {
        forall|i: int|
            0 <= i < self.entries@.len() ==> self.targets().contains(
                (#[trigger] self.entries@[i]).0@.branch,
            )
    }

    /// An empty snapshot, as before the first scan cycle completes.
    pub fn new(target_branches: Vec<String>) -> (r: ScannerSnapshot)
        ensures
            r.wf(),
            r.versions() == Map::<PageLocationModel, Seq<char>>::empty(),
            r.targets() == target_branches.deep_view(),
    {
        let entries: Vec<(PageLocation, ForgejoScannedRepo)> = Vec::new();
        ScannerSnapshot { entries, target_branches }
    }

    /// The decision of the forge-backed source: a branch outside the target
    /// set is not found; a location the snapshot does not hold is a provider
    /// fault, since the snapshot is authoritative between scans; a hit
    /// yields the recorded version.
    pub fn page_at_decision(&self, loc: &PageLocation) -> (r: Result<String, PageError>)
        ensures
            match r {
                Ok(v) => self.versions().contains_key(loc@) && v@ == self.versions()[loc@],
                Err(PageError::NotFound) => !self.targets().contains(loc@.branch),
                Err(PageError::ProviderError) => self.targets().contains(loc@.branch)
                    && !self.versions().contains_key(loc@),
            },
    {
        proof {
            lemma_map_of_scanned_props(self.entries@);
        }
        if !vec_contains_string(&self.target_branches, &loc.branch) {
            return Err(PageError::NotFound);
        }
        let mut i: usize = self.entries.len();
        while i > 0
            invariant
                i <= self.entries@.len(),
                forall|j: int| i <= j < self.entries@.len() ==> self.entries@[j].0@ != loc@,
            decreases i,
        {
            i -= 1;
            let e = &self.entries[i];
            if e.0.owner.eq(&loc.owner) && e.0.name.eq(&loc.name) && e.0.branch.eq(&loc.branch) {
                proof {
                    lemma_map_of_scanned_props(self.entries@);
                    assert(self.entries@[i as int].0@ == loc@);
                    assert forall|j: int|
                        (i as int) < j < self.entries@.len() implies self.entries@[j].0@
                        != self.entries@[i as int].0@ by {}
                }
                return Ok(e.1.version.clone());
            }
        }
        proof {
            lemma_map_of_scanned_props(self.entries@);
        }
        Err(PageError::ProviderError)
    }

    /// Whether a later entry records the same location again.
    fn has_later_entry(&self, i: usize) -> (r: bool)
        requires
            i < self.entries@.len(),
        ensures
            r == exists|j: int|
                i < j < self.entries@.len() && (#[trigger] self.entries@[j]).0@
                    == self.entries@[i as int].0@,
    {
        let n = self.entries.len();
        let mut j: usize = i + 1;
        while j < n
            invariant
                i < j <= n,
                n == self.entries@.len(),
                forall|t: int|
                    i < t < j ==> (#[trigger] self.entries@[t]).0@ != self.entries@[i as int].0@,
            decreases n - j,
        {
            let a = &self.entries[j].0;
            let b = &self.entries[i].0;
            if a.owner.eq(&b.owner) && a.name.eq(&b.name) && a.branch.eq(&b.branch) {
                proof {
                    assert(self.entries@[j as int].0@ == self.entries@[i as int].0@);
                }
                return true;
            }
            j += 1;
        }
        proof {
            if exists|t: int|
                i < t < self.entries@.len() && (#[trigger] self.entries@[t]).0@
                    == self.entries@[i as int].0@ {
                let t = choose|t: int|
                    i < t < self.entries@.len() && (#[trigger] self.entries@[t]).0@
                        == self.entries@[i as int].0@;
                assert(self.entries@[t].0@ != self.entries@[i as int].0@);
            }
        }
        false
    }

    /// The pages the snapshot holds: exactly one entry per location of the
    /// snapshot — the last entry for a location decides, and earlier
    /// duplicates are skipped.
    pub fn locations(&self) -> (r: Vec<PageLocation>)
        ensures
            forall|k: PageLocationModel|
                #[trigger] self.versions().contains_key(k) <==> r.deep_view().contains(k),
            forall|x: int, y: int|
                0 <= x < y < r.deep_view().len() ==> r.deep_view()[x] != r.deep_view()[y],
    {
        proof {
            lemma_map_of_scanned_props(self.entries@);
        }
        let ghost es = self.entries@;
        let mut out: Vec<PageLocation> = Vec::new();
        let mut i: usize = 0;
        while i < self.entries.len()
            invariant
                es == self.entries@,
                i <= es.len(),
                forall|x: int|
                    0 <= x < out.len() ==> exists|y: int|
                        0 <= y < i && (#[trigger] out.deep_view()[x]) == es[y].0@ && (forall|
                            j: int,
                        |
                            y < j < es.len() ==> es[j].0@ != es[y].0@),
                forall|y: int|
                    0 <= y < i && (forall|j: int|
                        y < j < es.len() ==> es[j].0@ != (#[trigger] es[y]).0@) ==> exists|x: int|
                        0 <= x < out.len() && (#[trigger] out.deep_view()[x]) == es[y].0@,
                forall|x1: int, x2: int|
                    0 <= x1 < x2 < out.len() ==> (#[trigger] out.deep_view()[x1]) != (
                    #[trigger] out.deep_view()[x2]),
            decreases es.len() - i,
        {
            if !self.has_later_entry(i) {
                let e = &self.entries[i];
                let loc = PageLocation {
                    owner: e.0.owner.clone(),
                    name: e.0.name.clone(),
                    branch: e.0.branch.clone(),
                };
                let ghost prev = out.deep_view();
                out.push(loc);
                proof {
                    assert(out.deep_view() =~= prev.push(es[i as int].0@));
                    assert forall|x1: int, x2: int|
                        0 <= x1 < x2 < out.len() implies (#[trigger] out.deep_view()[x1]) != (
                    #[trigger] out.deep_view()[x2]) by {
                        if x2 == out.len() - 1 {
                            let y1 = choose|y1: int|
                                0 <= y1 < i && (#[trigger] prev[x1]) == es[y1].0@ && (forall|
                                    j: int,
                                |
                                    y1 < j < es.len() ==> es[j].0@ != es[y1].0@);
                            if prev[x1] == es[i as int].0@ {
                                assert(es[i as int].0@ != es[y1].0@);
                            }
                        }
                    }
                    assert forall|y: int|
                        0 <= y < i + 1 && (forall|j: int|
                            y < j < es.len() ==> es[j].0@ != (#[trigger] es[y]).0@)
                        implies exists|x: int|
                        0 <= x < out.len() && (#[trigger] out.deep_view()[x]) == es[y].0@ by {
                        if y < i {
                            let x = choose|x: int|
                                0 <= x < prev.len() && (#[trigger] prev[x]) == es[y].0@;
                            assert(out.deep_view()[x] == es[y].0@);
                        } else {
                            assert(out.deep_view()[out.len() - 1] == es[i as int].0@);
                        }
                    }
                }
            } else {
                proof {
                    let jw = choose|j: int|
                        i < j < es.len() && (#[trigger] es[j]).0@ == es[i as int].0@;
                    assert forall|y: int|
                        0 <= y < i + 1 && (forall|j: int|
                            y < j < es.len() ==> es[j].0@ != (#[trigger] es[y]).0@)
                        implies exists|x: int|
                        0 <= x < out.len() && (#[trigger] out.deep_view()[x]) == es[y].0@ by {
                        if y == i {
                            assert(es[jw].0@ == es[y].0@);
                        }
                    }
                }
            }
            i += 1;
        }
        proof {
            lemma_map_of_scanned_props(es);
            assert forall|k: PageLocationModel| #[trigger]
                self.versions().contains_key(k) implies r_contains(out.deep_view(), k) by {
                let i0 = choose|i0: int| 0 <= i0 < es.len() && es[i0].0@ == k;
                let y = lemma_exists_last(es, i0);
                let x = choose|x: int|
                    0 <= x < out.len() && (#[trigger] out.deep_view()[x]) == es[y].0@;
                assert(out.deep_view()[x] == k);
            }
            assert forall|k: PageLocationModel|
                r_contains(out.deep_view(), k) implies #[trigger] self.versions().contains_key(
                k,
            ) by {
                let x = choose|x: int| 0 <= x < out.deep_view().len() && out.deep_view()[x] == k;
                let y = choose|y: int|
                    0 <= y < es.len() && (#[trigger] out.deep_view()[x]) == es[y].0@ && (
                    forall|j: int| y < j < es.len() ==> es[j].0@ != es[y].0@);
                assert(es[y].0@ == k);
            }
            assert forall|k: PageLocationModel|
                #[trigger] self.versions().contains_key(k) <==> out.deep_view().contains(
                k,
            ) by {
                if self.versions().contains_key(k) {
                    assert(r_contains(out.deep_view(), k));
                    let x = choose|x: int|
                        0 <= x < out.deep_view().len() && out.deep_view()[x] == k;
                    assert(out.deep_view().contains(k));
                }
                if out.deep_view().contains(k) {
                    let x = choose|x: int|
                        0 <= x < out.deep_view().len() && out.deep_view()[x] == k;
                    assert(r_contains(out.deep_view(), k));
                }
            }
        }
        out
    }
}

/// The sequence holds the location at some index.
pub open spec fn r_contains(s: Seq<PageLocationModel>, k: PageLocationModel) -> bool {
    exists|x: int| 0 <= x < s.len() && s[x] == k
}

/// Behind any entry stands a final entry for the same location: the one the
/// snapshot's model keeps. Returns its index.
proof fn lemma_exists_last(entries: Seq<(PageLocation, ForgejoScannedRepo)>, i: int) -> (y: int)
    requires
        0 <= i < entries.len(),
    ensures
        i <= y < entries.len(),
        entries[y].0@ == entries[i].0@,
        forall|j: int| y < j < entries.len() ==> (#[trigger] entries[j]).0@ != entries[y].0@,
    decreases entries.len() - i,
{
    if exists|j: int| i < j < entries.len() && (#[trigger] entries[j]).0@ == entries[i].0@ {
        let j = choose|j: int|
            i < j < entries.len() && (#[trigger] entries[j]).0@ == entries[i].0@;
        lemma_exists_last(entries, j)
    } else {
        assert(forall|j: int|
            i < j < entries.len() ==> (#[trigger] entries[j]).0@ != entries[i].0@);
        i
    }
}

} // verus!
