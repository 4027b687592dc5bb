//! Page locations and the errors page lookups can raise.

use vstd::prelude::*;

verus! {

/// Errors a page lookup can raise.
#[derive(Debug, PartialEq, Eq, Structural, Clone, Copy)]
pub enum PageError {
    /// The desired page wasn't found.
    NotFound,
    /// Something went wrong in the page provider.
    ProviderError,
}

impl PageError {
    /// A human-readable description of the error.
    pub fn message(&self) -> (r: &'static str)
        ensures
            self is NotFound ==> r@ == "Not found"@,
            self is ProviderError ==> r@ == "Provider error"@,
    {
        match self {
            PageError::NotFound => "Not found",
            PageError::ProviderError => "Provider error",
        }
    }
}

pub ghost struct PageLocationModel {
    pub owner: Seq<char>,
    pub name: Seq<char>,
    pub branch: Seq<char>,
}

/// The identity of one page: owner, repository name and branch.
#[derive(Clone, Debug, PartialEq, Eq)]
pub struct PageLocation {
    pub owner: String,
    pub name: String,
    pub branch: String,
}

impl View for PageLocation {
    type V = PageLocationModel;

    open spec fn view(&self) -> PageLocationModel {
        PageLocationModel { owner: self.owner@, name: self.name@, branch: self.branch@ }
    }
}

impl DeepView for PageLocation {
    type V = PageLocationModel;

    open spec fn deep_view(&self) -> PageLocationModel {
        self.view()
    }
}

impl PageLocation {
    pub fn new(owner: String, name: String, branch: String) -> (r: PageLocation)
        ensures
            r.owner == owner,
            r.name == name,
            r.branch == branch,
    {
        PageLocation { owner, name, branch }
    }
}

pub ghost struct PageAssetLocationModel {
    pub page: PageLocationModel,
    pub asset: Seq<char>,
}

/// One asset within one page; the asset path begins with `/`, and `/` alone
/// denotes the page root.
#[derive(Clone, Debug, PartialEq, Eq)]
pub struct PageAssetLocation {
    pub page: PageLocation,
    pub asset: String,
}

impl View for PageAssetLocation {
    type V = PageAssetLocationModel;

    open spec fn view(&self) -> PageAssetLocationModel {
        PageAssetLocationModel { page: self.page@, asset: self.asset@ }
    }
}

} // verus!
