//! The values handed to the template collaborator: the dispatcher renders
//! built-in pages through templates, and these are the contexts they take.

use vstd::prelude::*;

verus! {

/// Identifier for the error template.
pub const TEMPLATE_ERROR: &'static str = "404.html";

/// Identifier for the index template.
pub const TEMPLATE_INDEX: &'static str = "index.html";

/// What the server tells templates about itself.
pub struct TemplateServerContext {
    pub name: String,
    pub about: String,
    pub url: Option<String>,
    pub icon_url: Option<String>,
    pub default_branch: String,
    pub version: String,
}

/// What the server tells templates about a page.
pub struct TemplatePageContext {
    pub owner: String,
    pub repo: String,
}

/// What the server tells templates about an error.
pub struct TemplateErrorContext {
    pub code: u16,
    pub message: String,
    pub about: String,
}

} // verus!
