//! A verified core for a read-only "Pages" gateway: resolving request URLs to
//! page locations, looking assets up through layered page sources, and keeping
//! a version-keyed cache consistent with its upstream.

pub mod asset;
pub mod cache;
pub mod cache_layer;
pub mod conf;
pub mod dispatch;
pub mod page;
pub mod pages;
pub mod resolver;
pub mod scanner;
pub mod strutil;
pub mod templates;
pub mod urls;
