//! Crate credits: from the metadata of a package and its dependency graph to
//! the list of the dependencies that the package uses, each with the context
//! it is used in, and to the page that shows them.
//!
//! - [`context`]: the flags of an edge, and how a declaration is classified.
//! - [`load`]: from the identities of the metadata to a graph of numbered
//!   nodes.
//! - [`graph`]: what a walk from the root reaches.
//! - [`resolve`]: the used nodes and their flags.
//! - [`tree`]: narrowing the graph by the listing of the tree command.
//! - [`cargo`]: from packages and flags to dependencies; the two payloads
//!   taken together.
//! - [`credits`]: the ordered list, and what the result with all features
//!   adds to it.
//! - [`pkg`], [`version`], [`order`]: names, versions and their order.
//! - [`text`], [`author`], [`license`]: the texts of a package, tidied.
//! - [`page`]: the credits page.
//! - [`query`]: the commands that give the metadata.
//! - [`keyword`], [`manifest`], [`meta`], [`parts`]: what a manifest says of
//!   the commands of a program, held to its rules and handed out to the
//!   commands.
//! - [`bash`], [`man`], [`pack`]: the completion script and the manual pages.
//! - [`list`], [`path`], [`err`]: ordered lists of texts, paths as they are
//!   shown, and the errors.

pub mod author;
pub mod bash;
pub mod cargo;
pub mod context;
pub mod credits;
pub mod err;
pub mod graph;
pub mod keyword;
pub mod license;
pub mod list;
pub mod load;
pub mod man;
pub mod manifest;
pub mod meta;
pub mod order;
pub mod pack;
pub mod page;
pub mod parts;
pub mod path;
pub mod pkg;
pub mod query;
pub mod resolve;
pub mod text;
pub mod tree;
pub mod version;
