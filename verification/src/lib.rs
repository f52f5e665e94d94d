//! Structural clean-up passes for SVG-like document trees.
//!
//! A [`document::Document`] is a forest of elements stored in document
//! order, each element carrying its depth.  Every pass of this crate
//! takes a well-formed document (unique identifiers, no dangling link,
//! proper nesting) to a well-formed document, and says exactly which.
//!
//! * [`element`]: elements, attributes and their mathematical values.
//! * [`tree`]: what a document is as a sequence of element values.
//! * [`edit`]: the edits passes are made of, and what they preserve.
//! * [`document`]: the document type and its queries.
//! * [`ident`]: allocation of the lowest-numbered unused identifier.
//! * [`merge`]: merging of equal definitions into shared ones.
//! * [`flatten`]: removal of definition containers.
//! * [`pipeline`]: the order of passes, and cleaning as a whole.
//! * [`render`]: removing containers does not change what is rendered.
//! * [`place`]: where elements stand after flattening.
//! * [`settle`], [`remerge`]: when a second run of a pass changes
//!   nothing.
pub mod element;
pub mod error;
pub mod tree;
pub mod edit;
pub mod document;
pub mod ident;
pub mod flatten;
pub mod merge;
pub mod pipeline;
pub mod render;
pub mod settle;
pub mod remerge;
pub mod place;
