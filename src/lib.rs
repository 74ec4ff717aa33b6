//! Extraction and resolution of API metadata from reflection-annotated
//! sources and declarative UI component files.
use vstd::prelude::*;

pub mod comment;
pub mod gen;
pub mod module;
pub mod order;
pub mod outform;
pub mod parse;
pub mod pattern;
pub mod qml;
pub mod resolver;
pub mod text;
pub mod typespec;

verus! {

} // verus!
