//! A GitHub-Flavored Markdown serializer for a resolved document model, with
//! its rendering, note numbering and metadata front matter specified and
//! proved.
use vstd::prelude::*;

pub mod text;
pub mod model;
pub mod inline;
pub mod marker;
pub mod blocks;
pub mod notes;
pub mod front_matter;
pub mod markdown;
