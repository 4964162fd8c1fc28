//! Descriptions of images.
use vstd::prelude::*;

verus! {

/// How to obtain an image.
#[derive(Debug, Clone, PartialEq, Eq, Hash)]
pub enum ImageBuilder {
    /// Load it from the asset at a path.
    AssetPath { path: String },
}

impl View for ImageBuilder {
    type V = Seq<char>;

    open spec fn view(&self) -> Seq<char> {
        match self {
            ImageBuilder::AssetPath { path } => path@,
        }
    }
}

impl ImageBuilder {
    /// The path of the asset.
    pub fn path(&self) -> (path: &str)
        ensures
            path@ == self@,
    {
        match self {
            ImageBuilder::AssetPath { path } => path.as_str(),
        }
    }
}

} // verus!
