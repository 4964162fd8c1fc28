//! Components that show a scene.
use vstd::prelude::*;

verus! {

/// Shows the scene of an asset at an entity.
#[derive(Debug, Clone, PartialEq, Eq, Hash)]
pub struct SceneRender {
    /// The path of the asset, such as `models/tree.glb#Scene0`.
    pub asset: String,
}

impl Default for SceneRender {
    /// No asset.
    fn default() -> (scene: Self)
        ensures
            scene.asset@.len() == 0,
    {
        SceneRender { asset: String::new() }
    }
}

} // verus!
