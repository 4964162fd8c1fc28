//! Components that show a mesh.
use vstd::prelude::*;

use crate::resource::material::{MaterialBuilder, PbrMaterial};
use crate::resource::mesh::MeshBuilder;

verus! {

/// Shows a mesh with a material at an entity.
#[derive(Debug, Clone, PartialEq, Eq)]
pub struct Mesh3dRender {
    pub mesh: MeshBuilder,
    pub material: MaterialBuilder,
}

/// The bit pattern of the single 1.0.
pub const ONE: u32 = 0x3f80_0000;

fn default_material() -> (material: MaterialBuilder)
    ensures
        material is Pbr,
        call_ensures(PbrMaterial::default, (), material->Pbr_0),
{
    MaterialBuilder::Pbr(PbrMaterial::default())
}

impl Default for Mesh3dRender {
    /// A unit cube of the default material.
    fn default() -> (shown: Self)
        ensures
            shown.mesh is Cube,
            shown.mesh->Cube_size@ == seq![ONE, ONE, ONE],
            shown.material is Pbr,
            call_ensures(PbrMaterial::default, (), shown.material->Pbr_0),
    {
        let size: [u32; 3] = [ONE, ONE, ONE];
        assert(size@ =~= seq![ONE, ONE, ONE]);
        Mesh3dRender { mesh: MeshBuilder::Cube { size }, material: default_material() }
    }
}

/// What is shown by default is a cube of unit size, in the default material.
pub proof fn a_unit_cube_is_shown_by_default(shown: Mesh3dRender, i: int)
    requires
        call_ensures(Mesh3dRender::default, (), shown),
    ensures
        shown.mesh is Cube,
        0 <= i < 3 ==> shown.mesh->Cube_size@[i] == 0x3f80_0000,
        shown.material is Pbr,
        shown.material->Pbr_0.base_color@[3] == 0x3f80_0000,
        shown.material->Pbr_0.roughness == 0x3f00_0000,
{
}

} // verus!
