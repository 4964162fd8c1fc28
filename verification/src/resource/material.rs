//! Descriptions of materials.
//!
//! Colours are linear RGBA; they and all factors are single-precision floats, held by their
//! IEEE 754 bit patterns.
use vstd::prelude::*;
use vstd::string::*;

use crate::resource::image::ImageBuilder;
use crate::resource::mesh;
use crate::resource::mesh::{KeyContent, KeyParts};

verus! {

/// How to obtain a material.
#[derive(Debug, Clone, PartialEq, Eq)]
pub enum MaterialBuilder {
    /// Load it from the asset at a path.
    AssetPath { path: String },
    /// Build it from a description.
    Pbr(PbrMaterial),
}

/// A physically based material.
#[derive(Debug, Clone, PartialEq, Eq)]
pub struct PbrMaterial {
    pub base_color: [u32; 4],
    pub base_color_texture: Option<ImageBuilder>,
    pub normal_map_texture: Option<ImageBuilder>,
    pub emissive: [u32; 4],
    pub metallic: u32,
    pub roughness: u32,
    pub reflectance: u32,
    pub ior: u32,
    pub clearcoat: u32,
    pub clearcoat_roughness: u32,
}

/// The bit pattern of the float 1.0.
pub const ONE: u32 = 0x3f80_0000;

/// The bit pattern of the float 0.5.
pub const HALF: u32 = 0x3f00_0000;

/// The bit pattern of the float 1.5.
pub const ONE_AND_A_HALF: u32 = 0x3fc0_0000;

/// The bit pattern of negative infinity, above which the patterns of negative NaNs lie.
pub const NEGATIVE_INFINITY: u32 = 0xff80_0000;

impl Default for PbrMaterial {
    /// White, not metallic, half rough, without textures.
    fn default() -> (material: Self)
        ensures
            material.base_color@ == seq![ONE, ONE, ONE, ONE],
            material.base_color_texture is None,
            material.normal_map_texture is None,
            material.emissive@ == seq![0u32, 0u32, 0u32, ONE],
            material.metallic == 0,
            material.roughness == HALF,
            material.reflectance == HALF,
            material.ior == ONE_AND_A_HALF,
            material.clearcoat == 0,
            material.clearcoat_roughness == 0,
    {
        PbrMaterial {
            base_color: [ONE, ONE, ONE, ONE],
            base_color_texture: None,
            normal_map_texture: None,
            emissive: [0, 0, 0, ONE],
            metallic: 0,
            roughness: HALF,
            reflectance: HALF,
            ior: ONE_AND_A_HALF,
            clearcoat: 0,
            clearcoat_roughness: 0,
        }
    }
}

/// Whether a float is below 1.0: it is negative, or its pattern is below that of 1.0. NaN is not.
pub open spec fn below_one(bits: u32) -> bool {
    bits < ONE || mesh::NEGATIVE_ZERO <= bits <= NEGATIVE_INFINITY
}

/// Whether a float is below 1.0.
pub fn is_below_one(bits: u32) -> (below: bool)
    ensures
        below == below_one(bits),
{
    bits < ONE || (mesh::NEGATIVE_ZERO <= bits && bits <= NEGATIVE_INFINITY)
}

impl PbrMaterial {
    /// Whether what lies behind the material shows through: its alpha is below 1.0.
    pub fn blends(&self) -> (blends: bool)
        ensures
            blends == below_one(self.base_color@[3]),
    {
        is_below_one(self.base_color[3])
    }
}

/// An optional image in a key: whether it is there, and its path.
pub open spec fn image_content(image: Option<ImageBuilder>) -> (bool, Seq<char>) {
    match image {
        Some(b) => (true, b@),
        None => (false, Seq::empty()),
    }
}

/// What the key of a material is computed from.
#[derive(Debug, PartialEq, Eq, Hash)]
pub struct MaterialKeyParts {
    pub own: KeyParts,
    /// Whether there is a base colour texture, and its path.
    pub base_color_texture: (bool, String),
    /// Whether there is a normal map, and its path.
    pub normal_map_texture: (bool, String),
}

/// The content of [`MaterialKeyParts`].
#[verifier::ext_equal]
pub struct MaterialKeyContent {
    pub own: KeyContent,
    pub base_color_texture: (bool, Seq<char>),
    pub normal_map_texture: (bool, Seq<char>),
}

impl View for MaterialKeyParts {
    type V = MaterialKeyContent;

    open spec fn view(&self) -> MaterialKeyContent {
        MaterialKeyContent {
            own: self.own@,
            base_color_texture: (self.base_color_texture.0, self.base_color_texture.1@),
            normal_map_texture: (self.normal_map_texture.0, self.normal_map_texture.1@),
        }
    }
}

impl PbrMaterial {
    /// The numbers of the material, in order.
    pub open spec fn numbers(self) -> Seq<u32> {
        self.base_color@ + self.emissive@ + seq![
            self.metallic,
            self.roughness,
            self.reflectance,
            self.ior,
            self.clearcoat,
            self.clearcoat_roughness,
        ]
    }
}

impl MaterialBuilder {
    /// What the key of the description is computed from.
    pub open spec fn key_content(self) -> MaterialKeyContent {
        match self {
            MaterialBuilder::AssetPath { path } => MaterialKeyContent {
                own: KeyContent { kind: 0, path: path@, words: Seq::empty() },
                base_color_texture: (false, Seq::empty()),
                normal_map_texture: (false, Seq::empty()),
            },
            MaterialBuilder::Pbr(pbr) => MaterialKeyContent {
                own: KeyContent {
                    kind: 1,
                    path: Seq::empty(),
                    words: pbr.numbers().map_values(|w: u32| mesh::key_word(w)),
                },
                base_color_texture: image_content(pbr.base_color_texture),
                normal_map_texture: image_content(pbr.normal_map_texture),
            },
        }
    }

    /// What the key of the description is computed from.
    pub fn key_parts(&self) -> (parts: MaterialKeyParts)
        ensures
            parts@ == self.key_content(),
    {
        match self {
            MaterialBuilder::AssetPath { path } => {
                let parts = MaterialKeyParts {
                    own: KeyParts { kind: 0, path: path.clone(), words: Vec::new() },
                    base_color_texture: (false, String::new()),
                    normal_map_texture: (false, String::new()),
                };
                assert(parts@ =~= self.key_content());
                parts
            },
            MaterialBuilder::Pbr(pbr) => {
                let mut words: Vec<u32> = Vec::new();
                push_color(&mut words, &pbr.base_color);
                push_color(&mut words, &pbr.emissive);
                words.push(mesh::to_key_word(pbr.metallic));
                words.push(mesh::to_key_word(pbr.roughness));
                words.push(mesh::to_key_word(pbr.reflectance));
                words.push(mesh::to_key_word(pbr.ior));
                words.push(mesh::to_key_word(pbr.clearcoat));
                words.push(mesh::to_key_word(pbr.clearcoat_roughness));
                let parts = MaterialKeyParts {
                    own: KeyParts { kind: 1, path: String::new(), words },
                    base_color_texture: image_part(&pbr.base_color_texture),
                    normal_map_texture: image_part(&pbr.normal_map_texture),
                };
                proof {
                    assert(words@ =~= pbr.numbers().map_values(|w: u32| mesh::key_word(w)));
                    assert(parts@ =~= self.key_content());
                }
                parts
            },
        }
    }
}

fn push_color(words: &mut Vec<u32>, color: &[u32; 4])
    ensures
        final(words)@ == old(words)@ + color@.map_values(|w: u32| mesh::key_word(w)),
{
    words.push(mesh::to_key_word(color[0]));
    words.push(mesh::to_key_word(color[1]));
    words.push(mesh::to_key_word(color[2]));
    words.push(mesh::to_key_word(color[3]));
    assert(words@ =~= old(words)@ + color@.map_values(|w: u32| mesh::key_word(w)));
}

fn image_part(image: &Option<ImageBuilder>) -> (part: (bool, String))
    ensures
        (part.0, part.1@) == image_content(*image),
{
    match image {
        Some(b) => (true, b.path().to_owned()),
        None => (false, String::new()),
    }
}

/// Materials with equal numbers and textures have the same key, and no others do.
pub proof fn equal_materials_have_one_key(a: PbrMaterial, b: PbrMaterial)
    ensures
        MaterialBuilder::Pbr(a).key_content() == MaterialBuilder::Pbr(b).key_content() <==> (
        forall|i: int|
            0 <= i < a.numbers().len() ==> mesh::same_float(
                #[trigger] a.numbers()[i],
                b.numbers()[i],
            )) && image_content(a.base_color_texture) == image_content(b.base_color_texture)
            && image_content(a.normal_map_texture) == image_content(b.normal_map_texture),
{
    let x = MaterialBuilder::Pbr(a).key_content();
    let y = MaterialBuilder::Pbr(b).key_content();
    if x == y {
        assert forall|i: int| 0 <= i < a.numbers().len() implies mesh::same_float(
            #[trigger] a.numbers()[i],
            b.numbers()[i],
        ) by {
            assert(x.own.words[i] == y.own.words[i]);
        }
    }
    if (forall|i: int|
        0 <= i < a.numbers().len() ==> mesh::same_float(
            #[trigger] a.numbers()[i],
            b.numbers()[i],
        )) && image_content(a.base_color_texture) == image_content(b.base_color_texture)
        && image_content(a.normal_map_texture) == image_content(b.normal_map_texture) {
        assert forall|i: int| 0 <= i < x.own.words.len() implies x.own.words[i]
            == y.own.words[i] by {
            assert(mesh::same_float(a.numbers()[i], b.numbers()[i]));
        }
        assert(x =~= y);
    }
}

/// The floats that a material starts from, and those that its transparency is decided by, are
/// these: 1, one half, one and a half, and negative infinity.
pub proof fn material_floats_are_these()
    ensures
        ONE == 0x3f80_0000,
        HALF == 0x3f00_0000,
        ONE_AND_A_HALF == 0x3fc0_0000,
        NEGATIVE_INFINITY == 0xff80_0000,
{
}

/// Floats below 1.0 are those from zero up to it and all negative numbers; what is not a number
/// is not below it.
pub proof fn floats_below_one(bits: u32)
    ensures
        bits < 0x8000_0000 ==> (below_one(bits) <==> bits < 0x3f80_0000),
        0x8000_0000 <= bits <= 0xff80_0000 ==> below_one(bits),
        bits > 0xff80_0000 ==> !below_one(bits),
{
}

/// Materials share a key exactly if they are alike: assets by their paths, described materials by
/// each of their numbers and both of their textures; an asset never shares one with a described
/// material.
pub proof fn materials_share_a_key_exactly_if_alike(a: MaterialBuilder, b: MaterialBuilder)
    ensures
        a.key_content() == b.key_content() <==> match (a, b) {
            (MaterialBuilder::AssetPath { path: p }, MaterialBuilder::AssetPath { path: q }) => p@
                == q@,
            (MaterialBuilder::Pbr(x), MaterialBuilder::Pbr(y)) => {
                &&& mesh::same_float(x.base_color@[0], y.base_color@[0])
                &&& mesh::same_float(x.base_color@[1], y.base_color@[1])
                &&& mesh::same_float(x.base_color@[2], y.base_color@[2])
                &&& mesh::same_float(x.base_color@[3], y.base_color@[3])
                &&& mesh::same_float(x.emissive@[0], y.emissive@[0])
                &&& mesh::same_float(x.emissive@[1], y.emissive@[1])
                &&& mesh::same_float(x.emissive@[2], y.emissive@[2])
                &&& mesh::same_float(x.emissive@[3], y.emissive@[3])
                &&& mesh::same_float(x.metallic, y.metallic)
                &&& mesh::same_float(x.roughness, y.roughness)
                &&& mesh::same_float(x.reflectance, y.reflectance)
                &&& mesh::same_float(x.ior, y.ior)
                &&& mesh::same_float(x.clearcoat, y.clearcoat)
                &&& mesh::same_float(x.clearcoat_roughness, y.clearcoat_roughness)
                &&& same_image(x.base_color_texture, y.base_color_texture)
                &&& same_image(x.normal_map_texture, y.normal_map_texture)
            },
            _ => false,
        },
{
    match (a, b) {
        (MaterialBuilder::AssetPath { path: p }, MaterialBuilder::AssetPath { path: q }) => {
            assert(a.key_content().own.path == p@);
            assert(b.key_content().own.path == q@);
        },
        (MaterialBuilder::Pbr(x), MaterialBuilder::Pbr(y)) => {
            equal_materials_have_one_key(x, y);
            let m = x.numbers();
            let n = y.numbers();
            assert(m.len() == 14 && n.len() == 14);
            assert(m[0] == x.base_color@[0] && m[1] == x.base_color@[1]);
            assert(m[2] == x.base_color@[2] && m[3] == x.base_color@[3]);
            assert(m[4] == x.emissive@[0] && m[5] == x.emissive@[1]);
            assert(m[6] == x.emissive@[2] && m[7] == x.emissive@[3]);
            assert(m[8] == x.metallic && m[9] == x.roughness && m[10] == x.reflectance);
            assert(m[11] == x.ior && m[12] == x.clearcoat && m[13] == x.clearcoat_roughness);
            assert(n[0] == y.base_color@[0] && n[1] == y.base_color@[1]);
            assert(n[2] == y.base_color@[2] && n[3] == y.base_color@[3]);
            assert(n[4] == y.emissive@[0] && n[5] == y.emissive@[1]);
            assert(n[6] == y.emissive@[2] && n[7] == y.emissive@[3]);
            assert(n[8] == y.metallic && n[9] == y.roughness && n[10] == y.reflectance);
            assert(n[11] == y.ior && n[12] == y.clearcoat && n[13] == y.clearcoat_roughness);
        },
        _ => {},
    }
}

/// Whether both images are missing, or both are there and come from one path.
pub open spec fn same_image(a: Option<ImageBuilder>, b: Option<ImageBuilder>) -> bool {
    match (a, b) {
        (Some(ImageBuilder::AssetPath { path: p }), Some(ImageBuilder::AssetPath { path: q })) => p@
            == q@,
        (None, None) => true,
        _ => false,
    }
}

/// A material lets what lies behind it show through exactly if its alpha, the fourth number of its
/// base colour, is below 1.0; the default material does not.
pub proof fn materials_blend_by_their_alpha(
    material: &PbrMaterial,
    blends: bool,
    plain: PbrMaterial,
    plain_blends: bool,
)
    requires
        call_ensures(PbrMaterial::blends, (material,), blends),
        call_ensures(PbrMaterial::default, (), plain),
        call_ensures(PbrMaterial::blends, (&plain,), plain_blends),
    ensures
        material.base_color@[3] < 0x8000_0000 ==> (blends <==> material.base_color@[3]
            < 0x3f80_0000),
        !plain_blends,
{
    floats_below_one(material.base_color@[3]);
    floats_below_one(plain.base_color@[3]);
}

/// The default material is white, glows not at all, is not metallic, half rough and half
/// reflecting, refracts by 1.5, has no clear coat and no textures.
pub proof fn the_default_material_is_plain(plain: PbrMaterial, i: int)
    requires
        call_ensures(PbrMaterial::default, (), plain),
    ensures
        0 <= i < 4 ==> plain.base_color@[i] == 0x3f80_0000,
        0 <= i < 3 ==> plain.emissive@[i] == 0,
        plain.emissive@[3] == 0x3f80_0000,
        plain.metallic == 0,
        plain.roughness == 0x3f00_0000,
        plain.reflectance == 0x3f00_0000,
        plain.ior == 0x3fc0_0000,
        plain.clearcoat == 0,
        plain.clearcoat_roughness == 0,
        plain.base_color_texture is None,
        plain.normal_map_texture is None,
{
}

} // verus!
