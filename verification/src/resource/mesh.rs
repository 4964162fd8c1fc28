//! Descriptions of meshes.
//!
//! Lengths are single-precision floats in world units, held by their IEEE 754 bit patterns.
use vstd::prelude::*;
use vstd::string::*;

verus! {

/// How to obtain a mesh.
#[derive(Debug, Clone, PartialEq, Eq)]
pub enum MeshBuilder {
    /// Load it from the asset at a path.
    AssetPath { path: String },
    /// A box, by width, height and depth.
    Cube { size: [u32; 3] },
    Sphere { radius: u32 },
    Cylinder { radius: u32, height: u32 },
    /// A capsule, by the length of its cylindrical part.
    Capsule { radius: u32, length: u32 },
    Cone { radius: u32, height: u32 },
    ConicalFrustum { radius_top: u32, radius_bottom: u32, height: u32 },
    /// A torus, by the radius of its tube and its overall radius.
    Torus { inner_radius: u32, outer_radius: u32 },
    /// A plane, by half its extents.
    Plane { half_extents: [u32; 2] },
    /// A tetrahedron, by the edge of the cube around it.
    Tetrahedron { size: u32 },
}

/// The bit pattern of the float -0.0.
pub const NEGATIVE_ZERO: u32 = 0x8000_0000;

/// The bits by which a float counts in a key: those of 0.0 for -0.0, which is equal to it.
pub open spec fn key_word(bits: u32) -> u32 {
    if bits == NEGATIVE_ZERO {
        0
    } else {
        bits
    }
}

/// Whether two floats, neither of them NaN, are equal.
pub open spec fn same_float(a: u32, b: u32) -> bool {
    a == b || (a % NEGATIVE_ZERO == 0 && b % NEGATIVE_ZERO == 0)
}

/// The bits by which a float counts in a key.
pub fn to_key_word(bits: u32) -> (word: u32)
    ensures
        word == key_word(bits),
{
    if bits == NEGATIVE_ZERO {
        0
    } else {
        bits
    }
}

/// Floats that are not NaN count in a key by the same bits exactly if they are equal.
pub proof fn equal_floats_have_one_key_word(a: u32, b: u32)
    ensures
        key_word(a) == key_word(b) <==> same_float(a, b),
{
}

/// What the key of a description is computed from.
#[derive(Debug, Clone, PartialEq, Eq, Hash)]
pub struct KeyParts {
    /// Which kind of description it is.
    pub kind: u64,
    /// The path of an asset, or nothing.
    pub path: String,
    /// The words of its numbers, in order.
    pub words: Vec<u32>,
}

/// The content of [`KeyParts`].
#[verifier::ext_equal]
pub struct KeyContent {
    pub kind: u64,
    pub path: Seq<char>,
    pub words: Seq<u32>,
}

impl View for KeyParts {
    type V = KeyContent;

    open spec fn view(&self) -> KeyContent {
        KeyContent { kind: self.kind, path: self.path@, words: self.words@ }
    }
}

impl MeshBuilder {
    /// Which kind of description it is.
    pub open spec fn kind(self) -> u64 {
        match self {
            MeshBuilder::AssetPath { .. } => 0,
            MeshBuilder::Cube { .. } => 1,
            MeshBuilder::Sphere { .. } => 2,
            MeshBuilder::Cylinder { .. } => 3,
            MeshBuilder::Capsule { .. } => 4,
            MeshBuilder::Cone { .. } => 5,
            MeshBuilder::ConicalFrustum { .. } => 6,
            MeshBuilder::Torus { .. } => 7,
            MeshBuilder::Plane { .. } => 8,
            MeshBuilder::Tetrahedron { .. } => 9,
        }
    }

    /// The path of an asset, or nothing.
    pub open spec fn asset(self) -> Seq<char> {
        match self {
            MeshBuilder::AssetPath { path } => path@,
            _ => Seq::empty(),
        }
    }

    /// The lengths of the shape, in order.
    pub open spec fn lengths(self) -> Seq<u32> {
        match self {
            MeshBuilder::AssetPath { .. } => Seq::empty(),
            MeshBuilder::Cube { size } => size@,
            MeshBuilder::Sphere { radius } => seq![radius],
            MeshBuilder::Cylinder { radius, height } => seq![radius, height],
            MeshBuilder::Capsule { radius, length } => seq![radius, length],
            MeshBuilder::Cone { radius, height } => seq![radius, height],
            MeshBuilder::ConicalFrustum { radius_top, radius_bottom, height } => seq![
                radius_top,
                radius_bottom,
                height,
            ],
            MeshBuilder::Torus { inner_radius, outer_radius } => seq![inner_radius, outer_radius],
            MeshBuilder::Plane { half_extents } => half_extents@,
            MeshBuilder::Tetrahedron { size } => seq![size],
        }
    }

    /// What the key of the description is computed from.
    pub open spec fn key_content(self) -> KeyContent {
        KeyContent {
            kind: self.kind(),
            path: self.asset(),
            words: self.lengths().map_values(|w: u32| key_word(w)),
        }
    }

    /// What the key of the description is computed from: its kind, then its path or its lengths.
    pub fn key_parts(&self) -> (parts: KeyParts)
        ensures
            parts@ == self.key_content(),
    {
        let mut words: Vec<u32> = Vec::new();
        let mut path = String::new();
        let kind: u64;
        match self {
            MeshBuilder::AssetPath { path: asset } => {
                kind = 0;
                path = asset.clone();
            },
            MeshBuilder::Cube { size } => {
                kind = 1;
                words.push(to_key_word(size[0]));
                words.push(to_key_word(size[1]));
                words.push(to_key_word(size[2]));
            },
            MeshBuilder::Sphere { radius } => {
                kind = 2;
                words.push(to_key_word(*radius));
            },
            MeshBuilder::Cylinder { radius, height } => {
                kind = 3;
                words.push(to_key_word(*radius));
                words.push(to_key_word(*height));
            },
            MeshBuilder::Capsule { radius, length } => {
                kind = 4;
                words.push(to_key_word(*radius));
                words.push(to_key_word(*length));
            },
            MeshBuilder::Cone { radius, height } => {
                kind = 5;
                words.push(to_key_word(*radius));
                words.push(to_key_word(*height));
            },
            MeshBuilder::ConicalFrustum { radius_top, radius_bottom, height } => {
                kind = 6;
                words.push(to_key_word(*radius_top));
                words.push(to_key_word(*radius_bottom));
                words.push(to_key_word(*height));
            },
            MeshBuilder::Torus { inner_radius, outer_radius } => {
                kind = 7;
                words.push(to_key_word(*inner_radius));
                words.push(to_key_word(*outer_radius));
            },
            MeshBuilder::Plane { half_extents } => {
                kind = 8;
                words.push(to_key_word(half_extents[0]));
                words.push(to_key_word(half_extents[1]));
            },
            MeshBuilder::Tetrahedron { size } => {
                kind = 9;
                words.push(to_key_word(*size));
            },
        }
        let parts = KeyParts { kind, path, words };
        assert(parts@ =~= self.key_content());
        parts
    }
}

/// Descriptions of the same kind whose paths are equal, and whose lengths are equal as floats,
/// have the same key, and no others do.
pub proof fn equal_meshes_have_one_key(a: MeshBuilder, b: MeshBuilder)
    ensures
        a.key_content() == b.key_content() <==> a.kind() == b.kind() && a.asset() == b.asset()
            && a.lengths().len() == b.lengths().len() && forall|i: int|
            0 <= i < a.lengths().len() ==> same_float(#[trigger] a.lengths()[i], b.lengths()[i]),
{
    let x = a.key_content().words;
    let y = b.key_content().words;
    if a.key_content() == b.key_content() {
        assert(a.lengths().len() == x.len() && b.lengths().len() == y.len());
        assert forall|i: int| 0 <= i < a.lengths().len() implies same_float(
            #[trigger] a.lengths()[i],
            b.lengths()[i],
        ) by {
            assert(x[i] == y[i]);
        }
    }
    if a.kind() == b.kind() && a.asset() == b.asset() && a.lengths().len() == b.lengths().len()
        && forall|i: int|
        0 <= i < a.lengths().len() ==> same_float(#[trigger] a.lengths()[i], b.lengths()[i]) {
        assert forall|i: int| 0 <= i < x.len() implies x[i] == y[i] by {
            assert(same_float(a.lengths()[i], b.lengths()[i]));
        }
        assert(a.key_content() =~= b.key_content());
    }
}

/// Two floats that are not NaN are equal if they have the same bits, and zero is equal to
/// negative zero.
pub proof fn floats_are_equal_by_bits_or_as_zeros(a: u32, b: u32)
    ensures
        same_float(a, b) <==> a == b || ((a == 0 || a == 0x8000_0000) && (b == 0 || b
            == 0x8000_0000)),
        key_word(a) == a || (a == 0x8000_0000 && key_word(a) == 0),
        key_word(0x8000_0000) == 0,
{
}

/// Meshes share a key exactly if they are alike: assets by their paths, and shapes of one kind by
/// each of their lengths.
pub proof fn meshes_share_a_key_exactly_if_alike(a: MeshBuilder, b: MeshBuilder)
    ensures
        a.key_content() == b.key_content() <==> match (a, b) {
            (MeshBuilder::AssetPath { path: p }, MeshBuilder::AssetPath { path: q }) => p@ == q@,
            (MeshBuilder::Cube { size: s }, MeshBuilder::Cube { size: t }) => same_float(
                s@[0],
                t@[0],
            ) && same_float(s@[1], t@[1]) && same_float(s@[2], t@[2]),
            (MeshBuilder::Sphere { radius: r }, MeshBuilder::Sphere { radius: s }) => same_float(
                r,
                s,
            ),
            (
                MeshBuilder::Cylinder { radius: r, height: h },
                MeshBuilder::Cylinder { radius: s, height: i },
            ) => same_float(r, s) && same_float(h, i),
            (
                MeshBuilder::Capsule { radius: r, length: l },
                MeshBuilder::Capsule { radius: s, length: m },
            ) => same_float(r, s) && same_float(l, m),
            (
                MeshBuilder::Cone { radius: r, height: h },
                MeshBuilder::Cone { radius: s, height: i },
            ) => same_float(r, s) && same_float(h, i),
            (
                MeshBuilder::ConicalFrustum { radius_top: t, radius_bottom: r, height: h },
                MeshBuilder::ConicalFrustum { radius_top: u, radius_bottom: s, height: i },
            ) => same_float(t, u) && same_float(r, s) && same_float(h, i),
            (
                MeshBuilder::Torus { inner_radius: x, outer_radius: y },
                MeshBuilder::Torus { inner_radius: u, outer_radius: v },
            ) => same_float(x, u) && same_float(y, v),
            (MeshBuilder::Plane { half_extents: x }, MeshBuilder::Plane { half_extents: y }) =>
                same_float(x@[0], y@[0]) && same_float(x@[1], y@[1]),
            (MeshBuilder::Tetrahedron { size: s }, MeshBuilder::Tetrahedron { size: t }) =>
                same_float(s, t),
            _ => false,
        },
{
    equal_meshes_have_one_key(a, b);
    let x = a.lengths();
    let y = b.lengths();
    if a.kind() == b.kind() && x.len() == y.len() {
        if forall|i: int| 0 <= i < x.len() ==> same_float(#[trigger] x[i], y[i]) {
            assert(x.len() > 0 ==> same_float(x[0], y[0]));
            assert(x.len() > 1 ==> same_float(x[1], y[1]));
            assert(x.len() > 2 ==> same_float(x[2], y[2]));
        }
    }
}

} // verus!
