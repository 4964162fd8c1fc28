//! What scripts hand to the functions that attach meshes, materials, sprites and cameras.
//!
//! Scripts describe these by maps. Here a map is read into a description in which every number
//! still has the form the script gave it; the host rounds it to single precision.
use vstd::prelude::*;
use vstd::string::*;

use crate::dict;
use crate::dict::Dict;
use crate::system::script::dynamic;
use crate::system::script::dynamic::{Dynamic, Script};
use crate::text;

verus! {

/// A number in a description.
#[derive(Debug, Clone, Copy, PartialEq, Eq, Hash, Structural)]
pub enum Scalar {
    /// A double, by its bit pattern.
    Float(u64),
    /// An integer, to be rounded to a single.
    Int(i64),
    /// An integer, to be rounded to a double and then to a single.
    WideInt(i64),
    /// A single, by its bit pattern: a default.
    Single(u32),
}

/// The single 0.1.
pub const TENTH: u32 = 0x3dcc_cccd;

/// The single 0.3.
pub const THREE_TENTHS: u32 = 0x3e99_999a;

/// The single 0.5.
pub const HALF: u32 = 0x3f00_0000;

/// The single 0.8.
pub const EIGHT_TENTHS: u32 = 0x3f4c_cccd;

/// The single 1.0.
pub const ONE: u32 = 0x3f80_0000;

/// The single 10.0.
pub const TEN: u32 = 0x4120_0000;

/// The single 60.0.
pub const SIXTY: u32 = 0x4270_0000;

/// The single 1000.0.
pub const THOUSAND: u32 = 0x447a_0000;

/// The number that a script value is, if it is one.
pub open spec fn scalar(s: Script) -> Option<Scalar> {
    match s {
        Script::Float(bits) => Some(Scalar::Float(bits)),
        Script::Int(n) => Some(Scalar::Int(n)),
        _ => None,
    }
}

/// The number, or a default.
pub open spec fn scalar_or(s: Option<Scalar>, default: u32) -> Scalar {
    match s {
        Some(x) => x,
        None => Scalar::Single(default),
    }
}

/// The fields of a script value: those of a map, and none of anything else.
pub open spec fn fields(s: Script) -> Map<Seq<char>, Script> {
    match s {
        Script::Object(map) => map,
        _ => Map::empty(),
    }
}

/// The items of a script value: those of an array, and none of anything else.
pub open spec fn items(s: Script) -> Seq<Script> {
    match s {
        Script::Array(list) => list,
        _ => Seq::empty(),
    }
}

/// The field of this name, if there is one.
pub open spec fn field(map: Map<Seq<char>, Script>, name: Seq<char>) -> Option<Script> {
    if map.contains_key(name) {
        Some(map[name])
    } else {
        None
    }
}

/// The number in the field of this name, if there is one.
pub open spec fn number_field(map: Map<Seq<char>, Script>, name: Seq<char>) -> Option<Scalar> {
    match field(map, name) {
        Some(v) => scalar(v),
        None => None,
    }
}

/// The number at a position, or a default. An integer there is rounded twice.
pub open spec fn number_at(list: Seq<Script>, i: int, default: u32) -> Scalar {
    if 0 <= i < list.len() {
        match list[i] {
            Script::Float(bits) => Scalar::Float(bits),
            Script::Int(n) => Scalar::WideInt(n),
            _ => Scalar::Single(default),
        }
    } else {
        Scalar::Single(default)
    }
}

fn as_scalar(value: &Dynamic) -> (number: Option<Scalar>)
    ensures
        number == scalar(value@),
{
    match value {
        Dynamic::Float(bits) => Some(Scalar::Float(*bits)),
        Dynamic::Int(n) => Some(Scalar::Int(*n)),
        _ => None,
    }
}

fn or_default(number: Option<Scalar>, default: u32) -> (s: Scalar)
    ensures
        s == scalar_or(number, default),
{
    match number {
        Some(s) => s,
        None => Scalar::Single(default),
    }
}

/// The value in the field of this name of a script value that is a map.
fn get_field<'a>(value: &'a Dynamic, name: &str) -> (found: Option<&'a Dynamic>)
    ensures
        match found {
            Some(v) => field(fields(value@), name@) == Some(v@),
            None => field(fields(value@), name@) is None,
        },
{
    match value {
        Dynamic::Object(map) => {
            let ghost all = dynamic::dict_view(*map);
            assert(value@ == Script::Object(all));
            match map.get(name) {
                Some(v) => {
                    assert(all[name@] == v@);
                    Some(v)
                },
                None => None,
            }
        },
        _ => None,
    }
}

/// The number in the field of this name of a script value that is a map.
fn float_field(value: &Dynamic, name: &str) -> (number: Option<Scalar>)
    ensures
        number == number_field(fields(value@), name@),
{
    match get_field(value, name) {
        Some(v) => as_scalar(v),
        None => None,
    }
}

/// The item at a position of a script value that is an array.
fn get_item(value: &Dynamic, i: usize) -> (found: Option<&Dynamic>)
    ensures
        match found {
            Some(v) => i < items(value@).len() && items(value@)[i as int] == v@,
            None => i >= items(value@).len(),
        },
{
    match value {
        Dynamic::Array(list) => {
            let ghost all = dynamic::items_view(list@);
            assert(value@ == Script::Array(all));
            if i < list.len() {
                assert(all[i as int] == list@[i as int]@);
                Some(&list[i])
            } else {
                None
            }
        },
        _ => None,
    }
}

/// The number at a position of a script value that is an array, or a default.
fn f32_at(value: &Dynamic, i: usize, default: u32) -> (number: Scalar)
    ensures
        number == number_at(items(value@), i as int, default),
{
    match get_item(value, i) {
        Some(Dynamic::Float(bits)) => Scalar::Float(*bits),
        Some(Dynamic::Int(n)) => Scalar::WideInt(*n),
        _ => Scalar::Single(default),
    }
}

/// Three numbers.
#[derive(Debug, Clone, Copy, PartialEq, Eq, Structural)]
pub struct Triple {
    pub x: Scalar,
    pub y: Scalar,
    pub z: Scalar,
}

/// Three numbers, if all of them are there.
pub open spec fn triple(x: Option<Scalar>, y: Option<Scalar>, z: Option<Scalar>) -> Option<Triple> {
    match (x, y, z) {
        (Some(x), Some(y), Some(z)) => Some(Triple { x, y, z }),
        _ => None,
    }
}

/// The vector that a script value writes: an array of three numbers, or a map with the numbers
/// `x`, `y` and `z`.
pub open spec fn vector(s: Script) -> Option<Triple> {
    match s {
        Script::Array(list) => if list.len() == 3 {
            triple(scalar(list[0]), scalar(list[1]), scalar(list[2]))
        } else {
            None
        },
        Script::Object(map) => triple(
            number_field(map, "x"@),
            number_field(map, "y"@),
            number_field(map, "z"@),
        ),
        _ => None,
    }
}

fn all_three(x: Option<Scalar>, y: Option<Scalar>, z: Option<Scalar>) -> (t: Option<Triple>)
    ensures
        t == triple(x, y, z),
{
    match (x, y, z) {
        (Some(x), Some(y), Some(z)) => Some(Triple { x, y, z }),
        _ => None,
    }
}

/// The vector that a script value writes.
pub fn vec3_from(value: &Dynamic) -> (v: Option<Triple>)
    ensures
        v == vector(value@),
{
    match value {
        Dynamic::Array(list) => {
            let ghost all = dynamic::items_view(list@);
            assert(value@ == Script::Array(all));
            if list.len() == 3 {
                assert(all[0] == list@[0]@ && all[1] == list@[1]@ && all[2] == list@[2]@);
                all_three(as_scalar(&list[0]), as_scalar(&list[1]), as_scalar(&list[2]))
            } else {
                None
            }
        },
        Dynamic::Object(_) => all_three(
            float_field(value, "x"),
            float_field(value, "y"),
            float_field(value, "z"),
        ),
        _ => None,
    }
}

/// A colour: its space and its components. White unless a script says otherwise.
#[derive(Debug, Clone, Copy, PartialEq, Eq, Structural)]
pub struct ColorSpec {
    /// Whether the components are linear; else they are gamma-encoded sRGB.
    pub linear: bool,
    pub red: Scalar,
    pub green: Scalar,
    pub blue: Scalar,
    pub alpha: Scalar,
}

pub open spec fn white() -> ColorSpec {
    ColorSpec {
        linear: false,
        red: Scalar::Single(ONE),
        green: Scalar::Single(ONE),
        blue: Scalar::Single(ONE),
        alpha: Scalar::Single(ONE),
    }
}

/// The colour that the map under the name of a colour space writes.
pub open spec fn color_in(space: Seq<char>, map: Map<Seq<char>, Script>) -> ColorSpec {
    ColorSpec {
        linear: space == "LinearRgba"@,
        red: scalar_or(number_field(map, "red"@), ONE),
        green: scalar_or(number_field(map, "green"@), ONE),
        blue: scalar_or(number_field(map, "blue"@), ONE),
        alpha: scalar_or(number_field(map, "alpha"@), ONE),
    }
}

/// The colour that the first of `keys` whose entry in `map` is a map writes, or white.
pub open spec fn first_color(map: Map<Seq<char>, Script>, keys: Seq<Seq<char>>) -> ColorSpec
    decreases keys.len(),
{
    if keys.len() == 0 {
        white()
    } else if map[keys[0]] is Object {
        color_in(keys[0], map[keys[0]]->Object_0)
    } else {
        first_color(map, keys.drop_first())
    }
}

/// The colour that a script value writes: a map from the name of a colour space to a map of
/// components, each of them 1.0 unless given. Of several such entries the first in key order
/// counts; any other value is white.
pub open spec fn color(s: Script) -> ColorSpec {
    first_color(fields(s), dict::ascending_keys(fields(s)))
}

/// The colour that a script value writes.
pub fn color_from_dynamic(value: &Dynamic) -> (c: ColorSpec)
    ensures
        c == color(value@),
{
    let plain = ColorSpec {
        linear: false,
        red: Scalar::Single(ONE),
        green: Scalar::Single(ONE),
        blue: Scalar::Single(ONE),
        alpha: Scalar::Single(ONE),
    };
    match value {
        Dynamic::Object(map) => {
            let ghost all = dynamic::dict_view(*map);
            let ghost order = dict::ascending_keys(all);
            assert(value@ == Script::Object(all));
            let keys = map.keys();
            proof {
                dynamic::keys_of_view(*map);
            }
            let mut i: usize = 0;
            assert(order.skip(0) =~= order);
            while i < keys.len()
                invariant
                    i <= keys.len(),
                    all == dynamic::dict_view(*map),
                    order == dict::ascending_keys(all),
                    order == text::texts(keys@),
                    order == map.spec_keys(),
                    color(value@) == first_color(all, order),
                    first_color(all, order) == first_color(all, order.skip(i as int)),
                decreases keys.len() - i,
            {
                let ghost rest = order.skip(i as int);
                let (space, entry) = map.entry_at(i);
                proof {
                    assert(rest[0] == space@);
                    assert(all[space@] == entry@);
                    assert(rest.drop_first() =~= order.skip(i + 1));
                }
                match entry {
                    Dynamic::Object(inner) => {
                        let ghost parts = dynamic::dict_view(*inner);
                        assert(entry@ == Script::Object(parts));
                        let linear: bool = text::same_text(space.as_str(), "LinearRgba");
                        return ColorSpec {
                            linear,
                            red: or_default(float_field(entry, "red"), ONE),
                            green: or_default(float_field(entry, "green"), ONE),
                            blue: or_default(float_field(entry, "blue"), ONE),
                            alpha: or_default(float_field(entry, "alpha"), ONE),
                        };
                    },
                    _ => {},
                }
                i += 1;
            }
            plain
        },
        _ => {
            proof {
                let none = Map::<Seq<char>, Script>::empty();
                assert(fields(value@) == none);
                dict::ascending_keys_are(none, Seq::empty());
            }
            plain
        },
    }
}

/// The vector in the field of this name, if there is one.
pub fn vec3_field(value: &Dynamic, name: &str) -> (v: Option<Triple>)
    ensures
        v == (match field(fields(value@), name@) {
            Some(inner) => vector(inner),
            None => None,
        }),
{
    match get_field(value, name) {
        Some(inner) => vec3_from(inner),
        None => None,
    }
}

/// The vector with the same single in all three places, given by its bits.
pub open spec fn all_of(bits: u32) -> Triple {
    Triple { x: Scalar::Single(bits), y: Scalar::Single(bits), z: Scalar::Single(bits) }
}

/// The vector that a script value writes, or a default.
pub open spec fn vector_or(s: Script, default: Triple) -> Triple {
    match vector(s) {
        Some(v) => v,
        None => default,
    }
}

fn vec3_or(value: &Dynamic, default: Triple) -> (v: Triple)
    ensures
        v == vector_or(value@, default),
{
    match vec3_from(value) {
        Some(v) => v,
        None => default,
    }
}

fn repeated(bits: u32) -> (v: Triple)
    ensures
        v == all_of(bits),
{
    Triple { x: Scalar::Single(bits), y: Scalar::Single(bits), z: Scalar::Single(bits) }
}

/// A transform: where, turned by which angles in degrees, and how large.
#[derive(Debug, Clone, Copy, PartialEq, Eq, Structural)]
pub struct TransformSpec {
    pub translation: Triple,
    /// The turn about the second axis goes first, then the first, then the third.
    pub euler_degrees: Triple,
    pub scale: Triple,
}

/// The transform that three script values write: by default at the origin, not turned, and of
/// unit size.
pub fn transform_spec(translation: &Dynamic, euler_degrees: &Dynamic, scale: &Dynamic) -> (found:
    TransformSpec)
    ensures
        found == (TransformSpec {
            translation: vector_or(translation@, all_of(0)),
            euler_degrees: vector_or(euler_degrees@, all_of(0)),
            scale: vector_or(scale@, all_of(ONE)),
        }),
{
    TransformSpec {
        translation: vec3_or(translation, repeated(0)),
        euler_degrees: vec3_or(euler_degrees, repeated(0)),
        scale: vec3_or(scale, repeated(ONE)),
    }
}

/// The translation that a script value writes: the origin by default.
pub fn translation_spec(translation: &Dynamic) -> (found: Triple)
    ensures
        found == vector_or(translation@, all_of(0)),
{
    vec3_or(translation, repeated(0))
}

/// Where an entity is to look, and which way is up for it.
#[derive(Debug, Clone, Copy, PartialEq, Eq, Structural)]
pub struct LookSpec {
    pub target: Triple,
    pub up: Triple,
}

/// Upwards: along the second axis.
pub open spec fn upwards() -> Triple {
    Triple { x: Scalar::Single(0), y: Scalar::Single(ONE), z: Scalar::Single(0) }
}

/// Where two script values say to look: at the origin by default, with the second axis up.
pub fn look_spec(target: &Dynamic, up: &Dynamic) -> (found: LookSpec)
    ensures
        found == (LookSpec {
            target: vector_or(target@, all_of(0)),
            up: vector_or(up@, upwards()),
        }),
{
    LookSpec {
        target: vec3_or(target, repeated(0)),
        up: vec3_or(
            up,
            Triple { x: Scalar::Single(0), y: Scalar::Single(ONE), z: Scalar::Single(0) },
        ),
    }
}

/// A primitive shape.
#[derive(Debug, Clone, Copy, PartialEq, Eq, Hash, Structural)]
pub enum MeshSpec {
    Cuboid { width: Scalar, height: Scalar, depth: Scalar },
    Sphere { radius: Scalar },
    Cylinder { radius: Scalar, height: Scalar },
    Capsule { radius: Scalar, length: Scalar },
    Cone { radius: Scalar, height: Scalar },
    ConicalFrustum { radius_top: Scalar, radius_bottom: Scalar, height: Scalar },
    Torus { inner: Scalar, outer: Scalar },
    /// A horizontal plane, by its full width and depth.
    Plane { width: Scalar, depth: Scalar },
    Tetrahedron { edge: Scalar },
}

/// The shape of a kind with these dimensions, each of which has a default; an unknown kind is
/// none.
pub open spec fn shape(kind: Seq<char>, payload: Script) -> Option<MeshSpec> {
    let list = items(payload);
    if kind == "Cuboid"@ || kind == "Cube"@ {
        Some(
            MeshSpec::Cuboid {
                width: number_at(list, 0, ONE),
                height: number_at(list, 1, ONE),
                depth: number_at(list, 2, ONE),
            },
        )
    } else if kind == "Sphere"@ {
        Some(
            MeshSpec::Sphere {
                radius: match scalar(payload) {
                    Some(r) => r,
                    None => scalar_or(number_field(fields(payload), "radius"@), HALF),
                },
            },
        )
    } else if kind == "Cylinder"@ {
        Some(
            MeshSpec::Cylinder {
                radius: number_at(list, 0, HALF),
                height: number_at(list, 1, ONE),
            },
        )
    } else if kind == "Capsule"@ {
        Some(
            MeshSpec::Capsule { radius: number_at(list, 0, HALF), length: number_at(list, 1, ONE) },
        )
    } else if kind == "Cone"@ {
        Some(MeshSpec::Cone { radius: number_at(list, 0, HALF), height: number_at(list, 1, ONE) })
    } else if kind == "ConicalFrustum"@ {
        Some(
            MeshSpec::ConicalFrustum {
                radius_top: number_at(list, 0, THREE_TENTHS),
                radius_bottom: number_at(list, 1, HALF),
                height: number_at(list, 2, ONE),
            },
        )
    } else if kind == "Torus"@ {
        Some(
            MeshSpec::Torus {
                inner: number_at(list, 0, THREE_TENTHS),
                outer: number_at(list, 1, EIGHT_TENTHS),
            },
        )
    } else if kind == "Plane"@ {
        Some(MeshSpec::Plane { width: number_at(list, 0, TEN), depth: number_at(list, 1, TEN) })
    } else if kind == "Tetrahedron"@ {
        Some(MeshSpec::Tetrahedron { edge: scalar_or(scalar(payload), ONE) })
    } else {
        None
    }
}

/// The shape that a script value writes: a map from the kind of shape to its dimensions, of which
/// the first entry in key order counts. Otherwise a message that says what is wrong.
pub open spec fn mesh(s: Script) -> Result<MeshSpec, Seq<char>> {
    match s {
        Script::Object(map) => {
            let keys = dict::ascending_keys(map);
            if keys.len() == 0 {
                Err("attach_mesh: empty spec"@)
            } else {
                match shape(keys[0], map[keys[0]]) {
                    Some(m) => Ok(m),
                    None => Err("attach_mesh: unknown primitive `"@ + keys[0] + "`"@),
                }
            }
        },
        _ => Err("attach_mesh: spec must be a #{...} map"@),
    }
}

fn shape_from(kind: &str, payload: &Dynamic) -> (found: Option<MeshSpec>)
    ensures
        found == shape(kind@, payload@),
{
    if text::same_text(kind, "Cuboid") || text::same_text(kind, "Cube") {
        Some(
            MeshSpec::Cuboid {
                width: f32_at(payload, 0, ONE),
                height: f32_at(payload, 1, ONE),
                depth: f32_at(payload, 2, ONE),
            },
        )
    } else if text::same_text(kind, "Sphere") {
        let radius = match as_scalar(payload) {
            Some(r) => r,
            None => or_default(float_field(payload, "radius"), HALF),
        };
        Some(MeshSpec::Sphere { radius })
    } else if text::same_text(kind, "Cylinder") {
        Some(
            MeshSpec::Cylinder { radius: f32_at(payload, 0, HALF), height: f32_at(payload, 1, ONE) },
        )
    } else if text::same_text(kind, "Capsule") {
        Some(
            MeshSpec::Capsule { radius: f32_at(payload, 0, HALF), length: f32_at(payload, 1, ONE) },
        )
    } else if text::same_text(kind, "Cone") {
        Some(MeshSpec::Cone { radius: f32_at(payload, 0, HALF), height: f32_at(payload, 1, ONE) })
    } else if text::same_text(kind, "ConicalFrustum") {
        Some(
            MeshSpec::ConicalFrustum {
                radius_top: f32_at(payload, 0, THREE_TENTHS),
                radius_bottom: f32_at(payload, 1, HALF),
                height: f32_at(payload, 2, ONE),
            },
        )
    } else if text::same_text(kind, "Torus") {
        Some(
            MeshSpec::Torus {
                inner: f32_at(payload, 0, THREE_TENTHS),
                outer: f32_at(payload, 1, EIGHT_TENTHS),
            },
        )
    } else if text::same_text(kind, "Plane") {
        Some(MeshSpec::Plane { width: f32_at(payload, 0, TEN), depth: f32_at(payload, 1, TEN) })
    } else if text::same_text(kind, "Tetrahedron") {
        Some(MeshSpec::Tetrahedron { edge: or_default(as_scalar(payload), ONE) })
    } else {
        None
    }
}

/// The shape that a script value writes, or a message that says what is wrong with it.
pub fn mesh_spec(spec: &Dynamic) -> (found: Result<MeshSpec, String>)
    ensures
        match found {
            Ok(m) => mesh(spec@) == Ok::<MeshSpec, Seq<char>>(m),
            Err(e) => mesh(spec@) == Err::<MeshSpec, Seq<char>>(e@),
        },
{
    match spec {
        Dynamic::Object(map) => {
            let ghost all = dynamic::dict_view(*map);
            assert(spec@ == Script::Object(all));
            let n: usize = map.len();
            proof {
                dynamic::keys_of_view(*map);
            }
            if n == 0 {
                return Err("attach_mesh: empty spec".to_owned());
            }
            let (kind, payload) = map.entry_at(0);
            assert(all[kind@] == payload@);
            match shape_from(kind.as_str(), payload) {
                Some(m) => Ok(m),
                None => {
                    let mut message = "attach_mesh: unknown primitive `".to_owned();
                    message.append(kind.as_str());
                    message.append("`");
                    Err(message)
                },
            }
        },
        _ => Err("attach_mesh: spec must be a #{...} map".to_owned()),
    }
}

/// The first entry of a script value that is a map, in key order.
pub open spec fn first_entry(s: Script) -> Option<(Seq<char>, Script)> {
    match s {
        Script::Object(map) => {
            let keys = dict::ascending_keys(map);
            if keys.len() == 0 {
                None
            } else {
                Some((keys[0], map[keys[0]]))
            }
        },
        _ => None,
    }
}

/// A mesh that was made for a script: the entry that asked for it, and its handle.
pub struct KeptMesh<H> {
    pub kind: Seq<char>,
    pub payload: Script,
    pub handle: H,
}

/// The meshes that scripts asked for, so that each is made once.
pub struct AttachCache<H> {
    meshes: Vec<(String, Dynamic, H)>,
}

pub open spec fn kept_meshes<H>(meshes: Seq<(String, Dynamic, H)>) -> Seq<KeptMesh<H>> {
    meshes.map_values(
        |m: (String, Dynamic, H)| KeptMesh { kind: m.0@, payload: m.1@, handle: m.2 },
    )
}

impl<H> View for AttachCache<H> {
    type V = Seq<KeptMesh<H>>;

    closed spec fn view(&self) -> Seq<KeptMesh<H>> {
        kept_meshes(self.meshes@)
    }
}

/// Whether a mesh was asked for by an entry that is written like this one.
pub open spec fn asked_alike<H>(mesh: KeptMesh<H>, kind: Seq<char>, payload: Script) -> bool {
    mesh.kind == kind && dynamic::alike(mesh.payload, payload)
}

/// The handle of the first mesh that was asked for by an entry that is written like this one.
pub open spec fn kept_for<H>(meshes: Seq<KeptMesh<H>>, kind: Seq<char>, payload: Script) -> Option<H>
    decreases meshes.len(),
{
    if meshes.len() == 0 {
        None
    } else {
        match kept_for(meshes.drop_last(), kind, payload) {
            Some(handle) => Some(handle),
            None => if asked_alike(meshes.last(), kind, payload) {
                Some(meshes.last().handle)
            } else {
                None
            },
        }
    }
}

/// The handle that is kept for what a script value writes, if there is one.
pub open spec fn kept_handle<H>(meshes: Seq<KeptMesh<H>>, s: Script) -> Option<H> {
    match first_entry(s) {
        Some((kind, payload)) => kept_for(meshes, kind, payload),
        None => None,
    }
}

/// The meshes after one was asked for, where `handle` is what the host makes if it has to.
pub open spec fn with_mesh<H>(meshes: Seq<KeptMesh<H>>, s: Script, handle: H) -> Seq<KeptMesh<H>> {
    match (mesh(s), first_entry(s)) {
        (Ok(_), Some((kind, payload))) => if kept_handle(meshes, s) is None {
            meshes.push(KeptMesh { kind, payload, handle })
        } else {
            meshes
        },
        _ => meshes,
    }
}

/// The meshes after several were asked for.
pub open spec fn with_meshes<H>(meshes: Seq<KeptMesh<H>>, asked: Seq<(Script, H)>) -> Seq<
    KeptMesh<H>,
>
    decreases asked.len(),
{
    if asked.len() == 0 {
        meshes
    } else {
        with_mesh(with_meshes(meshes, asked.drop_last()), asked.last().0, asked.last().1)
    }
}

/// Whether making a mesh of this shape leads from one state of the host to the other and gives
/// `handle`.
pub open spec fn is_mesh_made<W, H, F: FnOnce(W, MeshSpec) -> (W, H)>(
    build: F,
    host: W,
    shape: MeshSpec,
    after: W,
    handle: H,
) -> bool {
    build.ensures((host, shape), (after, handle))
}

proof fn first_kept_counts<H>(
    meshes: Seq<KeptMesh<H>>,
    n: int,
    kind: Seq<char>,
    payload: Script,
)
    requires
        0 <= n <= meshes.len(),
        kept_for(meshes.take(n), kind, payload) is Some,
    ensures
        kept_for(meshes, kind, payload) == kept_for(meshes.take(n), kind, payload),
    decreases meshes.len(),
{
    if n == meshes.len() {
        assert(meshes.take(n) =~= meshes);
    } else {
        let shorter = meshes.drop_last();
        assert(shorter.take(n) =~= meshes.take(n));
        first_kept_counts(shorter, n, kind, payload);
    }
}

impl<H> AttachCache<H> {
    /// A cache without meshes.
    #[must_use]
    pub fn new() -> (cache: Self)
        ensures
            cache@ == Seq::<KeptMesh<H>>::empty(),
    {
        let cache = AttachCache { meshes: Vec::new() };
        assert(cache@ =~= Seq::<KeptMesh<H>>::empty());
        cache
    }

    /// Whether no mesh was made yet.
    #[must_use]
    pub fn is_empty(&self) -> (empty: bool)
        ensures
            empty == (self@.len() == 0),
    {
        self.meshes.len() == 0
    }

    /// The place of the first mesh that was asked for by an entry that is written like this one.
    fn place(&self, kind: &str, payload: &Dynamic) -> (place: Option<usize>)
        ensures
            match place {
                Some(i) => i < self.meshes@.len() && kept_for(self@, kind@, payload@) == Some(
                    self.meshes@[i as int].2,
                ),
                None => kept_for(self@, kind@, payload@) is None,
            },
    {
        let ghost all = self@;
        let mut i: usize = 0;
        assert(all.take(0) =~= Seq::<KeptMesh<H>>::empty());
        while i < self.meshes.len()
            invariant
                i <= self.meshes@.len(),
                all == kept_meshes(self.meshes@),
                all == self@,
                kept_for(all.take(i as int), kind@, payload@) is None,
            decreases self.meshes@.len() - i,
        {
            assert(all.take(i + 1).drop_last() =~= all.take(i as int));
            assert(all.take(i + 1).last() == all[i as int]);
            let entry = &self.meshes[i];
            if text::same_text(entry.0.as_str(), kind) && dynamic::is_alike(&entry.1, payload) {
                proof {
                    first_kept_counts(all, i + 1, kind@, payload@);
                }
                return Some(i);
            }
            i += 1;
        }
        assert(all.take(all.len() as int) =~= all);
        None
    }
}

/// The handle of the mesh that a script value writes. One that was made before for a value with a
/// first entry that is written alike is given again; else `build` makes it with the host, and it is kept. The host is left alone in
/// every other case. A value that writes no shape gives a message that says what is wrong with it.
pub fn build_mesh_handle<W, H, F: FnOnce(W, MeshSpec) -> (W, H)>(
    cache: &mut AttachCache<H>,
    spec: Dynamic,
    host: W,
    build: F,
) -> (made: (W, Result<&H, String>))
    requires
        forall|shape: MeshSpec| build.requires((host, shape)),
    ensures
        match mesh(spec@) {
            Err(message) => {
                &&& made.0 == host
                &&& final(cache)@ == old(cache)@
                &&& made.1 is Err
                &&& made.1->Err_0@ == message
            },
            Ok(shape) => match kept_handle(old(cache)@, spec@) {
                Some(handle) => {
                    &&& made.0 == host
                    &&& final(cache)@ == old(cache)@
                    &&& made.1 is Ok
                    &&& *made.1->Ok_0 == handle
                },
                None => exists|handle: H|
                    {
                        &&& #[trigger] is_mesh_made(build, host, shape, made.0, handle)
                        &&& final(cache)@ == with_mesh(old(cache)@, spec@, handle)
                        &&& made.1 is Ok
                        &&& *made.1->Ok_0 == handle
                    },
            },
        },
{
    let shape = match mesh_spec(&spec) {
        Ok(shape) => shape,
        Err(message) => {
            return (host, Err(message));
        },
    };
    let ghost first = host;
    let ghost asked = spec@;
    let (kind, payload) = match take_first(spec) {
        Some(entry) => entry,
        None => vstd::pervasive::unreached(),
    };
    match cache.place(kind.as_str(), &payload) {
        Some(i) => (host, Ok(&cache.meshes[i].2)),
        None => {
            let (after, handle) = build(host, shape);
            let ghost new = handle;
            cache.meshes.push((kind, payload, handle));
            proof {
                assert(cache@ =~= with_mesh(old(cache)@, asked, new));
            }
            let last: usize = cache.meshes.len() - 1;
            let made = (after, Ok(&cache.meshes[last].2));
            assert(is_mesh_made(build, first, shape, made.0, new));
            made
        },
    }
}

/// Takes the first entry out of a script value that is a map.
fn take_first(spec: Dynamic) -> (entry: Option<(String, Dynamic)>)
    ensures
        match entry {
            Some((kind, payload)) => first_entry(spec@) == Some((kind@, payload@)),
            None => first_entry(spec@) is None,
        },
{
    match spec {
        Dynamic::Object(map) => {
            let ghost all = dynamic::dict_view(map);
            let mut map = map;
            let n: usize = map.len();
            proof {
                dynamic::keys_of_view(map);
            }
            if n == 0 {
                return None;
            }
            let kind = map.entry_at(0).0.clone();
            assert(all[kind@] == map@[kind@]@);
            match map.remove(kind.as_str()) {
                Some(payload) => Some((kind, payload)),
                None => None,
            }
        },
        _ => None,
    }
}

/// Equal values share one mesh: once a mesh was made for what a script value writes, every value
/// with the same first entry gives the same handle, and the host makes no further mesh for it,
/// whatever is asked for in between.
pub proof fn equal_specs_share_a_mesh<H>(
    meshes: Seq<KeptMesh<H>>,
    s: Script,
    handle: H,
    between: Seq<(Script, H)>,
    again: Script,
)
    requires
        mesh(s) is Ok,
        first_entry(again) == first_entry(s),
    ensures
        mesh(again) == mesh(s),
        kept_handle(with_mesh(meshes, s, handle), s) is Some,
        kept_handle(with_meshes(with_mesh(meshes, s, handle), between), again) == kept_handle(
            with_mesh(meshes, s, handle),
            s,
        ),
    decreases between.len(),
{
    let once = with_mesh(meshes, s, handle);
    let (kind, payload) = first_entry(s)->Some_0;
    if kept_handle(meshes, s) is None {
        dynamic::alike_itself(payload);
        assert(once.drop_last() =~= meshes);
    }
    if between.len() > 0 {
        let fewer = between.drop_last();
        equal_specs_share_a_mesh(meshes, s, handle, fewer, again);
        let before = with_meshes(once, fewer);
        let after = with_meshes(once, between);
        if after.len() > before.len() {
            assert(after.drop_last() =~= before);
        }
    }
}

/// Asking for what writes no shape changes nothing.
pub proof fn refused_specs_are_not_kept<H>(meshes: Seq<KeptMesh<H>>, s: Script, handle: H)
    requires
        mesh(s) is Err,
    ensures
        with_mesh(meshes, s, handle) == meshes,
{
}

/// The colour in the field of this name, if there is such a field.
pub open spec fn color_field(map: Map<Seq<char>, Script>, name: Seq<char>) -> Option<ColorSpec> {
    match field(map, name) {
        Some(v) => Some(color(v)),
        None => None,
    }
}

fn get_color(value: &Dynamic, name: &str) -> (found: Option<ColorSpec>)
    ensures
        found == color_field(fields(value@), name@),
{
    match get_field(value, name) {
        Some(v) => Some(color_from_dynamic(v)),
        None => None,
    }
}

/// A physically based material; what is missing stays as the host has it.
#[derive(Debug, Clone, Copy, PartialEq, Eq, Structural)]
pub struct PbrSpec {
    pub base_color: Option<ColorSpec>,
    pub metallic: Option<Scalar>,
    pub roughness: Option<Scalar>,
    pub emissive: Option<ColorSpec>,
}

/// The material that a script value writes.
pub fn pbr_spec(material: &Dynamic) -> (found: PbrSpec)
    ensures
        found == (PbrSpec {
            base_color: color_field(fields(material@), "base_color"@),
            metallic: number_field(fields(material@), "metallic"@),
            roughness: number_field(fields(material@), "roughness"@),
            emissive: color_field(fields(material@), "emissive"@),
        }),
{
    PbrSpec {
        base_color: get_color(material, "base_color"),
        metallic: float_field(material, "metallic"),
        roughness: float_field(material, "roughness"),
        emissive: get_color(material, "emissive"),
    }
}

/// The double at a position, if there is one; integers do not count.
pub open spec fn double_at(list: Seq<Script>, i: int) -> Option<u64> {
    if 0 <= i < list.len() {
        match list[i] {
            Script::Float(bits) => Some(bits),
            _ => None,
        }
    } else {
        None
    }
}

fn get_double(value: &Dynamic, i: usize) -> (found: Option<u64>)
    ensures
        found == double_at(items(value@), i as int),
{
    match get_item(value, i) {
        Some(Dynamic::Float(bits)) => Some(*bits),
        _ => None,
    }
}

/// The pair of doubles that the field of this name starts with.
pub open spec fn pair_field(map: Map<Seq<char>, Script>, name: Seq<char>) -> Option<(u64, u64)> {
    match field(map, name) {
        Some(v) => match (double_at(items(v), 0), double_at(items(v), 1)) {
            (Some(a), Some(b)) => Some((a, b)),
            _ => None,
        },
        None => None,
    }
}

/// The three doubles that the field of this name starts with.
pub open spec fn point_field(map: Map<Seq<char>, Script>, name: Seq<char>) -> Option<
    (u64, u64, u64),
> {
    match field(map, name) {
        Some(v) => match (double_at(items(v), 0), double_at(items(v), 1), double_at(items(v), 2)) {
            (Some(a), Some(b), Some(c)) => Some((a, b, c)),
            _ => None,
        },
        None => None,
    }
}

fn get_pair(value: &Dynamic, name: &str) -> (found: Option<(u64, u64)>)
    ensures
        found == pair_field(fields(value@), name@),
{
    match get_field(value, name) {
        Some(v) => match (get_double(v, 0), get_double(v, 1)) {
            (Some(a), Some(b)) => Some((a, b)),
            _ => None,
        },
        None => None,
    }
}

fn get_point(value: &Dynamic, name: &str) -> (found: Option<(u64, u64, u64)>)
    ensures
        found == point_field(fields(value@), name@),
{
    match get_field(value, name) {
        Some(v) => match (get_double(v, 0), get_double(v, 1), get_double(v, 2)) {
            (Some(a), Some(b), Some(c)) => Some((a, b, c)),
            _ => None,
        },
        None => None,
    }
}

/// The string in the field of this name, if there is one.
pub open spec fn text_field(map: Map<Seq<char>, Script>, name: Seq<char>) -> Option<Seq<char>> {
    match field(map, name) {
        Some(Script::Str(s)) => Some(s),
        _ => None,
    }
}

fn get_text<'a>(value: &'a Dynamic, name: &str) -> (found: Option<&'a String>)
    ensures
        match found {
            Some(s) => text_field(fields(value@), name@) == Some(s@),
            None => text_field(fields(value@), name@) is None,
        },
{
    match get_field(value, name) {
        Some(Dynamic::Str(s)) => Some(s),
        _ => None,
    }
}

/// A sprite: its colour, its size if given, and the image it shows instead of plain colour.
#[derive(Debug, Clone, PartialEq, Eq)]
pub struct SpriteSpec {
    pub color: ColorSpec,
    pub custom_size: Option<(u64, u64)>,
    pub image: Option<String>,
}

/// The sprite that a script value writes: white unless it has a colour.
pub fn sprite_spec(spec: &Dynamic) -> (found: SpriteSpec)
    ensures
        found.color == (match color_field(fields(spec@), "color"@) {
            Some(c) => c,
            None => white(),
        }),
        found.custom_size == pair_field(fields(spec@), "custom_size"@),
        match found.image {
            Some(path) => text_field(fields(spec@), "image"@) == Some(path@),
            None => text_field(fields(spec@), "image"@) is None,
        },
{
    let color = match get_color(spec, "color") {
        Some(c) => c,
        None => ColorSpec {
            linear: false,
            red: Scalar::Single(ONE),
            green: Scalar::Single(ONE),
            blue: Scalar::Single(ONE),
            alpha: Scalar::Single(ONE),
        },
    };
    let image = match get_text(spec, "image") {
        Some(path) => Some(path.clone()),
        None => None,
    };
    SpriteSpec { color, custom_size: get_pair(spec, "custom_size"), image }
}

/// How a camera projects.
#[derive(Debug, Clone, Copy, PartialEq, Eq, Structural)]
pub enum ProjectionSpec {
    Perspective { fov_degrees: Scalar, near: Scalar, far: Scalar },
    /// What is missing stays as the host has it.
    Orthographic {
        scale: Option<Scalar>,
        near: Option<Scalar>,
        far: Option<Scalar>,
        viewport_height: Option<Scalar>,
    },
}

/// A camera in three dimensions.
#[derive(Debug, Clone, Copy, PartialEq, Eq)]
pub struct Camera3dSpec {
    pub projection: ProjectionSpec,
    /// Where it stands, where it looks, and which way is up, if the first two are given. Upwards
    /// along the second axis is the default for the last.
    pub view: Option<CameraView>,
    pub order: i16,
    pub active: bool,
    pub clear_color: Option<ColorSpec>,
}

/// Where a camera stands and looks.
#[derive(Debug, Clone, Copy, PartialEq, Eq)]
pub struct CameraView {
    pub position: (u64, u64, u64),
    pub target: (u64, u64, u64),
    pub up: Option<(u64, u64, u64)>,
}

/// The place of a camera in the order of cameras: 0 unless a number that fits is given.
pub open spec fn camera_order(map: Map<Seq<char>, Script>) -> i16 {
    match field(map, "order"@) {
        Some(Script::Int(n)) => if i16::MIN <= n <= i16::MAX {
            n as i16
        } else {
            0
        },
        _ => 0,
    }
}

/// Whether a camera is active: unless it is said not to be.
pub open spec fn camera_active(map: Map<Seq<char>, Script>) -> bool {
    match field(map, "active"@) {
        Some(Script::Bool(b)) => b,
        _ => true,
    }
}

/// How a camera in three dimensions projects.
pub open spec fn camera_projection(map: Map<Seq<char>, Script>) -> ProjectionSpec {
    if text_field(map, "projection"@) == Some("orthographic"@) {
        ProjectionSpec::Orthographic {
            scale: number_field(map, "scale"@),
            near: number_field(map, "near"@),
            far: number_field(map, "far"@),
            viewport_height: number_field(map, "viewport_height"@),
        }
    } else {
        ProjectionSpec::Perspective {
            fov_degrees: scalar_or(number_field(map, "fov_degrees"@), SIXTY),
            near: scalar_or(number_field(map, "near"@), TENTH),
            far: scalar_or(number_field(map, "far"@), THOUSAND),
        }
    }
}

/// Where a camera stands and looks, if both are given.
pub open spec fn camera_view(map: Map<Seq<char>, Script>) -> Option<CameraView> {
    match (point_field(map, "position"@), point_field(map, "target"@)) {
        (Some(position), Some(target)) => Some(
            CameraView { position, target, up: point_field(map, "up"@) },
        ),
        _ => None,
    }
}

fn order_of(opts: &Dynamic) -> (order: i16)
    ensures
        order == camera_order(fields(opts@)),
{
    match get_field(opts, "order") {
        Some(Dynamic::Int(n)) => if -0x8000 <= *n && *n <= 0x7fff {
            *n as i16
        } else {
            0
        },
        _ => 0,
    }
}

fn is_active(opts: &Dynamic) -> (active: bool)
    ensures
        active == camera_active(fields(opts@)),
{
    match get_field(opts, "active") {
        Some(Dynamic::Bool(b)) => *b,
        _ => true,
    }
}

/// The camera in three dimensions that a script value writes.
pub fn camera_3d_spec(opts: &Dynamic) -> (found: Camera3dSpec)
    ensures
        found == (Camera3dSpec {
            projection: camera_projection(fields(opts@)),
            view: camera_view(fields(opts@)),
            order: camera_order(fields(opts@)),
            active: camera_active(fields(opts@)),
            clear_color: color_field(fields(opts@), "clear_color"@),
        }),
{
    let orthographic: bool = match get_text(opts, "projection") {
        Some(kind) => text::same_text(kind.as_str(), "orthographic"),
        None => false,
    };
    let projection = if orthographic {
        ProjectionSpec::Orthographic {
            scale: float_field(opts, "scale"),
            near: float_field(opts, "near"),
            far: float_field(opts, "far"),
            viewport_height: float_field(opts, "viewport_height"),
        }
    } else {
        ProjectionSpec::Perspective {
            fov_degrees: or_default(float_field(opts, "fov_degrees"), SIXTY),
            near: or_default(float_field(opts, "near"), TENTH),
            far: or_default(float_field(opts, "far"), THOUSAND),
        }
    };
    let view = match (get_point(opts, "position"), get_point(opts, "target")) {
        (Some(position), Some(target)) => Some(
            CameraView { position, target, up: get_point(opts, "up") },
        ),
        _ => None,
    };
    Camera3dSpec {
        projection,
        view,
        order: order_of(opts),
        active: is_active(opts),
        clear_color: get_color(opts, "clear_color"),
    }
}

/// A camera in two dimensions.
#[derive(Debug, Clone, Copy, PartialEq, Eq, Structural)]
pub struct Camera2dSpec {
    pub scale: Option<Scalar>,
    pub order: i16,
    pub active: bool,
    pub clear_color: Option<ColorSpec>,
}

/// The camera in two dimensions that a script value writes.
pub fn camera_2d_spec(opts: &Dynamic) -> (found: Camera2dSpec)
    ensures
        found == (Camera2dSpec {
            scale: number_field(fields(opts@), "scale"@),
            order: camera_order(fields(opts@)),
            active: camera_active(fields(opts@)),
            clear_color: color_field(fields(opts@), "clear_color"@),
        }),
{
    Camera2dSpec {
        scale: float_field(opts, "scale"),
        order: order_of(opts),
        active: is_active(opts),
        clear_color: get_color(opts, "clear_color"),
    }
}

/// A map with one entry.
pub open spec fn tagged(tag: Seq<char>, value: Script) -> Script {
    Script::Object(Map::empty().insert(tag, value))
}

/// A map with one entry: the form in which a variant of an enum is written.
pub fn wrap(tag: &str, value: Dynamic) -> (wrapped: Dynamic)
    ensures
        wrapped@ == tagged(tag@, value@),
{
    let mut map: Dict<Dynamic> = Dict::new();
    map.insert(tag.to_owned(), value);
    let wrapped = Dynamic::Object(map);
    assert(dynamic::dict_view(map) =~= Map::empty().insert(tag@, value@));
    wrapped
}

/// The components of a colour, given by the bit patterns of doubles.
pub open spec fn rgba_map(red: u64, green: u64, blue: u64, alpha: u64) -> Map<Seq<char>, Script> {
    Map::<Seq<char>, Script>::empty().insert("red"@, Script::Float(red)).insert(
        "green"@,
        Script::Float(green),
    ).insert("blue"@, Script::Float(blue)).insert("alpha"@, Script::Float(alpha))
}

/// The bit pattern of the double 1.0.
pub const ONE_DOUBLE: u64 = 0x3ff0_0000_0000_0000;

/// A colour as scripts write it.
pub fn srgba(red: u64, green: u64, blue: u64, alpha: u64) -> (c: Dynamic)
    ensures
        c@ == tagged("Srgba"@, Script::Object(rgba_map(red, green, blue, alpha))),
{
    let mut map: Dict<Dynamic> = Dict::new();
    map.insert("red".to_owned(), Dynamic::Float(red));
    map.insert("green".to_owned(), Dynamic::Float(green));
    map.insert("blue".to_owned(), Dynamic::Float(blue));
    map.insert("alpha".to_owned(), Dynamic::Float(alpha));
    let inner = Dynamic::Object(map);
    assert(dynamic::dict_view(map) =~= rgba_map(red, green, blue, alpha));
    wrap("Srgba", inner)
}

/// An opaque colour as scripts write it.
pub fn srgb(red: u64, green: u64, blue: u64) -> (c: Dynamic)
    ensures
        c@ == tagged("Srgba"@, Script::Object(rgba_map(red, green, blue, ONE_DOUBLE))),
{
    srgba(red, green, blue, ONE_DOUBLE)
}

/// A length in pixels as scripts write it.
pub fn px(v: u64) -> (length: Dynamic)
    ensures
        length@ == tagged("Px"@, Script::Float(v)),
{
    wrap("Px", Dynamic::Float(v))
}

/// A length in percent as scripts write it.
pub fn percent(v: u64) -> (length: Dynamic)
    ensures
        length@ == tagged("Percent"@, Script::Float(v)),
{
    wrap("Percent", Dynamic::Float(v))
}

/// A colour that was written with its four components is read back with them.
pub proof fn srgba_is_read_back(red: u64, green: u64, blue: u64, alpha: u64)
    ensures
        color(tagged("Srgba"@, Script::Object(rgba_map(red, green, blue, alpha)))) == (ColorSpec {
            linear: false,
            red: Scalar::Float(red),
            green: Scalar::Float(green),
            blue: Scalar::Float(blue),
            alpha: Scalar::Float(alpha),
        }),
{
    reveal_strlit("Srgba");
    reveal_strlit("LinearRgba");
    reveal_strlit("red");
    reveal_strlit("green");
    reveal_strlit("blue");
    reveal_strlit("alpha");
    let inner = rgba_map(red, green, blue, alpha);
    let outer = Map::<Seq<char>, Script>::empty().insert("Srgba"@, Script::Object(inner));
    assert("red"@.len() == 3 && "green"@.len() == 5 && "blue"@.len() == 4 && "alpha"@.len() == 5);
    assert("green"@[0] == 'g' && "alpha"@[0] == 'a');
    assert("Srgba"@.len() == 5 && "LinearRgba"@.len() == 10);
    let keys = seq!["Srgba"@];
    assert forall|k: Seq<char>| #[trigger] outer.contains_key(k) <==> keys.contains(k) by {
        if outer.contains_key(k) {
            assert(keys[0] == k);
        }
    }
    dict::ascending_keys_are(outer, keys);
}

/// Whether a number in a description is the one that a script value is: a float by its bits, an
/// integer by its value.
pub open spec fn is_number_of(s: Script, n: Scalar) -> bool {
    (s is Float && n == Scalar::Float(s->Float_0)) || (s is Int && n == Scalar::Int(s->Int_0))
}

/// The singles that descriptions fall back to are those that their names say: 0.1, 0.3, 0.5, 0.8,
/// 1, 10, 60 and 1000.
pub proof fn defaults_are_these_singles()
    ensures
        TENTH == 0x3dcc_cccd,
        THREE_TENTHS == 0x3e99_999a,
        HALF == 0x3f00_0000,
        EIGHT_TENTHS == 0x3f4c_cccd,
        ONE == 0x3f80_0000,
        TEN == 0x4120_0000,
        SIXTY == 0x4270_0000,
        THOUSAND == 0x447a_0000,
        ONE_DOUBLE == 0x3ff0_0000_0000_0000,
{
}

/// A vector is written as three numbers in an array, in the order of the axes, or as a map that
/// has them under `x`, `y` and `z`. Anything else writes none.
pub proof fn vectors_keep_their_coordinates(s: Script)
    ensures
        vector(s) is Some && s is Array ==> {
            let list = s->Array_0;
            let v = vector(s)->Some_0;
            &&& list.len() == 3
            &&& is_number_of(list[0], v.x)
            &&& is_number_of(list[1], v.y)
            &&& is_number_of(list[2], v.z)
        },
        vector(s) is Some && s is Object ==> {
            let map = s->Object_0;
            let v = vector(s)->Some_0;
            &&& map.contains_key("x"@) && is_number_of(map["x"@], v.x)
            &&& map.contains_key("y"@) && is_number_of(map["y"@], v.y)
            &&& map.contains_key("z"@) && is_number_of(map["z"@], v.z)
        },
        vector(s) is Some ==> s is Array || s is Object,
        s is Array && s->Array_0.len() == 3 && (s->Array_0[0] is Int || s->Array_0[0] is Float) && (
        s->Array_0[1] is Int || s->Array_0[1] is Float) && (s->Array_0[2] is Int
            || s->Array_0[2] is Float) ==> vector(s) is Some,
        s is Object && s->Object_0.contains_key("x"@) && s->Object_0.contains_key("y"@)
            && s->Object_0.contains_key("z"@) && (s->Object_0["x"@] is Int
            || s->Object_0["x"@] is Float) && (s->Object_0["y"@] is Int
            || s->Object_0["y"@] is Float) && (s->Object_0["z"@] is Int
            || s->Object_0["z"@] is Float) ==> vector(s) is Some,
{
}

/// Where a script writes no vector, the default stands; where it writes one, that stands. The
/// default directions and sizes have the same number in every place, and up is the second axis.
pub proof fn vectors_fall_back_to_their_default(s: Script, default: Triple, bits: u32)
    ensures
        vector(s) is Some ==> vector_or(s, default) == vector(s)->Some_0,
        vector(s) is None ==> vector_or(s, default) == default,
        all_of(bits).x == Scalar::Single(bits),
        all_of(bits).y == Scalar::Single(bits),
        all_of(bits).z == Scalar::Single(bits),
        upwards().x == Scalar::Single(0),
        upwards().y == Scalar::Single(0x3f80_0000),
        upwards().z == Scalar::Single(0),
{
}

/// A dimension is the number at its place: a float as it is, an integer to be rounded twice, and
/// the default where there is no number.
pub proof fn dimensions_are_taken_by_place(list: Seq<Script>, i: int, default: u32)
    ensures
        0 <= i < list.len() && list[i] is Float ==> number_at(list, i, default) == Scalar::Float(
            list[i]->Float_0,
        ),
        0 <= i < list.len() && list[i] is Int ==> number_at(list, i, default) == Scalar::WideInt(
            list[i]->Int_0,
        ),
        !(0 <= i < list.len() && (list[i] is Float || list[i] is Int)) ==> number_at(
            list,
            i,
            default,
        ) == Scalar::Single(default),
{
}

/// Each kind of shape takes its dimensions in its own order: a cuboid width, height and depth; a
/// cylinder, a cone and a capsule the radius and then the height or length; a frustum the radius
/// at the top, at the bottom, and the height; a torus the inner radius and the outer; a plane
/// width and depth; a sphere its radius and a tetrahedron its edge.
pub proof fn shapes_take_their_dimensions_in_order(a: u64, b: u64, c: u64)
    ensures
        ({
            let (x, y, z) = (Scalar::Float(a), Scalar::Float(b), Scalar::Float(c));
            let one = Script::Float(a);
            let two = Script::Array(seq![Script::Float(a), Script::Float(b)]);
            let three = Script::Array(
                seq![Script::Float(a), Script::Float(b), Script::Float(c)],
            );
            &&& shape("Cuboid"@, three) == Some(
                MeshSpec::Cuboid { width: x, height: y, depth: z },
            )
            &&& shape("Cube"@, three) == Some(MeshSpec::Cuboid { width: x, height: y, depth: z })
            &&& shape("Sphere"@, one) == Some(MeshSpec::Sphere { radius: x })
            &&& shape("Cylinder"@, two) == Some(MeshSpec::Cylinder { radius: x, height: y })
            &&& shape("Capsule"@, two) == Some(MeshSpec::Capsule { radius: x, length: y })
            &&& shape("Cone"@, two) == Some(MeshSpec::Cone { radius: x, height: y })
            &&& shape("ConicalFrustum"@, three) == Some(
                MeshSpec::ConicalFrustum { radius_top: x, radius_bottom: y, height: z },
            )
            &&& shape("Torus"@, two) == Some(MeshSpec::Torus { inner: x, outer: y })
            &&& shape("Plane"@, two) == Some(MeshSpec::Plane { width: x, depth: y })
            &&& shape("Tetrahedron"@, one) == Some(MeshSpec::Tetrahedron { edge: x })
        }),
{
    kinds_differ();
}

proof fn kinds_differ()
    ensures
        "Cuboid"@.len() == 6 && "Cuboid"@[0] == 'C',
        "Cube"@.len() == 4 && "Cube"@[1] == 'u',
        "Sphere"@.len() == 6 && "Sphere"@[0] == 'S',
        "Cylinder"@.len() == 8,
        "Capsule"@.len() == 7,
        "Cone"@.len() == 4 && "Cone"@[1] == 'o',
        "ConicalFrustum"@.len() == 14,
        "Torus"@.len() == 5 && "Torus"@[0] == 'T',
        "Plane"@.len() == 5 && "Plane"@[0] == 'P',
        "Tetrahedron"@.len() == 11,
{
    reveal_strlit("Cuboid");
    reveal_strlit("Cube");
    reveal_strlit("Sphere");
    reveal_strlit("Cylinder");
    reveal_strlit("Capsule");
    reveal_strlit("Cone");
    reveal_strlit("ConicalFrustum");
    reveal_strlit("Torus");
    reveal_strlit("Plane");
    reveal_strlit("Tetrahedron");
}

/// A shape whose dimensions are not given has its default size: a unit cuboid and tetrahedron,
/// radii of one half, frusta and tori from 0.3 on, and planes of ten by ten. A sphere may have its
/// radius under that name. Other kinds are no shapes.
pub proof fn shapes_have_default_dimensions(payload: Script, kind: Seq<char>, bits: u64)
    ensures
        !(payload is Array) && !(payload is Object) && !(payload is Float) && !(payload is Int)
            ==> {
            let half = Scalar::Single(0x3f00_0000);
            let unit = Scalar::Single(0x3f80_0000);
            let small = Scalar::Single(0x3e99_999a);
            let large = Scalar::Single(0x3f4c_cccd);
            let ten = Scalar::Single(0x4120_0000);
            &&& shape("Cuboid"@, payload) == Some(
                MeshSpec::Cuboid { width: unit, height: unit, depth: unit },
            )
            &&& shape("Sphere"@, payload) == Some(MeshSpec::Sphere { radius: half })
            &&& shape("Cylinder"@, payload) == Some(
                MeshSpec::Cylinder { radius: half, height: unit },
            )
            &&& shape("Capsule"@, payload) == Some(MeshSpec::Capsule { radius: half, length: unit })
            &&& shape("Cone"@, payload) == Some(MeshSpec::Cone { radius: half, height: unit })
            &&& shape("ConicalFrustum"@, payload) == Some(
                MeshSpec::ConicalFrustum { radius_top: small, radius_bottom: half, height: unit },
            )
            &&& shape("Torus"@, payload) == Some(MeshSpec::Torus { inner: small, outer: large })
            &&& shape("Plane"@, payload) == Some(MeshSpec::Plane { width: ten, depth: ten })
            &&& shape("Tetrahedron"@, payload) == Some(MeshSpec::Tetrahedron { edge: unit })
        },
        payload is Object && payload->Object_0.contains_key("radius"@)
            && payload->Object_0["radius"@] == Script::Float(bits) ==> shape("Sphere"@, payload)
            == Some(MeshSpec::Sphere { radius: Scalar::Float(bits) }),
        kind != "Cuboid"@ && kind != "Cube"@ && kind != "Sphere"@ && kind != "Cylinder"@ && kind
            != "Capsule"@ && kind != "Cone"@ && kind != "ConicalFrustum"@ && kind != "Torus"@
            && kind != "Plane"@ && kind != "Tetrahedron"@ ==> shape(kind, payload) is None,
{
    kinds_differ();
}

/// The entry of a map that comes first in the order of the keys is the one that counts.
pub proof fn the_first_entry_counts(map: Map<Seq<char>, Script>, kind: Seq<char>)
    requires
        map.dom().finite(),
        map.contains_key(kind),
        forall|other: Seq<char>| #[trigger] map.contains_key(other) ==> !text::precedes(other, kind),
    ensures
        first_entry(Script::Object(map)) == Some((kind, map[kind])),
        shape(kind, map[kind]) is Some ==> mesh(Script::Object(map)) == Ok::<MeshSpec, Seq<char>>(
            shape(kind, map[kind])->Some_0,
        ),
        shape(kind, map[kind]) is None ==> mesh(Script::Object(map)) == Err::<MeshSpec, Seq<char>>(
            "attach_mesh: unknown primitive `"@ + kind + "`"@,
        ),
{
    let keys = dict::ascending_keys(map);
    dict::ascending_keys_list_the_domain(map);
    assert(keys.contains(kind));
    let i = choose|i: int| 0 <= i < keys.len() && keys[i] == kind;
    if i > 0 {
        assert(keys.contains(keys[0]));
        assert(map.contains_key(keys[0]));
        assert(text::precedes(keys[0], keys[i]));
    }
}

/// A value that is no map, and a map without entries, write no shape.
pub proof fn only_maps_with_entries_write_shapes(s: Script)
    ensures
        !(s is Object) ==> mesh(s) == Err::<MeshSpec, Seq<char>>(
            "attach_mesh: spec must be a #{...} map"@,
        ) && first_entry(s) is None,
        s is Object && s->Object_0.dom() == Set::<Seq<char>>::empty() ==> mesh(s) == Err::<
            MeshSpec,
            Seq<char>,
        >("attach_mesh: empty spec"@),
{
    if s is Object && s->Object_0.dom() == Set::<Seq<char>>::empty() {
        dict::ascending_keys_are(s->Object_0, Seq::empty());
    }
}

/// Whether a component of a colour is the number in its field, or 1.0 where there is none.
pub open spec fn is_component_of(parts: Map<Seq<char>, Script>, name: Seq<char>, n: Scalar) -> bool {
    if parts.contains_key(name) && (parts[name] is Float || parts[name] is Int) {
        is_number_of(parts[name], n)
    } else {
        n == Scalar::Single(0x3f80_0000)
    }
}

proof fn first_color_found(
    map: Map<Seq<char>, Script>,
    keys: Seq<Seq<char>>,
    i: int,
)
    requires
        forall|j: int| 0 <= j < i && j < keys.len() ==> !(map[#[trigger] keys[j]] is Object),
        0 <= i <= keys.len(),
        i < keys.len() ==> map[keys[i]] is Object,
    ensures
        i < keys.len() ==> first_color(map, keys) == color_in(keys[i], map[keys[i]]->Object_0),
        i == keys.len() ==> first_color(map, keys) == white(),
    decreases keys.len(),
{
    if i > 0 {
        assert(!(map[keys[0]] is Object));
        let rest = keys.drop_first();
        assert forall|j: int| 0 <= j < i - 1 && j < rest.len() implies !(map[
            #[trigger] rest[j]
        ] is Object) by {
            assert(rest[j] == keys[j + 1]);
        }
        first_color_found(map, rest, i - 1);
    }
}

/// A colour is written under the name of its space, linear or else gamma-encoded, with its
/// components by name, each of them full unless given. The first entry that holds a map counts.
pub proof fn colours_keep_their_components(map: Map<Seq<char>, Script>, space: Seq<char>)
    requires
        map.dom().finite(),
        map.contains_key(space),
        map[space] is Object,
        forall|other: Seq<char>| #[trigger]
            map.contains_key(other) && text::precedes(other, space) ==> !(map[other] is Object),
    ensures
        ({
            let c = color(Script::Object(map));
            let parts = map[space]->Object_0;
            &&& c.linear <==> space == "LinearRgba"@
            &&& is_component_of(parts, "red"@, c.red)
            &&& is_component_of(parts, "green"@, c.green)
            &&& is_component_of(parts, "blue"@, c.blue)
            &&& is_component_of(parts, "alpha"@, c.alpha)
        }),
{
    let keys = dict::ascending_keys(map);
    dict::ascending_keys_list_the_domain(map);
    assert(keys.contains(space));
    let i = choose|i: int| 0 <= i < keys.len() && keys[i] == space;
    assert forall|j: int| 0 <= j < i && j < keys.len() implies !(map[
        #[trigger] keys[j]
    ] is Object) by {
        assert(keys.contains(keys[j]));
        assert(map.contains_key(keys[j]));
        assert(text::precedes(keys[j], keys[i]));
    }
    first_color_found(map, keys, i);
}

/// What writes no colour is white: opaque, and full in every component.
pub proof fn anything_else_is_white(s: Script)
    requires
        s is Object ==> s->Object_0.dom().finite() && forall|key: Seq<char>|
            s->Object_0.contains_key(key) ==> !(#[trigger] s->Object_0[key] is Object),
    ensures
        ({
            let full = Scalar::Single(0x3f80_0000);
            color(s) == (ColorSpec {
                linear: false,
                red: full,
                green: full,
                blue: full,
                alpha: full,
            })
        }),
{
    let map = fields(s);
    let keys = dict::ascending_keys(map);
    if s is Object {
        dict::ascending_keys_list_the_domain(map);
    } else {
        dict::ascending_keys_are(map, Seq::empty());
    }
    assert forall|j: int| 0 <= j < keys.len() implies !(map[#[trigger] keys[j]] is Object) by {
        assert(keys.contains(keys[j]));
        assert(map.contains_key(keys[j]));
    }
    first_color_found(map, keys, keys.len() as int);
}

/// A camera takes its place in the order of cameras from a number that fits, is active unless it
/// is said not to be, and views from a position to a target if both are given.
pub proof fn cameras_are_read_by_field(map: Map<Seq<char>, Script>, n: i64, a: u64, b: u64, c: u64)
    ensures
        map.contains_key("order"@) && map["order"@] == Script::Int(n) && -0x8000 <= n <= 0x7fff
            ==> camera_order(map) == n,
        map.contains_key("order"@) && map["order"@] == Script::Int(n) && !(-0x8000 <= n <= 0x7fff)
            ==> camera_order(map) == 0,
        !map.contains_key("order"@) || !(map["order"@] is Int) ==> camera_order(map) == 0,
        camera_active(map) <==> !(map.contains_key("active"@) && map["active"@] == Script::Bool(
            false,
        )),
        camera_view(map) is Some <==> point_field(map, "position"@) is Some && point_field(
            map,
            "target"@,
        ) is Some,
        camera_view(map) is Some ==> camera_view(map)->Some_0.position == point_field(
            map,
            "position"@,
        )->Some_0 && camera_view(map)->Some_0.target == point_field(map, "target"@)->Some_0
            && camera_view(map)->Some_0.up == point_field(map, "up"@),
{
}

/// A camera projects in perspective, by 60 degrees from 0.1 to 1000 unless it says otherwise; with
/// the word `orthographic` it does not, and what it leaves open is left to the host.
pub proof fn cameras_project_in_perspective_by_default(map: Map<Seq<char>, Script>)
    ensures
        map.contains_key("projection"@) && map["projection"@] == Script::Str("orthographic"@)
            <==> camera_projection(map) is Orthographic,
        camera_projection(map) is Orthographic ==> camera_projection(map)
            == (ProjectionSpec::Orthographic {
            scale: number_field(map, "scale"@),
            near: number_field(map, "near"@),
            far: number_field(map, "far"@),
            viewport_height: number_field(map, "viewport_height"@),
        }),
        camera_projection(map) is Perspective ==> ({
            let p = camera_projection(map);
            &&& number_field(map, "fov_degrees"@) is None ==> p->fov_degrees == Scalar::Single(
                0x4270_0000,
            )
            &&& number_field(map, "fov_degrees"@) is Some ==> p->fov_degrees == number_field(
                map,
                "fov_degrees"@,
            )->Some_0
            &&& number_field(map, "near"@) is None ==> p->Perspective_near == Scalar::Single(
                0x3dcc_cccd,
            )
            &&& number_field(map, "near"@) is Some ==> p->Perspective_near == number_field(
                map,
                "near"@,
            )->Some_0
            &&& number_field(map, "far"@) is None ==> p->Perspective_far == Scalar::Single(
                0x447a_0000,
            )
            &&& number_field(map, "far"@) is Some ==> p->Perspective_far == number_field(
                map,
                "far"@,
            )->Some_0
        }),
{
}

/// The fields of a description are read by name and by type: a number from a number, a text from
/// a text, a pair and a point from the floats that an array starts with, in their order.
pub proof fn fields_are_read_by_name(map: Map<Seq<char>, Script>, name: Seq<char>)
    ensures
        number_field(map, name) is Some <==> map.contains_key(name) && (map[name] is Float
            || map[name] is Int),
        number_field(map, name) is Some ==> is_number_of(map[name], number_field(map, name)->Some_0),
        text_field(map, name) is Some <==> map.contains_key(name) && map[name] is Str,
        text_field(map, name) is Some ==> map[name] == Script::Str(text_field(map, name)->Some_0),
        color_field(map, name) is Some <==> map.contains_key(name),
        color_field(map, name) is Some ==> color_field(map, name)->Some_0 == color(map[name]),
        pair_field(map, name) is Some ==> {
            let list = map[name]->Array_0;
            let pair = pair_field(map, name)->Some_0;
            &&& map.contains_key(name) && map[name] is Array
            &&& list.len() >= 2 && list[0] == Script::Float(pair.0) && list[1] == Script::Float(
                pair.1,
            )
        },
        point_field(map, name) is Some ==> {
            let list = map[name]->Array_0;
            let point = point_field(map, name)->Some_0;
            &&& map.contains_key(name) && map[name] is Array
            &&& list.len() >= 3 && list[0] == Script::Float(point.0) && list[1] == Script::Float(
                point.1,
            ) && list[2] == Script::Float(point.2)
        },
        map.contains_key(name) && map[name] is Array && map[name]->Array_0.len() >= 2
            && map[name]->Array_0[0] is Float && map[name]->Array_0[1] is Float ==> pair_field(
            map,
            name,
        ) is Some,
        map.contains_key(name) && map[name] is Array && map[name]->Array_0.len() >= 3
            && map[name]->Array_0[0] is Float && map[name]->Array_0[1] is Float
            && map[name]->Array_0[2] is Float ==> point_field(map, name) is Some,
{
}

/// Of the meshes that were kept the first that was asked for alike is found, and none if nothing
/// alike was asked for.
pub proof fn the_first_mesh_asked_alike_is_found<H>(
    meshes: Seq<KeptMesh<H>>,
    kind: Seq<char>,
    payload: Script,
)
    ensures
        match kept_for(meshes, kind, payload) {
            Some(handle) => exists|i: int|
                {
                    &&& 0 <= i < meshes.len()
                    &&& (#[trigger] meshes[i]).handle == handle
                    &&& meshes[i].kind == kind && dynamic::alike(meshes[i].payload, payload)
                    &&& forall|j: int|
                        0 <= j < i ==> !((#[trigger] meshes[j]).kind == kind && dynamic::alike(
                            meshes[j].payload,
                            payload,
                        ))
                },
            None => forall|j: int|
                0 <= j < meshes.len() ==> !((#[trigger] meshes[j]).kind == kind && dynamic::alike(
                    meshes[j].payload,
                    payload,
                )),
        },
    decreases meshes.len(),
{
    if meshes.len() > 0 {
        let shorter = meshes.drop_last();
        the_first_mesh_asked_alike_is_found(shorter, kind, payload);
        assert(forall|j: int| 0 <= j < shorter.len() ==> #[trigger] meshes[j] == shorter[j]);
        match kept_for(shorter, kind, payload) {
            Some(handle) => {
                let i = choose|i: int|
                    {
                        &&& 0 <= i < shorter.len()
                        &&& (#[trigger] shorter[i]).handle == handle
                        &&& shorter[i].kind == kind && dynamic::alike(shorter[i].payload, payload)
                        &&& forall|j: int|
                            0 <= j < i ==> !((#[trigger] shorter[j]).kind == kind && dynamic::alike(
                                shorter[j].payload,
                                payload,
                            ))
                    };
                assert(meshes[i] == shorter[i]);
            },
            None => {
                assert(meshes.last() == meshes[meshes.len() - 1]);
            },
        }
    }
}

/// A mesh that was asked for alike before is not made again; another one is kept behind the
/// others, with the handle that the host gave it.
pub proof fn new_meshes_are_kept_last<H>(meshes: Seq<KeptMesh<H>>, s: Script, handle: H, i: int)
    requires
        mesh(s) is Ok,
        first_entry(s) is Some,
    ensures
        0 <= i < meshes.len() ==> with_mesh(meshes, s, handle)[i] == meshes[i],
        kept_for(meshes, first_entry(s)->Some_0.0, first_entry(s)->Some_0.1) is Some ==> with_mesh(
            meshes,
            s,
            handle,
        ) == meshes,
        kept_for(meshes, first_entry(s)->Some_0.0, first_entry(s)->Some_0.1) is None ==> {
            let after = with_mesh(meshes, s, handle);
            &&& after.len() == meshes.len() + 1
            &&& after.last().kind == first_entry(s)->Some_0.0
            &&& after.last().payload == first_entry(s)->Some_0.1
            &&& after.last().handle == handle
        },
{
}

/// A wrapped value is a map with that value under its tag and nothing else; a colour has its four
/// components by name.
pub proof fn wrapped_values_stand_under_their_tag(
    tag: Seq<char>,
    value: Script,
    key: Seq<char>,
    red: u64,
    green: u64,
    blue: u64,
    alpha: u64,
)
    ensures
        tagged(tag, value) is Object,
        tagged(tag, value)->Object_0.contains_key(key) <==> key == tag,
        tagged(tag, value)->Object_0[tag] == value,
        rgba_map(red, green, blue, alpha)["red"@] == Script::Float(red),
        rgba_map(red, green, blue, alpha)["green"@] == Script::Float(green),
        rgba_map(red, green, blue, alpha)["blue"@] == Script::Float(blue),
        rgba_map(red, green, blue, alpha)["alpha"@] == Script::Float(alpha),
        rgba_map(red, green, blue, alpha).contains_key(key) <==> key == "red"@ || key == "green"@
            || key == "blue"@ || key == "alpha"@,
{
    reveal_strlit("red");
    reveal_strlit("green");
    reveal_strlit("blue");
    reveal_strlit("alpha");
    assert("red"@.len() == 3 && "green"@.len() == 5 && "blue"@.len() == 4 && "alpha"@.len() == 5);
    assert("green"@[0] == 'g' && "alpha"@[0] == 'a');
}

/// Where three script values place an entity: each of translation, turn and size is read from its
/// own value alone, and is the origin, no turn, and unit size where that value writes no vector.
pub proof fn transforms_are_read_from_three_values(
    translation: &Dynamic,
    euler_degrees: &Dynamic,
    scale: &Dynamic,
    found: TransformSpec,
    first: Option<Triple>,
    second: Option<Triple>,
    third: Option<Triple>,
)
    requires
        call_ensures(transform_spec, (translation, euler_degrees, scale), found),
        call_ensures(vec3_from, (translation,), first),
        call_ensures(vec3_from, (euler_degrees,), second),
        call_ensures(vec3_from, (scale,), third),
    ensures
        first is Some ==> found.translation == first->Some_0,
        first is None ==> found.translation.x == Scalar::Single(0) && found.translation.y
            == Scalar::Single(0) && found.translation.z == Scalar::Single(0),
        second is Some ==> found.euler_degrees == second->Some_0,
        second is None ==> found.euler_degrees.x == Scalar::Single(0) && found.euler_degrees.y
            == Scalar::Single(0) && found.euler_degrees.z == Scalar::Single(0),
        third is Some ==> found.scale == third->Some_0,
        third is None ==> found.scale.x == Scalar::Single(0x3f80_0000) && found.scale.y
            == Scalar::Single(0x3f80_0000) && found.scale.z == Scalar::Single(0x3f80_0000),
{
}

/// Where two script values say to look: the target and the upward direction are each read from
/// their own value, and are the origin and the second axis where it writes no vector. A
/// translation alone is read as that of a transform.
pub proof fn looks_are_read_from_two_values(
    target: &Dynamic,
    up: &Dynamic,
    found: LookSpec,
    moved: Triple,
    first: Option<Triple>,
    second: Option<Triple>,
)
    requires
        call_ensures(look_spec, (target, up), found),
        call_ensures(translation_spec, (target,), moved),
        call_ensures(vec3_from, (target,), first),
        call_ensures(vec3_from, (up,), second),
    ensures
        first is Some ==> found.target == first->Some_0 && moved == first->Some_0,
        first is None ==> found.target.x == Scalar::Single(0) && found.target.y == Scalar::Single(0)
            && found.target.z == Scalar::Single(0) && moved == found.target,
        second is Some ==> found.up == second->Some_0,
        second is None ==> found.up.x == Scalar::Single(0) && found.up.y == Scalar::Single(
            0x3f80_0000,
        ) && found.up.z == Scalar::Single(0),
{
}

/// A material has each of its parts from the field of that name, and from no other: the numbers
/// `metallic` and `roughness`, the colours `base_color` and `emissive`.
pub proof fn materials_are_read_by_field(
    material: &Dynamic,
    found: PbrSpec,
    base: &Dynamic,
    colour: ColorSpec,
)
    requires
        material@ is Object,
        call_ensures(pbr_spec, (material,), found),
        call_ensures(color_from_dynamic, (base,), colour),
    ensures
        ({
            let map = material@->Object_0;
            &&& found.metallic is Some <==> map.contains_key("metallic"@) && (map["metallic"@] is Int
                || map["metallic"@] is Float)
            &&& found.metallic is Some ==> is_number_of(
                map["metallic"@],
                found.metallic->Some_0,
            )
            &&& found.roughness is Some <==> map.contains_key("roughness"@) && (
            map["roughness"@] is Int || map["roughness"@] is Float)
            &&& found.roughness is Some ==> is_number_of(
                map["roughness"@],
                found.roughness->Some_0,
            )
            &&& found.base_color is Some <==> map.contains_key("base_color"@)
            &&& found.emissive is Some <==> map.contains_key("emissive"@)
            &&& map.contains_key("base_color"@) && map["base_color"@] == base@
                ==> found.base_color == Some(colour)
            &&& map.contains_key("emissive"@) && map["emissive"@] == base@ ==> found.emissive
                == Some(colour)
        }),
{
}

/// A sprite has its colour, size and image from the fields of those names; without a colour it is
/// white.
pub proof fn sprites_are_read_by_field(
    spec: &Dynamic,
    found: SpriteSpec,
    given: &Dynamic,
    colour: ColorSpec,
)
    requires
        spec@ is Object,
        call_ensures(sprite_spec, (spec,), found),
        call_ensures(color_from_dynamic, (given,), colour),
    ensures
        ({
            let map = spec@->Object_0;
            let one = Scalar::Single(0x3f80_0000);
            &&& map.contains_key("color"@) && map["color"@] == given@ ==> found.color == colour
            &&& !map.contains_key("color"@) ==> found.color == (ColorSpec {
                linear: false,
                red: one,
                green: one,
                blue: one,
                alpha: one,
            })
            &&& found.image is Some <==> map.contains_key("image"@) && map["image"@] is Str
            &&& found.image is Some ==> found.image->Some_0@ == map["image"@]->Str_0
            &&& found.custom_size is Some <==> map.contains_key("custom_size"@)
                && map["custom_size"@] is Array && map["custom_size"@]->Array_0.len() >= 2
                && map["custom_size"@]->Array_0[0] is Float
                && map["custom_size"@]->Array_0[1] is Float
            &&& found.custom_size is Some ==> map["custom_size"@]->Array_0[0] == Script::Float(
                found.custom_size->Some_0.0,
            ) && map["custom_size"@]->Array_0[1] == Script::Float(found.custom_size->Some_0.1)
        }),
{
}

/// A camera has its place, whether it is active, and the colour it clears with from the fields of
/// those names, whether it shows two dimensions or three. A camera in two dimensions has its scale
/// from the field `scale`; one in three has a view only if both a position and a target are given.
pub proof fn both_cameras_are_read_by_field(
    opts: &Dynamic,
    flat: Camera2dSpec,
    deep: Camera3dSpec,
    given: &Dynamic,
    colour: ColorSpec,
)
    requires
        opts@ is Object,
        call_ensures(camera_2d_spec, (opts,), flat),
        call_ensures(camera_3d_spec, (opts,), deep),
        call_ensures(color_from_dynamic, (given,), colour),
    ensures
        flat.order == deep.order,
        flat.active == deep.active,
        flat.clear_color == deep.clear_color,
        ({
            let map = opts@->Object_0;
            &&& map.contains_key("order"@) && map["order"@] is Int && -0x8000
                <= map["order"@]->Int_0 <= 0x7fff ==> flat.order == map["order"@]->Int_0
            &&& !(map.contains_key("order"@) && map["order"@] is Int && -0x8000
                <= map["order"@]->Int_0 <= 0x7fff) ==> flat.order == 0
            &&& flat.active <==> !(map.contains_key("active"@) && map["active"@] == Script::Bool(
                false,
            ))
            &&& flat.clear_color is Some <==> map.contains_key("clear_color"@)
            &&& map.contains_key("clear_color"@) && map["clear_color"@] == given@
                ==> flat.clear_color == Some(colour)
            &&& flat.scale is Some <==> map.contains_key("scale"@) && (map["scale"@] is Int
                || map["scale"@] is Float)
            &&& flat.scale is Some ==> is_number_of(map["scale"@], flat.scale->Some_0)
            &&& deep.projection is Orthographic <==> map.contains_key("projection"@)
                && map["projection"@] == Script::Str("orthographic"@)
            &&& deep.projection is Orthographic ==> deep.projection->scale == flat.scale
            &&& deep.view is Some ==> map.contains_key("position"@) && map.contains_key(
                "target"@,
            ) && map["position"@] is Array && map["target"@] is Array
                && map["position"@]->Array_0[0] == Script::Float(
                deep.view->Some_0.position.0,
            ) && map["position"@]->Array_0[1] == Script::Float(deep.view->Some_0.position.1)
                && map["position"@]->Array_0[2] == Script::Float(deep.view->Some_0.position.2)
                && map["target"@]->Array_0[0] == Script::Float(deep.view->Some_0.target.0)
                && map["target"@]->Array_0[1] == Script::Float(deep.view->Some_0.target.1)
                && map["target"@]->Array_0[2] == Script::Float(deep.view->Some_0.target.2)
        }),
{
}

/// A colour that a script writes with its components is read with them, in gamma-encoded sRGB; one
/// that is written without its opacity is opaque.
pub proof fn written_colours_are_read_back(
    red: u64,
    green: u64,
    blue: u64,
    alpha: u64,
    clear: Dynamic,
    opaque: Dynamic,
    first: ColorSpec,
    second: ColorSpec,
)
    requires
        call_ensures(srgba, (red, green, blue, alpha), clear),
        call_ensures(srgb, (red, green, blue), opaque),
        call_ensures(color_from_dynamic, (&clear,), first),
        call_ensures(color_from_dynamic, (&opaque,), second),
    ensures
        first == (ColorSpec {
            linear: false,
            red: Scalar::Float(red),
            green: Scalar::Float(green),
            blue: Scalar::Float(blue),
            alpha: Scalar::Float(alpha),
        }),
        second == (ColorSpec { alpha: Scalar::Float(0x3ff0_0000_0000_0000), ..first }),
{
    srgba_is_read_back(red, green, blue, alpha);
    srgba_is_read_back(red, green, blue, ONE_DOUBLE);
}

/// A length that a script writes stands alone under the name of its unit.
pub proof fn lengths_stand_under_their_unit(v: u64, pixels: Dynamic, part: Dynamic, unit: Seq<char>)
    requires
        call_ensures(px, (v,), pixels),
        call_ensures(percent, (v,), part),
    ensures
        pixels@ is Object,
        pixels@->Object_0.contains_key(unit) <==> unit == "Px"@,
        pixels@->Object_0["Px"@] == Script::Float(v),
        part@ is Object,
        part@->Object_0.contains_key(unit) <==> unit == "Percent"@,
        part@->Object_0["Percent"@] == Script::Float(v),
{
}

} // verus!
