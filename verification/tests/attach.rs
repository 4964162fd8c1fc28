use bevy_vm::dict::Dict;
use bevy_vm::system::script::attach;
use bevy_vm::system::script::attach::{
    build_mesh_handle, camera_2d_spec, camera_3d_spec, color_from_dynamic, look_spec, mesh_spec,
    pbr_spec, percent, px, sprite_spec, srgb, srgba, transform_spec, translation_spec, vec3_field,
    vec3_from, AttachCache, ColorSpec, MeshSpec, ProjectionSpec, Scalar, Triple,
};
use bevy_vm::system::script::dynamic::{is_alike, Dynamic};

fn map(fields: Vec<(&str, Dynamic)>) -> Dynamic {
    let mut dict = Dict::new();
    for (name, field) in fields {
        dict.insert(name.to_owned(), field);
    }
    Dynamic::Object(dict)
}

fn float(x: f64) -> Dynamic {
    Dynamic::Float(x.to_bits())
}

fn floats(list: &[f64]) -> Dynamic {
    Dynamic::Array(list.iter().map(|x| float(*x)).collect())
}

fn double(x: f64) -> Scalar {
    Scalar::Float(x.to_bits())
}

fn single(x: f32) -> Scalar {
    Scalar::Single(x.to_bits())
}

fn text(s: &str) -> Dynamic {
    Dynamic::Str(s.to_owned())
}

#[test]
fn constants_are_the_bits_of_their_numbers() {
    let pairs = [
        (attach::TENTH, 0.1f32),
        (attach::THREE_TENTHS, 0.3),
        (attach::HALF, 0.5),
        (attach::EIGHT_TENTHS, 0.8),
        (attach::ONE, 1.0),
        (attach::TEN, 10.0),
        (attach::SIXTY, 60.0),
        (attach::THOUSAND, 1000.0),
    ];
    for (bits, number) in pairs {
        assert_eq!(bits, number.to_bits());
    }
    assert_eq!(attach::ONE_DOUBLE, 1.0f64.to_bits());
}

#[test]
fn shapes_are_read_with_their_defaults() {
    let shape = |kind: &str, payload: Dynamic| mesh_spec(&map(vec![(kind, payload)])).unwrap();
    assert_eq!(
        shape("Cuboid", Dynamic::Array(vec![float(2.0), Dynamic::Int(3)])),
        MeshSpec::Cuboid { width: double(2.0), height: Scalar::WideInt(3), depth: single(1.0) }
    );
    assert_eq!(
        shape("Cube", Dynamic::Unit),
        MeshSpec::Cuboid { width: single(1.0), height: single(1.0), depth: single(1.0) }
    );
    assert_eq!(shape("Sphere", Dynamic::Int(4)), MeshSpec::Sphere { radius: Scalar::Int(4) });
    assert_eq!(
        shape("Sphere", map(vec![("radius", float(2.5))])),
        MeshSpec::Sphere { radius: double(2.5) }
    );
    assert_eq!(shape("Sphere", text("big")), MeshSpec::Sphere { radius: single(0.5) });
    assert_eq!(
        shape("Cylinder", floats(&[])),
        MeshSpec::Cylinder { radius: single(0.5), height: single(1.0) }
    );
    assert_eq!(
        shape("Capsule", floats(&[1.0])),
        MeshSpec::Capsule { radius: double(1.0), length: single(1.0) }
    );
    assert_eq!(
        shape("Cone", floats(&[1.0, 2.0])),
        MeshSpec::Cone { radius: double(1.0), height: double(2.0) }
    );
    assert_eq!(
        shape("ConicalFrustum", floats(&[])),
        MeshSpec::ConicalFrustum {
            radius_top: single(0.3),
            radius_bottom: single(0.5),
            height: single(1.0)
        }
    );
    assert_eq!(
        shape("Torus", floats(&[])),
        MeshSpec::Torus { inner: single(0.3), outer: single(0.8) }
    );
    assert_eq!(
        shape("Plane", floats(&[4.0])),
        MeshSpec::Plane { width: double(4.0), depth: single(10.0) }
    );
    assert_eq!(shape("Tetrahedron", Dynamic::Unit), MeshSpec::Tetrahedron { edge: single(1.0) });
    assert_eq!(shape("Tetrahedron", float(3.0)), MeshSpec::Tetrahedron { edge: double(3.0) });
}

#[test]
fn odd_shapes_are_refused() {
    let refused = |spec: Dynamic| mesh_spec(&spec).unwrap_err();
    assert_eq!(refused(Dynamic::Int(1)), "attach_mesh: spec must be a #{...} map");
    assert_eq!(refused(map(vec![])), "attach_mesh: empty spec");
    assert_eq!(refused(map(vec![("Blob", Dynamic::Unit)])), "attach_mesh: unknown primitive `Blob`");
    let first = mesh_spec(&map(vec![("Sphere", float(1.0)), ("Cone", floats(&[]))])).unwrap();
    assert_eq!(first, MeshSpec::Cone { radius: single(0.5), height: single(1.0) });
}

fn color(linear: bool, c: [Scalar; 4]) -> ColorSpec {
    ColorSpec { linear, red: c[0], green: c[1], blue: c[2], alpha: c[3] }
}

fn white() -> ColorSpec {
    color(false, [single(1.0); 4])
}

#[test]
fn colours_are_read_back_as_written() {
    let bits = |x: f64| x.to_bits();
    let written = srgba(bits(0.1), bits(0.2), bits(0.3), bits(0.4));
    assert_eq!(
        color_from_dynamic(&written),
        color(false, [double(0.1), double(0.2), double(0.3), double(0.4)])
    );
    let opaque = srgb(bits(0.1), bits(0.2), bits(0.3));
    assert_eq!(
        color_from_dynamic(&opaque),
        color(false, [double(0.1), double(0.2), double(0.3), double(1.0)])
    );
    let linear = map(vec![("LinearRgba", map(vec![("green", Dynamic::Int(0))]))]);
    assert_eq!(
        color_from_dynamic(&linear),
        color(true, [single(1.0), Scalar::Int(0), single(1.0), single(1.0)])
    );
    assert_eq!(color_from_dynamic(&Dynamic::Unit), white());
    assert_eq!(color_from_dynamic(&map(vec![("Srgba", Dynamic::Int(1))])), white());
    assert_eq!(px(bits(4.0)), map(vec![("Px", float(4.0))]));
    assert_eq!(percent(bits(4.0)), map(vec![("Percent", float(4.0))]));
}

#[test]
fn vectors_are_lists_or_maps() {
    let v = |x, y, z| Triple { x, y, z };
    assert_eq!(
        vec3_from(&Dynamic::Array(vec![float(1.0), Dynamic::Int(2), float(3.0)])),
        Some(v(double(1.0), Scalar::Int(2), double(3.0)))
    );
    assert_eq!(vec3_from(&floats(&[1.0, 2.0])), None);
    let named = map(vec![("x", float(1.0)), ("y", float(2.0)), ("z", float(3.0))]);
    assert_eq!(vec3_from(&named), Some(v(double(1.0), double(2.0), double(3.0))));
    assert_eq!(vec3_from(&map(vec![("x", float(1.0))])), None);
    let outer = map(vec![("at", named)]);
    assert_eq!(vec3_field(&outer, "at"), Some(v(double(1.0), double(2.0), double(3.0))));
    assert_eq!(vec3_field(&outer, "to"), None);
    let zero = v(single(0.0), single(0.0), single(0.0));
    let one = v(single(1.0), single(1.0), single(1.0));
    let transform = transform_spec(&Dynamic::Unit, &Dynamic::Unit, &Dynamic::Unit);
    assert_eq!(
        (transform.translation, transform.euler_degrees, transform.scale),
        (zero, zero, one)
    );
    assert_eq!(translation_spec(&Dynamic::Unit), zero);
    let look = look_spec(&floats(&[1.0, 2.0, 3.0]), &Dynamic::Unit);
    assert_eq!(look.target, v(double(1.0), double(2.0), double(3.0)));
    assert_eq!(look.up, v(single(0.0), single(1.0), single(0.0)));
}

#[test]
fn materials_keep_what_is_not_said() {
    let empty = pbr_spec(&Dynamic::Unit);
    assert_eq!(empty.base_color, None);
    assert_eq!((empty.metallic, empty.roughness, empty.emissive), (None, None, None));
    let spec = pbr_spec(&map(vec![
        ("base_color", Dynamic::Unit),
        ("metallic", Dynamic::Int(1)),
        ("roughness", float(0.5)),
    ]));
    assert_eq!(spec.base_color, Some(white()));
    assert_eq!((spec.metallic, spec.roughness), (Some(Scalar::Int(1)), Some(double(0.5))));
}

#[test]
fn sprites_take_sizes_of_doubles_only() {
    let sprite = sprite_spec(&map(vec![
        ("custom_size", floats(&[2.0, 3.0])),
        ("image", text("tree.png")),
    ]));
    assert_eq!(sprite.color, white());
    assert_eq!(sprite.custom_size, Some((2.0f64.to_bits(), 3.0f64.to_bits())));
    assert_eq!(sprite.image.as_deref(), Some("tree.png"));
    let plain = sprite_spec(&map(vec![(
        "custom_size",
        Dynamic::Array(vec![Dynamic::Int(2), Dynamic::Int(3)]),
    )]));
    assert_eq!((plain.custom_size, plain.image), (None, None));
}

#[test]
fn cameras_are_read_with_their_defaults() {
    let plain = camera_3d_spec(&Dynamic::Unit);
    assert_eq!(
        plain.projection,
        ProjectionSpec::Perspective {
            fov_degrees: single(60.0),
            near: single(0.1),
            far: single(1000.0)
        }
    );
    assert_eq!((plain.view, plain.order, plain.active), (None, 0, true));
    assert_eq!(plain.clear_color, None);
    let camera = camera_3d_spec(&map(vec![
        ("projection", text("orthographic")),
        ("viewport_height", float(8.0)),
        ("position", floats(&[1.0, 2.0, 3.0])),
        ("target", floats(&[4.0, 5.0, 6.0, 7.0])),
        ("order", Dynamic::Int(-3)),
        ("active", Dynamic::Bool(false)),
        ("clear_color", Dynamic::Unit),
    ]));
    assert_eq!(
        camera.projection,
        ProjectionSpec::Orthographic {
            scale: None,
            near: None,
            far: None,
            viewport_height: Some(double(8.0))
        }
    );
    let view = camera.view.expect("it stands and looks somewhere");
    let bits = |x: f64| x.to_bits();
    assert_eq!(view.position, (bits(1.0), bits(2.0), bits(3.0)));
    assert_eq!(view.target, (bits(4.0), bits(5.0), bits(6.0)));
    assert_eq!(view.up, None);
    assert_eq!((camera.order, camera.active), (-3, false));
    assert_eq!(camera.clear_color, Some(white()));
    let flat = camera_2d_spec(&map(vec![
        ("scale", float(2.0)),
        ("order", Dynamic::Int(40_000)),
    ]));
    assert_eq!((flat.scale, flat.order, flat.active), (Some(double(2.0)), 0, true));
}

/// Asks for a mesh: its handle, and the shape if it had to be made.
fn ask(
    cache: &mut AttachCache<usize>,
    next: usize,
    spec: Dynamic,
) -> (Result<usize, String>, Option<MeshSpec>) {
    let make = |_: Option<MeshSpec>, shape: MeshSpec| (Some(shape), next);
    let (made, handle) = build_mesh_handle(cache, spec, None, make);
    (handle.map(|h| *h), made)
}

#[test]
fn equal_specs_share_one_mesh() {
    let mut cache = AttachCache::new();
    assert!(cache.is_empty());
    let cuboid = || map(vec![("Cuboid", floats(&[1.0, 2.0, 3.0]))]);
    let shape =
        MeshSpec::Cuboid { width: double(1.0), height: double(2.0), depth: double(3.0) };
    assert_eq!(ask(&mut cache, 0, cuboid()), (Ok(0), Some(shape)));
    let sphere = |radius: Dynamic| map(vec![("Sphere", radius)]);
    assert_eq!(
        ask(&mut cache, 1, sphere(float(1.0))),
        (Ok(1), Some(MeshSpec::Sphere { radius: double(1.0) }))
    );
    assert_eq!(ask(&mut cache, 2, cuboid()), (Ok(0), None));
    assert_eq!(ask(&mut cache, 2, sphere(float(1.0))), (Ok(1), None));
    let more = map(vec![("Cuboid", floats(&[1.0, 2.0, 3.0])), ("Sphere", float(7.0))]);
    assert_eq!(ask(&mut cache, 2, more), (Ok(0), None));
    let cube = map(vec![("Cube", floats(&[1.0, 2.0, 3.0]))]);
    assert_eq!(ask(&mut cache, 2, cube), (Ok(2), Some(shape)));
    let whole = sphere(Dynamic::Int(1));
    assert_eq!(
        ask(&mut cache, 3, whole),
        (Ok(3), Some(MeshSpec::Sphere { radius: Scalar::Int(1) }))
    );
    assert!(!cache.is_empty());
}

#[test]
fn refused_specs_make_no_mesh() {
    let mut cache = AttachCache::new();
    let refused = |cache: &mut AttachCache<usize>, spec: Dynamic| {
        let (handle, made) = ask(cache, 0, spec);
        assert_eq!(made, None);
        handle.unwrap_err()
    };
    assert_eq!(refused(&mut cache, text("Cuboid")), "attach_mesh: spec must be a #{...} map");
    assert_eq!(refused(&mut cache, map(vec![])), "attach_mesh: empty spec");
    assert_eq!(
        refused(&mut cache, map(vec![("Blob", Dynamic::Unit)])),
        "attach_mesh: unknown primitive `Blob`"
    );
    assert!(cache.is_empty());
}

#[test]
fn values_are_alike_as_they_are_written() {
    let samples = || {
        vec![
            Dynamic::Unit,
            Dynamic::Bool(true),
            Dynamic::Bool(false),
            Dynamic::Int(1),
            float(1.0),
            float(0.0),
            float(-0.0),
            float(f64::INFINITY),
            float(f64::NAN),
            Dynamic::Char('1'),
            text("1"),
            text(""),
            Dynamic::Other("1".to_owned()),
            floats(&[]),
            floats(&[1.0]),
            floats(&[1.0, 2.0]),
            floats(&[2.0, 1.0]),
            map(vec![]),
            map(vec![("a", float(1.0))]),
            map(vec![("b", float(1.0))]),
            map(vec![("a", float(2.0))]),
            map(vec![("a", float(1.0)), ("b", floats(&[1.0]))]),
            map(vec![("a", float(1.0)), ("b", floats(&[3.0]))]),
        ]
    };
    for (i, a) in samples().iter().enumerate() {
        for (j, b) in samples().iter().enumerate() {
            assert_eq!(is_alike(a, b), i == j, "{a:?} {b:?}");
        }
    }
    let other_nan = Dynamic::Float(f64::NAN.to_bits() | 1 << 63 | 1);
    assert!(is_alike(&other_nan, &float(f64::NAN)));
    assert!(is_alike(&map(vec![("a", other_nan)]), &map(vec![("a", float(f64::NAN))])));
}
