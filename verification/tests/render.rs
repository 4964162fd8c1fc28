use bevy_ecs::hierarchy::ChildOf;
use bevy_ecs::world::World;
use bevy_vm::component::mesh::Mesh3dRender;
use bevy_vm::component::picking::Pickable;
use bevy_vm::component::scene::SceneRender;
use bevy_vm::render::{camera_order, place_mirrors, sync_hierarchy, ui_pick_flags, EntityMap};
use bevy_vm::resource::image::ImageBuilder;
use bevy_vm::resource::material::{MaterialBuilder, PbrMaterial};
use bevy_vm::resource::mesh::MeshBuilder;
use bevy_vm::resource::{CacheKey, ResourceCache};

#[test]
fn live_entities_have_mirrors() {
    let mut map = EntityMap::new();
    let (next, frame) = map.sync(&vec![10, 11], 100, &|_: usize, next: u64| (next + 1, next));
    assert_eq!(next, 102);
    let shown: Vec<_> = frame.shown.iter().map(|m| (m.entity, m.mirror, m.fresh)).collect();
    assert_eq!(shown, [(10, 100, true), (11, 101, true)]);
    assert!(frame.gone.is_empty());
    let (next, frame) = map.sync(&vec![12, 11], 200, &|_: usize, next: u64| (next + 1, next));
    assert_eq!(next, 201);
    let shown: Vec<_> = frame.shown.iter().map(|m| (m.entity, m.mirror, m.fresh)).collect();
    assert_eq!(shown, [(12, 200, true), (11, 101, false)]);
    assert_eq!(frame.gone, [100]);
    assert_eq!((map.get(10), map.get(11), map.get(12)), (None, Some(101), Some(200)));
    assert_eq!(map.despawn_missing(&vec![12]), [101]);
    assert_eq!(map.get(11), None);
}

#[test]
fn later_tables_win() {
    let mut all = EntityMap::new();
    all.insert(1, 10);
    all.insert(2, 20);
    let mut more = EntityMap::new();
    more.insert(2, 21);
    more.insert(3, 30);
    all.add_all(&more);
    assert_eq!((all.get(1), all.get(2), all.get(3)), (Some(10), Some(21), Some(30)));
}

#[test]
fn mirrors_hang_together_as_entities_do() {
    let mut world = World::new();
    let parent = world.spawn_empty().id();
    let first = world.spawn(ChildOf(parent)).id();
    let second = world.spawn(ChildOf(parent)).id();
    let hidden = world.spawn_empty().id();
    let orphan = world.spawn(ChildOf(hidden)).id();
    let mut map = EntityMap::new();
    map.insert(second.to_bits(), 2);
    map.insert(first.to_bits(), 1);
    map.insert(parent.to_bits(), 9);
    map.insert(orphan.to_bits(), 5);
    let places: Vec<_> =
        place_mirrors(&world, &map).into_iter().map(|p| (p.mirror, p.parent)).collect();
    assert_eq!(places, [(9, None), (5, None), (1, Some(9)), (2, Some(9))]);
    let changes = sync_hierarchy(&world, &map, &|mirror: u64| match mirror {
        1 => Some(9),
        5 => Some(9),
        _ => None,
    });
    let changes: Vec<_> = changes.into_iter().map(|p| (p.mirror, p.parent)).collect();
    assert_eq!(changes, [(5, None), (2, Some(9))]);
}

#[test]
fn small_decisions_of_the_renderer() {
    assert_eq!(camera_order(7), 7);
    assert_eq!(camera_order(-32_768), -32_768);
    assert_eq!(camera_order(32_768), 0);
    let (on, off) = (ui_pick_flags(true), ui_pick_flags(false));
    assert!(on.is_hoverable && on.should_block_lower);
    assert!(!off.is_hoverable && !off.should_block_lower);
}

#[test]
fn shown_things_have_defaults() {
    let shown = Mesh3dRender::default();
    assert_eq!(shown.mesh, MeshBuilder::Cube { size: [1.0f32.to_bits(); 3] });
    assert_eq!(shown.material, MaterialBuilder::Pbr(PbrMaterial::default()));
    assert_eq!(SceneRender::default().asset, "");
    assert_eq!(Pickable, Pickable::default());
}

#[test]
fn resources_are_built_once() {
    let mut cache: ResourceCache<MeshBuilder, u32> = ResourceCache::new();
    let key = CacheKey::from_bits(7);
    assert_eq!(cache.get(key), None);
    assert_eq!(cache.get_or_build_with(key, 0, |n: u32| (n + 1, 5)), (1, &5));
    assert_eq!(cache.get_or_build_with(key, 0, |_: u32| panic!("it was built")), (0, &5));
    cache.insert(key, 6);
    assert_eq!(cache.get(key), Some(&6));
    assert_eq!(key.bits(), 7);
    assert!(key == CacheKey::from_bits(7) && key != CacheKey::from_bits(8));
}

#[test]
fn equal_descriptions_have_equal_keys() {
    let sphere = |radius: f32| MeshBuilder::Sphere { radius: radius.to_bits() }.key_parts();
    assert_eq!(sphere(0.0), sphere(-0.0));
    assert_ne!(sphere(1.0), sphere(2.0));
    let cube = MeshBuilder::Cube { size: [1.0f32.to_bits(); 3] }.key_parts();
    assert_ne!(cube, sphere(1.0));
    let asset = |path: &str| MeshBuilder::AssetPath { path: path.to_owned() }.key_parts();
    assert_eq!(asset("a"), asset("a"));
    assert_ne!(asset("a"), asset("b"));
    let material = |alpha: f32| {
        let mut pbr = PbrMaterial::default();
        pbr.base_color[3] = alpha.to_bits();
        pbr
    };
    assert!(!material(1.0).blends() && material(0.5).blends());
    let key = |pbr: PbrMaterial| MaterialBuilder::Pbr(pbr).key_parts();
    assert_eq!(key(material(0.0)), key(material(-0.0)));
    assert_ne!(key(material(0.5)), key(material(1.0)));
    let mut textured = material(1.0);
    textured.base_color_texture = Some(ImageBuilder::AssetPath { path: "t.png".to_owned() });
    assert_ne!(key(textured), key(material(1.0)));
    assert_eq!(ImageBuilder::AssetPath { path: "t.png".to_owned() }.path(), "t.png");
}
