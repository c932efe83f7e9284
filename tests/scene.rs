use doom_engine::component::ComponentTable;
use doom_engine::entity::EntityStore;
use doom_engine::scene::{build_scene, gather, GeometryClass, Material, Mesh, ObjectGeometry, SceneError};

fn geometry(stat: usize, flats: Vec<u32>, walls: Vec<u32>) -> ObjectGeometry<u16> {
    ObjectGeometry {
        static_vertices: (0..stat as u16).collect(),
        flats,
        walls,
        sky_vertices: vec![],
        sky: vec![],
        decor_vertices: vec![],
        decor: vec![],
    }
}

#[test]
fn walls_only_object_gets_only_walls_entity() {
    let objects = vec![geometry(3, vec![], vec![0, 1, 2])];
    let mut store = EntityStore::new();
    let mut transforms: ComponentTable<u8> = ComponentTable::new();
    let mut meshes: ComponentTable<Mesh> = ComponentTable::new();
    let mut materials: ComponentTable<Material> = ComponentTable::new();
    let scene = match build_scene(&objects, &mut store, &mut transforms, &mut meshes, &mut materials, 0u8) {
        Ok(s) => s,
        Err(e) => panic!("build failed: {:?}", e),
    };
    assert_eq!(scene.objects.len(), 1);
    let kids = store.children_of(scene.objects[0]);
    assert_eq!(kids.len(), 1);
    assert_eq!(materials.get(kids[0]), Some(&Material::Walls));
    let mesh = meshes.get(kids[0]).unwrap();
    assert_eq!(mesh.class, GeometryClass::Static);
    assert_eq!(mesh.indices, vec![0, 1, 2]);
    assert!(transforms.contains(kids[0]));
    assert_eq!(store.children_of(scene.root), vec![scene.world]);
    assert_eq!(store.children_of(scene.world), scene.objects);
    assert_eq!(scene.buffers.static_vertices.len(), 3);
}

#[test]
fn indices_are_rebased_onto_shared_buffer() {
    let objects = vec![geometry(2, vec![0, 1], vec![]), geometry(3, vec![2], vec![0, 1])];
    let (bufs, idx) = match gather(&objects) {
        Ok(p) => p,
        Err(e) => panic!("gather failed: {:?}", e),
    };
    assert_eq!(bufs.static_vertices, vec![0, 1, 0, 1, 2]);
    assert_eq!(idx[0].flats, vec![0, 1]);
    assert_eq!(idx[1].flats, vec![4]);
    assert_eq!(idx[1].walls, vec![2, 3]);
}

#[test]
fn surface_entities_follow_class_order() {
    let mut g = geometry(1, vec![0], vec![0]);
    g.sky_vertices = vec![9];
    g.sky = vec![0];
    g.decor_vertices = vec![8];
    g.decor = vec![0];
    let objects = vec![g, geometry(0, vec![], vec![])];
    let mut store = EntityStore::new();
    let mut transforms: ComponentTable<u8> = ComponentTable::new();
    let mut meshes: ComponentTable<Mesh> = ComponentTable::new();
    let mut materials: ComponentTable<Material> = ComponentTable::new();
    let scene = match build_scene(&objects, &mut store, &mut transforms, &mut meshes, &mut materials, 0u8) {
        Ok(s) => s,
        Err(e) => panic!("build failed: {:?}", e),
    };
    let kids = store.children_of(scene.objects[0]);
    let mats: Vec<Material> = kids.iter().map(|k| *materials.get(*k).unwrap()).collect();
    assert_eq!(mats, vec![Material::Flats, Material::Walls, Material::Decor, Material::Sky]);
    assert!(store.children_of(scene.objects[1]).is_empty());
}

#[test]
fn index_past_own_vertices_is_refused() {
    let objects = vec![geometry(2, vec![0], vec![]), geometry(1, vec![], vec![1])];
    match gather(&objects) {
        Err(e) => assert_eq!(e, SceneError::IndexOutOfRange { object: 1 }),
        Ok(_) => panic!("bad index accepted"),
    }
}
