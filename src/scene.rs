//! Scene construction from level geometry that is already split by object
//! and surface class.
//!
//! The first pass appends every object's vertices to one shared buffer per
//! geometry class and rebases its indices onto that buffer. The second pass
//! creates one entity per object under a scene root and, below it, one
//! entity per surface class the object has triangles for, each with a mesh
//! into the shared buffer and a material.
use crate::component::ComponentTable;
use crate::entity::{EntityError, EntityId, EntityStore};
use vstd::prelude::*;

verus! {

/// Geometry of one logical object; indices are local to its own vertices of
/// the same class.
pub struct ObjectGeometry<V> {
    pub static_vertices: Vec<V>,
    pub flats: Vec<u32>,
    pub walls: Vec<u32>,
    pub sky_vertices: Vec<V>,
    pub sky: Vec<u32>,
    pub decor_vertices: Vec<V>,
    pub decor: Vec<u32>,
}

/// Shared vertex buffer a mesh draws from.
#[derive(Clone, Copy, Debug, PartialEq, Eq, Structural)]
pub enum GeometryClass {
    Static,
    Sky,
    Decor,
}

/// Material of a surface entity.
#[derive(Clone, Copy, Debug, PartialEq, Eq, Structural)]
pub enum Material {
    Flats,
    Walls,
    Decor,
    Sky,
}

/// Indices into one shared buffer.
#[derive(Clone, Debug)]
pub struct Mesh {
    pub class: GeometryClass,
    pub indices: Vec<u32>,
}

/// The shared vertex buffers.
pub struct SceneBuffers<V> {
    pub static_vertices: Vec<V>,
    pub sky_vertices: Vec<V>,
    pub decor_vertices: Vec<V>,
}

/// Why a scene could not be built.
#[derive(Clone, Copy, Debug, PartialEq, Eq, Structural)]
pub enum SceneError {
    /// An index of object `object` points past its own vertices.
    IndexOutOfRange { object: usize },
    /// A shared buffer would hold more vertices than a `u32` index reaches.
    TooManyVertices,
}

/// Rebased indices of one object.
pub struct ObjectIndices {
    pub flats: Vec<u32>,
    pub walls: Vec<u32>,
    pub sky: Vec<u32>,
    pub decor: Vec<u32>,
}

/// A built scene: its root, the world entity, and one entity per object.
pub struct Scene<V> {
    pub root: EntityId,
    pub world: EntityId,
    pub objects: Vec<EntityId>,
    pub buffers: SceneBuffers<V>,
}

pub open spec fn all_below(local: Seq<u32>, n: int) -> bool {
    forall|t: int| 0 <= t < local.len() ==> (#[trigger] local[t] as int) < n
}

/// Materials of the surface entities of an object, in creation order: one
/// for each class with at least one index.
pub open spec fn parts<V>(g: ObjectGeometry<V>) -> Seq<Material> {
    let a = if g.flats@.len() > 0 { seq![Material::Flats] } else { Seq::empty() };
    let b = if g.walls@.len() > 0 { seq![Material::Walls] } else { Seq::empty() };
    let c = if g.decor@.len() > 0 { seq![Material::Decor] } else { Seq::empty() };
    let d = if g.sky@.len() > 0 { seq![Material::Sky] } else { Seq::empty() };
    a + b + c + d
}

/// Vertices of each class in the first `k` objects.
pub open spec fn vertex_counts<V>(objects: Seq<ObjectGeometry<V>>, k: int) -> (int, int, int)
    decreases k,
{
    if k <= 0 {
        (0, 0, 0)
    } else {
        let (a, b, c) = vertex_counts(objects, k - 1);
        let g = objects[k - 1];
        (
            a + g.static_vertices@.len(),
            b + g.sky_vertices@.len(),
            c + g.decor_vertices@.len(),
        )
    }
}

/// The shared buffers after the first `k` objects: each class's vertices
/// of those objects, in object order.
pub open spec fn buffers_of<V>(objects: Seq<ObjectGeometry<V>>, k: int) -> (Seq<V>, Seq<V>, Seq<V>)
    decreases k,
{
    if k <= 0 {
        (Seq::empty(), Seq::empty(), Seq::empty())
    } else {
        let (a, b, c) = buffers_of(objects, k - 1);
        let g = objects[k - 1];
        (a + g.static_vertices@, b + g.sky_vertices@, c + g.decor_vertices@)
    }
}

/// Each index of `idx` is the matching index of `g` moved up by the number
/// of vertices of its class that come before `g` in the shared buffer.
pub open spec fn rebased_from<V>(idx: ObjectIndices, g: ObjectGeometry<V>, base: (int, int, int)) -> bool {
    &&& forall|t: int| 0 <= t < idx.flats@.len() ==> #[trigger] idx.flats@[t] == g.flats@[t] + base.0
    &&& forall|t: int| 0 <= t < idx.walls@.len() ==> #[trigger] idx.walls@[t] == g.walls@[t] + base.0
    &&& forall|t: int| 0 <= t < idx.sky@.len() ==> #[trigger] idx.sky@[t] == g.sky@[t] + base.1
    &&& forall|t: int| 0 <= t < idx.decor@.len() ==> #[trigger] idx.decor@[t] == g.decor@[t] + base.2
}

/// Every index of `g` points into its own vertices of the same class.
pub open spec fn object_ok<V>(g: ObjectGeometry<V>) -> bool {
    &&& all_below(g.flats@, g.static_vertices@.len() as int)
    &&& all_below(g.walls@, g.static_vertices@.len() as int)
    &&& all_below(g.sky@, g.sky_vertices@.len() as int)
    &&& all_below(g.decor@, g.decor_vertices@.len() as int)
}

/// The geometry a scene can be built from: indices in range, and each shared
/// buffer small enough for `u32` indices.
pub open spec fn geometry_ok<V>(objects: Seq<ObjectGeometry<V>>) -> bool {
    let (a, b, c) = vertex_counts(objects, objects.len() as int);
    &&& forall|k: int| 0 <= k < objects.len() ==> object_ok(#[trigger] objects[k])
    &&& a <= u32::MAX
    &&& b <= u32::MAX
    &&& c <= u32::MAX
}

proof fn lemma_counts_grow<V>(objects: Seq<ObjectGeometry<V>>, j: int, k: int)
    requires
        0 <= j <= k,
    ensures
        vertex_counts(objects, j).0 <= vertex_counts(objects, k).0,
        vertex_counts(objects, j).1 <= vertex_counts(objects, k).1,
        vertex_counts(objects, j).2 <= vertex_counts(objects, k).2,
    decreases k - j,
{
    if j < k {
        lemma_counts_grow(objects, j, k - 1);
    }
}

/// `idx` has one rebased index per index of `g`, each inside its buffer.
pub open spec fn indices_fit<V>(idx: ObjectIndices, g: ObjectGeometry<V>, bufs: SceneBuffers<V>) -> bool {
    &&& idx.flats@.len() == g.flats@.len()
    &&& idx.walls@.len() == g.walls@.len()
    &&& idx.sky@.len() == g.sky@.len()
    &&& idx.decor@.len() == g.decor@.len()
    &&& all_below(idx.flats@, bufs.static_vertices@.len() as int)
    &&& all_below(idx.walls@, bufs.static_vertices@.len() as int)
    &&& all_below(idx.sky@, bufs.sky_vertices@.len() as int)
    &&& all_below(idx.decor@, bufs.decor_vertices@.len() as int)
}

/// Appends `src` to `dst` and returns the index of its first vertex there.
fn append_vertices<V: Copy>(dst: &mut Vec<V>, src: &Vec<V>) -> (base: u32)
    requires
        old(dst)@.len() + src@.len() <= u32::MAX,
    ensures
        base == old(dst)@.len(),
        final(dst)@ == old(dst)@ + src@,
{
    let base = dst.len() as u32;
    let mut i: usize = 0;
    while i < src.len()
        invariant
            i <= src@.len(),
            dst@ == old(dst)@ + src@.subrange(0, i as int),
        decreases src@.len() - i,
    {
        dst.push(src[i]);
        proof {
            assert(src@.subrange(0, i + 1) =~= src@.subrange(0, i as int).push(src@[i as int]));
        }
        i = i + 1;
    }
    proof {
        assert(src@.subrange(0, src@.len() as int) =~= src@);
    }
    base
}

/// `local` moved up by `base`, or `None` when an index is not below `count`.
fn rebase(local: &Vec<u32>, base: u32, count: usize) -> (r: Option<Vec<u32>>)
    requires
        base + count <= u32::MAX,
    ensures
        r is Some <==> all_below(local@, count as int),
        r matches Some(v) ==> v@.len() == local@.len() && forall|t: int|
            0 <= t < v@.len() ==> #[trigger] v@[t] == local@[t] + base,
{
    let mut out: Vec<u32> = Vec::new();
    let mut i: usize = 0;
    while i < local.len()
        invariant
            base + count <= u32::MAX,
            i <= local@.len(),
            out@.len() == i,
            all_below(local@.subrange(0, i as int), count as int),
            forall|t: int| 0 <= t < i ==> #[trigger] out@[t] == local@[t] + base,
        decreases local@.len() - i,
    {
        if local[i] as usize >= count {
            proof {
                assert(!((local@[i as int] as int) < count));
            }
            return None;
        }
        out.push(local[i] + base);
        proof {
            assert forall|t: int| 0 <= t < i + 1 implies (#[trigger] local@.subrange(0, i + 1)[t] as int) < count by {
                if t < i {
                    assert(local@.subrange(0, i + 1)[t] == local@.subrange(0, i as int)[t]);
                }
            }
        }
        i = i + 1;
    }
    proof {
        assert(local@.subrange(0, local@.len() as int) =~= local@);
    }
    Some(out)
}

/// First pass: shared buffers and rebased indices of every object.
pub fn gather<V: Copy>(objects: &Vec<ObjectGeometry<V>>) -> (r: Result<
    (SceneBuffers<V>, Vec<ObjectIndices>),
    SceneError,
>)
    ensures
        r is Ok <==> geometry_ok(objects@),
        r matches Ok((bufs, idx)) ==> idx@.len() == objects@.len() && forall|k: int|
            0 <= k < objects@.len() ==> indices_fit(#[trigger] idx@[k], objects@[k], bufs),
        r matches Ok((bufs, idx)) ==> {
            let (a, b, c) = buffers_of(objects@, objects@.len() as int);
            &&& bufs.static_vertices@ == a
            &&& bufs.sky_vertices@ == b
            &&& bufs.decor_vertices@ == c
            &&& forall|k: int|
                0 <= k < objects@.len() ==> rebased_from(
                    #[trigger] idx@[k],
                    objects@[k],
                    vertex_counts(objects@, k),
                )
        },
        r matches Err(SceneError::IndexOutOfRange { object }) ==> object < objects@.len() && !object_ok(
            objects@[object as int],
        ),
{
    let mut bufs = SceneBuffers {
        static_vertices: Vec::new(),
        sky_vertices: Vec::new(),
        decor_vertices: Vec::new(),
    };
    let mut all: Vec<ObjectIndices> = Vec::new();
    let mut k: usize = 0;
    while k < objects.len()
        invariant
            k <= objects@.len(),
            all@.len() == k,
            bufs.static_vertices@.len() <= u32::MAX,
            bufs.sky_vertices@.len() <= u32::MAX,
            bufs.decor_vertices@.len() <= u32::MAX,
            bufs.static_vertices@.len() == vertex_counts(objects@, k as int).0,
            bufs.sky_vertices@.len() == vertex_counts(objects@, k as int).1,
            bufs.decor_vertices@.len() == vertex_counts(objects@, k as int).2,
            bufs.static_vertices@ == buffers_of(objects@, k as int).0,
            bufs.sky_vertices@ == buffers_of(objects@, k as int).1,
            bufs.decor_vertices@ == buffers_of(objects@, k as int).2,
            forall|j: int|
                0 <= j < k ==> rebased_from(#[trigger] all@[j], objects@[j], vertex_counts(objects@, j)),
            forall|j: int| 0 <= j < k ==> object_ok(#[trigger] objects@[j]),
            forall|j: int| 0 <= j < k ==> indices_fit(#[trigger] all@[j], objects@[j], bufs),
        decreases objects@.len() - k,
    {
        let g = &objects[k];
        if g.static_vertices.len() > u32::MAX as usize - bufs.static_vertices.len()
            || g.sky_vertices.len() > u32::MAX as usize - bufs.sky_vertices.len()
            || g.decor_vertices.len() > u32::MAX as usize - bufs.decor_vertices.len() {
            proof {
                lemma_counts_grow(objects@, k + 1, objects@.len() as int);
            }
            return Err(SceneError::TooManyVertices);
        }
        let ghost before = bufs.static_vertices@.len();
        let sb = append_vertices(&mut bufs.static_vertices, &g.static_vertices);
        let kb = append_vertices(&mut bufs.sky_vertices, &g.sky_vertices);
        let db = append_vertices(&mut bufs.decor_vertices, &g.decor_vertices);
        let flats = match rebase(&g.flats, sb, g.static_vertices.len()) {
            Some(v) => v,
            None => {
                return Err(SceneError::IndexOutOfRange { object: k });
            },
        };
        let walls = match rebase(&g.walls, sb, g.static_vertices.len()) {
            Some(v) => v,
            None => {
                return Err(SceneError::IndexOutOfRange { object: k });
            },
        };
        let sky = match rebase(&g.sky, kb, g.sky_vertices.len()) {
            Some(v) => v,
            None => {
                return Err(SceneError::IndexOutOfRange { object: k });
            },
        };
        let decor = match rebase(&g.decor, db, g.decor_vertices.len()) {
            Some(v) => v,
            None => {
                return Err(SceneError::IndexOutOfRange { object: k });
            },
        };
        let ghost prev_all = all@;
        all.push(ObjectIndices { flats, walls, sky, decor });
        proof {
            assert(rebased_from(all@[k as int], objects@[k as int], vertex_counts(objects@, k as int)));
            assert forall|j: int| 0 <= j < k + 1 implies rebased_from(#[trigger] all@[j], objects@[j], vertex_counts(objects@, j)) by {
                if j < k {
                    assert(all@[j] == prev_all[j]);
                }
            }
        }
        proof {
            assert forall|j: int| 0 <= j < k + 1 implies indices_fit(#[trigger] all@[j], objects@[j], bufs) by {
                if j < k {
                    let ij = all@[j];
                    assert(all_below(ij.flats@, before as int));
                    assert(all_below(ij.flats@, bufs.static_vertices@.len() as int));
                    assert(all_below(ij.walls@, bufs.static_vertices@.len() as int));
                    assert(all_below(ij.sky@, bufs.sky_vertices@.len() as int));
                    assert(all_below(ij.decor@, bufs.decor_vertices@.len() as int));
                } else {
                    assert(all_below(all@[j].walls@, bufs.static_vertices@.len() as int));
                    assert(all_below(all@[j].flats@, bufs.static_vertices@.len() as int));
                    assert(all_below(all@[j].sky@, bufs.sky_vertices@.len() as int));
                    assert(all_below(all@[j].decor@, bufs.decor_vertices@.len() as int));
                }
            }
        }
        k = k + 1;
    }
    proof {
        assert(geometry_ok(objects@));
    }
    Ok((bufs, all))
}

/// The objects before `k` stand below `world` with the surface entities
/// that their geometry asks for.
pub open spec fn objects_ok<V>(
    entities: EntityStore,
    materials: Map<EntityId, Material>,
    objs: Seq<EntityId>,
    k: int,
    objects: Seq<ObjectGeometry<V>>,
    world: EntityId,
    root: EntityId,
) -> bool {
    forall|j: int|
        0 <= j < k ==> {
            let o = #[trigger] objs[j];
            let kids = entities.children(o);
            &&& entities.live(o)
            &&& o != world
            &&& o != root
            &&& entities.parent(o) == Some(world)
            &&& kids.len() == parts(objects[j]).len()
            &&& forall|t: int|
                0 <= t < kids.len() ==> materials.contains_key(#[trigger] kids[t])
                    && materials[kids[t]] == made_at(parts(objects[j]), t)
        }
}

/// Shared buffer of the meshes of a material.
pub open spec fn class_of(m: Material) -> GeometryClass {
    match m {
        Material::Flats => GeometryClass::Static,
        Material::Walls => GeometryClass::Static,
        Material::Decor => GeometryClass::Decor,
        Material::Sky => GeometryClass::Sky,
    }
}

/// Materials of the entities that also have a transform and a mesh into
/// the shared buffer of that material's class.
pub open spec fn surfaces(
    materials: Map<EntityId, Material>,
    meshes: Map<EntityId, Mesh>,
    transformed: Set<EntityId>,
) -> Map<EntityId, Material> {
    Map::new(
        |x: EntityId|
            materials.contains_key(x) && meshes.contains_key(x) && transformed.contains(x)
                && meshes[x].class == class_of(materials[x]),
        |x: EntityId| materials[x],
    )
}

pub open spec fn made_at(made: Seq<Material>, t: int) -> Material {
    made[t]
}

/// `obj` has one surface entity per entry of `made`, with that material.
pub open spec fn part_ok(
    entities: EntityStore,
    materials: Map<EntityId, Material>,
    obj: EntityId,
    made: Seq<Material>,
) -> bool {
    &&& entities.live(obj)
    &&& entities.children(obj).len() == made.len()
    &&& forall|t: int|
        0 <= t < made.len() ==> materials.contains_key(#[trigger] entities.children(obj)[t])
            && materials[entities.children(obj)[t]] == made_at(made, t)
}

proof fn lemma_part_step<V>(
    e0: EntityStore,
    e1: EntityStore,
    m0: Map<EntityId, Material>,
    m1: Map<EntityId, Material>,
    obj: EntityId,
    c: EntityId,
    material: Material,
    made: Seq<Material>,
    objs: Seq<EntityId>,
    k: int,
    objects: Seq<ObjectGeometry<V>>,
    world: EntityId,
    root: EntityId,
)
    requires
        e0.wf(),
        e1.wf(),
        part_ok(e0, m0, obj, made),
        objects_ok(e0, m0, objs, k, objects, world, root),
        forall|j: int| 0 <= j < k ==> #[trigger] objs[j] != obj,
        obj != world,
        obj != root,
        world != root,
        e0.live(world),
        e0.live(root),
        !e0.live(c),
        e1@.dom() == e0@.dom().insert(c),
        e1.children(obj) == e0.children(obj).push(c),
        forall|x: EntityId| x != c && x != obj ==> #[trigger] e1@[x] == e0@[x],
        m1.contains_key(c),
        m1[c] == material,
        forall|x: EntityId|
            x != c && #[trigger] m0.contains_key(x) && e0.live(x) ==> m1.contains_key(x) && m1[x] == m0[x],
    ensures
        part_ok(e1, m1, obj, made.push(material)),
        objects_ok(e1, m1, objs, k, objects, world, root),
        e1.live(world) && e1@[world] == e0@[world],
        e1.live(root) && e1@[root] == e0@[root],
{
    assert(e1.live(obj));
    assert forall|t: int| 0 <= t < made.len() + 1 implies m1.contains_key(#[trigger] e1.children(obj)[t])
        && m1[e1.children(obj)[t]] == made_at(made.push(material), t) by {
        if t < made.len() {
            let x = e0.children(obj)[t];
            assert(e1.children(obj)[t] == x);
            assert(m0.contains_key(x));
            assert(e0.children(obj).contains(x));
            e0.lemma_child_live(obj, x);
        }
    }
    assert forall|j: int| 0 <= j < k implies {
        let o = #[trigger] objs[j];
        let kids = e1.children(o);
        &&& e1.live(o)
        &&& o != world
        &&& o != root
        &&& e1.parent(o) == Some(world)
        &&& kids.len() == parts(objects[j]).len()
        &&& forall|t: int|
            0 <= t < kids.len() ==> m1.contains_key(#[trigger] kids[t])
                && m1[kids[t]] == made_at(parts(objects[j]), t)
    } by {
        let o = objs[j];
        assert(e0.live(o));
        assert(o != c);
        assert(e1@[o] == e0@[o]);
        assert forall|t: int| 0 <= t < e1.children(o).len() implies m1.contains_key(#[trigger] e1.children(o)[t])
            && m1[e1.children(o)[t]] == made_at(parts(objects[j]), t) by {
            let x = e0.children(o)[t];
            assert(m0.contains_key(x));
            assert(e0.children(o).contains(x));
            e0.lemma_child_live(o, x);
        }
    }
}

/// Adds a surface entity below `obj` with a transform, a mesh and a material.
fn add_part<Tr: Copy>(
    entities: &mut EntityStore,
    transforms: &mut ComponentTable<Tr>,
    meshes: &mut ComponentTable<Mesh>,
    materials: &mut ComponentTable<Material>,
    identity: Tr,
    obj: EntityId,
    label: &str,
    mesh: Mesh,
    material: Material,
) -> (c: EntityId)
    requires
        old(entities).wf(),
        old(entities).live(obj),
        mesh.class == class_of(material),
    ensures
        final(entities).wf(),
        !old(entities).live(c),
        final(entities)@.dom() == old(entities)@.dom().insert(c),
        final(entities).children(obj) == old(entities).children(obj).push(c),
        final(entities).parent(c) == Some(obj),
        final(entities).parent(obj) == old(entities).parent(obj),
        forall|x: EntityId| x != c && x != obj ==> #[trigger] final(entities)@[x] == old(entities)@[x],
        final(materials)@.contains_key(c),
        final(materials)@[c] == material,
        forall|x: EntityId|
            x != c && #[trigger] old(materials)@.contains_key(x) && old(entities).live(x)
                ==> final(materials)@.contains_key(x) && final(materials)@[x] == old(materials)@[x],
        final(meshes)@.contains_key(c),
        final(meshes)@[c].class == class_of(material),
        forall|x: EntityId|
            x != c && #[trigger] old(meshes)@.contains_key(x) && old(entities).live(x)
                ==> final(meshes)@.contains_key(x) && final(meshes)@[x] == old(meshes)@[x],
        final(transforms)@.contains_key(c),
        forall|x: EntityId|
            x != c && #[trigger] old(transforms)@.contains_key(x) && old(entities).live(x)
                ==> final(transforms)@.contains_key(x),
{
    let c = match entities.add(obj, label) {
        Ok(c) => c,
        // `obj` is live, so this arm is never taken.
        Err(_) => {
            return obj;
        },
    };
    let _ = transforms.attach(entities, c, identity);
    let _ = meshes.attach(entities, c, mesh);
    let _ = materials.attach(entities, c, material);
    c
}

/// Second pass and whole build: a root `scene_root`, below it `world`, below
/// that one entity per object (`static_object` for the first, then
/// `dynamic_object`), and below each object one entity per surface class it
/// has indices for, in the order flats, walls, decor, sky. Every created
/// entity gets `identity` as transform; surface entities get a mesh into the
/// shared buffer of their class and their material.
pub fn build_scene<V: Copy, Tr: Copy>(
    objects: &Vec<ObjectGeometry<V>>,
    entities: &mut EntityStore,
    transforms: &mut ComponentTable<Tr>,
    meshes: &mut ComponentTable<Mesh>,
    materials: &mut ComponentTable<Material>,
    identity: Tr,
) -> (r: Result<Scene<V>, SceneError>)
    requires
        old(entities).wf(),
    ensures
        final(entities).wf(),
        r is Ok <==> geometry_ok(objects@),
        r matches Err(SceneError::IndexOutOfRange { object }) ==> object < objects@.len() && !object_ok(
            objects@[object as int],
        ),
        r is Err ==> final(entities)@ == old(entities)@,
        r matches Ok(scene) ==> {
            &&& final(entities).live(scene.root)
            &&& final(entities).parent(scene.root) is None
            &&& final(entities).live(scene.world)
            &&& final(entities).parent(scene.world) == Some(scene.root)
            &&& scene.objects@.len() == objects@.len()
            &&& final(transforms)@.contains_key(scene.root)
            &&& final(transforms)@.contains_key(scene.world)
            &&& forall|k: int| 0 <= k < objects@.len() ==> final(transforms)@.contains_key(#[trigger] scene.objects@[k])
            &&& forall|k: int|
                0 <= k < objects@.len() ==> {
                    let o = #[trigger] scene.objects@[k];
                    let kids = final(entities).children(o);
                    &&& final(entities).live(o)
                    &&& final(entities).parent(o) == Some(scene.world)
                    &&& kids.len() == parts(objects@[k]).len()
                    &&& forall|t: int|
                        0 <= t < kids.len() ==> surfaces(final(materials)@, final(meshes)@, final(transforms)@.dom()).contains_key(#[trigger] kids[t])
                            && surfaces(final(materials)@, final(meshes)@, final(transforms)@.dom())[kids[t]] == parts(objects@[k])[t]
                }
        },
{
    let (bufs, idx) = match gather(objects) {
        Ok(p) => p,
        Err(e) => {
            return Err(e);
        },
    };
    let root = entities.add_root("scene_root");
    let world = match entities.add(root, "world") {
        Ok(w) => w,
        // The parent is live, so this arm is never taken.
        Err(_) => {
            return Err(SceneError::TooManyVertices);
        },
    };
    let _ = transforms.attach(entities, root, identity);
    let _ = transforms.attach(entities, world, identity);
    let mut objs: Vec<EntityId> = Vec::new();
    let mut k: usize = 0;
    while k < objects.len()
        invariant
            entities.wf(),
            idx@.len() == objects@.len(),
            forall|j: int| 0 <= j < objects@.len() ==> indices_fit(#[trigger] idx@[j], objects@[j], bufs),
            k <= objects@.len(),
            objs@.len() == k,
            entities.live(root),
            entities.parent(root) is None,
            entities.live(world),
            entities.parent(world) == Some(root),
            world != root,
            objects_ok(*entities, surfaces(materials@, meshes@, transforms@.dom()), objs@, k as int, objects@, world, root),
            transforms@.contains_key(root),
            transforms@.contains_key(world),
            forall|j: int| 0 <= j < k ==> transforms@.contains_key(#[trigger] objs@[j]),
        decreases objects@.len() - k,
    {
        let label = if k == 0 {
            "static_object"
        } else {
            "dynamic_object"
        };
        let ghost e0 = *entities;
        let obj = match entities.add(world, label) {
            Ok(o) => o,
            // The parent is live, so this arm is never taken.
            Err(_) => {
                return Err(SceneError::TooManyVertices);
            },
        };
        let ghost t0 = transforms@;
        let _ = transforms.attach(entities, obj, identity);
        let ix = &idx[k];
        let ghost mut made: Seq<Material> = Seq::empty();
        proof {
            assert forall|j: int| 0 <= j < k implies #[trigger] objs@[j] != obj by {
                assert(e0.live(objs@[j]));
            }
            assert(part_ok(*entities, surfaces(materials@, meshes@, transforms@.dom()), obj, made));
            assert forall|j: int| 0 <= j < k implies {
                let o = #[trigger] objs@[j];
                let kids = entities.children(o);
                &&& entities.live(o)
                &&& o != world
                &&& o != root
                &&& entities.parent(o) == Some(world)
                &&& kids.len() == parts(objects@[j]).len()
                &&& forall|t: int|
                    0 <= t < kids.len() ==> surfaces(materials@, meshes@, transforms@.dom()).contains_key(#[trigger] kids[t])
                        && surfaces(materials@, meshes@, transforms@.dom())[kids[t]] == made_at(parts(objects@[j]), t)
            } by {
                let o = objs@[j];
                assert(e0.live(o));
                assert(entities@[o] == e0@[o]);
                let kids = entities.children(o);
                assert forall|t: int| 0 <= t < kids.len() implies surfaces(materials@, meshes@, transforms@.dom()).contains_key(#[trigger] kids[t])
                    && surfaces(materials@, meshes@, transforms@.dom())[kids[t]] == made_at(parts(objects@[j]), t) by {
                    let x = kids[t];
                    assert(e0.children(o).contains(x));
                    e0.lemma_child_live(o, x);
                    assert(x != obj);
                    assert(t0.contains_key(x));
                    assert(transforms@.contains_key(x));
                }
            }
            assert(transforms@.contains_key(root));
            assert(transforms@.contains_key(world));
            assert forall|j: int| 0 <= j < k implies transforms@.contains_key(#[trigger] objs@[j]) by {
                assert(e0.live(objs@[j]));
                assert(t0.contains_key(objs@[j]));
            }
        }
        if ix.flats.len() > 0 {
            let mesh = Mesh { class: GeometryClass::Static, indices: ix.flats.clone() };
            let ghost eb = *entities;
            let ghost mb = surfaces(materials@, meshes@, transforms@.dom());
            let c = add_part(entities, transforms, meshes, materials, identity, obj, "flats", mesh, Material::Flats);
            proof {
                lemma_part_step(eb, *entities, mb, surfaces(materials@, meshes@, transforms@.dom()), obj, c, Material::Flats, made, objs@, k as int, objects@, world, root);
                made = made.push(Material::Flats);
            }
        }
        if ix.walls.len() > 0 {
            let mesh = Mesh { class: GeometryClass::Static, indices: ix.walls.clone() };
            let ghost eb = *entities;
            let ghost mb = surfaces(materials@, meshes@, transforms@.dom());
            let c = add_part(entities, transforms, meshes, materials, identity, obj, "walls", mesh, Material::Walls);
            proof {
                lemma_part_step(eb, *entities, mb, surfaces(materials@, meshes@, transforms@.dom()), obj, c, Material::Walls, made, objs@, k as int, objects@, world, root);
                made = made.push(Material::Walls);
            }
        }
        if ix.decor.len() > 0 {
            let mesh = Mesh { class: GeometryClass::Decor, indices: ix.decor.clone() };
            let ghost eb = *entities;
            let ghost mb = surfaces(materials@, meshes@, transforms@.dom());
            let c = add_part(entities, transforms, meshes, materials, identity, obj, "decor", mesh, Material::Decor);
            proof {
                lemma_part_step(eb, *entities, mb, surfaces(materials@, meshes@, transforms@.dom()), obj, c, Material::Decor, made, objs@, k as int, objects@, world, root);
                made = made.push(Material::Decor);
            }
        }
        if ix.sky.len() > 0 {
            let mesh = Mesh { class: GeometryClass::Sky, indices: ix.sky.clone() };
            let ghost eb = *entities;
            let ghost mb = surfaces(materials@, meshes@, transforms@.dom());
            let c = add_part(entities, transforms, meshes, materials, identity, obj, "sky", mesh, Material::Sky);
            proof {
                lemma_part_step(eb, *entities, mb, surfaces(materials@, meshes@, transforms@.dom()), obj, c, Material::Sky, made, objs@, k as int, objects@, world, root);
                made = made.push(Material::Sky);
            }
        }
        proof {
            let p = parts(objects@[k as int]);
            assert(made =~= p);
            assert(entities.parent(obj) == Some(world));
            assert(obj != world && obj != root);
            assert(part_ok(*entities, surfaces(materials@, meshes@, transforms@.dom()), obj, p));
        }
        let ghost before_push = objs@;
        objs.push(obj);
        proof {
            assert forall|j: int| 0 <= j < k + 1 implies {
                let o = #[trigger] objs@[j];
                let kids = entities.children(o);
                &&& entities.live(o)
                &&& o != world
                &&& o != root
                &&& entities.parent(o) == Some(world)
                &&& kids.len() == parts(objects@[j]).len()
                &&& forall|t: int|
                    0 <= t < kids.len() ==> surfaces(materials@, meshes@, transforms@.dom()).contains_key(#[trigger] kids[t])
                        && surfaces(materials@, meshes@, transforms@.dom())[kids[t]] == made_at(parts(objects@[j]), t)
            } by {
                if j < k {
                    assert(objs@[j] == before_push[j]);
                } else {
                    assert(objs@[j] == obj);
                    let kids = entities.children(obj);
                    assert forall|t: int| 0 <= t < kids.len() implies surfaces(materials@, meshes@, transforms@.dom()).contains_key(#[trigger] kids[t])
                        && surfaces(materials@, meshes@, transforms@.dom())[kids[t]] == made_at(parts(objects@[j]), t) by {
                        assert(surfaces(materials@, meshes@, transforms@.dom()).contains_key(entities.children(obj)[t]));
                    }
                }
            }
        }
        k = k + 1;
    }
    Ok(Scene { root, world, objects: objs, buffers: bufs })
}

} // verus!
