//! Meshes from Wavefront OBJ data: which corners of which faces make up the
//! triangles of a mesh. The positions, normals and texture coordinates
//! themselves stay with whoever parsed the file; here they are known by
//! their indices.

use vstd::prelude::*;

verus! {

/// One corner of a face: where its position, its texture coordinate and its
/// normal stand in the lists of the object.
#[derive(Clone, Copy, Debug, PartialEq, Eq, Structural)]
pub struct Corner {
    pub vertex: usize,
    pub texture: Option<usize>,
    pub normal: Option<usize>,
}

/// The primitives that a shape can be.
#[derive(Clone, Copy, Debug, PartialEq, Eq, Structural)]
pub enum Primitive {
    /// A point specified by its position.
    Point(Corner),
    /// A line specified by its endpoints.
    Line(Corner, Corner),
    /// A triangle specified by its three vertices.
    Triangle(Corner, Corner, Corner),
}

/// A set of shapes that share a material.
pub struct Geometry {
    pub shapes: Vec<Primitive>,
}

/// One object of a file: the lengths of its lists of positions, texture
/// coordinates and normals, and the geometry that refers to them.
pub struct Object {
    pub vertices: usize,
    pub tex_vertices: usize,
    pub normals: usize,
    pub geometry: Vec<Geometry>,
}

/// The objects of a file.
pub struct ObjSet {
    pub objects: Vec<Object>,
}

/// A corner of a triangle of the mesh: the object it belongs to, by its
/// place in the file, and the corner within the object.
#[derive(Clone, Copy, Debug, PartialEq, Eq, Structural)]
pub struct MeshCorner {
    pub object: usize,
    pub corner: Corner,
}

/// The corners that a primitive gives to the mesh: the three of a triangle,
/// none of anything else.
pub open spec fn primitive_corners(prim: Primitive) -> Seq<Corner> {
    match prim {
        Primitive::Triangle(a, b, c) => seq![a, b, c],
        _ => Seq::empty(),
    }
}

/// The corners of the first `n` shapes, in order.
pub open spec fn shapes_corners(shapes: Seq<Primitive>, n: nat) -> Seq<Corner>
    decreases n,
{
    if n == 0 {
        Seq::empty()
    } else {
        shapes_corners(shapes, (n - 1) as nat) + primitive_corners(shapes[n - 1])
    }
}

/// The corners of the first `n` geometries of an object, in order.
pub open spec fn geometry_corners(geometry: Seq<Geometry>, n: nat) -> Seq<Corner>
    decreases n,
{
    if n == 0 {
        Seq::empty()
    } else {
        geometry_corners(geometry, (n - 1) as nat) + shapes_corners(
            geometry[n - 1].shapes@,
            geometry[n - 1].shapes@.len(),
        )
    }
}

/// The given corners as corners of the object at place `object`.
pub open spec fn of_object(object: usize, corners: Seq<Corner>) -> Seq<MeshCorner> {
    Seq::new(corners.len(), |i: int| MeshCorner { object, corner: corners[i] })
}

/// The corners of the triangles of the first `n` objects: object after
/// object, geometry after geometry, shape after shape.
pub open spec fn mesh_corners(objects: Seq<Object>, n: nat) -> Seq<MeshCorner>
    decreases n,
{
    if n == 0 {
        Seq::empty()
    } else {
        mesh_corners(objects, (n - 1) as nat) + of_object(
            (n - 1) as usize,
            geometry_corners(objects[n - 1].geometry@, objects[n - 1].geometry@.len()),
        )
    }
}

/// The three corners of a triangle; `None` for a point or a line.
pub fn convert_primitive(prim: &Primitive) -> (r: Option<[Corner; 3]>)
    ensures
        match r {
            Some(corners) => corners@ == primitive_corners(*prim) && *prim is Triangle,
            None => !(*prim is Triangle),
        },
{
    match *prim {
        Primitive::Triangle(v1, v2, v3) => {
            let corners = [v1, v2, v3];
            assert(corners@ =~= seq![v1, v2, v3]);
            Some(corners)
        },
        _ => None,
    }
}

impl Object {
    /// Whether the corner refers to entries that the lists of the object have.
    pub open spec fn holds(&self, corner: Corner) -> bool {
        &&& corner.vertex < self.vertices
        &&& corner.texture matches Some(t) ==> t < self.tex_vertices
        &&& corner.normal matches Some(n) ==> n < self.normals
    }

    /// Whether the corner refers to entries that the lists of the object have.
    pub fn has_corner(&self, corner: &Corner) -> (r: bool)
        ensures
            r == self.holds(*corner),
    {
        let texture = match corner.texture {
            Some(t) => t < self.tex_vertices,
            None => true,
        };
        let normal = match corner.normal {
            Some(n) => n < self.normals,
            None => true,
        };
        corner.vertex < self.vertices && texture && normal
    }

    /// The corners of the triangles of the object, geometry after geometry,
    /// shape after shape.
    pub fn triangle_corners(&self) -> (corners: Vec<Corner>)
        ensures
            corners@ == geometry_corners(self.geometry@, self.geometry@.len()),
    {
        let mut corners: Vec<Corner> = Vec::new();
        let mut g: usize = 0;
        while g < self.geometry.len()
            invariant
                g <= self.geometry@.len(),
                corners@ == geometry_corners(self.geometry@, g as nat),
            decreases self.geometry@.len() - g,
        {
            let shapes = &self.geometry[g].shapes;
            let ghost before = corners@;
            let mut s: usize = 0;
            while s < shapes.len()
                invariant
                    s <= shapes@.len(),
                    corners@ == before + shapes_corners(shapes@, s as nat),
                decreases shapes@.len() - s,
            {
                match convert_primitive(&shapes[s]) {
                    Some(vvv) => {
                        corners.push(vvv[0]);
                        corners.push(vvv[1]);
                        corners.push(vvv[2]);
                    },
                    None => {},
                }
                assert(corners@ =~= before + shapes_corners(shapes@, (s + 1) as nat));
                s = s + 1;
            }
            g = g + 1;
        }
        corners
    }
}

/// Takes a list of objects that contain geometries that contain shapes that
/// contain vertex/texture/normal indices into the main list of vertices, and
/// converts to a flat list of the corners of the triangles.
///
/// Does not differentiate between the objects of a file: all of them make up
/// one mesh.
pub fn from_data(obj_set: &ObjSet) -> (result: Vec<MeshCorner>)
    ensures
        result@ == mesh_corners(obj_set.objects@, obj_set.objects@.len()),
{
    let mut result: Vec<MeshCorner> = Vec::new();
    let mut o: usize = 0;
    while o < obj_set.objects.len()
        invariant
            o <= obj_set.objects@.len(),
            result@ == mesh_corners(obj_set.objects@, o as nat),
        decreases obj_set.objects@.len() - o,
    {
        let corners = obj_set.objects[o].triangle_corners();
        let ghost before = result@;
        let mut c: usize = 0;
        while c < corners.len()
            invariant
                c <= corners@.len(),
                o < obj_set.objects@.len(),
                result@ == before + of_object(o, corners@.take(c as int)),
            decreases corners@.len() - c,
        {
            result.push(MeshCorner { object: o, corner: corners[c] });
            assert(result@ =~= before + of_object(o, corners@.take(c + 1)));
            c = c + 1;
        }
        assert(corners@.take(c as int) =~= corners@);
        o = o + 1;
    }
    result
}

/// Whether every corner of every triangle refers to entries that the lists
/// of its object have.
pub open spec fn corners_in_range(objects: Seq<Object>, corners: Seq<MeshCorner>) -> bool {
    forall|i: int|
        0 <= i < corners.len() ==> {
            &&& (#[trigger] corners[i]).object < objects.len()
            &&& objects[corners[i].object as int].holds(corners[i].corner)
        }
}

/// Whether every one of the given corners names an object of the file and
/// refers to entries that the lists of that object have.
pub fn check_corners(obj_set: &ObjSet, corners: &Vec<MeshCorner>) -> (r: bool)
    ensures
        r == corners_in_range(obj_set.objects@, corners@),
{
    let mut i: usize = 0;
    while i < corners.len()
        invariant
            i <= corners@.len(),
            corners_in_range(obj_set.objects@, corners@.take(i as int)),
        decreases corners@.len() - i,
    {
        let c = corners[i];
        if c.object >= obj_set.objects.len() || !obj_set.objects[c.object].has_corner(&c.corner) {
            assert(!corners_in_range(obj_set.objects@, corners@)) by {
                assert(corners@[i as int] == c);
            }
            return false;
        }
        assert(corners_in_range(obj_set.objects@, corners@.take(i + 1))) by {
            assert forall|k: int| 0 <= k < i + 1 implies {
                &&& (#[trigger] corners@.take(i + 1)[k]).object < obj_set.objects@.len()
                &&& obj_set.objects@[corners@.take(i + 1)[k].object as int].holds(
                    corners@.take(i + 1)[k].corner,
                )
            } by {
                if k < i {
                    assert(corners@.take(i + 1)[k] == corners@.take(i as int)[k]);
                }
            }
        }
        i = i + 1;
    }
    assert(corners@.take(i as int) =~= corners@);
    true
}

} // verus!
