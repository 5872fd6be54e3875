use amethyst_assets::mesh::{
    check_corners, convert_primitive, from_data, Corner, Geometry, MeshCorner, ObjSet, Object,
    Primitive,
};

fn c(vertex: usize) -> Corner {
    Corner { vertex, texture: None, normal: None }
}

fn full(vertex: usize, texture: usize, normal: usize) -> Corner {
    Corner { vertex, texture: Some(texture), normal: Some(normal) }
}

fn object(vertices: usize, geometry: Vec<Vec<Primitive>>) -> Object {
    Object {
        vertices,
        tex_vertices: 2,
        normals: 1,
        geometry: geometry.into_iter().map(|shapes| Geometry { shapes }).collect(),
    }
}

#[test]
fn triangle_gives_its_three_corners() {
    let triangle = Primitive::Triangle(c(0), full(1, 1, 0), c(2));
    assert_eq!(convert_primitive(&triangle), Some([c(0), full(1, 1, 0), c(2)]));
}

#[test]
fn points_and_lines_give_no_corners() {
    assert_eq!(convert_primitive(&Primitive::Point(c(0))), None);
    assert_eq!(convert_primitive(&Primitive::Line(c(0), c(1))), None);
}

#[test]
fn object_corners_follow_geometries_and_shapes() {
    let cube = object(
        8,
        vec![
            vec![Primitive::Triangle(c(0), c(1), c(2)), Primitive::Line(c(0), c(1))],
            vec![],
            vec![Primitive::Point(c(3)), Primitive::Triangle(c(2), c(3), c(0))],
        ],
    );
    assert_eq!(cube.triangle_corners(), vec![c(0), c(1), c(2), c(2), c(3), c(0)]);
}

#[test]
fn from_data_flattens_all_objects_into_one_list() {
    let set = ObjSet {
        objects: vec![
            object(3, vec![vec![Primitive::Triangle(c(0), c(1), c(2))]]),
            object(3, vec![vec![Primitive::Line(c(0), c(1))]]),
            object(4, vec![vec![Primitive::Triangle(c(1), c(2), c(3))]]),
        ],
    };
    let corners = from_data(&set);
    let expected: Vec<MeshCorner> = vec![
        MeshCorner { object: 0, corner: c(0) },
        MeshCorner { object: 0, corner: c(1) },
        MeshCorner { object: 0, corner: c(2) },
        MeshCorner { object: 2, corner: c(1) },
        MeshCorner { object: 2, corner: c(2) },
        MeshCorner { object: 2, corner: c(3) },
    ];
    assert_eq!(corners, expected);
    assert!(check_corners(&set, &corners));
}

#[test]
fn from_data_of_nothing_is_empty() {
    assert!(from_data(&ObjSet { objects: Vec::new() }).is_empty());
    let set = ObjSet { objects: vec![object(0, Vec::new())] };
    assert!(from_data(&set).is_empty());
}

#[test]
fn corner_has_to_be_within_the_lists_of_its_object() {
    let o = object(3, Vec::new());
    assert!(o.has_corner(&c(2)));
    assert!(!o.has_corner(&c(3)));
    assert!(o.has_corner(&full(0, 1, 0)));
    assert!(!o.has_corner(&full(0, 2, 0)));
    assert!(!o.has_corner(&full(0, 1, 1)));
}

#[test]
fn check_corners_finds_a_reference_out_of_range() {
    let set = ObjSet { objects: vec![object(3, vec![vec![Primitive::Triangle(c(0), c(1), c(3))]])] };
    let corners = from_data(&set);
    assert_eq!(corners.len(), 3);
    assert!(!check_corners(&set, &corners));
    let stray = vec![MeshCorner { object: 1, corner: c(0) }];
    assert!(!check_corners(&set, &stray));
    assert!(check_corners(&set, &Vec::new()));
}
