use raytracer::hierarchy::Hierarchy;
use raytracer::obj::{parse_obj_file, read_corner, split_line, Corner, ObjError, ObjFile, ObjNode};

fn parse(lines: &[&str]) -> Result<ObjFile, ObjError> {
    let bytes: Vec<Vec<u8>> = lines.iter().map(|l| l.as_bytes().to_vec()).collect();
    parse_obj_file(&bytes)
}

fn text(v: &Vec<u8>) -> &str {
    std::str::from_utf8(v).unwrap()
}

#[test]
fn words_are_split_on_whitespace() {
    let w = split_line(&b"  f 1\t2   3 \r".to_vec());
    let w: Vec<&str> = w.iter().map(text).collect();
    assert_eq!(w, vec!["f", "1", "2", "3"]);
    assert!(split_line(&b"   ".to_vec()).is_empty());
}

#[test]
fn test_objfile_feature8() {
    let obj = parse(&[
        "There was a young lady named Bright",
        "who traveled much fast than light.",
        "She set out one day",
        "in a relative way",
        "and came back the previous night.",
    ])
    .unwrap();
    assert_eq!(obj.vertices.len(), 0);
    assert!(obj.default_group.is_empty());
    assert!(obj.groups.is_empty());
}

#[test]
fn test_objfile_feature9() {
    let obj = parse(&["v -1 1 0", "v -1.0000 0.5000 0.0000", "v 1 0 0", "v 1 1 0"]).unwrap();
    assert_eq!(obj.vertices.len(), 4);
    assert_eq!(text(&obj.vertices[1].x), "-1.0000");
    assert_eq!(text(&obj.vertices[1].y), "0.5000");
    assert_eq!(text(&obj.vertices[1].z), "0.0000");
    assert_eq!(text(&obj.vertices[3].y), "1");
}

#[test]
fn test_objfile_feature10() {
    let obj = parse(&["v -1 1 0", "v -1 0 0", "v 1 0 0", "v 1 1 0", "f 1 2 3", "f 1 3 4"]).unwrap();
    assert_eq!(obj.default_group.len(), 2);
    assert_eq!(obj.default_group[0].vertices, (1, 2, 3));
    assert_eq!(obj.default_group[1].vertices, (1, 3, 4));
    assert!(obj.default_group[0].normals.is_none());
}

#[test]
fn test_objfile_feature11() {
    let obj = parse(&[
        "v -1 1 0", "v -1 1 0", "v -1 0 0", "v 1 0 0", "v 1 1 0", "v 0 2 0", "f 1 2 3 4 5",
    ])
    .unwrap();
    assert_eq!(obj.vertices.len(), 6);
    assert_eq!(obj.default_group.len(), 3);
    assert_eq!(obj.default_group[0].vertices, (1, 2, 3));
    assert_eq!(obj.default_group[1].vertices, (1, 3, 4));
    assert_eq!(obj.default_group[2].vertices, (1, 4, 5));
}

#[test]
fn test_objfile_feature12() {
    let obj = parse(&[
        "v -1 1 0", "v -1 0 0", "v 1 0 0", "v 1 1 0", "g FirstGroup", "f 1 2 3", "g SecondGroup", "f 1 3 4",
    ])
    .unwrap();
    assert!(obj.default_group.is_empty());
    assert_eq!(obj.groups.len(), 2);
    assert_eq!(text(&obj.groups[0].name), "FirstGroup");
    assert_eq!(obj.groups[0].triangles.len(), 1);
    assert_eq!(obj.groups[0].triangles[0].vertices, (1, 2, 3));
    assert_eq!(text(&obj.groups[1].name), "SecondGroup");
    assert_eq!(obj.groups[1].triangles.len(), 1);
    assert_eq!(obj.groups[1].triangles[0].vertices, (1, 3, 4));
}

#[test]
fn test_objfile_feature19() {
    let obj = parse(&["v -1 1 0", "vn 0 0 1", "vn 0.707 0 -0.707", "vn 1 2 3"]).unwrap();
    assert_eq!(obj.normals.len(), 3);
    assert_eq!(text(&obj.normals[1].x), "0.707");
    assert_eq!(text(&obj.normals[1].z), "-0.707");
}

#[test]
fn faces_with_normals_are_smooth() {
    let obj = parse(&[
        "v 0 1 0", "v -1 0 0", "v 1 0 0", "vn -1 0 0", "vn 1 0 0", "vn 0 1 0", "f 1//3 2//1 3//2",
        "f 1/0/3 2/102/1 3/14/2",
    ])
    .unwrap();
    assert_eq!(obj.default_group.len(), 2);
    for t in obj.default_group.iter() {
        assert_eq!(t.vertices, (1, 2, 3));
        assert_eq!(t.normals, Some((3, 1, 2)));
    }
}

#[test]
fn corner_forms() {
    assert_eq!(read_corner(&b"2".to_vec(), 3, 0), Ok(Corner { vertex: 2, normal: None }));
    assert_eq!(read_corner(&b"2/7".to_vec(), 3, 0), Ok(Corner { vertex: 2, normal: None }));
    assert_eq!(read_corner(&b"2//1".to_vec(), 3, 1), Ok(Corner { vertex: 2, normal: Some(1) }));
    assert_eq!(read_corner(&b"2/5/1".to_vec(), 3, 1), Ok(Corner { vertex: 2, normal: Some(1) }));
    assert_eq!(read_corner(&b"x".to_vec(), 3, 1), Err(ObjError::MalformedObjNumber));
    assert_eq!(read_corner(&b"2/a/1".to_vec(), 3, 1), Err(ObjError::MalformedObjNumber));
    assert_eq!(read_corner(&b"2//1/4".to_vec(), 3, 1), Err(ObjError::MalformedObjNumber));
    assert_eq!(read_corner(&b"99999999999999999999999".to_vec(), 3, 1), Err(ObjError::MalformedObjNumber));
    assert_eq!(read_corner(&b"0".to_vec(), 3, 1), Err(ObjError::IndexOutOfRange));
    assert_eq!(read_corner(&b"4".to_vec(), 3, 1), Err(ObjError::IndexOutOfRange));
    assert_eq!(read_corner(&b"1//2".to_vec(), 3, 1), Err(ObjError::IndexOutOfRange));
}

#[test]
fn non_numeric_face_is_an_error() {
    let r = parse(&["v 0 0 0", "v 1 0 0", "v 0 1 0", "f 1 two 3"]);
    assert_eq!(r.err(), Some(ObjError::MalformedObjNumber));
}

#[test]
fn face_before_its_vertices_is_an_error() {
    let r = parse(&["v 0 0 0", "f 1 2 3", "v 1 0 0", "v 0 1 0"]);
    assert_eq!(r.err(), Some(ObjError::IndexOutOfRange));
}

#[test]
fn short_records_are_ignored() {
    let obj = parse(&["v 1 2", "f 1 2", "g", "vn 1 2 3 4"]).unwrap();
    assert!(obj.vertices.is_empty());
    assert!(obj.normals.is_empty());
    assert!(obj.default_group.is_empty());
}

#[test]
fn a_face_joins_every_active_group() {
    let obj = parse(&["v 0 0 0", "v 1 0 0", "v 0 1 0", "g a b", "f 1 2 3", "g b", "f 3 2 1"]).unwrap();
    assert_eq!(obj.groups.len(), 2);
    assert_eq!(text(&obj.groups[0].name), "a");
    assert_eq!(obj.groups[0].triangles.len(), 1);
    assert_eq!(text(&obj.groups[1].name), "b");
    assert_eq!(obj.groups[1].triangles.len(), 2);
    assert_eq!(obj.groups[1].triangles[1].vertices, (3, 2, 1));
}

#[test]
fn test_objfile_feature13() {
    let obj = parse(&[
        "v -1 1 0", "v -1 0 0", "v 1 0 0", "v 1 1 0", "g FirstGroup", "f 1 2 3", "g SecondGroup", "f 1 3 4",
    ])
    .unwrap();
    let mut tree = Hierarchy::new();
    let nodes = obj.obj_to_group(&mut tree);
    let group = 0;
    let children = tree.get_children(group);
    assert_eq!(children.len(), 2);
    let children1 = tree.get_children(children[0]);
    assert_eq!(children1.len(), 1);
    assert!(matches!(nodes[children1[0]], ObjNode::Triangle(_)));
    let children2 = tree.get_children(children[1]);
    assert!(matches!(nodes[children2[0]], ObjNode::Triangle(_)));
}

#[test]
fn obj_to_group_places_the_default_group_first() {
    let obj = parse(&["v 0 0 0", "v 1 0 0", "v 0 1 0", "v 1 1 0", "f 1 2 3 4", "g named", "f 1 2 3"]).unwrap();
    let mut tree = Hierarchy::new();
    let before = tree.add_shape(false);
    let nodes = obj.obj_to_group(&mut tree);
    assert_eq!(nodes.len(), 1 + 3 + 2);
    let top = before + 1;
    assert_eq!(tree.len(), top + nodes.len());
    assert_eq!(tree.get_parent(top), None);
    assert_eq!(tree.get_children(top), vec![top + 1, top + 4]);
    assert_eq!(tree.get_children(top + 1), vec![top + 2, top + 3]);
    assert_eq!(tree.get_children(top + 4), vec![top + 5]);
    match nodes[2] {
        ObjNode::Triangle(t) => assert_eq!(t.vertices, (1, 2, 3)),
        ObjNode::Group => panic!("expected a triangle"),
    }
    match nodes[3] {
        ObjNode::Triangle(t) => assert_eq!(t.vertices, (1, 3, 4)),
        ObjNode::Group => panic!("expected a triangle"),
    }
    assert!(tree.is_group(top + 4));
    assert!(!tree.is_group(top + 5));
}

#[test]
fn obj_to_group_of_an_empty_file() {
    let obj = parse(&[]).unwrap();
    let mut tree = Hierarchy::new();
    let nodes = obj.obj_to_group(&mut tree);
    assert_eq!(nodes.len(), 1);
    assert!(tree.get_children(0).is_empty());
}
