use raytracer::obj_loader::triangle_indices;

#[test]
fn indices_group_into_triangles() {
    let indices: Vec<u32> = vec![0, 1, 2, 2, 3, 0];
    let tris = triangle_indices(&indices, 4).unwrap();
    assert_eq!(tris, vec![[0, 1, 2], [2, 3, 0]]);
}

#[test]
fn trailing_partial_triangle_is_ignored() {
    let indices: Vec<u32> = vec![0, 1, 2, 9, 9];
    let tris = triangle_indices(&indices, 3).unwrap();
    assert_eq!(tris, vec![[0, 1, 2]]);
}

#[test]
fn index_past_the_vertices_is_rejected() {
    let indices: Vec<u32> = vec![0, 1, 2, 1, 2, 3];
    assert_eq!(triangle_indices(&indices, 3), None);
}

#[test]
fn no_indices_give_no_triangles() {
    let indices: Vec<u32> = vec![];
    assert_eq!(triangle_indices(&indices, 0), Some(vec![]));
}
