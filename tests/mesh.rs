use gloom::mesh::{check_mesh_layout, circle_indices, sine_indices, MeshError};

#[test]
fn consistent_buffers_give_vertex_count() {
    assert_eq!(check_mesh_layout(27, 36, 27, &vec![0, 1, 2, 8, 7, 6]), Ok(9));
}

#[test]
fn empty_mesh_is_consistent() {
    assert_eq!(check_mesh_layout(0, 0, 0, &vec![]), Ok(0));
}

#[test]
fn partial_position_triple_is_refused() {
    assert_eq!(check_mesh_layout(10, 12, 10, &vec![]), Err(MeshError::CoordinatesNotTriples));
}

#[test]
fn color_count_must_match() {
    assert_eq!(check_mesh_layout(9, 9, 9, &vec![]), Err(MeshError::ColorCountMismatch));
    assert_eq!(check_mesh_layout(9, 13, 9, &vec![]), Err(MeshError::ColorCountMismatch));
}

#[test]
fn normal_count_must_match() {
    assert_eq!(check_mesh_layout(9, 12, 6, &vec![]), Err(MeshError::NormalCountMismatch));
}

#[test]
fn first_bad_index_is_reported() {
    assert_eq!(
        check_mesh_layout(9, 12, 9, &vec![0, 2, 3, 5]),
        Err(MeshError::IndexOutOfRange { position: 2 })
    );
}

#[test]
fn circle_fan_indices_cover_centre_and_closing_point() {
    assert_eq!(circle_indices(4), vec![0, 1, 2, 3, 4, 5]);
    assert_eq!(circle_indices(0), vec![0, 1]);
}

#[test]
fn sine_strip_indices_count_samples() {
    assert_eq!(sine_indices(3), vec![0, 1, 2]);
    assert!(sine_indices(0).is_empty());
}
