use martinez::boolean::{compare_bboxes, polygons_from_contours, trivial_operation};
use martinez::contour::Contour;
use martinez::operation::Operation;

#[test]
fn trivial_operation_with_an_empty_operand() {
    let a = vec![vec![vec![[0.0f64, 0.0], [1.0, 0.0], [1.0, 1.0]]]];
    let empty: Vec<Vec<Vec<[f64; 2]>>> = vec![];

    assert_eq!(trivial_operation(&a, &empty, Operation::Intersection), Some(vec![]));
    assert_eq!(trivial_operation(&empty, &a, Operation::Intersection), Some(vec![]));
    assert_eq!(trivial_operation(&a, &empty, Operation::Difference), Some(a.clone()));
    assert_eq!(trivial_operation(&empty, &a, Operation::Difference), Some(vec![]));
    assert_eq!(trivial_operation(&empty, &a, Operation::Union), Some(a.clone()));
    assert_eq!(trivial_operation(&a, &empty, Operation::Xor), Some(a.clone()));
    assert_eq!(trivial_operation(&empty, &empty, Operation::Union), Some(vec![]));
    assert_eq!(trivial_operation(&a, &a, Operation::Union), None);
}

#[test]
fn compare_bboxes_when_boxes_are_apart() {
    let a = vec![1u32, 2];
    let b = vec![3u32];
    assert_eq!(compare_bboxes(&a, &b, true, Operation::Intersection), Some(vec![]));
    assert_eq!(compare_bboxes(&a, &b, true, Operation::Difference), Some(vec![1, 2]));
    assert_eq!(compare_bboxes(&a, &b, true, Operation::Union), Some(vec![1, 2, 3]));
    assert_eq!(compare_bboxes(&a, &b, true, Operation::Xor), Some(vec![1, 2, 3]));
    assert_eq!(compare_bboxes(&a, &b, false, Operation::Union), None);
}

#[test]
fn polygons_from_contours_groups_holes_with_their_exterior() {
    let contours = vec![
        Contour { points: vec![7u8, 8], hole_ids: vec![], hole_of: Some(2), depth: 1 },
        Contour { points: vec![1u8, 2, 3], hole_ids: vec![], hole_of: None, depth: 0 },
        Contour { points: vec![4u8, 5, 6], hole_ids: vec![0], hole_of: None, depth: 0 },
    ];
    assert_eq!(
        polygons_from_contours(&contours),
        vec![vec![vec![1, 2, 3]], vec![vec![4, 5, 6], vec![7, 8]]]
    );
    let none: Vec<Contour<u8>> = vec![];
    assert_eq!(polygons_from_contours(&none), Vec::<Vec<Vec<u8>>>::new());
}
