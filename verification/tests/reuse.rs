use martinez::contour::Contour;
use martinez::operation::Operation;
use martinez::reuse::{compare_bboxes_reuse, trivial_operation_reuse, ReusableResult};

fn sample() -> Vec<Vec<Vec<[f64; 2]>>> {
    vec![
        vec![
            vec![[1.0f64, 2.0], [3.0, 4.0], [99.0, 99.0]],
            vec![[5.0, 6.0], [7.0, 8.0]],
            vec![[9.0, 10.0], [11.0, 12.0]],
        ],
        vec![
            vec![[13.0, 14.0], [15.0, 16.0], [100.0, 100.0]],
            vec![[17.0, 18.0], [19.0, 20.0]],
        ],
        vec![vec![[21.0, 22.0], [23.0, 24.0]]],
    ]
}

#[test]
fn test_reusable_result() {
    let polygons = sample();
    let mut r = ReusableResult::default();
    r.set_polygons(&polygons);
    assert_eq!(
        r,
        ReusableResult {
            points: vec![
                [1.0, 2.0],
                [3.0, 4.0],
                [99.0, 99.0],
                [5.0, 6.0],
                [7.0, 8.0],
                [9.0, 10.0],
                [11.0, 12.0],
                [13.0, 14.0],
                [15.0, 16.0],
                [100.0, 100.0],
                [17.0, 18.0],
                [19.0, 20.0],
                [21.0, 22.0],
                [23.0, 24.0],
            ],
            polygon_lens: vec![3, 2, 1],
            polygon_ends: vec![3, 5, 6],
            contour_ends: vec![3, 5, 7, 10, 12, 14],
        }
    );
    assert_eq!(r.into_polygons(), polygons);
}

#[test]
fn reusable_result_walks_polygons_and_contours() {
    let polygons = sample();
    let mut r = ReusableResult::default();
    assert!(r.is_empty());
    r.set_polygons(&polygons);
    assert!(!r.is_empty());
    assert_eq!(r.num_polygons(), 3);
    assert_eq!(r.num_contours(0), 3);
    assert_eq!(r.num_contours(1), 2);
    assert_eq!(r.num_contours(2), 1);
    assert_eq!(r.contour_points(0, 0), &[[1.0, 2.0], [3.0, 4.0], [99.0, 99.0]]);
    assert_eq!(r.contour_points(1, 1), &[[17.0, 18.0], [19.0, 20.0]]);
    assert_eq!(r.contour_points(2, 0), &[[21.0, 22.0], [23.0, 24.0]]);
    // Contour indices run on into the following polygons.
    assert_eq!(r.contour_points(0, 3), &[[13.0, 14.0], [15.0, 16.0], [100.0, 100.0]]);
    assert_eq!(r.contour_points(1, 2), &[[21.0, 22.0], [23.0, 24.0]]);
    r.clear();
    assert!(r.is_empty());
    assert_eq!(r.num_polygons(), 0);
}

#[test]
fn reusable_result_keeps_empty_contours() {
    let polygons: Vec<Vec<Vec<u32>>> = vec![vec![vec![], vec![1, 2]], vec![], vec![vec![3]]];
    let mut r = ReusableResult::default();
    r.set_polygons(&polygons);
    assert_eq!(r.num_polygons(), 3);
    assert_eq!(r.num_contours(1), 0);
    assert_eq!(r.contour_points(0, 0), &[] as &[u32]);
    assert_eq!(r.contour_points(0, 1), &[1, 2]);
    assert_eq!(r.polygon_ends, vec![2, 2, 3]);
    assert_eq!(r.contour_ends, vec![0, 2, 3]);
    assert_eq!(r.into_polygons(), polygons);
}

#[test]
fn trivial_operation_reuse_cases() {
    let a = sample();
    let b: Vec<Vec<Vec<[f64; 2]>>> = vec![];
    let mut r = ReusableResult::default();

    assert_eq!(trivial_operation_reuse(&a, &b, Operation::Intersection, &mut r), Some(()));
    assert_eq!(r.num_polygons(), 0);

    assert_eq!(trivial_operation_reuse(&a, &b, Operation::Difference, &mut r), Some(()));
    assert_eq!(r.into_polygons(), a);

    let mut r = ReusableResult::default();
    assert_eq!(trivial_operation_reuse(&b, &a, Operation::Union, &mut r), Some(()));
    assert_eq!(r.into_polygons(), a);

    let mut r = ReusableResult::default();
    assert_eq!(trivial_operation_reuse(&a, &b, Operation::Xor, &mut r), Some(()));
    assert_eq!(r.into_polygons(), a);

    let mut r = ReusableResult::default();
    r.set_polygons(&a);
    assert_eq!(trivial_operation_reuse(&a, &a, Operation::Union, &mut r), None);
    assert!(r.is_empty());
    assert_eq!(r.num_polygons(), 0);
}

#[test]
fn compare_bboxes_reuse_cases() {
    let a = vec![vec![vec![[0.0f64, 0.0], [1.0, 0.0], [1.0, 1.0]]]];
    let b = vec![vec![vec![[5.0f64, 5.0], [6.0, 5.0], [6.0, 6.0]]]];
    let mut r = ReusableResult::default();

    assert_eq!(compare_bboxes_reuse(&a, &b, true, Operation::Intersection, &mut r), Some(()));
    assert_eq!(r.num_polygons(), 0);

    assert_eq!(compare_bboxes_reuse(&a, &b, true, Operation::Difference, &mut r), Some(()));
    assert_eq!(r.into_polygons(), a);

    let mut r = ReusableResult::default();
    assert_eq!(compare_bboxes_reuse(&a, &b, true, Operation::Union, &mut r), Some(()));
    assert_eq!(r.polygon_ends, vec![1, 2]);
    assert_eq!(r.into_polygons(), vec![a[0].clone(), b[0].clone()]);

    let mut r = ReusableResult::default();
    assert_eq!(compare_bboxes_reuse(&a, &b, false, Operation::Xor, &mut r), None);
    assert!(r.is_empty());
}

#[test]
fn reusable_result_from_contours() {
    let contours = vec![
        Contour { points: vec![1u8, 2, 3], hole_ids: vec![1, 2], hole_of: None, depth: 0 },
        Contour { points: vec![4u8, 5], hole_ids: vec![], hole_of: Some(0), depth: 1 },
        Contour { points: vec![6u8], hole_ids: vec![], hole_of: Some(0), depth: 1 },
        Contour { points: vec![7u8, 8, 9], hole_ids: vec![], hole_of: None, depth: 0 },
    ];
    let mut r = ReusableResult::default();
    r.set_polygons(&[vec![vec![42u8]]]);
    r.set_from_contours(&contours);
    assert_eq!(r.num_polygons(), 2);
    assert_eq!(r.polygon_lens, vec![3, 1]);
    assert_eq!(r.polygon_ends, vec![3, 4]);
    assert_eq!(r.contour_ends, vec![3, 5, 6, 9]);
    assert_eq!(
        r.into_polygons(),
        vec![vec![vec![1, 2, 3], vec![4, 5], vec![6]], vec![vec![7, 8, 9]]]
    );
}
