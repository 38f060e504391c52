use wavefc::helpers::Adjacency;
use wavefc::helpers::BorderMode;
use wavefc::helpers::Vector2;
use wavefc::helpers::all_possible_shifts;
use wavefc::helpers::arrayify;
use wavefc::helpers::dimensions_of;
use wavefc::helpers::noneg_neighbours;
use wavefc::helpers::orthog_direction;
use wavefc::helpers::overlapping_adjacencies;
use wavefc::helpers::remove_indexes;
use wavefc::helpers::roll;
use wavefc::helpers::swap_layers;
use wavefc::helpers::xy_swap;

#[test]
fn arrayify_works() {
    let input = vec![
        (0, Vector2::new(0, 0)),
        (1, Vector2::new(0, 1)),
        (2, Vector2::new(0, 2)),
        (3, Vector2::new(1, 0)),
        (4, Vector2::new(1, 1)),
        (5, Vector2::new(1, 2)),
        (6, Vector2::new(2, 0)),
        (7, Vector2::new(2, 1)),
        (8, Vector2::new(2, 2)),
        (9, Vector2::new(3, 0)),
        (10, Vector2::new(3, 1)),
        (11, Vector2::new(3, 2)),
    ];

    let formatted = arrayify(input, &Vector2::new(4, 3));
    assert_eq!(formatted.len(), 4);
    assert_eq!(formatted[0].len(), 3);

    let expected_1 = vec![vec![0, 1, 2], vec![3, 4, 5], vec![6, 7, 8], vec![9, 10, 11]];

    assert_eq!(formatted, expected_1);
}

#[test]
fn roll_works() {
    let mut array = vec![
        vec![0, 0, 1, 1],
        vec![1, 1, 0, 0],
        vec![0, 1, 1, 0],
        vec![1, 0, 0, 1],
    ];

    let expected_1 = vec![
        vec![1, 0, 0, 1],
        vec![0, 1, 1, 0],
        vec![0, 0, 1, 1],
        vec![1, 1, 0, 0],
    ];

    let expected_2 = vec![
        vec![1, 1, 0, 0],
        vec![0, 0, 1, 1],
        vec![1, 0, 0, 1],
        vec![0, 1, 1, 0],
    ];

    let expected_3 = vec![
        vec![0, 1, 1, 0],
        vec![1, 1, 0, 0],
        vec![0, 0, 1, 1],
        vec![1, 0, 0, 1],
    ];

    roll(&mut array, 1, true, false);
    assert_eq!(array, expected_1);
    roll(&mut array, 1, true, false);
    assert_eq!(array, expected_2);
    roll(&mut array, 1, false, true);
    assert_eq!(array, expected_3);
}

#[test]
fn all_possible_shifts_works() {
    let input = vec![vec![1, 2], vec![3, 4]];
    let sets = all_possible_shifts(input);
    // 3 axis pairs, one entry per shift count
    assert_eq!(sets.len(), 6);
    // shifting a 2-wide grid twice along one axis returns the original
    assert_eq!(sets[1], vec![vec![1, 2], vec![3, 4]]);
}

#[test]
fn remove_indexes_works() {
    let mut input = vec![5, 10, 15, 20, 25, 30];
    let to_remove = vec![0, 2, 4];
    remove_indexes(&mut input, &to_remove);
    assert_eq!(input, vec![10, 20, 30]);
}

#[test]
fn overlapping_adjacencies_works() {
    // row (y) -> col (x)
    let input = vec![
        vec![0, 1, 1, 2],
        vec![0, 0, 1, 1],
        vec![1, 0, 0, 0],
        vec![1, 1, 1, 1],
    ];

    // col (x) -> row (y)
    let formatted_input = xy_swap(input.to_owned());

    // Indexes using [x][y], so expects 2d array as cols (x) -> rows (y)
    let result = overlapping_adjacencies(formatted_input, Vector2::new(2, 2), BorderMode::Clamp);

    assert_eq!(result.len(), 9);

    let origin = xy_swap(result[0].origin_content.to_owned());
    let e0 = vec![vec![0, 1], vec![0, 0]];
    assert_eq!(origin, e0);

    // direction 0 is up (adding y) and 1 is right; down and left fall
    // outside the input for the first root
    assert!(result[0].neighbours_content[2].is_none());
    assert!(result[0].neighbours_content[3].is_none());

    let i1r = result[0].neighbours_content[1].as_ref().unwrap();
    let i1 = xy_swap(i1r.to_owned());
    let e1 = vec![vec![1, 2], vec![1, 1]];
    assert_eq!(i1, e1);

    let i2r = result[0].neighbours_content[0].as_ref().unwrap();
    let i2 = xy_swap(i2r.to_owned());
    let e2 = vec![vec![1, 0], vec![1, 1]];
    assert_eq!(i2, e2);

    let exclude_test = vec![
        vec![0, 0, 0, 0, 0, 0, 0, 0],
        vec![0, 0, 0, 0, 0, 0, 0, 0],
        vec![0, 0, 0, 0, 0, 0, 0, 0],
        vec![0, 0, 0, 0, 0, 0, 0, 0],
        vec![0, 0, 0, 0, 0, 0, 0, 0],
        vec![0, 0, 0, 0, 0, 0, 0, 0],
        vec![0, 0, 0, 0, 0, 0, 0, 0],
        vec![0, 0, 0, 0, 0, 0, 0, 0],
    ];

    // under Exclude a root survives exactly when all 4 neighbouring
    // windows lie fully in bounds: the 8x8 grid keeps the 9 roots whose
    // origins lie in 2..=4 on both axes
    let val = xy_swap(exclude_test);
    let adjac = overlapping_adjacencies(val, Vector2::new(2, 2), BorderMode::Exclude);
    assert_eq!(adjac.len(), 9);
    for adjacency in &adjac {
        assert!(adjacency.neighbours_content.iter().all(|n| n.is_some()));
    }
}

#[test]
fn overlapping_adjacency_roots_have_chunk_dimensions() {
    let input = vec![vec![0, 1, 2], vec![3, 4, 5], vec![6, 7, 8]];
    let result = overlapping_adjacencies(input, Vector2::new(2, 2), BorderMode::Clamp);
    assert_eq!(result.len(), 4);
    for adjacency in &result {
        let dims = dimensions_of(&adjacency.origin_content);
        assert_eq!(dims, Vector2::new(2, 2));
    }
}

#[test]
fn adjacency_new_starts_without_neighbours() {
    let a = Adjacency::new(vec![vec![7]]);
    assert_eq!(a.origin_content, vec![vec![7]]);
    assert_eq!(a.neighbours_content.len(), 4);
    assert!(a.neighbours_content.iter().all(|n| n.is_none()));
}

#[test]
fn swap_layers_transposes() {
    let input = vec![vec![1, 2, 3], vec![4, 5, 6]];
    let out = swap_layers(input);
    assert_eq!(out, vec![vec![1, 4], vec![2, 5], vec![3, 6]]);
}

#[test]
fn noneg_neighbours_filters_the_border() {
    let at_origin = noneg_neighbours(&Vector2::new(0, 0));
    assert_eq!(at_origin, vec![Vector2::new(1, 0), Vector2::new(0, 1)]);

    let inside = noneg_neighbours(&Vector2::new(2, 3));
    assert_eq!(
        inside,
        vec![
            Vector2::new(2, 2),
            Vector2::new(3, 3),
            Vector2::new(2, 4),
            Vector2::new(1, 3),
        ]
    );
}

#[test]
fn orthog_direction_classifies() {
    let origin = Vector2::new(2, 2);
    assert_eq!(orthog_direction(&origin, &Vector2::new(2, 3)), 0);
    assert_eq!(orthog_direction(&origin, &Vector2::new(3, 2)), 1);
    assert_eq!(orthog_direction(&origin, &Vector2::new(2, 1)), 2);
    assert_eq!(orthog_direction(&origin, &Vector2::new(1, 2)), 3);
}
