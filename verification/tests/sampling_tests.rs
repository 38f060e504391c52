use wavefc::helpers::Vector2;
use wavefc::sampling::adjacencies;
use wavefc::sampling::deconstruct_string;
use wavefc::sampling::orthogonal;

#[test]
fn orthogonals_works() {
    let neighbours = orthogonal(&Vector2::new(4, 4));
    assert_eq!(neighbours[0], Vector2::new(4, 5));
    assert_eq!(neighbours[1], Vector2::new(5, 4));
    assert_eq!(neighbours[2], Vector2::new(4, 3));
    assert_eq!(neighbours[3], Vector2::new(3, 4));
}

#[test]
fn string_deconstructor_works() {
    let input = "S C L\nC L L\nL L L";
    let result = deconstruct_string(input, false).grid;

    assert_eq!(
        result,
        vec![vec![0, 1, 2,], vec![1, 2, 2,], vec![2, 2, 2,],]
    );
}

#[test]
fn string_deconstructor_builds_the_symbol_table() {
    let sample = deconstruct_string("S C L\nC L L\nL L L", false);
    assert_eq!(sample.map, vec![(0, 'S'), (1, 'C'), (2, 'L')]);
}

#[test]
fn adjacencies_works() {
    let input = vec![vec![0, 1, 2], vec![1, 2, 2], vec![2, 2, 2]];

    let simple_test = adjacencies(&input, Vector2::new(1, 1), true);
    assert_eq!(simple_test.len(), 9);

    let complex_test = adjacencies(&input, Vector2::new(1, 2), true);
    assert_eq!(complex_test.len(), 6);
    let expected_neighbours: Vec<Option<Vec<Vec<usize>>>> =
        vec![None, Some(vec![vec![2, 2]]), None, Some(vec![vec![1, 2]])];
    assert_eq!(
        complex_test
            .iter()
            .filter(|v| v.root_data == vec![vec![2, 2]]
                && v.neighbours_data == expected_neighbours)
            .count(),
        1
    );
}
