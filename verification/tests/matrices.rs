use puzzle_kit::matrix::transpose;

#[test]
fn test_transpose() {
    let matrix = [[101, 102, 103], [201, 202, 203], [301, 302, 303]];
    let transposed = transpose(matrix);
    assert_eq!(transposed, [[101, 201, 301], [102, 202, 302], [103, 203, 303]]);
    // transposing twice restores the original
    assert_eq!(transpose(transposed), matrix);
}
