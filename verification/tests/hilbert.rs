use hilbert_curve::{convert_1d_to_2d, convert_2d_to_1d, is_power_of_two};

#[test]
fn power_of_two_precondition() {
    for n in 0..300 {
        let expected = n != 0 && n & (n - 1) == 0;
        assert_eq!(is_power_of_two(n), expected, "n={n}");
    }
    assert!(!is_power_of_two(3));
    assert!(is_power_of_two(usize::MAX / 2 + 1));
    assert!(!is_power_of_two(usize::MAX));
}

#[test]
fn reversibility() {
    for &n in &[2, 4, 8, 16, 32, 64, 128, 256] {
        for d in 0..(n * n) {
            let (x, y) = convert_1d_to_2d(d, n);
            assert_eq!(convert_2d_to_1d(x, y, n), d);
        }
    }
}

#[test]
fn reversibility_from_cells() {
    for &n in &[1, 2, 4, 16, 64] {
        for x in 0..n {
            for y in 0..n {
                let d = convert_2d_to_1d(x, y, n);
                assert!(d < n * n);
                assert_eq!(convert_1d_to_2d(d, n), (x, y));
            }
        }
    }
}

#[test]
fn visits_every_cell_once() {
    for &n in &[1, 2, 4, 8, 16, 32] {
        let mut visited = vec![false; n * n];
        for d in 0..(n * n) {
            let (x, y) = convert_1d_to_2d(d, n);
            assert!(x < n && y < n);
            assert!(!visited[x * n + y], "cell visited twice");
            visited[x * n + y] = true;
        }
        assert!(visited.iter().all(|&v| v));
    }
}

#[test]
fn starts_at_origin() {
    for &n in &[1, 2, 4, 8, 16, 32, 64, 128, 256] {
        assert_eq!(convert_1d_to_2d(0, n), (0, 0));
        assert_eq!(convert_2d_to_1d(0, 0, n), 0);
    }
}

#[test]
fn consecutive_cells_are_adjacent() {
    for &n in &[2, 4, 8, 32, 64] {
        for d in 0..(n * n - 1) {
            let (x1, y1) = convert_1d_to_2d(d, n);
            let (x2, y2) = convert_1d_to_2d(d + 1, n);
            let manhattan = x1.abs_diff(x2) + y1.abs_diff(y2);
            assert_eq!(manhattan, 1, "n={n}, d={d}");
        }
    }
}

#[test]
fn ends_in_lower_right_corner() {
    for &n in &[1, 2, 4, 8, 16, 64, 256] {
        let (x, y) = convert_1d_to_2d(n * n - 1, n);
        assert!(x < n && y < n);
        assert_eq!((x, y), (n - 1, 0));
    }
}

#[test]
fn order_two_reference_table() {
    let expected = [(0, 0), (0, 1), (1, 1), (1, 0)];
    for (d, &cell) in expected.iter().enumerate() {
        assert_eq!(convert_1d_to_2d(d, 2), cell);
        assert_eq!(convert_2d_to_1d(cell.0, cell.1, 2), d);
    }
}

#[test]
fn order_four_reference_table() {
    let expected = [
        (0, 0),
        (1, 0),
        (1, 1),
        (0, 1),
        (0, 2),
        (0, 3),
        (1, 3),
        (1, 2),
        (2, 2),
        (2, 3),
        (3, 3),
        (3, 2),
        (3, 1),
        (2, 1),
        (2, 0),
        (3, 0),
    ];
    for (d, &cell) in expected.iter().enumerate() {
        assert_eq!(convert_1d_to_2d(d, 4), cell);
        assert_eq!(convert_2d_to_1d(cell.0, cell.1, 4), d);
    }
}

#[test]
fn minimal_grid() {
    assert_eq!(convert_1d_to_2d(0, 1), (0, 0));
    assert_eq!(convert_2d_to_1d(0, 0, 1), 0);
}
