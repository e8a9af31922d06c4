use heat_spectral::{barbell_graph, complete_graph, cycle_graph, path_graph, star_graph};

fn edges(a: &[Vec<bool>]) -> Vec<(usize, usize)> {
    let mut e = Vec::new();
    for (i, row) in a.iter().enumerate() {
        for (j, &x) in row.iter().enumerate() {
            if x && i < j {
                e.push((i, j));
            }
        }
    }
    e
}

fn is_symmetric(a: &[Vec<bool>]) -> bool {
    (0..a.len()).all(|i| (0..a.len()).all(|j| a[i][j] == a[j][i]))
}

#[test]
fn path_pattern() {
    let a = path_graph(4);
    assert_eq!(a.len(), 4);
    assert_eq!(edges(&a), vec![(0, 1), (1, 2), (2, 3)]);
    assert!(is_symmetric(&a));
    assert_eq!(path_graph(1), vec![vec![false]]);
}

#[test]
fn cycle_pattern() {
    let a = cycle_graph(5);
    assert_eq!(edges(&a), vec![(0, 1), (0, 4), (1, 2), (2, 3), (3, 4)]);
    assert!(is_symmetric(&a));
    assert_eq!(cycle_graph(1), vec![vec![true]]);
}

#[test]
fn complete_pattern() {
    let a = complete_graph(4);
    assert_eq!(edges(&a).len(), 6);
    for i in 0..4 {
        assert!(!a[i][i]);
    }
    assert!(complete_graph(0).is_empty());
}

#[test]
fn star_pattern() {
    let a = star_graph(5);
    assert_eq!(edges(&a), vec![(0, 1), (0, 2), (0, 3), (0, 4)]);
    assert!(is_symmetric(&a));
    assert_eq!(star_graph(1), vec![vec![false]]);
}

#[test]
fn barbell_pattern() {
    let a = barbell_graph(3);
    assert_eq!(a.len(), 6);
    assert_eq!(
        edges(&a),
        vec![(0, 1), (0, 2), (1, 2), (2, 3), (3, 4), (3, 5), (4, 5)]
    );
    assert!(is_symmetric(&a));
}
