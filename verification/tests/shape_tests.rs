use volesti_rs::geometry::shapes::{hypercube_constraints, simplex_constraints, ConstraintTable};

/// Whether the rational point `p / q` satisfies every constraint of `table`.
fn satisfies(table: &ConstraintTable, p: &[i64], q: i64) -> bool {
    table.a.iter().zip(table.b.iter()).all(|(row, &b)| {
        let value: i64 = row.iter().zip(p.iter()).map(|(&a, &x)| a as i64 * x).sum();
        value <= b as i64 * q
    })
}

#[test]
fn test_hypercube_table_shape() {
    let t = hypercube_constraints(3);
    assert_eq!(t.a.len(), 6);
    assert_eq!(t.b, vec![1; 6]);
    assert_eq!(t.a[0], vec![1, 0, 0]);
    assert_eq!(t.a[2], vec![0, 0, 1]);
    assert_eq!(t.a[3], vec![-1, 0, 0]);
    assert_eq!(t.a[5], vec![0, 0, -1]);
}

#[test]
fn test_hypercube_table_contains_origin() {
    let t = hypercube_constraints(5);
    assert!(satisfies(&t, &[0; 5], 1));
}

#[test]
fn test_hypercube_table_excludes_exterior() {
    let t = hypercube_constraints(5);
    assert!(!satisfies(&t, &[2, 0, 0, 0, 0], 1));
    assert!(satisfies(&t, &[1, -1, 1, -1, 0], 1));
}

#[test]
fn test_simplex_table_shape() {
    let t = simplex_constraints(3);
    assert_eq!(t.a, vec![vec![-1, 0, 0], vec![0, -1, 0], vec![0, 0, -1], vec![1, 1, 1]]);
    assert_eq!(t.b, vec![0, 0, 0, 1]);
}

#[test]
fn test_simplex_table_contains_centroid() {
    // The point 1/(n+1) in every coordinate, with n = 4.
    let t = simplex_constraints(4);
    assert!(satisfies(&t, &[1; 4], 5));
    assert!(!satisfies(&t, &[1; 4], 3));
    assert!(!satisfies(&t, &[-1, 1, 1, 1], 5));
}

#[test]
fn test_zero_dimensional_shapes() {
    let cube = hypercube_constraints(0);
    assert!(cube.a.is_empty() && cube.b.is_empty());
    let simplex = simplex_constraints(0);
    assert_eq!(simplex.a, vec![Vec::<i8>::new()]);
    assert_eq!(simplex.b, vec![1]);
}
