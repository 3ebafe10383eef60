use lu_solve::answer::check_answer;
use lu_solve::generate::{
    assemble_system, fit_row, generate_random_solvable_system, row_dot, usable_columns, Correction, GeneratedSystem, HIGH, LOW,
};

fn assert_exact(g: &GeneratedSystem) {
    let n = g.n;
    assert_eq!(g.a.len(), n);
    assert_eq!(g.b.len(), n);
    assert_eq!(g.x.len(), n);
    assert_eq!(g.corrections.len(), n);
    for v in g.x.iter().chain(g.b.iter()) {
        assert!(LOW <= *v && *v < HIGH);
    }
    for i in 0..n {
        assert_eq!(g.a[i].len(), n);
        let dot: i128 = (0..n).map(|j| g.a[i][j] as i128 * g.x[j] as i128).sum();
        match g.corrections[i] {
            None => assert_eq!(dot, g.b[i] as i128),
            Some(c) => {
                assert!(g.x[c.column] != 0);
                assert!(c.delta != 0);
                // Row scaled by x[c]: sum_j (a[i][j] * x[c] + [j == c] * delta) * x[j] == x[c] * b[i].
                let scale = g.x[c.column] as i128;
                let scaled: i128 = (0..n)
                    .map(|j| {
                        let e = g.a[i][j] as i128 * scale + if j == c.column { c.delta } else { 0 };
                        e * g.x[j] as i128
                    })
                    .sum();
                assert_eq!(scaled, scale * g.b[i] as i128);
            }
        }
    }
}

#[test]
fn generated_rows_hold_exactly() {
    for n in [1usize, 2, 5, 10, 50] {
        for _ in 0..20 {
            assert_exact(&generate_random_solvable_system(n));
        }
    }
}

#[test]
fn size_one_does_not_fail() {
    for _ in 0..200 {
        let g = generate_random_solvable_system(1);
        assert_eq!(g.n, 1);
        if let Some(c) = g.corrections[0] {
            assert_eq!(c.column, 0);
        }
        assert_exact(&g);
    }
}

#[test]
fn empty_system() {
    let g = generate_random_solvable_system(0);
    assert_eq!(g.n, 0);
    assert!(g.a.is_empty() && g.b.is_empty() && g.x.is_empty());
}

#[test]
fn corrected_column_is_usable() {
    for _ in 0..20 {
        let g = generate_random_solvable_system(6);
        let cols = usable_columns(&g.x);
        for c in g.corrections.iter().flatten() {
            assert!(cols.contains(&c.column) || (cols.is_empty() && c.column == 5));
        }
    }
}

#[test]
fn usable_columns_skip_zeros_and_last() {
    assert_eq!(usable_columns(&vec![3, 0, -2, 0, 5]), vec![0, 2]);
    assert_eq!(usable_columns(&vec![0, 0, 7]), Vec::<usize>::new());
    assert_eq!(usable_columns(&vec![4]), Vec::<usize>::new());
    assert_eq!(usable_columns(&vec![]), Vec::<usize>::new());
}

#[test]
fn dot_of_rows() {
    assert_eq!(row_dot(&vec![1, 2, 3], &vec![4, -5, 6]), 12);
    assert_eq!(row_dot(&vec![-30; 4], &vec![-30; 4]), 3600);
    assert_eq!(row_dot(&vec![], &vec![]), 0);
}

#[test]
fn row_already_fitting_is_kept() {
    // 1*4 + 2*(-5) + 3*6 == 12
    let x = vec![4, -5, 6];
    let cols = usable_columns(&x);
    assert_eq!(fit_row(&vec![1, 2, 3], &x, &cols, 12, 0), (None, 12));
}

#[test]
fn row_corrected_in_chosen_column() {
    let x = vec![4, -5, 6];
    let cols = usable_columns(&x);
    assert_eq!(cols, vec![0, 1]);
    let c0 = Correction { column: 0, delta: 8 };
    let c1 = Correction { column: 1, delta: 8 };
    assert_eq!(fit_row(&vec![1, 2, 3], &x, &cols, 20, 0), (Some(c0), 20));
    assert_eq!(fit_row(&vec![1, 2, 3], &x, &cols, 20, 1), (Some(c1), 20));
    let below = Correction { column: 1, delta: -22 };
    assert_eq!(fit_row(&vec![1, 2, 3], &x, &cols, -10, 1), (Some(below), -10));
}

#[test]
fn row_corrected_in_last_column_when_none_usable() {
    let x = vec![0, 0, 3];
    let cols = usable_columns(&x);
    let c = Correction { column: 2, delta: 5 };
    assert_eq!(fit_row(&vec![1, 1, 1], &x, &cols, 8, 0), (Some(c), 8));
    let single = vec![-2];
    let c = Correction { column: 0, delta: 7 };
    assert_eq!(fit_row(&vec![3], &single, &usable_columns(&single), 1, 0), (Some(c), 1));
}

#[test]
fn zero_solution_takes_zero_right_hand_side() {
    let x = vec![0, 0];
    let cols = usable_columns(&x);
    assert_eq!(fit_row(&vec![5, -7], &x, &cols, 13, 0), (None, 0));
    assert_eq!(fit_row(&vec![5], &vec![0], &usable_columns(&vec![0]), -4, 0), (None, 0));
}

#[test]
fn answers_compared_entry_by_entry() {
    assert!(check_answer(&vec![2, 3, 2], &vec![2, 3, 2]));
    assert!(!check_answer(&vec![2, 3, 1], &vec![2, 3, 2]));
    assert!(!check_answer(&vec![2, 3], &vec![2, 3, 2]));
    assert!(check_answer(&vec![], &vec![]));
}

#[test]
fn assembled_from_given_draws() {
    let x = vec![4, -5, 6];
    let targets = vec![12, 20, -10];
    let rows = vec![vec![1, 2, 3], vec![1, 2, 3], vec![0, 0, 0]];
    let g = assemble_system(x.clone(), &targets, rows.clone(), &vec![1, 0, 1]);
    assert_eq!(g.n, 3);
    assert_eq!(g.x, x);
    assert_eq!(g.a, rows);
    assert_eq!(g.b, vec![12, 20, -10]);
    assert_eq!(g.corrections[0], None);
    assert_eq!(g.corrections[1], Some(Correction { column: 0, delta: 8 }));
    assert_eq!(g.corrections[2], Some(Correction { column: 1, delta: -10 }));
    assert_exact(&g);
}

#[test]
fn assembled_with_zero_solution() {
    let g = assemble_system(vec![0, 0], &vec![3, 0], vec![vec![1, 1], vec![2, -2]], &vec![0, 0]);
    assert_eq!(g.b, vec![0, 0]);
    assert_eq!(g.corrections, vec![None, None]);
}
