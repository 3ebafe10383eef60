//! Random instances `Ax = b` that are solvable by construction.
//!
//! The solution `x`, the right-hand side `b` and the matrix `A` get integer
//! entries drawn uniformly from `[LOW, HIGH)`. Each row of `A` whose product
//! with `x` misses `b[i]` then gets one entry `A[i][c]` moved by
//! `(b[i] - A[i]·x) / x[c]`, which makes the row's equation hold exactly.
//! Here that move is kept exact, as an integer numerator over `x[c]`.

use vstd::prelude::*;
use rand::Rng;

verus! {

pub const LOW: i64 = -30;

pub const HIGH: i64 = 30;

#[verifier::external_type_specification]
#[verifier::external_body]
pub struct ExThreadRng(rand::rngs::ThreadRng);

/// Relies on rand::thread_rng: a handle on the thread's generator.
#[verifier::external_body]
fn new_rng() -> (r: rand::rngs::ThreadRng) {
    rand::thread_rng()
}

/// Relies on rand::Rng::gen_range: an integer in `[low, high)`; it panics on
/// an empty range, which `requires` leaves out.
#[verifier::external_body]
fn draw(rng: &mut rand::rngs::ThreadRng, low: i64, high: i64) -> (r: i64)
    requires
        low < high,
    ensures
        low <= r < high,
{
    rng.gen_range(low..high)
}

pub open spec fn in_range(v: i64) -> bool {
    LOW <= v < HIGH
}

/// `u[0] * v[0] + ... + u[m - 1] * v[m - 1]`.
pub open spec fn dot_prefix(u: Seq<i64>, v: Seq<i64>, m: int) -> int
    decreases m,
{
    if m <= 0 {
        0
    } else {
        dot_prefix(u, v, m - 1) + u[m - 1] * v[m - 1]
    }
}

pub open spec fn dot(u: Seq<i64>, v: Seq<i64>) -> int {
    dot_prefix(u, v, u.len() as int)
}

/// The columns `j < m` with `x[j] != 0`, in increasing order.
pub open spec fn usable_below(x: Seq<i64>, m: int) -> Seq<int>
    decreases m,
{
    if m <= 0 {
        Seq::<int>::empty()
    } else if x[m - 1] != 0 {
        usable_below(x, m - 1).push(m - 1)
    } else {
        usable_below(x, m - 1)
    }
}

/// The columns that a row may be corrected in: those before the last one
/// whose entry of `x` is not zero.
pub open spec fn usable(x: Seq<i64>) -> Seq<int> {
    usable_below(x, x.len() - 1)
}

/// The move of one entry of a row: `A[i][column]` grows by `delta / x[column]`.
#[derive(Clone, Copy, Debug, PartialEq, Eq, Structural)]
pub struct Correction {
    pub column: usize,
    pub delta: i128,
}

/// The row `a` with correction `c` satisfies `A[i]·x == t` exactly.
pub open spec fn row_fits(a: Seq<i64>, x: Seq<i64>, c: Option<Correction>, t: int) -> bool {
    match c {
        None => dot(a, x) == t,
        Some(k) => k.column < x.len() && x[k.column as int] != 0 && dot(a, x) + k.delta == t,
    }
}

/// A generated instance: `A[i][j]` is `a[i][j]`, plus `delta / x[j]` where
/// `corrections[i]` moves column `j`.
pub struct GeneratedSystem {
    pub n: usize,
    pub a: Vec<Vec<i64>>,
    pub b: Vec<i64>,
    pub x: Vec<i64>,
    pub corrections: Vec<Option<Correction>>,
}

impl GeneratedSystem {
    pub open spec fn well_formed(&self) -> bool {
        &&& self.a@.len() == self.n
        &&& self.b@.len() == self.n
        &&& self.x@.len() == self.n
        &&& self.corrections@.len() == self.n
        &&& forall|i: int| 0 <= i < self.n ==> (#[trigger] self.a@[i])@.len() == self.n
        &&& forall|i: int, j: int|
            0 <= i < self.n && 0 <= j < self.n ==> in_range(#[trigger] self.a@[i]@[j])
        &&& forall|i: int| 0 <= i < self.n ==> in_range(#[trigger] self.x@[i])
        &&& forall|i: int| 0 <= i < self.n ==> in_range(#[trigger] self.b@[i])
        &&& forall|i: int|
            0 <= i < self.n ==> row_fits(
                (#[trigger] self.a@[i])@,
                self.x@,
                self.corrections@[i],
                self.b@[i] as int,
            )
    }
}

proof fn lemma_product_bound(p: i64, q: i64)
    requires
        in_range(p),
        in_range(q),
    ensures
        -900 <= p * q <= 900,
{
    assert(-900 <= p * q <= 900) by (nonlinear_arith)
        requires
            -30 <= p < 30,
            -30 <= q < 30,
    ;
}

/// `A[i]·x` for a row and a solution with entries in `[LOW, HIGH)`.
pub fn row_dot(row: &Vec<i64>, x: &Vec<i64>) -> (r: i128)
    requires
        row@.len() == x@.len(),
        forall|j: int| 0 <= j < row@.len() ==> in_range(#[trigger] row@[j]),
        forall|j: int| 0 <= j < x@.len() ==> in_range(#[trigger] x@[j]),
    ensures
        r == dot(row@, x@),
        -900 * row@.len() <= r <= 900 * row@.len(),
{
    let mut acc: i128 = 0;
    let mut j: usize = 0;
    while j < row.len()
        invariant
            j <= row@.len(),
            row@.len() == x@.len(),
            forall|k: int| 0 <= k < row@.len() ==> in_range(#[trigger] row@[k]),
            forall|k: int| 0 <= k < x@.len() ==> in_range(#[trigger] x@[k]),
            acc == dot_prefix(row@, x@, j as int),
            -900 * j <= acc <= 900 * j,
        decreases row@.len() - j,
    {
        proof {
            lemma_product_bound(row@[j as int], x@[j as int]);
        }
        acc = acc + (row[j] as i128) * (x[j] as i128);
        j = j + 1;
    }
    acc
}

/// The columns that a row may be corrected in, in increasing order.
pub fn usable_columns(x: &Vec<i64>) -> (r: Vec<usize>)
    ensures
        r@.map_values(|c: usize| c as int) == usable(x@),
{
    let mut r: Vec<usize> = Vec::new();
    if x.len() == 0 {
        assert(r@.map_values(|c: usize| c as int) =~= usable(x@));
        return r;
    }
    let mut j: usize = 0;
    assert(r@.map_values(|c: usize| c as int) =~= usable_below(x@, 0));
    while j < x.len() - 1
        invariant
            x@.len() > 0,
            j <= x@.len() - 1,
            r@.map_values(|c: usize| c as int) == usable_below(x@, j as int),
        decreases x@.len() - 1 - j,
    {
        if x[j] != 0 {
            r.push(j);
        }
        j = j + 1;
        assert(r@.map_values(|c: usize| c as int) =~= usable_below(x@, j as int));
    }
    r
}

/// The correction of a row `a` toward `t`, and the right-hand side that the
/// row ends with. A row that already fits is left alone. Otherwise the entry
/// moved is in the usable column `choice` picks; where no column is usable,
/// it is in the last column, and where that entry of `x` is zero too, `x` is
/// zero throughout and the right-hand side becomes the row's product, zero.
pub open spec fn fit(a: Seq<i64>, x: Seq<i64>, t: int, choice: int) -> (Option<Correction>, int) {
    let d = dot(a, x);
    let cols = usable(x);
    if d == t {
        (None, t)
    } else if cols.len() > 0 {
        (Some(Correction { column: cols[choice] as usize, delta: (t - d) as i128 }), t)
    } else if x.len() > 0 && x.last() != 0 {
        (Some(Correction { column: (x.len() - 1) as usize, delta: (t - d) as i128 }), t)
    } else {
        (None, d)
    }
}

proof fn lemma_usable_below(x: Seq<i64>, m: int)
    requires
        0 <= m <= x.len(),
    ensures
        usable_below(x, m).len() <= m,
        forall|k: int|
            0 <= k < usable_below(x, m).len() ==> 0 <= #[trigger] usable_below(x, m)[k] < m
                && x[usable_below(x, m)[k]] != 0,
        usable_below(x, m).len() == 0 ==> forall|j: int| 0 <= j < m ==> #[trigger] x[j] == 0,
    decreases m,
{
    if m > 0 {
        lemma_usable_below(x, m - 1);
        let p = usable_below(x, m - 1);
        if x[m - 1] != 0 {
            assert forall|k: int| 0 <= k < usable_below(x, m).len() implies 0
                <= #[trigger] usable_below(x, m)[k] < m && x[usable_below(x, m)[k]] != 0 by {
                if k < p.len() {
                    assert(usable_below(x, m)[k] == p[k]);
                }
            }
        }
    }
}

proof fn lemma_dot_zero(a: Seq<i64>, x: Seq<i64>, m: int)
    requires
        m <= x.len(),
        forall|j: int| 0 <= j < m ==> #[trigger] x[j] == 0,
    ensures
        dot_prefix(a, x, m) == 0,
    decreases m,
{
    if m > 0 {
        lemma_dot_zero(a, x, m - 1);
        assert(x[m - 1] == 0);
        assert(a[m - 1] * x[m - 1] == 0) by (nonlinear_arith)
            requires
                x[m - 1] == 0,
        ;
    }
}

/// Fits one row of `A` to its right-hand side `target`; `choice` picks
/// among the usable columns `cols`.
pub fn fit_row(row: &Vec<i64>, x: &Vec<i64>, cols: &Vec<usize>, target: i64, choice: usize) -> (r: (
    Option<Correction>,
    i64,
))
    requires
        row@.len() == x@.len(),
        forall|j: int| 0 <= j < row@.len() ==> in_range(#[trigger] row@[j]),
        forall|j: int| 0 <= j < x@.len() ==> in_range(#[trigger] x@[j]),
        in_range(target),
        cols@.map_values(|c: usize| c as int) == usable(x@),
        cols@.len() > 0 ==> choice < cols@.len(),
    ensures
        r.0 == fit(row@, x@, target as int, choice as int).0,
        r.1 as int == fit(row@, x@, target as int, choice as int).1,
        in_range(r.1),
        row_fits(row@, x@, r.0, r.1 as int),
        r.0 is Some ==> r.0->0.delta != 0 && (usable(x@).contains(r.0->0.column as int) || (
        usable(x@).len() == 0 && r.0->0.column == x@.len() - 1)),
{
    let n = x.len();
    let d = row_dot(row, x);
    if d == target as i128 {
        return (None, target);
    }
    let delta = target as i128 - d;
    proof {
        if n > 0 {
            lemma_usable_below(x@, n - 1);
        }
    }
    if cols.len() > 0 {
        let c = cols[choice];
        assert(c as int == usable(x@)[choice as int]);
        assert(usable(x@).contains(c as int));
        (Some(Correction { column: c, delta }), target)
    } else if n > 0 && x[n - 1] != 0 {
        (Some(Correction { column: n - 1, delta }), target)
    } else {
        proof {
            if n > 0 {
                assert(usable(x@).len() == 0);
            }
            lemma_dot_zero(row@, x@, n as int);
        }
        (None, 0)
    }
}

fn draw_entries(rng: &mut rand::rngs::ThreadRng, n: usize) -> (r: Vec<i64>)
    ensures
        r@.len() == n,
        forall|j: int| 0 <= j < n ==> in_range(#[trigger] r@[j]),
{
    let mut r: Vec<i64> = Vec::new();
    let mut j: usize = 0;
    while j < n
        invariant
            j <= n,
            r@.len() == j,
            forall|k: int| 0 <= k < j ==> in_range(#[trigger] r@[k]),
        decreases n - j,
    {
        r.push(draw(rng, LOW, HIGH));
        j = j + 1;
    }
    r
}

/// An instance from drawn values: the solution `x`, the right-hand sides
/// `targets`, the rows of `A`, and for each row the pick among the usable
/// columns. Each row is fitted by `fit`.
pub fn assemble_system(x: Vec<i64>, targets: &Vec<i64>, rows: Vec<Vec<i64>>, choices: &Vec<usize>) -> (r:
    GeneratedSystem)
    requires
        targets@.len() == x@.len(),
        rows@.len() == x@.len(),
        choices@.len() == x@.len(),
        forall|j: int| 0 <= j < x@.len() ==> in_range(#[trigger] x@[j]),
        forall|j: int| 0 <= j < x@.len() ==> in_range(#[trigger] targets@[j]),
        forall|i: int| 0 <= i < rows@.len() ==> (#[trigger] rows@[i])@.len() == x@.len(),
        forall|i: int, j: int|
            0 <= i < rows@.len() && 0 <= j < x@.len() ==> in_range(#[trigger] rows@[i]@[j]),
        forall|i: int|
            0 <= i < choices@.len() && usable(x@).len() > 0 ==> #[trigger] choices@[i] < usable(
                x@,
            ).len(),
    ensures
        r.n == x@.len(),
        r.x@ == x@,
        r.a@ == rows@,
        r.well_formed(),
        forall|i: int|
            0 <= i < r.n ==> #[trigger] r.corrections@[i] == fit(
                rows@[i]@,
                x@,
                targets@[i] as int,
                choices@[i] as int,
            ).0 && r.b@[i] as int == fit(rows@[i]@, x@, targets@[i] as int, choices@[i] as int).1,
        forall|i: int|
            0 <= i < r.n && (#[trigger] r.corrections@[i]) is Some ==> r.corrections@[i]->0.delta
                != 0 && (usable(x@).contains(r.corrections@[i]->0.column as int) || (usable(
                x@,
            ).len() == 0 && r.corrections@[i]->0.column == r.n - 1)),
{
    let n = x.len();
    let cols = usable_columns(&x);
    assert(cols@.len() == cols@.map_values(|c: usize| c as int).len());
    let mut b: Vec<i64> = Vec::new();
    let mut corrections: Vec<Option<Correction>> = Vec::new();
    let mut i: usize = 0;
    while i < n
        invariant
            i <= n,
            n == x@.len(),
            targets@.len() == n,
            rows@.len() == n,
            choices@.len() == n,
            forall|j: int| 0 <= j < n ==> in_range(#[trigger] x@[j]),
            forall|j: int| 0 <= j < n ==> in_range(#[trigger] targets@[j]),
            forall|k: int| 0 <= k < n ==> (#[trigger] rows@[k])@.len() == n,
            forall|k: int, j: int| 0 <= k < n && 0 <= j < n ==> in_range(#[trigger] rows@[k]@[j]),
            forall|k: int|
                0 <= k < n && usable(x@).len() > 0 ==> #[trigger] choices@[k] < usable(x@).len(),
            cols@.map_values(|c: usize| c as int) == usable(x@),
            cols@.len() == usable(x@).len(),
            b@.len() == i,
            corrections@.len() == i,
            forall|k: int| 0 <= k < i ==> in_range(#[trigger] b@[k]),
            forall|k: int|
                0 <= k < i ==> row_fits(
                    (#[trigger] rows@[k])@,
                    x@,
                    corrections@[k],
                    b@[k] as int,
                ),
            forall|k: int|
                0 <= k < i ==> #[trigger] corrections@[k] == fit(
                    rows@[k]@,
                    x@,
                    targets@[k] as int,
                    choices@[k] as int,
                ).0 && b@[k] as int == fit(rows@[k]@, x@, targets@[k] as int, choices@[k] as int).1,
            forall|k: int|
                0 <= k < i && (#[trigger] corrections@[k]) is Some ==> corrections@[k]->0.delta
                    != 0 && (usable(x@).contains(corrections@[k]->0.column as int) || (usable(
                    x@,
                ).len() == 0 && corrections@[k]->0.column == n - 1)),
        decreases n - i,
    {
        let (c, t) = fit_row(&rows[i], &x, &cols, targets[i], choices[i]);
        b.push(t);
        corrections.push(c);
        i = i + 1;
    }
    GeneratedSystem { n, a: rows, b, x, corrections }
}

fn draw_rows(rng: &mut rand::rngs::ThreadRng, n: usize) -> (r: Vec<Vec<i64>>)
    ensures
        r@.len() == n,
        forall|i: int| 0 <= i < n ==> (#[trigger] r@[i])@.len() == n,
        forall|i: int, j: int| 0 <= i < n && 0 <= j < n ==> in_range(#[trigger] r@[i]@[j]),
{
    let mut r: Vec<Vec<i64>> = Vec::new();
    let mut i: usize = 0;
    while i < n
        invariant
            i <= n,
            r@.len() == i,
            forall|k: int| 0 <= k < i ==> (#[trigger] r@[k])@.len() == n,
            forall|k: int, j: int| 0 <= k < i && 0 <= j < n ==> in_range(#[trigger] r@[k]@[j]),
        decreases n - i,
    {
        r.push(draw_entries(rng, n));
        i = i + 1;
    }
    r
}

/// A random instance of size `n` in which every row holds exactly. A
/// corrected column is one of the usable columns, or the last column where
/// there is none, and it is moved by a non-zero amount.
pub fn generate_random_solvable_system(n: usize) -> (r: GeneratedSystem)
    requires
        n * n <= usize::MAX,
    ensures
        r.n == n,
        r.well_formed(),
        forall|i: int|
            0 <= i < n && (#[trigger] r.corrections@[i]) is Some ==> r.corrections@[i]->0.delta
                != 0 && (usable(r.x@).contains(r.corrections@[i]->0.column as int) || (usable(
                r.x@,
            ).len() == 0 && r.corrections@[i]->0.column == n - 1)),
{
    let mut rng = new_rng();
    let x = draw_entries(&mut rng, n);
    let targets = draw_entries(&mut rng, n);
    let rows = draw_rows(&mut rng, n);
    let cols = usable_columns(&x);
    proof {
        if n > 0 {
            lemma_usable_below(x@, n - 1);
        }
        assert(cols@.len() == cols@.map_values(|c: usize| c as int).len());
        assert(n <= 0x1_0000_0000) by (nonlinear_arith)
            requires
                n * n <= usize::MAX,
                usize::MAX <= u64::MAX,
        ;
    }
    let k = cols.len();
    let mut choices: Vec<usize> = Vec::new();
    let mut i: usize = 0;
    while i < n
        invariant
            i <= n,
            n <= 0x1_0000_0000,
            k <= n,
            k == usable(x@).len(),
            x@.len() == n,
            targets@.len() == n,
            rows@.len() == n,
            forall|j: int| 0 <= j < n ==> in_range(#[trigger] x@[j]),
            forall|a: int| 0 <= a < n ==> (#[trigger] rows@[a])@.len() == n,
            forall|a: int, j: int| 0 <= a < n && 0 <= j < n ==> in_range(#[trigger] rows@[a]@[j]),
            choices@.len() == i,
            forall|a: int| 0 <= a < i && k > 0 ==> #[trigger] choices@[a] < k,
        decreases n - i,
    {
        let d = row_dot(&rows[i], &x);
        let choice: usize = if d != targets[i] as i128 && k > 0 {
            draw(&mut rng, 0, k as i64) as usize
        } else {
            0
        };
        choices.push(choice);
        i = i + 1;
    }
    assemble_system(x, &targets, rows, &choices)
}

/// `A[i][j]` times the row's scale: the row's entries share the
/// denominator `row_scale`.
pub open spec fn scaled_entry(a: Seq<i64>, x: Seq<i64>, c: Option<Correction>, j: int) -> int {
    match c {
        None => a[j] as int,
        Some(k) => a[j] * x[k.column as int] + if j == k.column {
            k.delta as int
        } else {
            0
        },
    }
}

/// The denominator of a row's entries: `x[column]` for a corrected row, else 1.
pub open spec fn row_scale(x: Seq<i64>, c: Option<Correction>) -> int {
    match c {
        None => 1,
        Some(k) => x[k.column as int] as int,
    }
}

/// `(A[i][0] * x[0] + ... + A[i][m - 1] * x[m - 1]) * row_scale`.
pub open spec fn scaled_dot_prefix(a: Seq<i64>, x: Seq<i64>, c: Option<Correction>, m: int) -> int
    decreases m,
{
    if m <= 0 {
        0
    } else {
        scaled_dot_prefix(a, x, c, m - 1) + scaled_entry(a, x, c, m - 1) * x[m - 1]
    }
}

proof fn lemma_scaled_dot(a: Seq<i64>, x: Seq<i64>, c: Option<Correction>, m: int)
    requires
        0 <= m <= x.len(),
        c is Some ==> c->0.column < x.len(),
    ensures
        scaled_dot_prefix(a, x, c, m) == row_scale(x, c) * dot_prefix(a, x, m) + match c {
            Some(k) => if k.column < m {
                k.delta * x[k.column as int]
            } else {
                0
            },
            None => 0,
        },
    decreases m,
{
    if m > 0 {
        lemma_scaled_dot(a, x, c, m - 1);
        let s = row_scale(x, c);
        let p = a[m - 1] as int;
        let q = x[m - 1] as int;
        match c {
            None => {},
            Some(k) => {
                let e = if m - 1 == k.column {
                    k.delta as int
                } else {
                    0
                };
                assert((p * s + e) * q == s * (p * q) + e * q) by (nonlinear_arith);
                assert(s * dot_prefix(a, x, m) == s * dot_prefix(a, x, m - 1) + s * (p * q))
                    by (nonlinear_arith)
                    requires
                        dot_prefix(a, x, m) == dot_prefix(a, x, m - 1) + p * q,
                ;
            },
        }
    }
}

/// Every row of a generated instance holds exactly: the entries of row `i`
/// are `scaled_entry / row_scale` with a non-zero `row_scale`, and
/// `sum_j scaled_entry(j) * x[j] == row_scale * b[i]`, that is
/// `A[i]·x == b[i]` in exact arithmetic.
pub proof fn lemma_generated_rows_exact(g: &GeneratedSystem)
    requires
        g.well_formed(),
    ensures
        forall|i: int|
            0 <= i < g.n ==> row_scale(g.x@, #[trigger] g.corrections@[i]) != 0
                && scaled_dot_prefix(g.a@[i]@, g.x@, g.corrections@[i], g.n as int) == row_scale(
                g.x@,
                g.corrections@[i],
            ) * g.b@[i],
{
    assert forall|i: int| 0 <= i < g.n implies row_scale(g.x@, #[trigger] g.corrections@[i]) != 0
        && scaled_dot_prefix(g.a@[i]@, g.x@, g.corrections@[i], g.n as int) == row_scale(
        g.x@,
        g.corrections@[i],
    ) * g.b@[i] by {
        let a = g.a@[i]@;
        let c = g.corrections@[i];
        assert(row_fits(a, g.x@, c, g.b@[i] as int));
        lemma_scaled_dot(a, g.x@, c, g.n as int);
        match c {
            None => {},
            Some(k) => {
                let s = row_scale(g.x@, c);
                assert(s * dot(a, g.x@) + k.delta * s == s * (g.b@[i] as int)) by (nonlinear_arith)
                    requires
                        dot(a, g.x@) + k.delta == g.b@[i] as int,
                ;
            },
        }
    }
}

} // verus!
