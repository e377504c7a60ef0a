//! Linear systems over GF(2): one equation per position, one unknown per
//! step. Rows are bit patterns over the step indices; the right-hand side of
//! each row is kept beside it.
use vstd::prelude::*;
use crate::bits::{
    bit, fits, lemma_bit_ext, lemma_bit_ops, lemma_bit_single, lemma_odd_xor, lemma_weight_fits,
    lemma_weight_sparse, lemma_xor_algebra, odd, test_bit, weight, with_bit,
};
use crate::toggle::{
    lemma_fold_bit, lemma_fold_fits, lemma_fold_linear, lemma_fold_unit, lemma_fold_zero, lemma_touch_row,
    pattern_of, reaches, solvable, well_formed,
};

verus! {

/// Selection `x` satisfies the equation `row . x = b` over GF(2).
pub open spec fn eq_holds(row: u64, b: bool, x: u64) -> bool {
    odd(row & x) == b
}

/// Selection `x` satisfies every equation of the system.
pub open spec fn sys_sat(rows: Seq<u64>, rhs: Seq<bool>, x: u64) -> bool {
    forall|r: int| 0 <= r < rows.len() ==> #[trigger] eq_holds(rows[r], rhs[r], x)
}

/// A right-hand side of `n` zeros.
pub open spec fn no_rhs(n: nat) -> Seq<bool> {
    Seq::new(n, |i: int| false)
}

/// Selection `x` satisfies the homogeneous system of `rows`.
pub open spec fn homog_sat(rows: Seq<u64>, x: u64) -> bool {
    sys_sat(rows, no_rhs(rows.len()), x)
}

/// `v` is the exclusive or of some of the patterns of `basis`.
pub open spec fn in_span(basis: Seq<u64>, v: u64) -> bool
    decreases basis.len(),
{
    if basis.len() == 0 {
        v == 0
    } else {
        in_span(basis.drop_last(), v) || in_span(basis.drop_last(), v ^ basis.last())
    }
}

/// The shape that elimination has reached once all columns below `col` are
/// done: pivot row `i` owns column `pivots[i]` and is clear before it, no
/// other row has a bit in a pivot column, and the rows below the pivot
/// rows are clear below `col`.
pub open spec fn staged(
    rows: Seq<u64>,
    pivots: Seq<usize>,
    owner: Seq<Option<usize>>,
    m: int,
    col: int,
) -> bool {
    &&& pivots.len() <= rows.len()
    &&& owner.len() == m
    &&& 0 <= col <= m <= 64
    &&& forall|r: int| 0 <= r < rows.len() ==> fits(#[trigger] rows[r], m)
    &&& forall|i: int|
        0 <= i < pivots.len() ==> (#[trigger] pivots[i]) < col && owner[pivots[i] as int] == Some(
            i as usize,
        ) && bit(rows[i], pivots[i] as int)
    &&& forall|c: int|
        0 <= c < m ==> ((#[trigger] owner[c]) matches Some(i) ==> i < pivots.len() && pivots[i as int]
            == c)
    &&& forall|i: int, r: int|
        0 <= i < pivots.len() && 0 <= r < rows.len() && r != i ==> !bit(
            #[trigger] rows[r],
            #[trigger] pivots[i] as int,
        )
    &&& forall|r: int, c: int|
        pivots.len() <= r < rows.len() && 0 <= c < col ==> !#[trigger] bit(rows[r], c)
    &&& forall|i: int, c: int| 0 <= i < pivots.len() && 0 <= c < pivots[i] ==> !#[trigger] bit(rows[i], c)
}

/// A system in reduced row echelon form.
pub struct Echelon {
    /// The reduced rows.
    pub rows: Vec<u64>,
    /// The right-hand side of each reduced row.
    pub rhs: Vec<bool>,
    /// The pivot column of each of the leading rows.
    pub pivots: Vec<usize>,
    /// For each column, the row that owns it as pivot, if any.
    pub owner: Vec<Option<usize>>,
}

impl Echelon {
    /// The form is fully reduced over `m` columns.
    pub open spec fn wf(&self, m: int) -> bool {
        &&& self.rows.len() == self.rhs.len()
        &&& staged(self.rows@, self.pivots@, self.owner@, m, m)
        &&& forall|r: int| self.pivots.len() <= r < self.rows.len() ==> #[trigger] self.rows[r] == 0
    }

    /// No equation of the form `0 = 1` is left.
    pub open spec fn consistent(&self) -> bool {
        forall|r: int| self.pivots.len() <= r < self.rhs.len() ==> !#[trigger] self.rhs[r]
    }
}

/// Exchanging two equations does not change which selections satisfy a system.
pub proof fn lemma_swap_sat(rows: Seq<u64>, rhs: Seq<bool>, i: int, j: int, x: u64)
    requires
        rows.len() == rhs.len(),
        0 <= i < rows.len(),
        0 <= j < rows.len(),
    ensures
        sys_sat(rows.update(i, rows[j]).update(j, rows[i]), rhs.update(i, rhs[j]).update(j, rhs[i]), x)
            == sys_sat(rows, rhs, x),
{
    let rows2 = rows.update(i, rows[j]).update(j, rows[i]);
    let rhs2 = rhs.update(i, rhs[j]).update(j, rhs[i]);
    if sys_sat(rows, rhs, x) {
        assert forall|r: int| 0 <= r < rows2.len() implies #[trigger] eq_holds(rows2[r], rhs2[r], x) by {
            assert(eq_holds(rows[i], rhs[i], x));
            assert(eq_holds(rows[j], rhs[j], x));
            assert(eq_holds(rows[r], rhs[r], x));
        }
    }
    if sys_sat(rows2, rhs2, x) {
        assert forall|r: int| 0 <= r < rows.len() implies #[trigger] eq_holds(rows[r], rhs[r], x) by {
            assert(eq_holds(rows2[i], rhs2[i], x));
            assert(eq_holds(rows2[j], rhs2[j], x));
            assert(eq_holds(rows2[r], rhs2[r], x));
        }
    }
}

/// Adding one equation to another does not change which selections satisfy
/// a system.
pub proof fn lemma_add_sat(rows: Seq<u64>, rhs: Seq<bool>, src: int, dst: int, x: u64)
    requires
        rows.len() == rhs.len(),
        0 <= src < rows.len(),
        0 <= dst < rows.len(),
        src != dst,
    ensures
        sys_sat(rows.update(dst, rows[dst] ^ rows[src]), rhs.update(dst, rhs[dst] != rhs[src]), x)
            == sys_sat(rows, rhs, x),
{
    let rows2 = rows.update(dst, rows[dst] ^ rows[src]);
    let rhs2 = rhs.update(dst, rhs[dst] != rhs[src]);
    lemma_xor_algebra(rows[dst], rows[src], x);
    lemma_odd_xor(rows[dst] & x, rows[src] & x);
    if sys_sat(rows, rhs, x) {
        assert forall|r: int| 0 <= r < rows2.len() implies #[trigger] eq_holds(rows2[r], rhs2[r], x) by {
            assert(eq_holds(rows[src], rhs[src], x));
            assert(eq_holds(rows[dst], rhs[dst], x));
            assert(eq_holds(rows[r], rhs[r], x));
        }
    }
    if sys_sat(rows2, rhs2, x) {
        assert forall|r: int| 0 <= r < rows.len() implies #[trigger] eq_holds(rows[r], rhs[r], x) by {
            assert(eq_holds(rows2[src], rhs2[src], x));
            assert(eq_holds(rows2[dst], rhs2[dst], x));
            assert(eq_holds(rows2[r], rhs2[r], x));
        }
    }
}

/// Adding the row that is about to become a pivot to another row keeps the
/// staged shape.
pub proof fn lemma_staged_add(
    rows: Seq<u64>,
    pivots: Seq<usize>,
    owner: Seq<Option<usize>>,
    m: int,
    col: int,
    r: int,
)
    requires
        staged(rows, pivots, owner, m, col),
        pivots.len() < rows.len(),
        0 <= r < rows.len(),
        r != pivots.len(),
    ensures
        staged(rows.update(r, rows[r] ^ rows[pivots.len() as int]), pivots, owner, m, col),
{
    let rank = pivots.len() as int;
    let pv = rows[rank];
    let rows2 = rows.update(r, rows[r] ^ pv);
    lemma_bit_ops(rows[r], pv);
    assert(fits(rows[r], m));
    assert(fits(pv, m));
    assert forall|q: int| 0 <= q < rows2.len() implies fits(#[trigger] rows2[q], m) by {
        assert(fits(rows[q], m));
    }
    assert forall|i: int| 0 <= i < pivots.len() implies (#[trigger] pivots[i]) < col && owner[pivots[i] as int]
        == Some(i as usize) && bit(rows2[i], pivots[i] as int) by {
        assert(!bit(rows[rank], pivots[i] as int));
        assert(bit(rows[i], pivots[i] as int));
    }
    assert forall|i: int, q: int| 0 <= i < pivots.len() && 0 <= q < rows2.len() && q != i implies !bit(
        #[trigger] rows2[q],
        #[trigger] pivots[i] as int,
    ) by {
        assert(!bit(rows[rank], pivots[i] as int));
        assert(!bit(rows[q], pivots[i] as int));
    }
    assert forall|q: int, c: int| pivots.len() <= q < rows2.len() && 0 <= c < col implies !#[trigger] bit(
        rows2[q],
        c,
    ) by {
        assert(!bit(rows[rank], c));
        assert(!bit(rows[q], c));
    }
    assert forall|i: int, c: int| 0 <= i < pivots.len() && 0 <= c < pivots[i] implies !#[trigger] bit(rows2[i], c) by {
        assert(pivots[i] < col);
        assert(!bit(rows[rank], c));
        assert(!bit(rows[i], c));
    }
}

/// Exchanging two rows below the pivot rows keeps the staged shape.
pub proof fn lemma_staged_swap(
    rows: Seq<u64>,
    pivots: Seq<usize>,
    owner: Seq<Option<usize>>,
    m: int,
    col: int,
    i: int,
    j: int,
)
    requires
        staged(rows, pivots, owner, m, col),
        pivots.len() <= i < rows.len(),
        pivots.len() <= j < rows.len(),
    ensures
        staged(rows.update(i, rows[j]).update(j, rows[i]), pivots, owner, m, col),
{
    let rows2 = rows.update(i, rows[j]).update(j, rows[i]);
    assert forall|q: int| 0 <= q < rows2.len() implies fits(#[trigger] rows2[q], m) by {
        assert(fits(rows[q], m));
        assert(fits(rows[i], m));
        assert(fits(rows[j], m));
    }
    assert forall|p: int, q: int| 0 <= p < pivots.len() && 0 <= q < rows2.len() && q != p implies !bit(
        #[trigger] rows2[q],
        #[trigger] pivots[p] as int,
    ) by {
        assert(!bit(rows[q], pivots[p] as int));
        assert(!bit(rows[i], pivots[p] as int));
        assert(!bit(rows[j], pivots[p] as int));
    }
    assert forall|q: int, c: int| pivots.len() <= q < rows2.len() && 0 <= c < col implies !#[trigger] bit(
        rows2[q],
        c,
    ) by {
        assert(!bit(rows[q], c));
        assert(!bit(rows[i], c));
        assert(!bit(rows[j], c));
    }
    assert forall|p: int, c: int| 0 <= p < pivots.len() && 0 <= c < pivots[p] implies !#[trigger] bit(rows2[p], c) by {
        assert(rows2[p] == rows[p]);
        assert(!bit(rows[p], c));
    }
}

/// Brings a system into reduced row echelon form by Gaussian elimination.
///
/// The result has the same solutions as the input, for the given right-hand
/// side and for the homogeneous system alike.
pub fn reduce(rows: Vec<u64>, rhs: Vec<bool>, m: usize) -> (e: Echelon)
    requires
        rows.len() == rhs.len(),
        m <= 64,
        forall|r: int| 0 <= r < rows.len() ==> fits(#[trigger] rows[r], m as int),
    ensures
        e.wf(m as int),
        e.rows.len() == rows.len(),
        forall|x: u64| #[trigger] sys_sat(e.rows@, e.rhs@, x) == sys_sat(rows@, rhs@, x),
        forall|x: u64| #[trigger] homog_sat(e.rows@, x) == homog_sat(rows@, x),
{
    let ghost rows0 = rows@;
    let ghost rhs0 = rhs@;
    let n: usize = rows.len();
    let mut rows = rows;
    let mut rhs = rhs;
    let mut pivots: Vec<usize> = Vec::new();
    let mut owner: Vec<Option<usize>> = Vec::new();
    let mut k: usize = 0;
    while k < m
        invariant
            k <= m,
            owner.len() == k,
            forall|c: int| 0 <= c < k ==> owner[c] is None,
        decreases m - k,
    {
        owner.push(None);
        k = k + 1;
    }
    let mut col: usize = 0;
    let mut rank: usize = 0;
    while col < m && rank < n
        invariant
            rows.len() == n,
            rhs.len() == n,
            rows0.len() == n,
            rhs0.len() == n,
            rank == pivots.len(),
            rank <= n,
            col <= m <= 64,
            staged(rows@, pivots@, owner@, m as int, col as int),
            forall|c: int| col <= c < m ==> owner[c] is None,
            forall|x: u64| #[trigger] sys_sat(rows@, rhs@, x) == sys_sat(rows0, rhs0, x),
            forall|x: u64| #[trigger] homog_sat(rows@, x) == homog_sat(rows0, x),
        decreases m - col,
    {
        let mut pr: usize = rank;
        while pr < n && !test_bit(rows[pr], col)
            invariant
                rank <= pr <= n,
                rows.len() == n,
                col < 64,
                forall|r: int| rank <= r < pr ==> !bit(#[trigger] rows[r], col as int),
            decreases n - pr,
        {
            pr = pr + 1;
        }
        if pr < n {
            let a: u64 = rows[rank];
            let ab: bool = rhs[rank];
            let pv: u64 = rows[pr];
            let pb: bool = rhs[pr];
            let ghost before = rows@;
            let ghost before_rhs = rhs@;
            rows.set(rank, pv);
            rows.set(pr, a);
            rhs.set(rank, pb);
            rhs.set(pr, ab);
            proof {
                assert(rows@ =~= before.update(rank as int, before[pr as int]).update(
                    pr as int,
                    before[rank as int],
                ));
                assert(rhs@ =~= before_rhs.update(rank as int, before_rhs[pr as int]).update(
                    pr as int,
                    before_rhs[rank as int],
                ));
                lemma_staged_swap(before, pivots@, owner@, m as int, col as int, rank as int, pr as int);
                assert forall|x: u64| #[trigger] sys_sat(rows@, rhs@, x) == sys_sat(rows0, rhs0, x) by {
                    lemma_swap_sat(before, before_rhs, rank as int, pr as int, x);
                    assert(sys_sat(before, before_rhs, x) == sys_sat(rows0, rhs0, x));
                }
                assert forall|x: u64| #[trigger] homog_sat(rows@, x) == homog_sat(rows0, x) by {
                    let z = no_rhs(n as nat);
                    lemma_swap_sat(before, z, rank as int, pr as int, x);
                    assert(z.update(rank as int, z[pr as int]).update(pr as int, z[rank as int]) =~= z);
                    assert(homog_sat(before, x) == homog_sat(rows0, x));
                }
            }
            let mut r: usize = 0;
            while r < n
                invariant
                    r <= n,
                    rank < n,
                    rows.len() == n,
                    rhs.len() == n,
                    rows0.len() == n,
                    rhs0.len() == n,
                    rank == pivots.len(),
                    col < m <= 64,
                    rows[rank as int] == pv,
                    rhs[rank as int] == pb,
                    bit(pv, col as int),
                    staged(rows@, pivots@, owner@, m as int, col as int),
                    forall|q: int| 0 <= q < r && q != rank ==> !bit(#[trigger] rows[q], col as int),
                    forall|x: u64| #[trigger] sys_sat(rows@, rhs@, x) == sys_sat(rows0, rhs0, x),
                    forall|x: u64| #[trigger] homog_sat(rows@, x) == homog_sat(rows0, x),
                decreases n - r,
            {
                if r != rank && test_bit(rows[r], col) {
                    let cur: u64 = rows[r];
                    let cb: bool = rhs[r];
                    let ghost mid = rows@;
                    let ghost mid_rhs = rhs@;
                    rows.set(r, cur ^ pv);
                    rhs.set(r, cb != pb);
                    proof {
                        lemma_staged_add(mid, pivots@, owner@, m as int, col as int, r as int);
                        lemma_bit_ops(cur, pv);
                        assert forall|x: u64| #[trigger] sys_sat(rows@, rhs@, x) == sys_sat(
                            rows0,
                            rhs0,
                            x,
                        ) by {
                            lemma_add_sat(mid, mid_rhs, rank as int, r as int, x);
                            assert(sys_sat(mid, mid_rhs, x) == sys_sat(rows0, rhs0, x));
                        }
                        assert forall|x: u64| #[trigger] homog_sat(rows@, x) == homog_sat(rows0, x) by {
                            let z = no_rhs(n as nat);
                            lemma_add_sat(mid, z, rank as int, r as int, x);
                            assert(z.update(r as int, z[r as int] != z[rank as int]) =~= z);
                            assert(homog_sat(mid, x) == homog_sat(rows0, x));
                        }
                    }
                }
                r = r + 1;
            }
            let ghost old_pivots = pivots@;
            let ghost old_owner = owner@;
            pivots.push(col);
            owner.set(col, Some(rank));
            proof {
                let np = pivots@;
                let no = owner@;
                assert forall|i: int| 0 <= i < np.len() implies (#[trigger] np[i]) < col + 1 && no[np[i] as int]
                    == Some(i as usize) && bit(rows[i], np[i] as int) by {
                    if i < rank {
                        assert(old_pivots[i] < col);
                        assert(np[i] == old_pivots[i]);
                    }
                }
                assert forall|c: int| 0 <= c < m implies ((#[trigger] no[c]) matches Some(i) ==> i
                    < np.len() && np[i as int] == c) by {
                    if c != col {
                        assert(no[c] == old_owner[c]);
                    }
                }
                assert forall|i: int, q: int| 0 <= i < np.len() && 0 <= q < rows.len() && q != i implies !bit(
                    #[trigger] rows[q],
                    #[trigger] np[i] as int,
                ) by {
                    if i < rank {
                        assert(np[i] == old_pivots[i]);
                    }
                }
                assert forall|q: int, c: int| np.len() <= q < rows.len() && 0 <= c < col + 1 implies !#[trigger] bit(
                    rows[q],
                    c,
                ) by {
                    if c < col {
                    }
                }
                assert forall|i: int, c: int| 0 <= i < np.len() && 0 <= c < np[i] implies !#[trigger] bit(
                    rows[i],
                    c,
                ) by {
                    if i < rank {
                        assert(np[i] == old_pivots[i]);
                    }
                }
                assert(staged(rows@, np, no, m as int, col as int + 1));
            }
            rank = rank + 1;
        } else {
            proof {
                assert(staged(rows@, pivots@, owner@, m as int, col as int + 1));
            }
        }
        col = col + 1;
    }
    proof {
        lemma_bit_single(0);
        assert forall|r: int| pivots.len() <= r < rows.len() implies #[trigger] rows[r] == 0 by {
            assert(fits(rows[r], m as int));
            assert forall|i: int| 0 <= i < 64 implies bit(rows[r], i) == bit(0u64, i) by {
                if i < col {
                    assert(!bit(rows[r], i));
                }
            }
            lemma_bit_ext(rows[r], 0);
        }
        assert forall|i: int| 0 <= i < pivots.len() implies (#[trigger] pivots[i]) < m by {}
    }
    Echelon { rows, rhs, pivots, owner }
}


/// The rows gather, position by position, which steps touch the position.
pub open spec fn rows_of(steps: Seq<u32>, rows: Seq<u64>) -> bool {
    forall|r: int, c: int|
        0 <= r < rows.len() && 0 <= c < 64 ==> (#[trigger] bit(rows[r], c)) == (c < steps.len() && bit(
            steps[c] as u64,
            r,
        ))
}

/// The right-hand side holds the target's bit of each position.
pub open spec fn rhs_of(target: u32, rhs: Seq<bool>) -> bool {
    forall|r: int| 0 <= r < rhs.len() ==> (#[trigger] rhs[r]) == bit(target as u64, r)
}

/// The row that owns column `c`, or `-1` where the column is free.
pub open spec fn owned(owner: Seq<Option<usize>>, c: int) -> int {
    match owner[c] {
        Some(i) => i as int,
        None => -1,
    }
}

/// `p` sets each pivot column to its row's right-hand side and clears the
/// free columns.
pub open spec fn is_particular(e: &Echelon, m: int, p: u64) -> bool {
    forall|c: int|
        0 <= c < 64 ==> (#[trigger] bit(p, c)) == (c < m && owned(e.owner@, c) >= 0 && e.rhs[owned(
            e.owner@,
            c,
        )])
}

/// `v` sets the free column `f`, and each pivot column whose row has a bit
/// in column `f`.
pub open spec fn is_kernel_vec(e: &Echelon, m: int, f: int, v: u64) -> bool {
    forall|c: int|
        0 <= c < 64 ==> (#[trigger] bit(v, c)) == (c == f || (c < m && owned(e.owner@, c) >= 0 && bit(
            e.rows[owned(e.owner@, c)],
            f,
        )))
}

/// `free` lists the free columns in rising order and `basis` holds the
/// kernel vector of each.
pub open spec fn kernel_shape(e: &Echelon, m: int, basis: Seq<u64>, free: Seq<usize>) -> bool {
    &&& basis.len() == free.len()
    &&& forall|t: int| 0 <= t < free.len() ==> (#[trigger] free[t]) < m && e.owner[free[t] as int] is None
    &&& forall|t1: int, t2: int| 0 <= t1 < t2 < free.len() ==> (#[trigger] free[t1]) < (#[trigger] free[t2])
    &&& forall|c: int|
        0 <= c < m && (#[trigger] e.owner[c]) is None ==> exists|t: int|
            0 <= t < free.len() && #[trigger] free[t] == c
    &&& forall|t: int| 0 <= t < free.len() ==> is_kernel_vec(e, m, free[t] as int, #[trigger] basis[t])
}

/// Builds the coefficient rows of the system of `steps` over `n` positions.
pub fn build_rows(steps: &[u32], n: usize) -> (rows: Vec<u64>)
    requires
        steps.len() <= 64,
        n <= 64,
    ensures
        rows.len() == n,
        rows_of(steps@, rows@),
{
    let m: usize = steps.len();
    let mut rows: Vec<u64> = Vec::new();
    let mut r: usize = 0;
    while r < n
        invariant
            r <= n <= 64,
            m == steps.len(),
            m <= 64,
            rows.len() == r,
            forall|q: int, c: int|
                0 <= q < r && 0 <= c < 64 ==> (#[trigger] bit(rows[q], c)) == (c < m && bit(
                    steps[c] as u64,
                    q,
                )),
        decreases n - r,
    {
        let mut row: u64 = 0;
        let mut c: usize = 0;
        proof {
            lemma_bit_single(0);
        }
        while c < m
            invariant
                c <= m,
                m == steps.len(),
                m <= 64,
                r < 64,
                forall|j: int|
                    0 <= j < 64 ==> (#[trigger] bit(row, j)) == (j < c && bit(steps[j] as u64, r as int)),
            decreases m - c,
        {
            if test_bit(steps[c] as u64, r) {
                row = with_bit(row, c);
            }
            c = c + 1;
        }
        rows.push(row);
        r = r + 1;
    }
    rows
}

/// Builds the right-hand side of the system for `target` over `n` positions.
pub fn build_rhs(target: u32, n: usize) -> (rhs: Vec<bool>)
    requires
        n <= 64,
    ensures
        rhs.len() == n,
        rhs_of(target, rhs@),
{
    let mut rhs: Vec<bool> = Vec::new();
    let mut r: usize = 0;
    while r < n
        invariant
            r <= n <= 64,
            rhs.len() == r,
            forall|q: int| 0 <= q < r ==> (#[trigger] rhs[q]) == bit(target as u64, q),
        decreases n - r,
    {
        rhs.push(test_bit(target as u64, r));
        r = r + 1;
    }
    rhs
}

/// A selection satisfies the system built from `steps` and `target` exactly
/// when applying it reaches `target`.
pub proof fn lemma_system_pattern(
    steps: Seq<u32>,
    target: u32,
    n: int,
    rows: Seq<u64>,
    rhs: Seq<bool>,
    x: u64,
)
    requires
        well_formed(steps, n),
        fits(target as u64, n),
        rows.len() == n,
        rhs.len() == n,
        rows_of(steps, rows),
        rhs_of(target, rhs),
    ensures
        sys_sat(rows, rhs, x) == (pattern_of(steps, x) == target as u64),
{
    let m = steps.len() as int;
    let pat = pattern_of(steps, x);
    lemma_fold_fits(steps, x, n, m);
    assert forall|r: int| 0 <= r < n implies #[trigger] eq_holds(rows[r], rhs[r], x) == (bit(pat, r) == bit(
        target as u64,
        r,
    )) by {
        assert forall|c: int| 0 <= c < m implies bit(rows[r], c) == bit(steps[c] as u64, r) by {}
        lemma_touch_row(steps, x, r, rows[r], m);
        lemma_bit_ops(rows[r], x);
        assert(fits(rows[r] & x, m)) by {
            assert forall|i: int| m <= i < 64 implies !#[trigger] bit(rows[r] & x, i) by {
                assert(!bit(rows[r], i));
            }
        }
        lemma_weight_fits(rows[r] & x, m, 64);
        lemma_fold_bit(steps, x, r, m);
    }
    if sys_sat(rows, rhs, x) {
        assert forall|r: int| 0 <= r < 64 implies bit(pat, r) == bit(target as u64, r) by {
            if r < n {
                assert(eq_holds(rows[r], rhs[r], x));
            } else {
                assert(!bit(pat, r));
                assert(!bit(target as u64, r));
            }
        }
        lemma_bit_ext(pat, target as u64);
    }
    if pat == target as u64 {
        assert forall|r: int| 0 <= r < rows.len() implies #[trigger] eq_holds(rows[r], rhs[r], x) by {}
    }
}

/// Parity of the overlap of a row with `a ^ b`.
pub proof fn lemma_row_xor(row: u64, a: u64, b: u64)
    ensures
        odd(row & (a ^ b)) == (odd(row & a) != odd(row & b)),
{
    lemma_xor_algebra(a, b, row);
    lemma_odd_xor(row & a, row & b);
}

/// The empty pattern has no set bit and weight zero.
pub proof fn lemma_zero_even()
    ensures
        !odd(0u64),
        weight(0u64) == 0,
        forall|i: int| !#[trigger] bit(0u64, i),
{
    lemma_bit_single(0);
    lemma_weight_sparse(0u64, -1, -1, 64);
}

/// The particular solution of a consistent reduced system solves it.
pub proof fn lemma_particular_sat(e: &Echelon, m: int, p: u64)
    requires
        e.wf(m),
        e.consistent(),
        is_particular(e, m, p),
    ensures
        sys_sat(e.rows@, e.rhs@, p),
        fits(p, m),
{
    let rows = e.rows@;
    let rank = e.pivots.len() as int;
    lemma_zero_even();
    assert forall|r: int| 0 <= r < rows.len() implies #[trigger] eq_holds(rows[r], e.rhs[r], p) by {
        let u = rows[r] & p;
        lemma_bit_ops(rows[r], p);
        if r < rank {
            let pc = e.pivots[r] as int;
            let a = if e.rhs[r] { pc } else { -1 };
            assert(bit(rows[r], pc));
            assert(owned(e.owner@, pc) == r);
            assert forall|j: int| 0 <= j < 64 implies (bit(u, j) <==> (j == a || j == -1)) by {
                if bit(p, j) && bit(rows[r], j) {
                    let i = owned(e.owner@, j);
                    assert(e.owner[j] == Some(i as usize));
                    assert(e.pivots[i] == j);
                    if i != r {
                        assert(!bit(rows[r], e.pivots[i] as int));
                    }
                }
            }
            lemma_weight_sparse(u, a, -1, 64);
        } else {
            assert(rows[r] == 0);
            lemma_xor_algebra(p, 0, 0);
            assert(!e.rhs[r]);
        }
    }
}

/// A reduced system with an equation `0 = 1` has no solution.
pub proof fn lemma_inconsistent(e: &Echelon, m: int, x: u64)
    requires
        e.wf(m),
        !e.consistent(),
    ensures
        !sys_sat(e.rows@, e.rhs@, x),
{
    let r = choose|r: int| e.pivots.len() <= r < e.rhs.len() && #[trigger] e.rhs[r];
    assert(e.rows[r] == 0);
    lemma_xor_algebra(x, 0, 0);
    lemma_zero_even();
    assert(!eq_holds(e.rows[r], e.rhs[r], x));
}

/// The kernel vector of a free column solves the homogeneous system.
pub proof fn lemma_kernel_sat(e: &Echelon, m: int, f: int, v: u64)
    requires
        e.wf(m),
        0 <= f < m,
        e.owner[f] is None,
        is_kernel_vec(e, m, f, v),
    ensures
        homog_sat(e.rows@, v),
        fits(v, m),
{
    let rows = e.rows@;
    let rank = e.pivots.len() as int;
    let z = no_rhs(rows.len());
    lemma_zero_even();
    assert forall|r: int| 0 <= r < rows.len() implies #[trigger] eq_holds(rows[r], z[r], v) by {
        let u = rows[r] & v;
        lemma_bit_ops(rows[r], v);
        if r < rank {
            let pc = e.pivots[r] as int;
            assert(bit(rows[r], pc));
            assert(owned(e.owner@, pc) == r);
            let a = if bit(rows[r], f) { f } else { -1 };
            let b = if bit(rows[r], f) { pc } else { -1 };
            assert forall|j: int| 0 <= j < 64 implies (bit(u, j) <==> (j == a || j == b)) by {
                if j != f && bit(v, j) && bit(rows[r], j) {
                    let i = owned(e.owner@, j);
                    assert(e.owner[j] == Some(i as usize));
                    assert(e.pivots[i] == j);
                    if i != r {
                        assert(!bit(rows[r], e.pivots[i] as int));
                    }
                }
            }
            lemma_weight_sparse(u, a, b, 64);
        } else {
            assert(rows[r] == 0);
            lemma_xor_algebra(v, 0, 0);
        }
    }
}

/// The combination of kernel vectors that agrees with `x` on the first `j`
/// free columns.
pub open spec fn mix(basis: Seq<u64>, free: Seq<usize>, x: u64, j: int) -> u64
    decreases j,
{
    if j <= 0 {
        0u64
    } else {
        mix(basis, free, x, j - 1) ^ (if bit(x, free[j - 1] as int) {
            basis[j - 1]
        } else {
            0u64
        })
    }
}

/// What holds of `mix`: it lies in the span of the vectors used, solves the
/// homogeneous system, and copies `x` on the free columns used.
pub proof fn lemma_mix(e: &Echelon, m: int, basis: Seq<u64>, free: Seq<usize>, x: u64, j: int)
    requires
        e.wf(m),
        kernel_shape(e, m, basis, free),
        0 <= j <= basis.len(),
    ensures
        in_span(basis.subrange(0, j), mix(basis, free, x, j)),
        homog_sat(e.rows@, mix(basis, free, x, j)),
        fits(mix(basis, free, x, j), m),
        forall|t: int|
            0 <= t < free.len() ==> bit(mix(basis, free, x, j), #[trigger] free[t] as int) == (t < j
                && bit(x, free[t] as int)),
    decreases j,
{
    let rows = e.rows@;
    let z = no_rhs(rows.len());
    lemma_zero_even();
    if j == 0 {
        assert(basis.subrange(0, 0).len() == 0);
        assert forall|r: int| 0 <= r < rows.len() implies #[trigger] eq_holds(rows[r], z[r], 0u64) by {
            lemma_xor_algebra(rows[r], 0, 0);
        }
    } else {
        lemma_mix(e, m, basis, free, x, j - 1);
        let w = mix(basis, free, x, j - 1);
        let b = basis[j - 1];
        let f = free[j - 1] as int;
        let add = if bit(x, f) { b } else { 0u64 };
        let w2 = mix(basis, free, x, j);
        assert(w2 == w ^ add);
        assert(is_kernel_vec(e, m, f, b));
        lemma_kernel_sat(e, m, f, b);
        lemma_bit_ops(w, add);
        lemma_xor_algebra(w, b, 0);
        let s = basis.subrange(0, j);
        assert(s.drop_last() =~= basis.subrange(0, j - 1));
        assert(s.last() == b);
        if bit(x, f) {
            assert(w2 ^ b == w);
        } else {
            assert(w2 == w);
        }
        assert(in_span(s, w2));
        assert forall|r: int| 0 <= r < rows.len() implies #[trigger] eq_holds(rows[r], z[r], w2) by {
            lemma_row_xor(rows[r], w, add);
            assert(eq_holds(rows[r], z[r], w));
            assert(eq_holds(rows[r], z[r], b));
            lemma_xor_algebra(rows[r], 0, 0);
        }
        assert forall|t: int| 0 <= t < free.len() implies bit(w2, #[trigger] free[t] as int) == (t < j
            && bit(x, free[t] as int)) by {
            let ft = free[t] as int;
            assert(e.owner[ft] is None);
            assert(owned(e.owner@, ft) == -1);
            assert(bit(b, ft) == (ft == f));
            if t < j - 1 {
                assert(free[t] < free[j - 1]);
            }
            if t > j - 1 {
                assert(free[j - 1] < free[t]);
            }
        }
    }
}

/// Every solution of a reduced system differs from the particular solution
/// by a combination of the kernel vectors.
pub proof fn lemma_complete(
    e: &Echelon,
    m: int,
    p: u64,
    basis: Seq<u64>,
    free: Seq<usize>,
    x: u64,
)
    requires
        e.wf(m),
        kernel_shape(e, m, basis, free),
        fits(p, m),
        fits(x, m),
        forall|t: int| 0 <= t < free.len() ==> !bit(p, #[trigger] free[t] as int),
        forall|r: int| 0 <= r < e.rows.len() ==> odd(#[trigger] e.rows[r] & x) == odd(e.rows[r] & p),
    ensures
        in_span(basis, x ^ p),
{
    let rows = e.rows@;
    let k = basis.len() as int;
    let w = mix(basis, free, x, k);
    let z = (x ^ p) ^ w;
    lemma_mix(e, m, basis, free, x, k);
    lemma_bit_ops(x, p);
    lemma_bit_ops(x ^ p, w);
    lemma_zero_even();
    assert forall|t: int| 0 <= t < free.len() implies !bit(z, #[trigger] free[t] as int) by {
        assert(bit(w, free[t] as int) == bit(x, free[t] as int));
        assert(!bit(p, free[t] as int));
    }
    assert forall|i: int| 0 <= i < 64 implies bit(z, i) == bit(0u64, i) by {
        if i < m {
            if e.owner[i] is None {
                let t = choose|t: int| 0 <= t < free.len() && #[trigger] free[t] == i;
                assert(!bit(z, free[t] as int));
            } else {
                let r = owned(e.owner@, i);
                assert(e.owner[i] == Some(r as usize));
                assert(e.pivots[r] == i);
                let u = rows[r] & z;
                lemma_bit_ops(rows[r], z);
                let a = if bit(z, i) { i } else { -1 };
                assert forall|j: int| 0 <= j < 64 implies (bit(u, j) <==> (j == a || j == -1)) by {
                    if bit(rows[r], j) && bit(z, j) {
                        assert(fits(rows[r], m));
                        assert(j < m);
                        if e.owner[j] is None {
                            let t = choose|t: int| 0 <= t < free.len() && #[trigger] free[t] == j;
                            assert(!bit(z, free[t] as int));
                        } else {
                            let q = owned(e.owner@, j);
                            assert(e.owner[j] == Some(q as usize));
                            assert(e.pivots[q] == j);
                            if q != r {
                                assert(!bit(rows[r], e.pivots[q] as int));
                            }
                        }
                    }
                }
                lemma_weight_sparse(u, a, -1, 64);
                lemma_row_xor(rows[r], x, p);
                lemma_row_xor(rows[r], x ^ p, w);
                assert(eq_holds(rows[r], no_rhs(rows.len())[r], w));
                assert(odd(rows[r] & x) == odd(rows[r] & p));
                assert(!odd(u));
            }
        } else {
            assert(!bit(x, i));
            assert(!bit(p, i));
            assert(!bit(w, i));
        }
    }
    lemma_bit_ext(z, 0);
    lemma_xor_algebra(x ^ p, w, 0);
    assert(basis.subrange(0, k) =~= basis);
}

/// Computes the particular solution of a reduced system: free unknowns
/// zero, each pivot unknown equal to its row's right-hand side.
pub fn particular(e: &Echelon, m: usize) -> (p: u64)
    requires
        e.wf(m as int),
    ensures
        is_particular(e, m as int, p),
{
    let mut p: u64 = 0;
    let mut i: usize = 0;
    proof {
        lemma_bit_single(0);
    }
    while i < e.pivots.len()
        invariant
            i <= e.pivots.len(),
            e.wf(m as int),
            forall|c: int|
                0 <= c < 64 ==> (#[trigger] bit(p, c)) == (c < m && owned(e.owner@, c) >= 0 && owned(
                    e.owner@,
                    c,
                ) < i && e.rhs[owned(e.owner@, c)]),
        decreases e.pivots.len() - i,
    {
        proof {
            assert(e.pivots[i as int] < m);
            assert(owned(e.owner@, e.pivots[i as int] as int) == i);
        }
        if e.rhs[i] {
            p = with_bit(p, e.pivots[i]);
        }
        i = i + 1;
    }
    p
}

/// Tells whether a reduced system has a solution.
pub fn is_consistent(e: &Echelon, m: usize) -> (ok: bool)
    requires
        e.wf(m as int),
    ensures
        ok == e.consistent(),
{
    let mut r: usize = e.pivots.len();
    while r < e.rhs.len()
        invariant
            e.pivots.len() <= r <= e.rhs.len(),
            forall|q: int| e.pivots.len() <= q < r ==> !#[trigger] e.rhs[q],
        decreases e.rhs.len() - r,
    {
        if e.rhs[r] {
            return false;
        }
        r = r + 1;
    }
    true
}

/// Computes one kernel vector per free column, with the list of those
/// columns.
pub fn kernel(e: &Echelon, m: usize) -> (res: (Vec<u64>, Vec<usize>))
    requires
        e.wf(m as int),
    ensures
        kernel_shape(e, m as int, res.0@, res.1@),
{
    let mut basis: Vec<u64> = Vec::new();
    let mut free: Vec<usize> = Vec::new();
    let mut f: usize = 0;
    while f < m
        invariant
            f <= m <= 64,
            e.wf(m as int),
            basis.len() == free.len(),
            forall|t: int| 0 <= t < free.len() ==> (#[trigger] free[t]) < f && e.owner[free[t] as int] is None,
            forall|t1: int, t2: int|
                0 <= t1 < t2 < free.len() ==> (#[trigger] free[t1]) < (#[trigger] free[t2]),
            forall|c: int|
                0 <= c < f && (#[trigger] e.owner[c]) is None ==> exists|t: int|
                    0 <= t < free.len() && #[trigger] free[t] == c,
            forall|t: int|
                0 <= t < free.len() ==> is_kernel_vec(e, m as int, free[t] as int, #[trigger] basis[t]),
        decreases m - f,
    {
        if e.owner[f].is_none() {
            let mut v: u64 = with_bit(0, f);
            let mut i: usize = 0;
            proof {
                lemma_bit_single(0);
            }
            while i < e.pivots.len()
                invariant
                    i <= e.pivots.len(),
                    f < m <= 64,
                    e.wf(m as int),
                    e.owner[f as int] is None,
                    forall|c: int|
                        0 <= c < 64 ==> (#[trigger] bit(v, c)) == (c == f || (c < m && owned(e.owner@, c)
                            >= 0 && owned(e.owner@, c) < i && bit(e.rows[owned(e.owner@, c)], f as int))),
                decreases e.pivots.len() - i,
            {
                proof {
                    assert(e.pivots[i as int] < m);
                    assert(owned(e.owner@, e.pivots[i as int] as int) == i);
                }
                if test_bit(e.rows[i], f) {
                    v = with_bit(v, e.pivots[i]);
                }
                i = i + 1;
            }
            let ghost old_free = free@;
            basis.push(v);
            free.push(f);
            proof {
                assert forall|c: int| 0 <= c < f + 1 && (#[trigger] e.owner[c]) is None implies exists|t: int|
                    0 <= t < free.len() && #[trigger] free[t] == c by {
                    if c < f {
                        let t = choose|t: int| 0 <= t < old_free.len() && #[trigger] old_free[t] == c;
                        assert(free[t] == c);
                    } else {
                        assert(free[free.len() - 1] == c);
                    }
                }
            }
        }
        f = f + 1;
    }
    (basis, free)
}


/// The vectors of `basis` solve the homogeneous system of `steps`, and every
/// solution of it is a combination of them.
pub open spec fn kernel_space(steps: Seq<u32>, basis: Seq<u64>) -> bool {
    &&& forall|j: int| 0 <= j < basis.len() ==> reaches(steps, 0u32, #[trigger] basis[j])
    &&& forall|x: u64| #[trigger] reaches(steps, 0u32, x) ==> in_span(basis, x)
}

/// `p` reaches `target`, and the selections that reach `target` are exactly
/// `p` combined with the kernel spanned by `basis`.
pub open spec fn solution_space(steps: Seq<u32>, target: u32, p: u64, basis: Seq<u64>) -> bool {
    &&& reaches(steps, target, p)
    &&& kernel_space(steps, basis)
    &&& forall|x: u64| #[trigger] reaches(steps, target, x) ==> in_span(basis, x ^ p)
}

/// A combination of kernel vectors is a kernel vector.
pub proof fn lemma_span_kernel(steps: Seq<u32>, basis: Seq<u64>, v: u64)
    requires
        forall|j: int| 0 <= j < basis.len() ==> reaches(steps, 0u32, #[trigger] basis[j]),
        in_span(basis, v),
    ensures
        reaches(steps, 0u32, v),
    decreases basis.len(),
{
    let m = steps.len() as int;
    if basis.len() == 0 {
        lemma_fold_zero(steps, m);
        lemma_bit_single(0);
    } else {
        let init = basis.drop_last();
        let l = basis.last();
        assert forall|j: int| 0 <= j < init.len() implies reaches(steps, 0u32, #[trigger] init[j]) by {
            assert(init[j] == basis[j]);
        }
        if in_span(init, v) {
            lemma_span_kernel(steps, init, v);
        } else {
            lemma_span_kernel(steps, init, v ^ l);
            assert(reaches(steps, 0u32, basis[basis.len() - 1]));
            lemma_fold_linear(steps, v ^ l, l, m);
            lemma_xor_algebra(v, l, 0);
            lemma_xor_algebra(0, 0, 0);
            lemma_bit_ops(v ^ l, l);
            assert((v ^ l) ^ l == v);
            assert(pattern_of(steps, l) == 0);
            assert(pattern_of(steps, v ^ l) == 0);
        }
    }
}

/// A selection in the coset of a solution is a solution.
pub proof fn lemma_coset_member(steps: Seq<u32>, target: u32, p: u64, basis: Seq<u64>, x: u64)
    requires
        reaches(steps, target, p),
        forall|j: int| 0 <= j < basis.len() ==> reaches(steps, 0u32, #[trigger] basis[j]),
        in_span(basis, x ^ p),
    ensures
        reaches(steps, target, x),
{
    let m = steps.len() as int;
    lemma_span_kernel(steps, basis, x ^ p);
    lemma_fold_linear(steps, x ^ p, p, m);
    lemma_xor_algebra(x, p, 0);
    lemma_xor_algebra(target as u64, 0, 0);
    lemma_bit_ops(x ^ p, p);
    assert((x ^ p) ^ p == x);
    assert(pattern_of(steps, x ^ p) == 0);
}

/// Each vector of `basis` has a column of its own among the first `m`,
/// listed in `free` in rising order: the column is set in that vector and
/// clear in the other vectors and in `p`.
pub open spec fn pinned(p: u64, basis: Seq<u64>, free: Seq<usize>, m: int) -> bool {
    &&& free.len() == basis.len()
    &&& forall|t: int| 0 <= t < free.len() ==> (#[trigger] free[t]) < m
    &&& forall|t1: int, t2: int| 0 <= t1 < t2 < free.len() ==> (#[trigger] free[t1]) < (#[trigger] free[t2])
    &&& forall|t: int| 0 <= t < free.len() ==> !bit(p, (#[trigger] free[t]) as int)
    &&& forall|t: int, u: int|
        0 <= t < basis.len() && 0 <= u < free.len() ==> bit(#[trigger] basis[t], (#[trigger] free[u]) as int) == (t
            == u)
}

/// Step `c` is the combined effect of steps that come before it.
pub open spec fn depends(steps: Seq<u32>, c: int) -> bool {
    exists|x: u64| fits(x, c) && #[trigger] pattern_of(steps, x) == steps[c] as u64
}

/// Column `c` is one of the columns listed.
pub open spec fn has_column(free: Seq<usize>, c: int) -> bool {
    exists|t: int| 0 <= t < free.len() && #[trigger] free[t] == c
}

/// The columns listed are exactly the free ones: those of the steps that
/// are the combined effect of earlier steps, which elimination from the
/// left never takes as pivot.
pub open spec fn lists_free(steps: Seq<u32>, free: Seq<usize>) -> bool {
    &&& forall|t: int| 0 <= t < free.len() ==> depends(steps, #[trigger] free[t] as int)
    &&& forall|c: int| 0 <= c < steps.len() && #[trigger] depends(steps, c) ==> has_column(free, c)
}

/// The solution and the basis are in reduced form: the free columns, in
/// rising order, are those of the steps that depend on earlier steps;
/// each vector of `basis` has one of them as its own, set in it and clear
/// in the others; and `p` leaves them all clear.
pub open spec fn reduced(steps: Seq<u32>, p: u64, basis: Seq<u64>) -> bool {
    exists|free: Seq<usize>| pinned(p, basis, free, steps.len() as int) && lists_free(steps, free)
}

/// The step of a free column is the combined effect of earlier steps:
/// of those whose pivot rows have a bit in the column.
pub proof fn lemma_free_depends(e: &Echelon, f: int, v: u64, steps: Seq<u32>, n: int, rows0: Seq<u64>)
    requires
        well_formed(steps, n),
        e.wf(steps.len() as int),
        0 <= f < steps.len(),
        e.owner[f] is None,
        is_kernel_vec(e, steps.len() as int, f, v),
        rows0.len() == n,
        rows_of(steps, rows0),
        homog_sat(e.rows@, v) == homog_sat(rows0, v),
    ensures
        depends(steps, f),
{
    let m = steps.len() as int;
    lemma_zero_even();
    let z = no_rhs(n as nat);
    assert(rhs_of(0u32, z));
    lemma_kernel_sat(e, m, f, v);
    lemma_system_pattern(steps, 0u32, n, rows0, z, v);
    assert(pattern_of(steps, v) == 0);
    let s = 1u64 << (f as u64);
    let x = v ^ s;
    lemma_bit_single(f);
    lemma_bit_ops(v, s);
    assert forall|i: int| f <= i < 64 implies !#[trigger] bit(x, i) by {
        if i > f && bit(v, i) {
            let r = owned(e.owner@, i);
            assert(e.owner[i] == Some(r as usize));
            assert(e.pivots[r] == i);
            assert(!bit(e.rows[r], f));
        }
    }
    lemma_fold_linear(steps, v, s, m);
    lemma_fold_unit(steps, f, m);
    lemma_xor_algebra(0, steps[f] as u64, 0);
    assert(fits(x, f) && pattern_of(steps, x) == steps[f] as u64);
}

/// The step of a pivot column is not the combined effect of earlier
/// steps.
pub proof fn lemma_pivot_free(e: &Echelon, c: int, steps: Seq<u32>, n: int, rows0: Seq<u64>)
    requires
        well_formed(steps, n),
        e.wf(steps.len() as int),
        0 <= c < steps.len(),
        e.owner[c] is Some,
        rows0.len() == n,
        e.rows.len() == n,
        rows_of(steps, rows0),
        forall|x: u64| #[trigger] homog_sat(e.rows@, x) == homog_sat(rows0, x),
    ensures
        !depends(steps, c),
{
    let m = steps.len() as int;
    if depends(steps, c) {
        let x = choose|x: u64| fits(x, c) && #[trigger] pattern_of(steps, x) == steps[c] as u64;
        lemma_zero_even();
        let z = no_rhs(n as nat);
        assert(rhs_of(0u32, z));
        let s = 1u64 << (c as u64);
        let y = x ^ s;
        lemma_bit_single(c);
        lemma_bit_ops(x, s);
        lemma_fold_linear(steps, x, s, m);
        lemma_fold_unit(steps, c, m);
        lemma_xor_algebra(steps[c] as u64, steps[c] as u64, 0);
        assert(pattern_of(steps, y) == 0);
        lemma_system_pattern(steps, 0u32, n, rows0, z, y);
        assert(homog_sat(rows0, y));
        assert(homog_sat(e.rows@, y) == homog_sat(rows0, y));
        let i = owned(e.owner@, c);
        assert(e.owner[c] == Some(i as usize));
        assert(e.pivots[i] == c);
        let row = e.rows[i];
        assert(eq_holds(row, no_rhs(e.rows@.len())[i], y));
        let u = row & y;
        lemma_bit_ops(row, y);
        assert(bit(row, c));
        assert forall|j: int| 0 <= j < 64 implies (bit(u, j) <==> (j == c || j == -1)) by {
            if j < c {
                assert(!bit(row, j));
            }
        }
        lemma_weight_sparse(u, c, -1, 64);
        assert(odd(u));
    }
}

/// The highest bit of `y` below place `k`: its place, or `-1` where `y`
/// has no bit there.
pub proof fn lemma_top_bit(y: u64, k: int) -> (c: int)
    requires
        0 <= k <= 64,
    ensures
        -1 <= c < k,
        c >= 0 ==> bit(y, c),
        forall|i: int| c < i < k ==> !bit(y, i),
    decreases k,
{
    if k == 0 {
        -1
    } else if bit(y, k - 1) {
        k - 1
    } else {
        lemma_top_bit(y, k - 1)
    }
}

/// A selection without effect that leaves every free column clear is
/// the empty selection.
pub proof fn lemma_kernel_clear(steps: Seq<u32>, free: Seq<usize>, y: u64)
    requires
        steps.len() <= 64,
        reaches(steps, 0u32, y),
        lists_free(steps, free),
        forall|t: int| 0 <= t < free.len() ==> !bit(y, #[trigger] free[t] as int),
    ensures
        y == 0,
{
    let m = steps.len() as int;
    let c = lemma_top_bit(y, 64);
    lemma_bit_single(0);
    if c >= 0 {
        assert(c < m);
        let s = 1u64 << (c as u64);
        let x = y ^ s;
        lemma_bit_single(c);
        lemma_bit_ops(y, s);
        assert(fits(x, c));
        lemma_fold_linear(steps, y, s, m);
        lemma_fold_unit(steps, c, m);
        lemma_xor_algebra(0, steps[c] as u64, 0);
        assert(pattern_of(steps, x) == steps[c] as u64);
        assert(depends(steps, c));
        assert(has_column(free, c));
        let t = choose|t: int| 0 <= t < free.len() && #[trigger] free[t] == c;
        assert(!bit(y, free[t] as int));
    } else {
        lemma_bit_ext(y, 0);
    }
}

/// Two rising lists of the same columns are the same list.
pub proof fn lemma_rising_same(a: Seq<usize>, b: Seq<usize>)
    requires
        forall|i: int, j: int| 0 <= i < j < a.len() ==> (#[trigger] a[i]) < (#[trigger] a[j]),
        forall|i: int, j: int| 0 <= i < j < b.len() ==> (#[trigger] b[i]) < (#[trigger] b[j]),
        forall|t: int| 0 <= t < a.len() ==> has_column(b, #[trigger] a[t] as int),
        forall|t: int| 0 <= t < b.len() ==> has_column(a, #[trigger] b[t] as int),
    ensures
        a == b,
    decreases a.len(),
{
    if a.len() == 0 {
        if b.len() > 0 {
            assert(has_column(a, b[0] as int));
        }
        assert(a =~= b);
    } else {
        let la = a.len() - 1;
        assert(has_column(b, a[la] as int));
        let lb = b.len() - 1;
        let ub = choose|u: int| 0 <= u < b.len() && #[trigger] b[u] == a[la];
        assert(has_column(a, b[lb] as int));
        let ua = choose|u: int| 0 <= u < a.len() && #[trigger] a[u] == b[lb];
        if ub < lb {
            assert(b[ub] < b[lb]);
        }
        if ua < la {
            assert(a[ua] < a[la]);
        }
        assert(a[la] == b[lb]);
        let ra = a.drop_last();
        let rb = b.drop_last();
        assert forall|t: int| 0 <= t < ra.len() implies has_column(rb, #[trigger] ra[t] as int) by {
            assert(has_column(b, a[t] as int));
            let u = choose|u: int| 0 <= u < b.len() && #[trigger] b[u] == a[t];
            assert(a[t] < a[la]);
            assert(u != lb);
            assert(rb[u] == a[t]);
        }
        assert forall|t: int| 0 <= t < rb.len() implies has_column(ra, #[trigger] rb[t] as int) by {
            assert(has_column(a, b[t] as int));
            let u = choose|u: int| 0 <= u < a.len() && #[trigger] a[u] == b[t];
            assert(b[t] < b[lb]);
            assert(u != la);
            assert(ra[u] == b[t]);
        }
        assert forall|i: int, j: int| 0 <= i < j < ra.len() implies (#[trigger] ra[i]) < (#[trigger] ra[j]) by {
            assert(a[i] < a[j]);
        }
        assert forall|i: int, j: int| 0 <= i < j < rb.len() implies (#[trigger] rb[i]) < (#[trigger] rb[j]) by {
            assert(b[i] < b[j]);
        }
        lemma_rising_same(ra, rb);
        assert(a =~= ra.push(a[la]));
        assert(b =~= rb.push(b[lb]));
    }
}

/// The reduced form is one: over one step set the kernel basis is the
/// same whatever the target, and for one target the solution is the same.
pub proof fn lemma_reduced_unique(
    steps: Seq<u32>,
    t1: u32,
    pa: u64,
    b1: Seq<u64>,
    t2: u32,
    pb: u64,
    b2: Seq<u64>,
)
    requires
        steps.len() <= 64,
        solution_space(steps, t1, pa, b1),
        reduced(steps, pa, b1),
        solution_space(steps, t2, pb, b2),
        reduced(steps, pb, b2),
    ensures
        b1 == b2,
        t1 == t2 ==> pa == pb,
{
    let m = steps.len() as int;
    let f1 = choose|free: Seq<usize>| pinned(pa, b1, free, m) && lists_free(steps, free);
    let f2 = choose|free: Seq<usize>| pinned(pb, b2, free, m) && lists_free(steps, free);
    assert forall|t: int| 0 <= t < f1.len() implies has_column(f2, #[trigger] f1[t] as int) by {
        assert(depends(steps, f1[t] as int));
    }
    assert forall|t: int| 0 <= t < f2.len() implies has_column(f1, #[trigger] f2[t] as int) by {
        assert(depends(steps, f2[t] as int));
    }
    lemma_rising_same(f1, f2);
    assert forall|t: int| 0 <= t < b1.len() implies b1[t] == b2[t] by {
        let y = b1[t] ^ b2[t];
        lemma_bit_ops(b1[t], b2[t]);
        lemma_fold_linear(steps, b1[t], b2[t], m);
        assert(reaches(steps, 0u32, b1[t]));
        assert(reaches(steps, 0u32, b2[t]));
        lemma_xor_algebra(0, 0, 0);
        assert(reaches(steps, 0u32, y));
        assert forall|u: int| 0 <= u < f1.len() implies !bit(y, #[trigger] f1[u] as int) by {
            assert(bit(b1[t], f1[u] as int) == (t == u));
            assert(bit(b2[t], f2[u] as int) == (t == u));
        }
        lemma_kernel_clear(steps, f1, y);
        lemma_xor_algebra(b1[t], b2[t], 0);
        lemma_xor_algebra(b2[t], y, 0);
    }
    assert(b1 =~= b2);
    if t1 == t2 {
        let y = pa ^ pb;
        lemma_bit_ops(pa, pb);
        lemma_fold_linear(steps, pa, pb, m);
        lemma_xor_algebra(t1 as u64, t1 as u64, 0);
        assert(reaches(steps, 0u32, y));
        assert forall|u: int| 0 <= u < f1.len() implies !bit(y, #[trigger] f1[u] as int) by {
            assert(!bit(pa, f1[u] as int));
            assert(!bit(pb, f2[u] as int));
        }
        lemma_kernel_clear(steps, f1, y);
        lemma_xor_algebra(pa, pb, 0);
        lemma_xor_algebra(pb, y, 0);
    }
}

/// A combination of vectors that are all clear at place `c` is clear
/// there.
pub proof fn lemma_span_clear(basis: Seq<u64>, v: u64, c: int)
    requires
        in_span(basis, v),
        forall|u: int| 0 <= u < basis.len() ==> !bit(#[trigger] basis[u], c),
    ensures
        !bit(v, c),
    decreases basis.len(),
{
    if basis.len() == 0 {
        lemma_bit_single(0);
    } else {
        let init = basis.drop_last();
        assert forall|u: int| 0 <= u < init.len() implies !bit(#[trigger] init[u], c) by {
            assert(init[u] == basis[u]);
        }
        if in_span(init, v) {
            lemma_span_clear(init, v, c);
        } else {
            lemma_span_clear(init, v ^ basis.last(), c);
            lemma_bit_ops(v, basis.last());
            assert(!bit(basis[basis.len() - 1], c));
        }
    }
}

/// The vectors of a reduced basis are independent: none of them is
/// empty, and none is a combination of the others.
pub proof fn lemma_reduced_independent(steps: Seq<u32>, p: u64, basis: Seq<u64>, t: int)
    requires
        reduced(steps, p, basis),
        0 <= t < basis.len(),
    ensures
        basis[t] != 0,
        !in_span(basis.remove(t), basis[t]),
{
    let free = choose|free: Seq<usize>| pinned(p, basis, free, steps.len() as int) && lists_free(steps, free);
    let c = free[t] as int;
    assert(bit(basis[t], free[t] as int));
    lemma_bit_single(0);
    let others = basis.remove(t);
    assert forall|u: int| 0 <= u < others.len() implies !bit(#[trigger] others[u], c) by {
        if u < t {
            assert(others[u] == basis[u]);
            assert(bit(basis[u], free[t] as int) == (u == t));
        } else {
            assert(others[u] == basis[u + 1]);
            assert(bit(basis[u + 1], free[t] as int) == (u + 1 == t));
        }
    }
    if in_span(others, basis[t]) {
        lemma_span_clear(others, basis[t], c);
    }
}

/// Solves the system "exclusive or of the chosen steps equals `target_mask`":
/// returns one solution together with a basis of the kernel, or `None` where
/// no selection reaches the target. The solution leaves the free unknowns
/// clear, and the basis has one vector for each of them.
pub fn solve_gf2(step_masks: &[u32], target_mask: u32, positions: usize) -> (res: Option<
    (u64, Vec<u64>),
>)
    requires
        well_formed(step_masks@, positions as int),
        fits(target_mask as u64, positions as int),
    ensures
        match res {
            None => !solvable(step_masks@, target_mask),
            Some((p, basis)) => solution_space(step_masks@, target_mask, p, basis@) && reduced(
                step_masks@,
                p,
                basis@,
            ),
        },
{
    let m: usize = step_masks.len();
    let rows = build_rows(step_masks, positions);
    let rhs = build_rhs(target_mask, positions);
    let ghost rows0 = rows@;
    let ghost rhs0 = rhs@;
    let ghost steps = step_masks@;
    let ghost n = positions as int;
    proof {
        assert forall|r: int| 0 <= r < rows0.len() implies fits(#[trigger] rows0[r], m as int) by {
            assert forall|i: int| m <= i < 64 implies !#[trigger] bit(rows0[r], i) by {}
        }
    }
    let e = reduce(rows, rhs, m);
    if !is_consistent(&e, m) {
        proof {
            assert forall|x: u64| !reaches(steps, target_mask, x) by {
                lemma_inconsistent(&e, m as int, x);
                assert(sys_sat(e.rows@, e.rhs@, x) == sys_sat(rows0, rhs0, x));
                lemma_system_pattern(steps, target_mask, n, rows0, rhs0, x);
            }
        }
        return None;
    }
    let p = particular(&e, m);
    let (basis, free) = kernel(&e, m);
    proof {
        lemma_zero_even();
        let z = no_rhs(n as nat);
        assert(rhs_of(0u32, z));
        lemma_particular_sat(&e, m as int, p);
        assert(sys_sat(e.rows@, e.rhs@, p) == sys_sat(rows0, rhs0, p));
        lemma_system_pattern(steps, target_mask, n, rows0, rhs0, p);
        assert(reaches(steps, target_mask, p));
        assert forall|t: int| 0 <= t < free.len() implies !bit(p, #[trigger] free[t] as int) by {
            assert(e.owner[free[t] as int] is None);
            assert(owned(e.owner@, free[t] as int) == -1);
        }
        assert forall|j: int| 0 <= j < basis.len() implies reaches(steps, 0u32, #[trigger] basis@[j]) by {
            assert(is_kernel_vec(&e, m as int, free[j] as int, basis@[j]));
            lemma_kernel_sat(&e, m as int, free[j] as int, basis@[j]);
            assert(homog_sat(e.rows@, basis@[j]) == homog_sat(rows0, basis@[j]));
            lemma_system_pattern(steps, 0u32, n, rows0, z, basis@[j]);
        }
        assert forall|x: u64| #[trigger] reaches(steps, 0u32, x) implies in_span(basis@, x) by {
            lemma_system_pattern(steps, 0u32, n, rows0, z, x);
            assert(homog_sat(e.rows@, x) == homog_sat(rows0, x));
            assert forall|r: int| 0 <= r < e.rows.len() implies odd(#[trigger] e.rows[r] & x) == odd(
                e.rows[r] & 0u64,
            ) by {
                assert(eq_holds(e.rows[r], no_rhs(e.rows@.len())[r], x));
                lemma_xor_algebra(e.rows[r], 0, 0);
            }
            lemma_complete(&e, m as int, 0u64, basis@, free@, x);
            lemma_xor_algebra(x, 0, 0);
        }
        assert forall|x: u64| #[trigger] reaches(steps, target_mask, x) implies in_span(basis@, x ^ p) by {
            lemma_system_pattern(steps, target_mask, n, rows0, rhs0, x);
            assert(sys_sat(e.rows@, e.rhs@, x) == sys_sat(rows0, rhs0, x));
            assert forall|r: int| 0 <= r < e.rows.len() implies odd(#[trigger] e.rows[r] & x) == odd(
                e.rows[r] & p,
            ) by {
                assert(eq_holds(e.rows[r], e.rhs[r], x));
                assert(eq_holds(e.rows[r], e.rhs[r], p));
            }
            lemma_complete(&e, m as int, p, basis@, free@, x);
        }
        assert forall|t: int, u: int| 0 <= t < basis@.len() && 0 <= u < free@.len() implies bit(
            #[trigger] basis@[t],
            (#[trigger] free@[u]) as int,
        ) == (t == u) by {
            assert(is_kernel_vec(&e, m as int, free@[t] as int, basis@[t]));
            assert(e.owner[free@[u] as int] is None);
            assert(owned(e.owner@, free@[u] as int) == -1);
            if t < u {
                assert(free@[t] < free@[u]);
            } else if u < t {
                assert(free@[u] < free@[t]);
            }
        }
        assert(pinned(p, basis@, free@, m as int));
        assert forall|t: int| 0 <= t < free@.len() implies depends(steps, #[trigger] free@[t] as int) by {
            assert(is_kernel_vec(&e, m as int, free@[t] as int, basis@[t]));
            assert(homog_sat(e.rows@, basis@[t]) == homog_sat(rows0, basis@[t]));
            lemma_free_depends(&e, free@[t] as int, basis@[t], steps, n, rows0);
        }
        assert forall|c: int| 0 <= c < steps.len() && #[trigger] depends(steps, c) implies has_column(free@, c) by {
            if e.owner[c] is Some {
                lemma_pivot_free(&e, c, steps, n, rows0);
            }
            let t = choose|t: int| 0 <= t < free@.len() && #[trigger] free@[t] == c;
            assert(free@[t] == c);
        }
        assert(lists_free(steps, free@));
    }
    Some((p, basis))
}

} // verus!
