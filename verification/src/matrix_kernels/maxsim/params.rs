//! How the kernels divide their matrices to fit the caches.
use crate::arithmetic;
use vstd::prelude::*;

verus! {

/// The sizes of the first two caches in bytes.
#[derive(Debug, Clone, Copy, PartialEq, Eq, Structural)]
pub struct Cache {
    pub l1: usize,
    pub l2: usize,
}

/// Blocking parameters for packed by unpacked MaxSim kernels.
#[derive(Debug, Clone, Copy, PartialEq, Eq, Structural)]
pub struct Params {
    /// The approximate number of A panels that fit in the L2 cache.
    pub a_panels_in_l2: usize,
    /// The approximate number of B columns that fit in the L1 cache.
    pub b_cols_in_l1: usize,
}

/// At least one.
pub open spec fn at_least_one(value: int) -> int {
    if value > 1 {
        value
    } else {
        1
    }
}

/// The bytes of the L1 cache beside a panel of A.
pub open spec fn b_budget(cache: Cache, a_panel: usize) -> int {
    at_least_one(cache.l1 - a_panel)
}

/// The B columns that fill the budget, in whole panels of `nr`.
pub open spec fn b_cols(cache: Cache, a_panel: usize, b_col: usize, nr: usize) -> int {
    nr * arithmetic::div_ceil(b_budget(cache, a_panel), nr * b_col)
}

/// There are at most `nr` columns more than bytes in the budget.
pub proof fn lemma_b_cols(cache: Cache, a_panel: usize, b_col: usize, nr: usize)
    requires
        b_col > 0,
        nr > 0,
    ensures
        0 < nr * b_col,
        0 < b_cols(cache, a_panel, b_col, nr) < b_budget(cache, a_panel) + nr,
{
    let budget = b_budget(cache, a_panel);
    let panel = nr * b_col;
    assert(nr <= panel) by (nonlinear_arith)
        requires
            panel == nr * b_col,
            nr >= 1,
            b_col >= 1,
    ;
    arithmetic::lemma_div_ceil(budget, panel);
    let panels = arithmetic::div_ceil(budget, panel);
    assert(1 <= nr * panels) by (nonlinear_arith)
        requires
            1 <= nr,
            1 <= panels,
    ;
    assert(nr * panels < budget + nr) by (nonlinear_arith)
        requires
            1 <= panels,
            panels * panel < budget + panel,
            1 <= nr <= panel,
            1 <= budget,
    {
        assert((panels - 1) * panel < budget);
        assert((panels - 1) * nr <= (panels - 1) * panel);
        assert(nr * panels == (panels - 1) * nr + nr);
    }
}

impl Params {
    /// The counts are positive.
    pub open spec fn wf(&self) -> bool {
        self.a_panels_in_l2 > 0 && self.b_cols_in_l1 > 0
    }

    /// Chooses the parameters for panels of A and columns of B of the given sizes in
    /// bytes.
    pub fn new(cache: Cache, a_panel: usize, b_col: usize, nr: usize) -> (params: Self)
        requires
            a_panel > 0,
            b_col > 0,
            nr > 0,
            nr * b_col <= usize::MAX,
            b_cols(cache, a_panel, b_col, nr) <= usize::MAX,
        ensures
            params.wf(),
            params.a_panels_in_l2 == at_least_one(cache.l2 as int / a_panel as int),
            params.b_cols_in_l1 == b_cols(cache, a_panel, b_col, nr),
    {
        let fitting: usize = cache.l2 / a_panel;
        let a_panels_in_l2: usize = if fitting > 1 {
            fitting
        } else {
            1
        };
        let rest: usize = if cache.l1 > a_panel {
            cache.l1 - a_panel
        } else {
            0
        };
        let budget: usize = if rest > 1 {
            rest
        } else {
            1
        };
        proof {
            lemma_b_cols(cache, a_panel, b_col, nr);
        }
        let b_cols_in_l1: usize = nr * arithmetic::div_ceil_usize(budget, nr * b_col);
        Params { a_panels_in_l2, b_cols_in_l1 }
    }
}

/// How the caches are filled: as many panels of A as the L2 cache holds whole, but at least
/// one, and the fewest whole panels of B columns that fill what a panel of A leaves of the L1
/// cache, and at least one byte of it.
pub proof fn lemma_params_fill_caches(cache: Cache, a_panel: usize, b_col: usize, nr: usize)
    requires
        a_panel > 0,
        b_col > 0,
        nr > 0,
    ensures
        ({
            let panels = at_least_one(cache.l2 as int / a_panel as int);
            let columns = b_cols(cache, a_panel, b_col, nr);
            let left = if cache.l1 > a_panel {
                cache.l1 - a_panel
            } else {
                1
            };
            &&& 1 <= panels
            &&& panels == 1 || panels * a_panel <= cache.l2
            &&& (panels + 1) * a_panel > cache.l2
            &&& columns % nr as int == 0
            &&& left <= columns * b_col < left + nr * b_col
        }),
{
    let whole = cache.l2 as int / a_panel as int;
    let panel = a_panel as int;
    assert(whole * panel <= cache.l2 && (whole + 1) * panel > cache.l2 && 0 <= whole)
        by (nonlinear_arith)
        requires
            whole == cache.l2 as int / panel,
            0 < panel,
    ;
    assert(2 * panel > cache.l2 || whole >= 1) by (nonlinear_arith)
        requires
            (whole + 1) * panel > cache.l2,
            0 < panel,
            0 <= whole,
    ;
    if whole == 0 {
        assert((1 + 1) * panel > cache.l2);
    }
    let left = b_budget(cache, a_panel);
    lemma_b_cols(cache, a_panel, b_col, nr);
    let step = nr * b_col;
    let count = arithmetic::div_ceil(left, step);
    arithmetic::lemma_div_ceil(left, step);
    let columns = nr * count;
    assert(columns * b_col == count * step) by (nonlinear_arith)
        requires
            columns == nr * count,
            step == nr * b_col,
    ;
    assert(columns % nr as int == 0) by (nonlinear_arith)
        requires
            columns == nr * count,
            0 < nr,
    ;
}

} // verus!
