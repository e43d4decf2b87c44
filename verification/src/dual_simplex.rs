//! Two-phase primal simplex over an exact rational tableau.
//!
//! The tableau starts in phase one, whose objective (the last row) drives the
//! artificial variables to zero; an explicit switch moves it to phase two,
//! whose objective (the second-to-last row) is the true cost. Pivot columns
//! follow Dantzig's largest-coefficient rule, pivot rows the minimum-ratio
//! test, both with earliest-index tie-breaking.

use crate::rat::{
    iabs, is_ratio, rat_le, rat_lt, within_tol, lemma_rat_le_lt_trans, lemma_ratio_cmp,
    lemma_frac_trans_lt_le, lemma_mul_le_bound, lemma_mul_sign, lemma_nonpos_le_pos,
    lemma_qeq_trans, lemma_qeq_mul_r, lemma_qeq_sub_r, qv, qmul, qsub, qdiv, qeq, Rat,
};
use vstd::prelude::*;

verus! {

/// Which objective row is active; phase one minimizes the artificial
/// variables, phase two the true cost.
#[derive(Clone, Copy, Debug, PartialEq, Eq, Structural)]
pub enum Phase {
    One,
    Two,
}

/// Why a solve attempt failed.
#[derive(Clone, Copy, Debug, PartialEq, Eq, Structural)]
pub enum SolveError {
    /// Phase one ended with an artificial-cost residual beyond tolerance:
    /// the constraints cannot be satisfied simultaneously.
    Infeasible,
    /// The pivot loop exceeded its iteration cap.
    IterationLimit,
    /// An exact rational left the machine-word range.
    Overflow,
    /// A solution column held exactly one nonzero entry that was not 1.
    MalformedColumn,
}

/// Outcome of one pivot search. `Optimal` and `Unbounded` both stop the
/// solver, but they are reported distinctly: `Optimal` means the active
/// objective row has no positive coefficient, `Unbounded` that a pivot
/// column exists but no row passes the ratio test.
#[derive(Clone, Copy, Debug, PartialEq, Eq, Structural)]
pub enum PivotSelection {
    Pivot(usize, usize),
    Optimal,
    Unbounded,
}

/// The simplex tableau: a dense rational matrix with the phase marker and
/// the counts of decision and artificial variables.
#[derive(Debug)]
pub struct Matrix {
    pub phase: Phase,
    pub variables: usize,
    pub artificials: usize,
    pub data: Vec<Vec<Rat>>,
}

impl Matrix {
    pub open spec fn rows(self) -> int {
        self.data@.len() as int
    }

    pub open spec fn cols(self) -> int {
        self.data@[0]@.len() as int
    }

    pub open spec fn at(self, r: int, c: int) -> Rat {
        self.data@[r]@[c]
    }

    pub open spec fn rhs(self, r: int) -> Rat {
        self.at(r, self.cols() - 1)
    }

    /// Structural well-formedness: a rectangular grid of well-formed
    /// rationals, large enough to hold one constraint row, the two objective
    /// rows, and the trailing right-hand-side column.
    pub open spec fn wf(self) -> bool {
        &&& self.rows() >= 3
        &&& self.cols() >= 2
        &&& forall|r: int|
            0 <= r < self.rows() ==> #[trigger] self.data@[r]@.len() == self.cols()
        &&& forall|r: int, c: int|
            0 <= r < self.rows() && 0 <= c < self.cols() ==> (#[trigger] self.at(r, c)).wf()
        &&& self.variables + 1 <= self.cols()
        &&& self.artificials + 1 <= self.cols()
    }

    /// The row holding the active objective for the current phase.
    pub open spec fn obj_row(self) -> int {
        if self.phase is One {
            self.rows() - 1
        } else {
            self.rows() - 2
        }
    }

    /// Number of leading columns searched for a pivot column: phase one
    /// excludes only the right-hand side, phase two also the artificials.
    pub open spec fn col_limit(self) -> int {
        if self.phase is One {
            self.cols() - 1
        } else {
            self.cols() - 1 - self.artificials
        }
    }

    /// Rows eligible for the minimum-ratio test.
    pub open spec fn row_limit(self) -> int {
        if self.phase is One {
            self.rows() - 2
        } else {
            self.rows() - 1
        }
    }

    /// Rows rewritten by a pivot step: phase two leaves the retired
    /// phase-one objective row untouched.
    pub open spec fn update_rows(self) -> int {
        if self.phase is One {
            self.rows()
        } else {
            self.rows() - 1
        }
    }

    /// Dantzig pivot column: the strictly positive coefficient of largest
    /// value in the active objective row, earliest among ties.
    pub open spec fn is_pivot_col(self, c: int) -> bool {
        &&& 0 <= c < self.col_limit()
        &&& self.at(self.obj_row(), c).num > 0
        &&& forall|j: int|
            0 <= j < self.col_limit() ==> rat_le(
                #[trigger] self.at(self.obj_row(), j),
                self.at(self.obj_row(), c),
            )
        &&& forall|j: int|
            0 <= j < c ==> rat_lt(
                #[trigger] self.at(self.obj_row(), j),
                self.at(self.obj_row(), c),
            )
    }

    /// No positive coefficient is left: the active objective is optimal.
    pub open spec fn no_pivot_col(self) -> bool {
        forall|j: int|
            0 <= j < self.col_limit() ==> (#[trigger] self.at(self.obj_row(), j)).num <= 0
    }

    /// A row eligible for the ratio test in column `c`.
    pub open spec fn is_candidate(self, r: int, c: int) -> bool {
        &&& 0 <= r < self.row_limit()
        &&& self.at(r, c).num > 0
        &&& self.rhs(r).num >= 0
    }

    /// The exact fraction `rhs(r) / at(r, c)` as a numerator/denominator
    /// pair; the denominator is positive whenever `at(r, c)` is.
    pub open spec fn ratio_pair(self, r: int, c: int) -> (int, int) {
        (self.rhs(r).num * self.at(r, c).den, self.rhs(r).den * self.at(r, c).num)
    }

    /// `rhs(r1)/at(r1,c) <= rhs(r2)/at(r2,c)`, cross-multiplied so it is
    /// meaningful for exact rationals with positive pivot entries.
    pub open spec fn ratio_le(self, r1: int, r2: int, c: int) -> bool {
        self.ratio_pair(r1, c).0 * self.ratio_pair(r2, c).1 <= self.ratio_pair(r2, c).0
            * self.ratio_pair(r1, c).1
    }

    /// Strict version of `ratio_le`.
    pub open spec fn ratio_lt(self, r1: int, r2: int, c: int) -> bool {
        self.ratio_pair(r1, c).0 * self.ratio_pair(r2, c).1 < self.ratio_pair(r2, c).0
            * self.ratio_pair(r1, c).1
    }

    /// `(r, c)` is the pivot the solver selects: the Dantzig column and the
    /// earliest row of minimal ratio.
    pub open spec fn is_pivot(self, r: int, c: int) -> bool {
        &&& self.is_pivot_col(c)
        &&& self.is_candidate(r, c)
        &&& forall|r2: int| #[trigger] self.is_candidate(r2, c) ==> self.ratio_le(r, r2, c)
        &&& forall|r2: int|
            0 <= r2 < r && #[trigger] self.is_candidate(r2, c) ==> self.ratio_lt(r, r2, c)
    }

    /// No row passes the ratio test in column `c`.
    pub open spec fn no_ratio_row(self, c: int) -> bool {
        forall|r: int| 0 <= r < self.row_limit() ==> !#[trigger] self.is_candidate(r, c)
    }

    /// Every entry's numerator magnitude and denominator are at most
    /// `bound`; under such a bound the ratio divisions of a pivot search
    /// provably fit the machine word.
    pub open spec fn entries_bounded(self, bound: int) -> bool {
        forall|r: int, c: int|
            0 <= r < self.rows() && 0 <= c < self.cols() ==> iabs(
                (#[trigger] self.at(r, c)).num as int,
            ) <= bound && self.at(r, c).den <= bound
    }

    /// All constraint rows (every row but the two objective rows) carry a
    /// non-negative right-hand side: the current basis is feasible.
    pub open spec fn feasible_rhs(self) -> bool {
        forall|r: int| 0 <= r < self.rows() - 2 ==> (#[trigger] self.rhs(r)).num >= 0
    }

    /// Fields that a pivot never touches.
    pub open spec fn same_shape(self, other: Matrix) -> bool {
        &&& self.phase == other.phase
        &&& self.variables == other.variables
        &&& self.artificials == other.artificials
        &&& self.rows() == other.rows()
        &&& self.cols() == other.cols()
    }

    pub fn new(data: Vec<Vec<Rat>>, variables: usize, artificials: usize) -> (m: Matrix)
        requires
            data@.len() >= 3,
            data@[0]@.len() >= 2,
            forall|r: int| 0 <= r < data@.len() ==> #[trigger] data@[r]@.len() == data@[0]@.len(),
            forall|r: int, c: int|
                0 <= r < data@.len() && 0 <= c < data@[0]@.len() ==> (#[trigger] data@[r]@[c]).wf(),
            variables + 1 <= data@[0]@.len(),
            artificials + 1 <= data@[0]@.len(),
        ensures
            m.wf(),
            m.phase is One,
            m.data@ == data@,
            m.variables == variables,
            m.artificials == artificials,
    {
        Matrix { phase: Phase::One, variables, artificials, data }
    }

    pub fn get(&self, row: usize, col: usize) -> (v: Rat)
        requires
            self.wf(),
            row < self.rows(),
            col < self.cols(),
        ensures
            v == self.at(row as int, col as int),
            v.wf(),
    {
        self.data[row][col]
    }

    pub fn set(&mut self, row: usize, col: usize, val: Rat)
        requires
            old(self).wf(),
            row < old(self).rows(),
            col < old(self).cols(),
            val.wf(),
        ensures
            final(self).wf(),
            old(self).same_shape(*final(self)),
            final(self).at(row as int, col as int) == val,
            forall|r: int, c: int|
                0 <= r < old(self).rows() && 0 <= c < old(self).cols() && !(r == row && c == col)
                    ==> final(self).at(r, c) == old(self).at(r, c),
    {
        self.data[row][col] = val;
        proof {
            assert forall|r: int, c: int|
                0 <= r < self.rows() && 0 <= c < self.cols() implies (#[trigger] self.at(
                r,
                c,
            )).wf() by {
                if r == row && c == col {
                    assert(self.at(r, c) == val);
                } else {
                    assert(self.at(r, c) == old(self).at(r, c));
                }
            }
        }
    }

    /// Switch to phase two; the matrix contents are untouched.
    pub fn phase_two(&mut self)
        requires
            old(self).wf(),
        ensures
            final(self).wf(),
            final(self).phase is Two,
            final(self).data@ == old(self).data@,
            final(self).variables == old(self).variables,
            final(self).artificials == old(self).artificials,
    {
        self.phase = Phase::Two;
        proof {
            assert forall|r: int, c: int|
                0 <= r < self.rows() && 0 <= c < self.cols() implies (#[trigger] self.at(
                r,
                c,
            )).wf() by {
                assert(self.at(r, c) == old(self).at(r, c));
            }
        }
    }

    /// In phase one a basis counts as a solution only when the artificial
    /// cost (the last right-hand side) is within tolerance of zero; in phase
    /// two any terminal basis is accepted.
    pub fn check_if_we_have_a_solution(&self) -> (r: bool)
        requires
            self.wf(),
        ensures
            r == (self.phase is Two || within_tol(self.rhs(self.rows() - 1))),
    {
        match self.phase {
            Phase::One => {
                let rows = self.data.len();
                let cols = self.data[0].len();
                let last = self.get(rows - 1, cols - 1);
                last.abs_within_tol()
            },
            Phase::Two => true,
        }
    }

    /// Scan the active objective row for the largest strictly positive
    /// coefficient (Dantzig's rule); ties keep the earliest column. `None`
    /// means the active objective is optimal.
    fn find_most_positive_in_bottom_row(&self) -> (found: Option<(usize, Rat)>)
        requires
            self.wf(),
        ensures
            match found {
                Some((c, v)) => self.is_pivot_col(c as int) && v == self.at(
                    self.obj_row(),
                    c as int,
                ),
                None => self.no_pivot_col(),
            },
    {
        let rows = self.data.len();
        let obj: usize = match self.phase {
            Phase::One => rows - 1,
            Phase::Two => rows - 2,
        };
        let cols = self.data[0].len();
        proof {
            assert(self.artificials < cols);
        }
        let limit: usize = match self.phase {
            Phase::One => 1,
            Phase::Two => self.artificials + 1,
        };
        let end = cols - limit;
        let mut found: Option<(usize, Rat)> = None;
        let mut col: usize = 0;
        while col < end
            invariant
                self.wf(),
                obj == self.obj_row(),
                end == self.col_limit(),
                end <= self.cols(),
                col <= end,
                match found {
                    Some((c, v)) => {
                        &&& (c as int) < col
                        &&& v == self.at(obj as int, c as int)
                        &&& v.num > 0
                        &&& forall|j: int|
                            0 <= j < col ==> rat_le(#[trigger] self.at(obj as int, j), v)
                        &&& forall|j: int|
                            0 <= j < c ==> rat_lt(#[trigger] self.at(obj as int, j), v)
                    },
                    None => forall|j: int|
                        0 <= j < col ==> (#[trigger] self.at(obj as int, j)).num <= 0,
                },
            decreases end - col,
        {
            let x = self.get(obj, col);
            if x.num > 0 {
                match found {
                    Some((c, v)) => {
                        if v.lt(&x) {
                            proof {
                                assert forall|j: int| 0 <= j < col + 1 implies rat_le(
                                    #[trigger] self.at(obj as int, j),
                                    x,
                                ) by {
                                    if j < col {
                                        lemma_rat_le_lt_trans(self.at(obj as int, j), v, x);
                                    }
                                }
                                assert forall|j: int| 0 <= j < col implies rat_lt(
                                    #[trigger] self.at(obj as int, j),
                                    x,
                                ) by {
                                    lemma_rat_le_lt_trans(self.at(obj as int, j), v, x);
                                }
                            }
                            found = Some((col, x));
                        } else {
                            proof {
                                assert(rat_le(x, v));
                            }
                        }
                    },
                    None => {
                        proof {
                            assert forall|j: int| 0 <= j < col implies rat_lt(
                                #[trigger] self.at(obj as int, j),
                                x,
                            ) by {
                                crate::rat::lemma_nonpos_le_pos(self.at(obj as int, j), x);
                            }
                        }
                        found = Some((col, x));
                    },
                }
            } else {
                proof {
                    if let Some((c, v)) = found {
                        crate::rat::lemma_nonpos_le_pos(x, v);
                    }
                }
            }
            col += 1;
        }
        found
    }

    /// Select the pivot position: the Dantzig column, then the earliest row
    /// of minimal `rhs / entry` ratio among rows with a strictly positive
    /// entry and a non-negative right-hand side. The three terminal outcomes
    /// are reported apart: a pivot, optimality (no positive objective
    /// coefficient), or unboundedness (a column without any ratio row).
    pub fn find_pivot(&self) -> (res: Result<PivotSelection, SolveError>)
        requires
            self.wf(),
        ensures
            match res {
                Ok(PivotSelection::Pivot(r, c)) => self.is_pivot(r as int, c as int),
                Ok(PivotSelection::Optimal) => self.no_pivot_col(),
                Ok(PivotSelection::Unbounded) => exists|c: int|
                    #[trigger] self.is_pivot_col(c) && self.no_ratio_row(c),
                Err(e) => e is Overflow,
            },
            self.no_pivot_col() ==> res matches Ok(PivotSelection::Optimal),
            self.entries_bounded(0x8000_0000) ==> !(res is Err),
    {
        let col = match self.find_most_positive_in_bottom_row() {
            Some((c, _v)) => {
                proof {
                    // a pivot column exists, so the objective is not optimal
                    assert(self.at(self.obj_row(), c as int).num > 0);
                    assert(!self.no_pivot_col());
                }
                c
            },
            None => {
                return Ok(PivotSelection::Optimal);
            },
        };
        let rows = self.data.len();
        let cols = self.data[0].len();
        let limit: usize = match self.phase {
            Phase::One => 2,
            Phase::Two => 1,
        };
        let end = rows - limit;
        let mut best: Option<(usize, Rat)> = None;
        let mut r: usize = 0;
        while r < end
            invariant
                self.wf(),
                self.is_pivot_col(col as int),
                col < self.cols(),
                end == self.row_limit(),
                end <= self.rows(),
                cols == self.cols(),
                r <= end,
                match best {
                    Some((pr, mr)) => {
                        &&& (pr as int) < r
                        &&& self.is_candidate(pr as int, col as int)
                        &&& mr.wf()
                        &&& is_ratio(
                            mr,
                            self.ratio_pair(pr as int, col as int).0,
                            self.ratio_pair(pr as int, col as int).1,
                        )
                        &&& forall|r2: int|
                            0 <= r2 < r && #[trigger] self.is_candidate(r2, col as int)
                                ==> self.ratio_le(pr as int, r2, col as int)
                        &&& forall|r2: int|
                            0 <= r2 < pr && #[trigger] self.is_candidate(r2, col as int)
                                ==> self.ratio_lt(pr as int, r2, col as int)
                    },
                    None => forall|r2: int|
                        0 <= r2 < r ==> !#[trigger] self.is_candidate(r2, col as int),
                },
            decreases end - r,
        {
            let a = self.get(r, col);
            let b = self.get(r, cols - 1);
            if a.num > 0 && b.num >= 0 {
                let ratio = match b.div(&a) {
                    Some(q) => q,
                    None => {
                        proof {
                            // with entries bounded by 2^31 the cross
                            // products fit i64, so the division succeeds
                            if self.entries_bounded(0x8000_0000) {
                                lemma_mul_le_bound(b.num as int, a.den as int, 0x8000_0000);
                                lemma_mul_le_bound(b.den as int, a.num as int, 0x8000_0000);
                            }
                        }
                        return Err(SolveError::Overflow);
                    },
                };
                proof {
                    assert(self.is_candidate(r as int, col as int));
                    lemma_mul_sign(b.den as int, a.num as int);
                }
                match best {
                    Some((pr, mr)) => {
                        proof {
                            lemma_mul_sign(
                                self.rhs(pr as int).den as int,
                                self.at(pr as int, col as int).num as int,
                            );
                        }
                        if ratio.lt(&mr) {
                            proof {
                                lemma_ratio_cmp(
                                    ratio,
                                    mr,
                                    self.ratio_pair(r as int, col as int).0,
                                    self.ratio_pair(r as int, col as int).1,
                                    self.ratio_pair(pr as int, col as int).0,
                                    self.ratio_pair(pr as int, col as int).1,
                                );
                                assert(self.ratio_lt(r as int, pr as int, col as int));
                                assert forall|r2: int|
                                    0 <= r2 < r && #[trigger] self.is_candidate(
                                        r2,
                                        col as int,
                                    ) implies self.ratio_lt(r as int, r2, col as int) by {
                                    lemma_mul_sign(
                                        self.rhs(r2).den as int,
                                        self.at(r2, col as int).num as int,
                                    );
                                    lemma_frac_trans_lt_le(
                                        self.ratio_pair(r as int, col as int).0,
                                        self.ratio_pair(r as int, col as int).1,
                                        self.ratio_pair(pr as int, col as int).0,
                                        self.ratio_pair(pr as int, col as int).1,
                                        self.ratio_pair(r2, col as int).0,
                                        self.ratio_pair(r2, col as int).1,
                                    );
                                }
                            }
                            best = Some((r, ratio));
                        } else {
                            proof {
                                lemma_ratio_cmp(
                                    mr,
                                    ratio,
                                    self.ratio_pair(pr as int, col as int).0,
                                    self.ratio_pair(pr as int, col as int).1,
                                    self.ratio_pair(r as int, col as int).0,
                                    self.ratio_pair(r as int, col as int).1,
                                );
                                assert(self.ratio_le(pr as int, r as int, col as int));
                            }
                        }
                    },
                    None => {
                        best = Some((r, ratio));
                    },
                }
            } else {
                proof {
                    assert(!self.is_candidate(r as int, col as int));
                }
            }
            r += 1;
        }
        match best {
            Some((pr, _mr)) => Ok(PivotSelection::Pivot(pr, col)),
            None => {
                proof {
                    assert(self.is_pivot_col(col as int) && self.no_ratio_row(col as int));
                }
                Ok(PivotSelection::Unbounded)
            },
        }
    }

    /// The exact value pivoting at `(pr, pc)` gives entry `(r, c)`: the
    /// pivot row is divided by the pivot value; every other updated row has
    /// its pivot-column coefficient times the normalized pivot row
    /// subtracted, which zeroes that coefficient.
    pub open spec fn pivot_target(self, pr: int, pc: int, r: int, c: int) -> (int, int) {
        if r == pr {
            qdiv(qv(self.at(pr, c)), qv(self.at(pr, pc)))
        } else {
            qsub(
                qv(self.at(r, c)),
                qmul(qv(self.at(r, pc)), qdiv(qv(self.at(pr, c)), qv(self.at(pr, pc)))),
            )
        }
    }

    /// One Gauss-Jordan elimination step at the given position. Rows past
    /// `update_rows` (the retired objective row in phase two) are untouched.
    /// On `Err` the tableau may be partially rewritten but stays
    /// well-formed; the solve is abandoned anyway.
    pub fn pivot(&mut self, pivot: (usize, usize)) -> (res: Result<(), SolveError>)
        requires
            old(self).wf(),
            (pivot.0 as int) < old(self).row_limit(),
            (pivot.1 as int) < old(self).cols(),
            old(self).at(pivot.0 as int, pivot.1 as int).num != 0,
        ensures
            final(self).wf(),
            old(self).same_shape(*final(self)),
            match res {
                Ok(()) => {
                    &&& forall|r: int, c: int|
                        0 <= r < old(self).update_rows() && 0 <= c < old(self).cols() ==> qeq(
                            qv(#[trigger] final(self).at(r, c)),
                            old(self).pivot_target(pivot.0 as int, pivot.1 as int, r, c),
                        )
                    &&& forall|r: int, c: int|
                        old(self).update_rows() <= r < old(self).rows() && 0 <= c < old(
                            self,
                        ).cols() ==> #[trigger] final(self).at(r, c) == old(self).at(r, c)
                    &&& old(self).feasible_rhs() && old(self).is_pivot(
                        pivot.0 as int,
                        pivot.1 as int,
                    ) ==> final(self).feasible_rhs()
                },
                Err(e) => e is Overflow,
            },
    {
        let (pivot_row, pivot_col) = pivot;
        let pivot_val = self.get(pivot_row, pivot_col);
        let num_rows: usize = match self.phase {
            Phase::One => self.data.len(),
            Phase::Two => self.data.len() - 1,
        };
        let num_cols = self.data[0].len();
        let ghost pr = pivot_row as int;
        let ghost pc = pivot_col as int;
        // normalize the pivot row so the pivot entry becomes exactly 1
        let mut c: usize = 0;
        while c < num_cols
            invariant
                self.wf(),
                old(self).same_shape(*self),
                pr == pivot_row as int,
                pc == pivot_col as int,
                pivot_val == old(self).at(pr, pc),
                pivot_val.wf(),
                pivot_val.num != 0,
                pr < self.rows(),
                0 <= pc < self.cols(),
                c <= num_cols,
                num_cols == self.cols(),
                forall|j: int|
                    0 <= j < c ==> qeq(
                        qv(#[trigger] self.at(pr, j)),
                        old(self).pivot_target(pr, pc, pr, j),
                    ),
                forall|j: int| c <= j < self.cols() ==> #[trigger] self.at(pr, j) == old(
                    self,
                ).at(pr, j),
                forall|r: int, j: int|
                    0 <= r < self.rows() && r != pr && 0 <= j < self.cols()
                        ==> #[trigger] self.at(r, j) == old(self).at(r, j),
            decreases num_cols - c,
        {
            let t = match self.get(pivot_row, c).div(&pivot_val) {
                Some(t) => t,
                None => {
                    return Err(SolveError::Overflow);
                },
            };
            self.set(pivot_row, c, t);
            c += 1;
        }
        // subtract multiples of the normalized pivot row from the other rows
        let mut row: usize = 0;
        while row < num_rows
            invariant
                self.wf(),
                old(self).same_shape(*self),
                pr == pivot_row as int,
                pc == pivot_col as int,
                pivot_val == old(self).at(pr, pc),
                pivot_val.wf(),
                pivot_val.num != 0,
                pr < self.rows(),
                0 <= pc < self.cols(),
                row <= num_rows,
                num_rows == old(self).update_rows(),
                num_cols == self.cols(),
                forall|j: int|
                    0 <= j < self.cols() ==> qeq(
                        qv(#[trigger] self.at(pr, j)),
                        old(self).pivot_target(pr, pc, pr, j),
                    ),
                forall|r: int, j: int|
                    0 <= r < row && r != pr && 0 <= j < self.cols() ==> qeq(
                        qv(#[trigger] self.at(r, j)),
                        old(self).pivot_target(pr, pc, r, j),
                    ),
                forall|r: int, j: int|
                    row <= r < self.rows() && r != pr && 0 <= j < self.cols()
                        ==> #[trigger] self.at(r, j) == old(self).at(r, j),
            decreases num_rows - row,
        {
            if row != pivot_row {
                let ratio = self.get(row, pivot_col);
                let mut c2: usize = 0;
                while c2 < num_cols
                    invariant
                        self.wf(),
                        old(self).same_shape(*self),
                        pr == pivot_row as int,
                        pc == pivot_col as int,
                        pivot_val == old(self).at(pr, pc),
                        pivot_val.wf(),
                        pivot_val.num != 0,
                        pr < self.rows(),
                        0 <= pc < self.cols(),
                        row < num_rows,
                        row != pivot_row,
                        num_rows == old(self).update_rows(),
                        num_rows <= self.rows(),
                        c2 <= num_cols,
                        num_cols == self.cols(),
                        ratio == old(self).at(row as int, pc),
                        ratio.wf(),
                        forall|j: int|
                            0 <= j < self.cols() ==> qeq(
                                qv(#[trigger] self.at(pr, j)),
                                old(self).pivot_target(pr, pc, pr, j),
                            ),
                        forall|r: int, j: int|
                            0 <= r < row && r != pr && 0 <= j < self.cols() ==> qeq(
                                qv(#[trigger] self.at(r, j)),
                                old(self).pivot_target(pr, pc, r, j),
                            ),
                        forall|j: int|
                            0 <= j < c2 ==> qeq(
                                qv(#[trigger] self.at(row as int, j)),
                                old(self).pivot_target(pr, pc, row as int, j),
                            ),
                        forall|j: int|
                            c2 <= j < self.cols() ==> #[trigger] self.at(row as int, j) == old(
                                self,
                            ).at(row as int, j),
                        forall|r: int, j: int|
                            row < r < self.rows() && r != pr && 0 <= j < self.cols()
                                ==> #[trigger] self.at(r, j) == old(self).at(r, j),
                    decreases num_cols - c2,
                {
                    let t = self.get(pivot_row, c2);
                    let m = match ratio.mul(&t) {
                        Some(m) => m,
                        None => {
                            return Err(SolveError::Overflow);
                        },
                    };
                    let cur = self.get(row, c2);
                    let e = match cur.sub(&m) {
                        Some(e) => e,
                        None => {
                            return Err(SolveError::Overflow);
                        },
                    };
                    proof {
                        let p_div = qdiv(qv(old(self).at(pr, c2 as int)), qv(pivot_val));
                        lemma_mul_sign(ratio.den as int, t.den as int);
                        lemma_qeq_mul_r(qv(ratio), qv(t), p_div);
                        lemma_qeq_trans(qv(m), qmul(qv(ratio), qv(t)), qmul(qv(ratio), p_div));
                        lemma_mul_sign(cur.den as int, m.den as int);
                        lemma_qeq_sub_r(qv(cur), qv(m), qmul(qv(ratio), p_div));
                        lemma_qeq_trans(
                            qv(e),
                            qsub(qv(cur), qv(m)),
                            qsub(qv(cur), qmul(qv(ratio), p_div)),
                        );
                    }
                    self.set(row, c2, e);
                    c2 += 1;
                }
            }
            row += 1;
        }
        proof {
            if old(self).feasible_rhs() && old(self).is_pivot(pr, pc) {
                let rhs_col = self.cols() - 1;
                assert forall|r: int| 0 <= r < self.rows() - 2 implies (#[trigger] self.rhs(
                    r,
                )).num >= 0 by {
                    if r == pr {
                        lemma_mul_sign(
                            old(self).rhs(pr).num as int,
                            old(self).at(pr, pc).den as int,
                        );
                        lemma_mul_sign(
                            old(self).rhs(pr).den as int,
                            old(self).at(pr, pc).num as int,
                        );
                        crate::rat::lemma_qeq_sign(
                            self.rhs(pr),
                            old(self).pivot_target(pr, pc, pr, rhs_col),
                        );
                    } else {
                        if old(self).at(r, pc).num > 0 {
                            assert(old(self).is_candidate(r, pc));
                        }
                        crate::rat::lemma_pivot_rhs_sign(
                            old(self).rhs(r),
                            old(self).at(r, pc),
                            old(self).rhs(pr),
                            old(self).at(pr, pc),
                        );
                        crate::rat::lemma_qeq_sign(
                            self.rhs(r),
                            old(self).pivot_target(pr, pc, r, rhs_col),
                        );
                    }
                }
            }
        }
        Ok(())
    }

    /// Drive the tableau to a terminal basis: select and execute pivots up
    /// to a hard iteration cap (cycling is not otherwise prevented). On a
    /// terminal basis, phase one accepts the result only when the
    /// artificial cost is within tolerance of zero; phase two accepts any
    /// terminal basis. Feasibility of the constraint rows is preserved.
    pub fn solve(&mut self) -> (res: Result<(), SolveError>)
        requires
            old(self).wf(),
        ensures
            final(self).wf(),
            old(self).same_shape(*final(self)),
            res matches Err(e) ==> (e is Infeasible || e is IterationLimit || e is Overflow),
            old(self).no_pivot_col() ==> *final(self) == *old(self) && (res is Ok
                || res matches Err(SolveError::Infeasible)),
            match res {
                Ok(()) => {
                    &&& final(self).no_pivot_col() || exists|c: int|
                        #[trigger] final(self).is_pivot_col(c) && final(self).no_ratio_row(c)
                    &&& final(self).phase is One ==> within_tol(
                        final(self).rhs(final(self).rows() - 1),
                    )
                    &&& old(self).feasible_rhs() ==> final(self).feasible_rhs()
                },
                Err(e) => match e {
                    SolveError::Infeasible => final(self).phase is One && !within_tol(
                        final(self).rhs(final(self).rows() - 1),
                    ) && (old(self).feasible_rhs() ==> final(self).feasible_rhs()),
                    SolveError::IterationLimit => old(self).feasible_rhs()
                        ==> final(self).feasible_rhs(),
                    _ => true,
                },
            },
    {
        let mut iter: usize = 0;
        while iter < 1000000
            invariant
                self.wf(),
                old(self).same_shape(*self),
                old(self).feasible_rhs() ==> self.feasible_rhs(),
                old(self).no_pivot_col() ==> *self == *old(self) && iter == 0,
                iter <= 1000000,
            decreases 1000000 - iter,
        {
            let pivot = match self.find_pivot() {
                Ok(p) => p,
                Err(e) => {
                    proof {
                        // a tableau without a pivot column is answered
                        // before any division, so no error can come of it
                        assert(!old(self).no_pivot_col());
                    }
                    return Err(e);
                },
            };
            match pivot {
                PivotSelection::Pivot(r, c) => {
                    proof {
                        if old(self).no_pivot_col() {
                            assert(self.is_pivot_col(c as int));
                            assert(false);
                        }
                    }
                    match self.pivot((r, c)) {
                        Ok(()) => {},
                        Err(e) => {
                            return Err(e);
                        },
                    }
                },
                _ => {
                    if self.check_if_we_have_a_solution() {
                        return Ok(());
                    } else {
                        return Err(SolveError::Infeasible);
                    }
                },
            }
            iter += 1;
        }
        Err(SolveError::IterationLimit)
    }

    /// Column `c` holds exactly one nonzero entry, in row `r0`.
    pub open spec fn lone_nonzero(self, c: int, r0: int) -> bool {
        &&& 0 <= r0 < self.rows()
        &&& self.at(r0, c).num != 0
        &&& forall|r: int|
            0 <= r < self.rows() && r != r0 ==> (#[trigger] self.at(r, c)).num == 0
    }

    /// Read the decision variables off the tableau. A column with exactly
    /// one nonzero entry is basic: that entry must be 1 and the value is
    /// that row's right-hand side; a lone entry other than 1 marks a
    /// malformed tableau and is reported rather than coerced to zero. A
    /// column with no or several nonzero entries is non-basic and reads as
    /// zero.
    pub fn get_solution(&self) -> (res: Result<Vec<Rat>, SolveError>)
        requires
            self.wf(),
        ensures
            match res {
                Ok(sol) => {
                    &&& sol@.len() == self.variables
                    &&& forall|c: int| 0 <= c < self.variables ==> (#[trigger] sol@[c]).wf()
                    &&& forall|c: int, r0: int|
                        0 <= c < self.variables && #[trigger] self.lone_nonzero(c, r0)
                            ==> self.at(r0, c).num == self.at(r0, c).den && sol@[c] == self.rhs(
                            r0,
                        )
                    &&& forall|c: int|
                        0 <= c < self.variables && (forall|r0: int|
                            !#[trigger] self.lone_nonzero(c, r0)) ==> (#[trigger] sol@[c]).num
                            == 0
                },
                Err(e) => e is MalformedColumn && exists|c: int, r0: int|
                    0 <= c < self.variables && #[trigger] self.lone_nonzero(c, r0) && self.at(
                        r0,
                        c,
                    ).num != self.at(r0, c).den,
            },
    {
        let num_rows = self.data.len();
        let num_cols = self.data[0].len();
        let nv = self.variables;
        let mut solution: Vec<Rat> = Vec::new();
        let mut col: usize = 0;
        while col < nv
            invariant
                self.wf(),
                nv == self.variables,
                num_rows == self.rows(),
                num_cols == self.cols(),
                nv < num_cols,
                col <= nv,
                solution@.len() == col,
                forall|c: int| 0 <= c < col ==> (#[trigger] solution@[c]).wf(),
                forall|c: int, r0: int|
                    0 <= c < col && #[trigger] self.lone_nonzero(c, r0) ==> self.at(r0, c).num
                        == self.at(r0, c).den && solution@[c] == self.rhs(r0),
                forall|c: int|
                    0 <= c < col && (forall|r0: int| !#[trigger] self.lone_nonzero(c, r0))
                        ==> (#[trigger] solution@[c]).num == 0,
            decreases nv - col,
        {
            let ghost cc = col as int;
            let mut count: usize = 0;
            let mut found_row: usize = 0;
            let mut row: usize = 0;
            while row < num_rows
                invariant
                    self.wf(),
                    cc == col as int,
                    0 <= cc < self.cols(),
                    num_rows == self.rows(),
                    row <= num_rows,
                    count <= row,
                    count == 0 ==> forall|r: int|
                        0 <= r < row ==> (#[trigger] self.at(r, cc)).num == 0,
                    count == 1 ==> (found_row as int) < row && self.at(found_row as int, cc).num
                        != 0 && forall|r: int|
                        0 <= r < row && r != found_row as int ==> (#[trigger] self.at(
                            r,
                            cc,
                        )).num == 0,
                    count >= 2 ==> exists|r1: int, r2: int|
                        #![trigger self.at(r1, cc), self.at(r2, cc)]
                        0 <= r1 < r2 < row && self.at(r1, cc).num != 0 && self.at(r2, cc).num
                            != 0,
                decreases num_rows - row,
            {
                if self.get(row, col).num != 0 {
                    proof {
                        if count == 1 {
                            assert(self.at(found_row as int, cc).num != 0 && self.at(
                                row as int,
                                cc,
                            ).num != 0 && (found_row as int) < row as int);
                        }
                    }
                    count += 1;
                    found_row = row;
                }
                row += 1;
            }
            if count == 1 {
                let entry = self.get(found_row, col);
                proof {
                    assert(self.lone_nonzero(cc, found_row as int));
                    assert forall|r0: int| #[trigger] self.lone_nonzero(cc, r0) implies r0
                        == found_row as int by {
                        if r0 != found_row as int {
                            assert(self.at(found_row as int, cc).num == 0);
                        }
                    }
                }
                if entry.num == entry.den {
                    let val = self.get(found_row, num_cols - 1);
                    solution.push(val);
                } else {
                    return Err(SolveError::MalformedColumn);
                }
            } else {
                proof {
                    assert forall|r0: int| !#[trigger] self.lone_nonzero(cc, r0) by {
                        if self.lone_nonzero(cc, r0) {
                            if count == 0 {
                                assert(self.at(r0, cc).num == 0);
                            } else {
                                let (r1, r2) = choose|r1: int, r2: int|
                                    #![trigger self.at(r1, cc), self.at(r2, cc)]
                                    0 <= r1 < r2 < num_rows && self.at(r1, cc).num != 0
                                        && self.at(r2, cc).num != 0;
                                if r1 != r0 {
                                    assert(self.at(r1, cc).num == 0);
                                } else {
                                    assert(self.at(r2, cc).num == 0);
                                }
                            }
                        }
                    }
                }
                solution.push(Rat::zero());
            }
            col += 1;
        }
        Ok(solution)
    }
}

/// Law: on a feasible tableau (every constraint row's right-hand side
/// non-negative, as the builder produces and every pivot preserves), a
/// decision variable read off a basic column whose defining row is a
/// constraint row is non-negative: the extracted solution never charges a
/// negative amount.
pub proof fn lemma_solution_nonneg(m: Matrix, c: int, r0: int)
    requires
        m.wf(),
        m.feasible_rhs(),
        m.lone_nonzero(c, r0),
        r0 < m.rows() - 2,
    ensures
        m.rhs(r0).num >= 0,
{
}

/// Law: pivot selection is a function of the tableau value alone — the
/// selected position is unique. Re-running the selection on an unchanged
/// tableau therefore returns the same outcome; in particular, a tableau
/// that reported no pivot (an optimal basis) reports no pivot again.
pub proof fn lemma_pivot_unique(m: Matrix, r1: int, c1: int, r2: int, c2: int)
    requires
        m.wf(),
        m.is_pivot(r1, c1),
        m.is_pivot(r2, c2),
    ensures
        r1 == r2,
        c1 == c2,
{
    if c1 < c2 {
        assert(rat_lt(m.at(m.obj_row(), c1), m.at(m.obj_row(), c2)));
        assert(rat_le(m.at(m.obj_row(), c2), m.at(m.obj_row(), c1)));
        assert(false);
    }
    if c2 < c1 {
        assert(rat_lt(m.at(m.obj_row(), c2), m.at(m.obj_row(), c1)));
        assert(rat_le(m.at(m.obj_row(), c1), m.at(m.obj_row(), c2)));
        assert(false);
    }
    if r1 < r2 {
        assert(m.is_candidate(r1, c1));
        assert(m.ratio_lt(r2, r1, c1));
        assert(m.ratio_le(r1, r2, c1));
        assert(false);
    }
    if r2 < r1 {
        assert(m.is_candidate(r2, c1));
        assert(m.ratio_lt(r1, r2, c1));
        assert(m.ratio_le(r2, r1, c1));
        assert(false);
    }
}

} // verus!
