//! Construction of the canonical simplex tableau for the scheduling
//! problem.
//!
//! Row families, in order: one charge-cap row per under-load interval, one
//! cumulative battery-capacity row per under-load interval, one sufficiency
//! row per over-load interval, the terminal-charge row, the true (price)
//! objective row, and the phase-one intermediate objective row. A row whose
//! right-hand side would be negative is negated and, where the phase-one
//! bootstrap needs it, given an artificial variable; every constraint row
//! of the finished tableau therefore has a non-negative right-hand side.
//! All quantities are exact rationals; `Err` reports only machine-word
//! overflow.

use crate::data::{Config, Data};
use crate::dual_simplex::SolveError;
use crate::rat::{
    is_ratio, lemma_mul_sign, lemma_qeq_add2, lemma_qeq_sign, lemma_qeq_sub2, lemma_qeq_trans,
    lemma_ratio_cmp, qadd, qeq, qle, qlt, qmul, qsub, qv, rat_le, Rat,
};
use vstd::prelude::*;

verus! {

/// The interval gets a decision variable: its power draw is at most the
/// consumption limit.
pub open spec fn is_under(d: Data, mc: Rat) -> bool {
    rat_le(d.power, mc)
}

/// Number of under-load intervals among the first `n`.
pub open spec fn count_under(data: Seq<Data>, mc: Rat, n: int) -> int
    decreases n,
{
    if n <= 0 {
        0
    } else {
        count_under(data, mc, n - 1) + if is_under(data[n - 1], mc) {
            1int
        } else {
            0int
        }
    }
}

/// A quantity per hour, scaled to quarter-hour units.
pub open spec fn q4(r: Rat) -> (int, int) {
    qmul(qv(r), (4int, 1int))
}

/// Total required discharge (power above the consumption limit) over the
/// first `n` intervals, as an exact fraction.
pub open spec fn discharge_sum(data: Seq<Data>, mc: Rat, n: int) -> (int, int)
    decreases n,
{
    if n <= 0 {
        (0int, 1int)
    } else {
        let prev = discharge_sum(data, mc, n - 1);
        if is_under(data[n - 1], mc) {
            prev
        } else {
            qadd(prev, qsub(qv(data[n - 1].power), qv(mc)))
        }
    }
}

/// Right-hand side of the charge-cap row: the smaller of the charge-rate
/// limit and the headroom below the consumption limit.
pub open spec fn cap_limit(config: Config, p: Rat) -> (int, int) {
    let diff = qsub(qv(config.max_consumption), qv(p));
    if qle(qv(config.battery_max_charge), diff) {
        qv(config.battery_max_charge)
    } else {
        diff
    }
}

/// Signed right-hand side of the battery-capacity row of interval `i`
/// (before any negation): capacity plus discharge so far minus the initial
/// charge, in quarter-hour units.
pub open spec fn capacity_limit(data: Seq<Data>, config: Config, i: int) -> (int, int) {
    qadd(
        qsub(q4(config.battery_capacity), q4(config.battery_initial_charge)),
        discharge_sum(data, config.max_consumption, i),
    )
}

/// Signed right-hand side of the sufficiency row of over-load interval
/// `i`: discharge through `i` minus the initial charge.
pub open spec fn sufficiency_limit(data: Seq<Data>, config: Config, i: int) -> (int, int) {
    qsub(discharge_sum(data, config.max_consumption, i + 1), q4(config.battery_initial_charge))
}

/// Signed right-hand side of the terminal-charge row.
pub open spec fn final_limit(data: Seq<Data>, config: Config) -> (int, int) {
    qadd(
        qsub(q4(config.battery_final_charge), q4(config.battery_initial_charge)),
        discharge_sum(data, config.max_consumption, data.len() as int),
    )
}

/// Artificial variables used by the battery-capacity rows of the first `n`
/// intervals: one wherever the signed limit is negative.
pub open spec fn art_count_cap(data: Seq<Data>, config: Config, n: int) -> int
    decreases n,
{
    if n <= 0 {
        0
    } else {
        art_count_cap(data, config, n - 1) + if is_under(data[n - 1], config.max_consumption)
            && qlt(capacity_limit(data, config, n - 1), (0int, 1int)) {
            1int
        } else {
            0int
        }
    }
}

/// Artificial variables used by the sufficiency rows of the first `n`
/// intervals: one wherever the signed limit is non-negative.
pub open spec fn art_count_suff(data: Seq<Data>, config: Config, n: int) -> int
    decreases n,
{
    if n <= 0 {
        0
    } else {
        art_count_suff(data, config, n - 1) + if !is_under(data[n - 1], config.max_consumption)
            && qle((0int, 1int), sufficiency_limit(data, config, n - 1)) {
            1int
        } else {
            0int
        }
    }
}

pub proof fn lemma_count_under_le(data: Seq<Data>, mc: Rat, n: int)
    requires
        0 <= n <= data.len(),
    ensures
        0 <= count_under(data, mc, n) <= n,
    decreases n,
{
    if n > 0 {
        lemma_count_under_le(data, mc, n - 1);
    }
}

pub proof fn lemma_count_under_mono(data: Seq<Data>, mc: Rat, a: int, b: int)
    requires
        0 <= a <= b <= data.len(),
    ensures
        count_under(data, mc, a) <= count_under(data, mc, b),
        count_under(data, mc, b) - count_under(data, mc, a) <= b - a,
    decreases b,
{
    if b > a {
        lemma_count_under_mono(data, mc, a, b - 1);
    }
}

proof fn lemma_art_cap_mono(data: Seq<Data>, config: Config, a: int, b: int)
    requires
        0 <= a <= b,
    ensures
        art_count_cap(data, config, a) <= art_count_cap(data, config, b),
        0 <= art_count_cap(data, config, a) <= a,
        art_count_cap(data, config, b) <= b,
    decreases b,
{
    if b > a {
        lemma_art_cap_mono(data, config, a, b - 1);
    } else if a > 0 {
        lemma_art_cap_mono(data, config, a - 1, a - 1);
    }
}

proof fn lemma_art_suff_mono(data: Seq<Data>, config: Config, a: int, b: int)
    requires
        0 <= a <= b,
    ensures
        art_count_suff(data, config, a) <= art_count_suff(data, config, b),
        0 <= art_count_suff(data, config, a) <= a,
        art_count_suff(data, config, b) <= b,
    decreases b,
{
    if b > a {
        lemma_art_suff_mono(data, config, a, b - 1);
    } else if a > 0 {
        lemma_art_suff_mono(data, config, a - 1, a - 1);
    }
}

proof fn lemma_discharge_den_pos(data: Seq<Data>, mc: Rat, n: int)
    requires
        0 <= n <= data.len(),
        mc.wf(),
        forall|i: int| 0 <= i < data.len() ==> (#[trigger] data[i]).wf(),
    ensures
        discharge_sum(data, mc, n).1 > 0,
    decreases n,
{
    if n > 0 {
        lemma_discharge_den_pos(data, mc, n - 1);
        if !is_under(data[n - 1], mc) {
            lemma_mul_sign(data[n - 1].power.den as int, mc.den as int);
            lemma_mul_sign(
                discharge_sum(data, mc, n - 1).1,
                data[n - 1].power.den * mc.den,
            );
        }
    }
}

proof fn lemma_art_vs_count(data: Seq<Data>, config: Config, n: int)
    requires
        0 <= n,
    ensures
        art_count_cap(data, config, n) <= count_under(data, config.max_consumption, n),
        art_count_suff(data, config, n) <= n - count_under(data, config.max_consumption, n),
    decreases n,
{
    if n > 0 {
        lemma_art_vs_count(data, config, n - 1);
    }
}

/// A row of `cols` exact zeros.
fn zero_row(cols: usize) -> (row: Vec<Rat>)
    ensures
        row@.len() == cols,
        forall|j: int| 0 <= j < cols ==> (#[trigger] row@[j]).num == 0 && row@[j].den == 1,
{
    let mut row: Vec<Rat> = Vec::new();
    let mut j: usize = 0;
    while j < cols
        invariant
            j <= cols,
            row@.len() == j,
            forall|x: int| 0 <= x < j ==> (#[trigger] row@[x]).num == 0 && row@[x].den == 1,
        decreases cols - j,
    {
        row.push(Rat::zero());
        j += 1;
    }
    row
}

/// A row of `cols` zeros except: columns `0..ncoeff` hold `coeff`, column
/// `s_col` holds `s_val`, and the last column holds `rhs`.
fn prefix_row(cols: usize, coeff: Rat, ncoeff: usize, s_col: usize, s_val: Rat, rhs: Rat) -> (row:
    Vec<Rat>)
    requires
        ncoeff <= s_col,
        s_col + 1 < cols,
        coeff.wf(),
        s_val.wf(),
        rhs.wf(),
    ensures
        row@.len() == cols,
        forall|j: int| 0 <= j < cols ==> (#[trigger] row@[j]).wf(),
        forall|j: int| 0 <= j < ncoeff ==> #[trigger] row@[j] == coeff,
        row@[s_col as int] == s_val,
        row@[cols - 1] == rhs,
        forall|j: int|
            ncoeff <= j < cols - 1 && j != s_col ==> (#[trigger] row@[j]).num == 0,
{
    let mut row: Vec<Rat> = Vec::new();
    let mut j: usize = 0;
    while j < cols
        invariant
            j <= cols,
            ncoeff <= s_col,
            s_col + 1 < cols,
            coeff.wf(),
            s_val.wf(),
            rhs.wf(),
            row@.len() == j,
            forall|x: int| 0 <= x < j ==> (#[trigger] row@[x]).wf(),
            forall|x: int| 0 <= x < j && x < ncoeff ==> #[trigger] row@[x] == coeff,
            s_col < j ==> row@[s_col as int] == s_val,
            forall|x: int|
                ncoeff <= x < j && x != s_col && x != cols - 1 ==> (#[trigger] row@[x]).num
                    == 0,
            j == cols ==> row@[cols - 1] == rhs,
        decreases cols - j,
    {
        let v: Rat = if j < ncoeff {
            coeff
        } else if j == s_col {
            s_val
        } else if j == cols - 1 {
            rhs
        } else {
            Rat::zero()
        };
        row.push(v);
        j += 1;
    }
    row
}

/// The charge-cap row of the `k`-th under-load interval `i`: a unit
/// coefficient on its decision variable and slack, and the cap limit on
/// the right-hand side.
pub open spec fn cap_row_ok(
    data: Seq<Data>,
    config: Config,
    nv: int,
    cols: int,
    i: int,
    row: Seq<Rat>,
) -> bool {
    let k = count_under(data, config.max_consumption, i);
    &&& row.len() == cols
    &&& qeq(qv(row[k]), (1int, 1int))
    &&& qeq(qv(row[nv + k]), (1int, 1int))
    &&& qeq(qv(row[cols - 1]), cap_limit(config, data[i].power))
    &&& forall|j: int|
        0 <= j < cols - 1 && j != k && j != nv + k ==> (#[trigger] row[j]).num == 0
}

/// The price objective row: the negated price on each decision variable,
/// zero elsewhere.
pub open spec fn price_row_ok(data: Seq<Data>, config: Config, nv: int, cols: int, row: Seq<
    Rat,
>) -> bool {
    &&& row.len() == cols
    &&& forall|i: int|
        0 <= i < data.len() && is_under(#[trigger] data[i], config.max_consumption) ==> {
            let k = count_under(data, config.max_consumption, i);
            row[k].num == -data[i].price.num && row[k].den == data[i].price.den
        }
    &&& forall|j: int| nv <= j < cols ==> (#[trigger] row[j]).num == 0
}

/// The cumulative battery-capacity row of under-load interval `i` (the
/// `k`-th one): efficiency coefficients on the decision variables up to and
/// including its own, a unit slack, and the signed limit's magnitude on the
/// right-hand side; where the limit is negative the row is negated and an
/// artificial unit is placed in the next free artificial column.
pub open spec fn capacity_row_ok(
    data: Seq<Data>,
    config: Config,
    nv: int,
    cols: int,
    abase: int,
    i: int,
    row: Seq<Rat>,
) -> bool {
    let k = count_under(data, config.max_consumption, i);
    let limit = capacity_limit(data, config, i);
    let neg = qlt(limit, (0int, 1int));
    let a_col = abase + art_count_cap(data, config, i);
    let eff = config.battery_efficiency;
    &&& row.len() == cols
    &&& forall|j: int|
        0 <= j < k + 1 ==> (#[trigger] row[j]).num as int == (if neg {
            -(eff.num as int)
        } else {
            eff.num as int
        }) && row[j].den == eff.den
    &&& row[2 * nv + k].num == (if neg {
        -1int
    } else {
        1int
    }) && row[2 * nv + k].den == 1
    &&& qeq(
        qv(row[cols - 1]),
        if neg {
            (-limit.0, limit.1)
        } else {
            limit
        },
    )
    &&& (neg ==> row[a_col].num == 1 && row[a_col].den == 1)
    &&& forall|j: int|
        k + 1 <= j < cols - 1 && j != 2 * nv + k && !(neg && j == a_col) ==> (#[trigger] row[
            j
        ]).num == 0
}

/// The sufficiency row of over-load interval `i` (the `m`-th one):
/// efficiency coefficients on the decision variables before it, a negative
/// unit slack, and the signed limit on the right-hand side; a non-negative
/// limit takes an artificial unit, a negative one negates the row instead.
#[verifier::opaque]
pub open spec fn sufficiency_row_ok(
    data: Seq<Data>,
    config: Config,
    nv: int,
    cols: int,
    abase: int,
    i: int,
    row: Seq<Rat>,
) -> bool {
    let k = count_under(data, config.max_consumption, i);
    let m = i - k;
    let limit = sufficiency_limit(data, config, i);
    let art = qle((0int, 1int), limit);
    let a_col = abase + art_count_cap(data, config, data.len() as int) + art_count_suff(
        data,
        config,
        i,
    );
    let eff = config.battery_efficiency;
    &&& row.len() == cols
    &&& forall|j: int| 0 <= j < cols ==> (#[trigger] row[j]).wf()
    &&& row[cols - 1].num >= 0
    &&& forall|j: int|
        0 <= j < k ==> (#[trigger] row[j]).num as int == (if art {
            eff.num as int
        } else {
            -(eff.num as int)
        }) && row[j].den == eff.den
    &&& row[3 * nv + m].num == (if art {
        -1int
    } else {
        1int
    }) && row[3 * nv + m].den == 1
    &&& qeq(
        qv(row[cols - 1]),
        if art {
            limit
        } else {
            (-limit.0, limit.1)
        },
    )
    &&& (art ==> row[a_col].num == 1 && row[a_col].den == 1)
    &&& forall|j: int|
        k <= j < cols - 1 && j != 3 * nv + m && !(art && j == a_col) ==> (#[trigger] row[
            j
        ]).num == 0
}

/// The terminal-charge row: efficiency coefficients on every decision
/// variable, the last slack, and the signed limit on the right-hand side;
/// artificial and negation handling as for the sufficiency rows.
pub open spec fn final_row_ok(
    data: Seq<Data>,
    config: Config,
    nv: int,
    cols: int,
    abase: int,
    row: Seq<Rat>,
) -> bool {
    let s_col = 2 * nv + data.len() as int;
    let limit = final_limit(data, config);
    let art = qle((0int, 1int), limit);
    let a_col = abase + art_count_cap(data, config, data.len() as int) + art_count_suff(
        data,
        config,
        data.len() as int,
    );
    let eff = config.battery_efficiency;
    &&& row.len() == cols
    &&& forall|j: int| 0 <= j < cols ==> (#[trigger] row[j]).wf()
    &&& row[cols - 1].num >= 0
    &&& forall|j: int|
        0 <= j < nv ==> (#[trigger] row[j]).num as int == (if art {
            eff.num as int
        } else {
            -(eff.num as int)
        }) && row[j].den == eff.den
    &&& row[s_col].num == (if art {
        -1int
    } else {
        1int
    }) && row[s_col].den == 1
    &&& qeq(
        qv(row[cols - 1]),
        if art {
            limit
        } else {
            (-limit.0, limit.1)
        },
    )
    &&& (art ==> row[a_col].num == 1 && row[a_col].den == 1)
    &&& forall|j: int|
        nv <= j < cols - 1 && j != s_col && !(art && j == a_col) ==> (#[trigger] row[j]).num
            == 0
}


/// Build the sufficiency row of over-load interval `gi` from its signed
/// limit: negation and artificial placement follow the sign of the limit.
fn sufficiency_row(
    cols: usize,
    nv: usize,
    lenu: usize,
    abase: usize,
    na: usize,
    a_col: usize,
    eff: Rat,
    one: Rat,
    discharge: Rat,
    b0: Rat,
    k: usize,
    m: usize,
    Ghost(data): Ghost<Seq<Data>>,
    Ghost(config): Ghost<Config>,
    Ghost(gi): Ghost<int>,
) -> (res: Option<(Vec<Rat>, bool)>)
    requires
        config.wf(),
        eff == config.battery_efficiency,
        one.num == 1 && one.den == 1,
        discharge.wf(),
        b0.wf(),
        qeq(qv(discharge), discharge_sum(data, config.max_consumption, gi + 1)),
        discharge_sum(data, config.max_consumption, gi + 1).1 > 0,
        qeq(qv(b0), q4(config.battery_initial_charge)),
        0 <= gi < data.len(),
        lenu == data.len(),
        k == count_under(data, config.max_consumption, gi),
        k + m == gi,
        m < lenu - nv,
        k <= nv,
        nv == count_under(data, config.max_consumption, lenu as int),
        cols == 2 * nv + lenu + na + 2,
        abase == 2 * nv + lenu + 1,
        a_col == abase + art_count_cap(data, config, lenu as int) + art_count_suff(
            data,
            config,
            gi,
        ),
        abase <= a_col,
        qle((0int, 1int), sufficiency_limit(data, config, gi)) ==> a_col < cols - 1,
    ensures
        res matches Some((row, used)) ==> row@.len() == cols && (forall|j: int|
            0 <= j < cols ==> (#[trigger] row@[j]).wf()) && row@[cols - 1].num >= 0
            && sufficiency_row_ok(
            data,
            config,
            nv as int,
            cols as int,
            abase as int,
            gi,
            row@,
        ) && (used <==> qle((0int, 1int), sufficiency_limit(data, config, gi))),
{
    let slimit = match discharge.sub(&b0) {
        Some(v) => v,
        None => {
            return None;
        },
    };
    proof {
        lemma_mul_sign(discharge.den as int, b0.den as int);
        lemma_qeq_sub2(
            qv(discharge),
            discharge_sum(data, config.max_consumption, gi + 1),
            qv(b0),
            q4(config.battery_initial_charge),
        );
        lemma_mul_sign(
            discharge_sum(data, config.max_consumption, gi + 1).1,
            config.battery_initial_charge.den as int,
        );
        lemma_qeq_trans(
            qv(slimit),
            qsub(qv(discharge), qv(b0)),
            sufficiency_limit(data, config, gi),
        );
        lemma_qeq_sign(slimit, sufficiency_limit(data, config, gi));
        let sl = sufficiency_limit(data, config, gi);
        if slimit.num >= 0 {
            assert(sl.0 >= 0);
            assert(qle((0int, 1int), sl)) by (nonlinear_arith)
                requires
                    sl.0 >= 0;
        } else {
            assert(sl.0 < 0);
            assert(!qle((0int, 1int), sl)) by (nonlinear_arith)
                requires
                    sl.0 < 0;
            assert((-(slimit.num as int)) * sl.1 == (-sl.0) * (slimit.den as int))
                by (nonlinear_arith)
                requires
                    (slimit.num as int) * sl.1 == sl.0 * (slimit.den as int);
        }
    }
    let used = slimit.num >= 0;
    let row = if used {
        let mut row = prefix_row(cols, eff, k, 3 * nv + m, one.neg(), slimit);
        row[a_col] = one;
        row
    } else {
        prefix_row(cols, eff.neg(), k, 3 * nv + m, one, slimit.neg())
    };
    proof {
        reveal(sufficiency_row_ok);
        assert(sufficiency_row_ok(data, config, nv as int, cols as int, abase as int, gi,
            row@));
    }
    Some((row, used))
}

/// Law: the construction is deterministic wherever its contract pins the
/// content. Any two tableaus built from the same input agree, entry for
/// entry as rational numbers, on each charge-cap row; the capacity,
/// sufficiency, terminal-charge and price rows and the artificial count are
/// pinned to exact values by the builder's contract in the same way, so
/// identical inputs reproduce the same numeric tableau on every row but the
/// phase-one intermediate objective row.
pub proof fn lemma_cap_row_determined(
    data: Seq<Data>,
    config: Config,
    nv: int,
    cols: int,
    i: int,
    row1: Seq<Rat>,
    row2: Seq<Rat>,
)
    requires
        config.wf(),
        0 <= i < data.len(),
        forall|x: int| 0 <= x < data.len() ==> (#[trigger] data[x]).wf(),
        is_under(data[i], config.max_consumption),
        0 <= count_under(data, config.max_consumption, i),
        count_under(data, config.max_consumption, i) < nv,
        2 * nv < cols - 1,
        cap_row_ok(data, config, nv, cols, i, row1),
        cap_row_ok(data, config, nv, cols, i, row2),
    ensures
        forall|j: int| 0 <= j < cols ==> qeq(qv(#[trigger] row1[j]), qv(row2[j])),
{
    let k = count_under(data, config.max_consumption, i);
    let limit = cap_limit(config, data[i].power);
    lemma_mul_sign(config.max_consumption.den as int, data[i].power.den as int);
    assert(limit.1 > 0);
    assert forall|j: int| 0 <= j < cols implies qeq(qv(#[trigger] row1[j]), qv(row2[j])) by {
        if j == k || j == nv + k {
            lemma_qeq_trans(qv(row1[j]), (1int, 1int), qv(row2[j]));
        } else if j == cols - 1 {
            lemma_qeq_trans(qv(row1[j]), limit, qv(row2[j]));
        } else {
            lemma_mul_sign(row1[j].num as int, row2[j].den as int);
            lemma_mul_sign(row2[j].num as int, row1[j].den as int);
        }
    }
}

/// Build the tableau. The result is the dense matrix together with the
/// number of decision variables and of artificial variables actually used.
/// `Err` reports only machine-word overflow of the exact arithmetic.
#[verifier::rlimit(100)]
pub fn build_tableau(data: &Vec<Data>, config: &Config) -> (res: Result<
    (Vec<Vec<Rat>>, usize, usize),
    SolveError,
>)
    requires
        1 <= data@.len() <= 0x10000000,
        forall|i: int| 0 <= i < data@.len() ==> (#[trigger] data@[i]).wf(),
        config.wf(),
        config.battery_max_charge.num >= 0,
    ensures
        match res {
            Ok((t, nv, na)) => {
                let len = data@.len() as int;
                let cols = 2 * nv + len + na + 2;
                &&& nv == count_under(data@, config.max_consumption, len)
                &&& na == art_count_cap(data@, *config, len) + art_count_suff(
                    data@,
                    *config,
                    len,
                ) + (if qle((0int, 1int), final_limit(data@, *config)) {
                    1int
                } else {
                    0int
                })
                &&& na <= len + 1
                &&& t@.len() == len + nv + 3
                &&& forall|r: int| 0 <= r < t@.len() ==> (#[trigger] t@[r]@).len() == cols
                &&& forall|r: int, j: int|
                    0 <= r < t@.len() && 0 <= j < cols ==> (#[trigger] t@[r]@[j]).wf()
                &&& forall|r: int|
                    0 <= r < t@.len() - 2 ==> (#[trigger] t@[r]@[cols - 1]).num >= 0
                &&& forall|i: int|
                    0 <= i < len && is_under(#[trigger] data@[i], config.max_consumption)
                        ==> cap_row_ok(
                        data@,
                        *config,
                        nv as int,
                        cols,
                        i,
                        t@[count_under(data@, config.max_consumption, i)]@,
                    )
                &&& forall|i: int|
                    0 <= i < len && is_under(#[trigger] data@[i], config.max_consumption)
                        ==> capacity_row_ok(
                        data@,
                        *config,
                        nv as int,
                        cols,
                        2 * nv + len + 1,
                        i,
                        t@[nv + count_under(data@, config.max_consumption, i)]@,
                    )
                &&& forall|i: int|
                    0 <= i < len && !is_under(#[trigger] data@[i], config.max_consumption)
                        ==> sufficiency_row_ok(
                        data@,
                        *config,
                        nv as int,
                        cols,
                        2 * nv + len + 1,
                        i,
                        t@[2 * nv + i - count_under(data@, config.max_consumption, i)]@,
                    )
                &&& final_row_ok(
                    data@,
                    *config,
                    nv as int,
                    cols,
                    2 * nv + len + 1,
                    t@[nv + len]@,
                )
                &&& price_row_ok(data@, *config, nv as int, cols, t@[t@.len() - 2]@)
            },
            Err(e) => e is Overflow,
        },
{
    let len = data.len();
    let mc = config.max_consumption;
    let eff = config.battery_efficiency;
    let four = Rat::from_int(4);
    let b0 = match config.battery_initial_charge.mul(&four) {
        Some(v) => v,
        None => {
            return Err(SolveError::Overflow);
        },
    };
    let bmax = match config.battery_capacity.mul(&four) {
        Some(v) => v,
        None => {
            return Err(SolveError::Overflow);
        },
    };
    let bfinal = match config.battery_final_charge.mul(&four) {
        Some(v) => v,
        None => {
            return Err(SolveError::Overflow);
        },
    };
    let bdiff = match bmax.sub(&b0) {
        Some(v) => v,
        None => {
            return Err(SolveError::Overflow);
        },
    };
    let fdiff = match bfinal.sub(&b0) {
        Some(v) => v,
        None => {
            return Err(SolveError::Overflow);
        },
    };
    proof {
        lemma_mul_sign(bmax.den as int, b0.den as int);
        lemma_mul_sign(bfinal.den as int, b0.den as int);
        lemma_qeq_sub2(qv(bmax), q4(config.battery_capacity), qv(b0), q4(
            config.battery_initial_charge,
        ));
        lemma_qeq_trans(
            qv(bdiff),
            qsub(qv(bmax), qv(b0)),
            qsub(q4(config.battery_capacity), q4(config.battery_initial_charge)),
        );
        lemma_qeq_sub2(qv(bfinal), q4(config.battery_final_charge), qv(b0), q4(
            config.battery_initial_charge,
        ));
        lemma_qeq_trans(
            qv(fdiff),
            qsub(qv(bfinal), qv(b0)),
            qsub(q4(config.battery_final_charge), q4(config.battery_initial_charge)),
        );
    }
    // first pass: count decision variables and artificial variables
    let mut nv: usize = 0;
    let mut na_cap: usize = 0;
    let mut na_suff: usize = 0;
    let mut discharge = Rat::zero();
    let mut i: usize = 0;
    while i < len
        invariant
            len == data@.len(),
            1 <= len <= 0x10000000,
            forall|x: int| 0 <= x < len ==> (#[trigger] data@[x]).wf(),
            config.wf(),
            mc == config.max_consumption,
            i <= len,
            nv == count_under(data@, mc, i as int),
            na_cap == art_count_cap(data@, *config, i as int),
            na_suff == art_count_suff(data@, *config, i as int),
            discharge.wf(),
            qeq(qv(discharge), discharge_sum(data@, mc, i as int)),
            bdiff.wf(),
            qeq(
                qv(bdiff),
                qsub(q4(config.battery_capacity), q4(config.battery_initial_charge)),
            ),
            b0.wf(),
            qeq(qv(b0), q4(config.battery_initial_charge)),
        decreases len - i,
    {
        proof {
            lemma_count_under_le(data@, mc, i as int);
            lemma_art_cap_mono(data@, *config, 0, i as int);
            lemma_art_suff_mono(data@, *config, 0, i as int);
            lemma_discharge_den_pos(data@, mc, i as int);
        }
        let d = data[i];
        if d.power.le(&mc) {
            let limit = match bdiff.add(&discharge) {
                Some(v) => v,
                None => {
                    return Err(SolveError::Overflow);
                },
            };
            proof {
                lemma_mul_sign(
                    config.battery_capacity.den as int,
                    config.battery_initial_charge.den as int,
                );
                lemma_mul_sign(bdiff.den as int, discharge.den as int);
                lemma_qeq_add2(
                    qv(bdiff),
                    qsub(q4(config.battery_capacity), q4(config.battery_initial_charge)),
                    qv(discharge),
                    discharge_sum(data@, mc, i as int),
                );
                lemma_qeq_trans(
                    qv(limit),
                    qadd(qv(bdiff), qv(discharge)),
                    capacity_limit(data@, *config, i as int),
                );
                lemma_mul_sign(
                    config.battery_capacity.den * config.battery_initial_charge.den,
                    discharge_sum(data@, mc, i as int).1,
                );
                lemma_qeq_sign(limit, capacity_limit(data@, *config, i as int));
            }
            proof {
                assert(art_count_cap(data@, *config, i as int + 1) == art_count_cap(
                    data@,
                    *config,
                    i as int,
                ) + if qlt(capacity_limit(data@, *config, i as int), (0int, 1int)) {
                    1int
                } else {
                    0int
                });
                assert(art_count_suff(data@, *config, i as int + 1) == art_count_suff(
                    data@,
                    *config,
                    i as int,
                ));
            }
            if limit.num < 0 {
                proof {
                    let ghost p = capacity_limit(data@, *config, i as int);
                    assert(p.0 < 0);
                    assert(qlt(p, (0int, 1int))) by (nonlinear_arith)
                        requires
                            p.0 < 0;
                }
                na_cap += 1;
            } else {
                proof {
                    let ghost p = capacity_limit(data@, *config, i as int);
                    assert(p.0 >= 0);
                    assert(!qlt(p, (0int, 1int))) by (nonlinear_arith)
                        requires
                            p.0 >= 0;
                }
            }
            proof {
                assert(na_cap == art_count_cap(data@, *config, i as int + 1));
            }
            nv += 1;
        } else {
            let delta = match d.power.sub(&mc) {
                Some(v) => v,
                None => {
                    return Err(SolveError::Overflow);
                },
            };
            let d2 = match discharge.add(&delta) {
                Some(v) => v,
                None => {
                    return Err(SolveError::Overflow);
                },
            };
            proof {
                lemma_mul_sign(discharge.den as int, delta.den as int);
                lemma_mul_sign(d.power.den as int, mc.den as int);
                lemma_qeq_add2(
                    qv(discharge),
                    discharge_sum(data@, mc, i as int),
                    qv(delta),
                    qsub(qv(d.power), qv(mc)),
                );
                lemma_qeq_trans(
                    qv(d2),
                    qadd(qv(discharge), qv(delta)),
                    discharge_sum(data@, mc, i as int + 1),
                );
            }
            discharge = d2;
            let slimit = match discharge.sub(&b0) {
                Some(v) => v,
                None => {
                    return Err(SolveError::Overflow);
                },
            };
            proof {
                lemma_discharge_den_pos(data@, mc, i as int + 1);
                lemma_mul_sign(discharge.den as int, b0.den as int);
                lemma_qeq_sub2(
                    qv(discharge),
                    discharge_sum(data@, mc, i as int + 1),
                    qv(b0),
                    q4(config.battery_initial_charge),
                );
                lemma_qeq_trans(
                    qv(slimit),
                    qsub(qv(discharge), qv(b0)),
                    sufficiency_limit(data@, *config, i as int),
                );
                lemma_discharge_den_pos(data@, mc, i as int + 1);
                lemma_mul_sign(
                    discharge_sum(data@, mc, i as int + 1).1,
                    config.battery_initial_charge.den as int,
                );
                lemma_qeq_sign(slimit, sufficiency_limit(data@, *config, i as int));
            }
            proof {
                assert(art_count_suff(data@, *config, i as int + 1) == art_count_suff(
                    data@,
                    *config,
                    i as int,
                ) + if qle((0int, 1int), sufficiency_limit(data@, *config, i as int)) {
                    1int
                } else {
                    0int
                });
                assert(art_count_cap(data@, *config, i as int + 1) == art_count_cap(
                    data@,
                    *config,
                    i as int,
                ));
            }
            if slimit.num >= 0 {
                na_suff += 1;
            }
        }
        i += 1;
    }
    let flimit = match fdiff.add(&discharge) {
        Some(v) => v,
        None => {
            return Err(SolveError::Overflow);
        },
    };
    proof {
        lemma_discharge_den_pos(data@, mc, len as int);
        lemma_mul_sign(
            config.battery_final_charge.den as int,
            config.battery_initial_charge.den as int,
        );
        lemma_mul_sign(fdiff.den as int, discharge.den as int);
        lemma_qeq_add2(
            qv(fdiff),
            qsub(q4(config.battery_final_charge), q4(config.battery_initial_charge)),
            qv(discharge),
            discharge_sum(data@, mc, len as int),
        );
        lemma_qeq_trans(
            qv(flimit),
            qadd(qv(fdiff), qv(discharge)),
            final_limit(data@, *config),
        );
        lemma_mul_sign(
            config.battery_final_charge.den * config.battery_initial_charge.den,
            discharge_sum(data@, mc, len as int).1,
        );
        lemma_qeq_sign(flimit, final_limit(data@, *config));
        lemma_count_under_le(data@, mc, len as int);
        lemma_art_cap_mono(data@, *config, 0, len as int);
        lemma_art_suff_mono(data@, *config, 0, len as int);
    }
    let fa: usize = if flimit.num >= 0 {
        1
    } else {
        0
    };
    proof {
        let ghost p = final_limit(data@, *config);
        if flimit.num >= 0 {
            assert(p.0 >= 0);
            assert(qle((0int, 1int), p)) by (nonlinear_arith)
                requires
                    p.0 >= 0;
        } else {
            assert(p.0 < 0);
            assert(!qle((0int, 1int), p)) by (nonlinear_arith)
                requires
                    p.0 < 0;
        }
    }
    let na = na_cap + na_suff + fa;
    proof {
        assert(na == art_count_cap(data@, *config, len as int) + art_count_suff(
            data@,
            *config,
            len as int,
        ) + (if qle((0int, 1int), final_limit(data@, *config)) {
            1int
        } else {
            0int
        }));
    }
    let num_s = nv + len + 1;
    let cols = nv + num_s + na + 1;
    let abase = nv + num_s;
    let one = Rat::one();
    let ghost gnv = nv as int;
    let ghost gna = na as int;
    let ghost gcols = cols as int;
    let mut result: Vec<Vec<Rat>> = Vec::new();
    // charge-cap rows, one per under-load interval
    let mut i: usize = 0;
    let mut k: usize = 0;
    while i < len
        invariant
            len == data@.len(),
            1 <= len <= 0x10000000,
            forall|x: int| 0 <= x < len ==> (#[trigger] data@[x]).wf(),
            config.wf(),
            config.battery_max_charge.num >= 0,
            mc == config.max_consumption,
            i <= len,
            k == count_under(data@, mc, i as int),
            nv == count_under(data@, mc, len as int),
            gnv == nv as int,
            gcols == cols as int,
            cols == 2 * nv + len + na + 2,
            one.num == 1 && one.den == 1,
            result@.len() == k,
            forall|r: int| 0 <= r < k ==> (#[trigger] result@[r]@).len() == gcols,
            forall|r: int, j: int|
                0 <= r < k && 0 <= j < gcols ==> (#[trigger] result@[r]@[j]).wf(),
            forall|r: int| 0 <= r < k ==> (#[trigger] result@[r]@[gcols - 1]).num >= 0,
            forall|x: int|
                0 <= x < i && is_under(#[trigger] data@[x], mc) ==> cap_row_ok(
                    data@,
                    *config,
                    gnv,
                    gcols,
                    x,
                    result@[count_under(data@, mc, x)]@,
                ),
        decreases len - i,
    {
        proof {
            lemma_count_under_le(data@, mc, i as int);
            lemma_count_under_mono(data@, mc, i as int + 1, len as int);
        }
        let d = data[i];
        if d.power.le(&mc) {
            let diff = match mc.sub(&d.power) {
                Some(v) => v,
                None => {
                    return Err(SolveError::Overflow);
                },
            };
            proof {
                lemma_mul_sign(mc.den as int, d.power.den as int);
                lemma_ratio_cmp(
                    config.battery_max_charge,
                    diff,
                    config.battery_max_charge.num as int,
                    config.battery_max_charge.den as int,
                    qsub(qv(mc), qv(d.power)).0,
                    qsub(qv(mc), qv(d.power)).1,
                );
                lemma_qeq_sign(diff, qsub(qv(mc), qv(d.power)));
            }
            let rhs = if config.battery_max_charge.le(&diff) {
                config.battery_max_charge
            } else {
                diff
            };
            let mut row = zero_row(cols);
            row[k] = one;
            row[nv + k] = one;
            row[cols - 1] = rhs;
            result.push(row);
            proof {
                assert(qeq(qv(one), (1int, 1int)));
                assert forall|x: int|
                    0 <= x < i + 1 && is_under(#[trigger] data@[x], mc) implies cap_row_ok(
                    data@,
                    *config,
                    gnv,
                    gcols,
                    x,
                    result@[count_under(data@, mc, x)]@,
                ) by {
                    lemma_count_under_le(data@, mc, x);
                    if x < i {
                        lemma_count_under_mono(data@, mc, x + 1, i as int);
                    }
                }
            }
            k += 1;
        }
        i += 1;
    }
    proof {
        assert(k == nv);
    }
    // cumulative battery-capacity rows, one per under-load interval
    let mut i: usize = 0;
    let mut k: usize = 0;
    let mut ac: usize = 0;
    let mut discharge = Rat::zero();
    while i < len
        invariant
            len == data@.len(),
            1 <= len <= 0x10000000,
            forall|x: int| 0 <= x < len ==> (#[trigger] data@[x]).wf(),
            config.wf(),
            config.battery_max_charge.num >= 0,
            mc == config.max_consumption,
            eff == config.battery_efficiency,
            i <= len,
            k == count_under(data@, mc, i as int),
            ac == art_count_cap(data@, *config, i as int),
            nv == count_under(data@, mc, len as int),
            na_cap == art_count_cap(data@, *config, len as int),
            na_cap <= na,
            ac <= na_cap,
            gnv == nv as int,
            gcols == cols as int,
            cols == 2 * nv + len + na + 2,
            abase == 2 * nv + len + 1,
            one.num == 1 && one.den == 1,
            discharge.wf(),
            qeq(qv(discharge), discharge_sum(data@, mc, i as int)),
            bdiff.wf(),
            qeq(
                qv(bdiff),
                qsub(q4(config.battery_capacity), q4(config.battery_initial_charge)),
            ),
            result@.len() == nv + k,
            forall|r: int| 0 <= r < nv + k ==> (#[trigger] result@[r]@).len() == gcols,
            forall|r: int, j: int|
                0 <= r < nv + k && 0 <= j < gcols ==> (#[trigger] result@[r]@[j]).wf(),
            forall|r: int| 0 <= r < nv + k ==> (#[trigger] result@[r]@[gcols - 1]).num >= 0,
            forall|x: int|
                0 <= x < len && is_under(#[trigger] data@[x], mc) ==> cap_row_ok(
                    data@,
                    *config,
                    gnv,
                    gcols,
                    x,
                    result@[count_under(data@, mc, x)]@,
                ),
            forall|x: int|
                0 <= x < i && is_under(#[trigger] data@[x], mc) ==> capacity_row_ok(
                    data@,
                    *config,
                    gnv,
                    gcols,
                    abase as int,
                    x,
                    result@[gnv + count_under(data@, mc, x)]@,
                ),
        decreases len - i,
    {
        proof {
            lemma_count_under_le(data@, mc, i as int);
            lemma_count_under_mono(data@, mc, i as int + 1, len as int);
            lemma_art_cap_mono(data@, *config, i as int + 1, len as int);
            lemma_discharge_den_pos(data@, mc, i as int);
        }
        let d = data[i];
        if d.power.le(&mc) {
            let limit = match bdiff.add(&discharge) {
                Some(v) => v,
                None => {
                    return Err(SolveError::Overflow);
                },
            };
            proof {
                lemma_mul_sign(
                    config.battery_capacity.den as int,
                    config.battery_initial_charge.den as int,
                );
                lemma_mul_sign(bdiff.den as int, discharge.den as int);
                lemma_qeq_add2(
                    qv(bdiff),
                    qsub(q4(config.battery_capacity), q4(config.battery_initial_charge)),
                    qv(discharge),
                    discharge_sum(data@, mc, i as int),
                );
                lemma_qeq_trans(
                    qv(limit),
                    qadd(qv(bdiff), qv(discharge)),
                    capacity_limit(data@, *config, i as int),
                );
                lemma_mul_sign(
                    config.battery_capacity.den * config.battery_initial_charge.den,
                    discharge_sum(data@, mc, i as int).1,
                );
                lemma_qeq_sign(limit, capacity_limit(data@, *config, i as int));
                let cl = capacity_limit(data@, *config, i as int);
                if limit.num >= 0 {
                    assert(cl.0 >= 0);
                    assert(!qlt(cl, (0int, 1int))) by (nonlinear_arith)
                        requires
                            cl.0 >= 0;
                } else {
                    assert(cl.0 < 0);
                    assert(qlt(cl, (0int, 1int))) by (nonlinear_arith)
                        requires
                            cl.0 < 0;
                }
            }
            let row = if limit.num >= 0 {
                prefix_row(cols, eff, k + 1, 2 * nv + k, one, limit)
            } else {
                let mut row = prefix_row(cols, eff.neg(), k + 1, 2 * nv + k, one.neg(),
                    limit.neg());
                row[abase + ac] = one;
                ac += 1;
                row
            };
            proof {
                let cl = capacity_limit(data@, *config, i as int);
                if limit.num < 0 {
                    assert((-(limit.num as int)) * cl.1 == (-cl.0) * (limit.den as int))
                        by (nonlinear_arith)
                        requires
                            (limit.num as int) * cl.1 == cl.0 * (limit.den as int);
                }
                assert(capacity_row_ok(data@, *config, gnv, gcols, abase as int, i as int,
                    row@));
            }
            result.push(row);
            proof {
                assert forall|x: int|
                    0 <= x < len && is_under(#[trigger] data@[x], mc) implies cap_row_ok(
                    data@,
                    *config,
                    gnv,
                    gcols,
                    x,
                    result@[count_under(data@, mc, x)]@,
                ) by {
                    lemma_count_under_le(data@, mc, x);
                    lemma_count_under_mono(data@, mc, x + 1, len as int);
                }
                assert forall|x: int|
                    0 <= x < i + 1 && is_under(#[trigger] data@[x], mc) implies capacity_row_ok(
                    data@,
                    *config,
                    gnv,
                    gcols,
                    abase as int,
                    x,
                    result@[gnv + count_under(data@, mc, x)]@,
                ) by {
                    lemma_count_under_le(data@, mc, x);
                    if x < i {
                        lemma_count_under_mono(data@, mc, x + 1, i as int);
                    }
                }
            }
            k += 1;
        } else {
            let delta = match d.power.sub(&mc) {
                Some(v) => v,
                None => {
                    return Err(SolveError::Overflow);
                },
            };
            let d2 = match discharge.add(&delta) {
                Some(v) => v,
                None => {
                    return Err(SolveError::Overflow);
                },
            };
            proof {
                lemma_mul_sign(discharge.den as int, delta.den as int);
                lemma_mul_sign(d.power.den as int, mc.den as int);
                lemma_qeq_add2(
                    qv(discharge),
                    discharge_sum(data@, mc, i as int),
                    qv(delta),
                    qsub(qv(d.power), qv(mc)),
                );
                lemma_qeq_trans(
                    qv(d2),
                    qadd(qv(discharge), qv(delta)),
                    discharge_sum(data@, mc, i as int + 1),
                );
            }
            discharge = d2;
        }
        i += 1;
    }
    let ghost snap_b = result@;
    proof {
        lemma_count_under_le(data@, mc, len as int);
        assert(snap_b.len() == 2 * gnv);
        assert forall|r: int| 0 <= r < snap_b.len() implies (#[trigger] snap_b[r]@).len()
            == gcols by {}
        assert forall|r: int, j: int|
            0 <= r < snap_b.len() && 0 <= j < gcols implies (#[trigger] snap_b[r]@[j]).wf()
            by {}
        assert forall|r: int| 0 <= r < snap_b.len() implies (#[trigger] snap_b[r]@[gcols
            - 1]).num >= 0 by {}
        assert forall|x: int|
            0 <= x < len && is_under(#[trigger] data@[x], mc) implies cap_row_ok(
            data@,
            *config,
            gnv,
            gcols,
            x,
            snap_b[count_under(data@, mc, x)]@,
        ) && capacity_row_ok(
            data@,
            *config,
            gnv,
            gcols,
            abase as int,
            x,
            snap_b[gnv + count_under(data@, mc, x)]@,
        ) by {
            lemma_count_under_le(data@, mc, x);
            lemma_count_under_mono(data@, mc, x + 1, len as int);
        }
    }
    // sufficiency rows, one per over-load interval
    let mut i: usize = 0;
    let mut k: usize = 0;
    let mut m: usize = 0;
    let mut ac2: usize = 0;
    let mut discharge = Rat::zero();
    while i < len
        invariant
            len == data@.len(),
            1 <= len <= 0x10000000,
            forall|x: int| 0 <= x < len ==> (#[trigger] data@[x]).wf(),
            config.wf(),
            config.battery_max_charge.num >= 0,
            mc == config.max_consumption,
            eff == config.battery_efficiency,
            i <= len,
            k == count_under(data@, mc, i as int),
            k + m == i,
            ac2 == art_count_suff(data@, *config, i as int),
            nv == count_under(data@, mc, len as int),
            na_cap == art_count_cap(data@, *config, len as int),
            na_suff == art_count_suff(data@, *config, len as int),
            na_cap + na_suff <= na,
            ac2 <= na_suff,
            gnv == nv as int,
            gcols == cols as int,
            cols == 2 * nv + len + na + 2,
            abase == 2 * nv + len + 1,
            one.num == 1 && one.den == 1,
            discharge.wf(),
            qeq(qv(discharge), discharge_sum(data@, mc, i as int)),
            b0.wf(),
            qeq(qv(b0), q4(config.battery_initial_charge)),
            result@.len() == 2 * nv + m,
            forall|r: int|
                2 * gnv <= r < result@.len() ==> (#[trigger] result@[r]@).len() == gcols
                    && result@[r]@[gcols - 1].num >= 0 && (forall|j: int|
                    0 <= j < gcols ==> (#[trigger] result@[r]@[j]).wf()),
            snap_b.len() == 2 * gnv,
            forall|r: int| 0 <= r < 2 * gnv ==> result@[r] == snap_b[r],
            forall|x: int|
                0 <= x < i && !is_under(#[trigger] data@[x], mc) ==> sufficiency_row_ok(
                    data@,
                    *config,
                    gnv,
                    gcols,
                    abase as int,
                    x,
                    result@[2 * gnv + x - count_under(data@, mc, x)]@,
                ),
        decreases len - i,
    {
        proof {
            lemma_count_under_le(data@, mc, i as int);
            lemma_count_under_mono(data@, mc, i as int + 1, len as int);
            lemma_art_suff_mono(data@, *config, i as int + 1, len as int);
            lemma_discharge_den_pos(data@, mc, i as int);
        }
        let d = data[i];
        if d.power.le(&mc) {
            k += 1;
        } else {
            let delta = match d.power.sub(&mc) {
                Some(v) => v,
                None => {
                    return Err(SolveError::Overflow);
                },
            };
            let d2 = match discharge.add(&delta) {
                Some(v) => v,
                None => {
                    return Err(SolveError::Overflow);
                },
            };
            proof {
                lemma_mul_sign(discharge.den as int, delta.den as int);
                lemma_mul_sign(d.power.den as int, mc.den as int);
                lemma_qeq_add2(
                    qv(discharge),
                    discharge_sum(data@, mc, i as int),
                    qv(delta),
                    qsub(qv(d.power), qv(mc)),
                );
                lemma_qeq_trans(
                    qv(d2),
                    qadd(qv(discharge), qv(delta)),
                    discharge_sum(data@, mc, i as int + 1),
                );
            }
            discharge = d2;
            proof {
                lemma_discharge_den_pos(data@, mc, i as int + 1);
                lemma_count_under_mono(data@, mc, i as int + 1, len as int);
                lemma_art_suff_mono(data@, *config, i as int + 1, len as int);
                assert(m < len - nv);
            }
            let (row, used) = match sufficiency_row(
                cols,
                nv,
                len,
                abase,
                na,
                abase + na_cap + ac2,
                eff,
                one,
                discharge,
                b0,
                k,
                m,
                Ghost(data@),
                Ghost(*config),
                Ghost(i as int),
            ) {
                Some(p) => p,
                None => {
                    return Err(SolveError::Overflow);
                },
            };
            if used {
                ac2 += 1;
            }
            result.push(row);
            proof {
                assert forall|x: int|
                    0 <= x < i + 1 && !is_under(
                    #[trigger] data@[x],
                    mc,
                ) implies sufficiency_row_ok(
                    data@,
                    *config,
                    gnv,
                    gcols,
                    abase as int,
                    x,
                    result@[2 * gnv + x - count_under(data@, mc, x)]@,
                ) by {
                    lemma_count_under_le(data@, mc, x);
                    if x < i {
                        lemma_count_under_mono(data@, mc, x + 1, i as int);
                    }
                }
            }
            m += 1;
        }
        i += 1;
    }
    // terminal-charge row
    let row = if flimit.num >= 0 {
        let mut row = prefix_row(cols, eff, nv, nv + num_s - 1, one.neg(), flimit);
        row[abase + na_cap + na_suff] = one;
        row
    } else {
        prefix_row(cols, eff.neg(), nv, nv + num_s - 1, one, flimit.neg())
    };
    proof {
        lemma_count_under_le(data@, mc, len as int);
        let fl = final_limit(data@, *config);
        if flimit.num < 0 {
            assert((-(flimit.num as int)) * fl.1 == (-fl.0) * (flimit.den as int))
                by (nonlinear_arith)
                requires
                    (flimit.num as int) * fl.1 == fl.0 * (flimit.den as int);
        }
        assert(final_row_ok(data@, *config, gnv, gcols, abase as int, row@));
    }
    result.push(row);
    let ghost snap_f = result@;
    proof {
        assert(snap_f.len() == gnv + len + 1);
        assert(final_row_ok(data@, *config, gnv, gcols, abase as int, snap_f[gnv + len]@));
        assert forall|x: int|
            0 <= x < len && is_under(#[trigger] data@[x], mc) implies cap_row_ok(
            data@,
            *config,
            gnv,
            gcols,
            x,
            snap_f[count_under(data@, mc, x)]@,
        ) && capacity_row_ok(
            data@,
            *config,
            gnv,
            gcols,
            abase as int,
            x,
            snap_f[gnv + count_under(data@, mc, x)]@,
        ) by {
            lemma_count_under_le(data@, mc, x);
            lemma_count_under_mono(data@, mc, x + 1, len as int);
        }
        assert forall|x: int|
            0 <= x < len && !is_under(#[trigger] data@[x], mc) implies sufficiency_row_ok(
            data@,
            *config,
            gnv,
            gcols,
            abase as int,
            x,
            snap_f[2 * gnv + x - count_under(data@, mc, x)]@,
        ) by {
            lemma_count_under_le(data@, mc, x);
            lemma_count_under_mono(data@, mc, x + 1, len as int);
        }
        assert forall|r: int| 0 <= r < snap_f.len() implies (#[trigger] snap_f[r]@).len()
            == gcols && snap_f[r]@[gcols - 1].num >= 0 by {
            if r < 2 * gnv {
                assert(snap_f[r] == snap_b[r]);
            }
        }
        assert forall|r: int, j: int|
            0 <= r < snap_f.len() && 0 <= j < gcols implies (#[trigger] snap_f[r]@[j]).wf()
            by {
            if r < 2 * gnv {
                assert(snap_f[r] == snap_b[r]);
            }
        }
    }
    // price objective row
    let mut price_row = zero_row(cols);
    let mut i: usize = 0;
    let mut k: usize = 0;
    while i < len
        invariant
            len == data@.len(),
            forall|x: int| 0 <= x < len ==> (#[trigger] data@[x]).wf(),
            config.wf(),
            mc == config.max_consumption,
            1 <= len <= 0x10000000,
            i <= len,
            k == count_under(data@, mc, i as int),
            nv == count_under(data@, mc, len as int),
            gnv == nv as int,
            gcols == cols as int,
            cols == 2 * nv + len + na + 2,
            result@ == snap_f,
            price_row@.len() == gcols,
            forall|j: int| 0 <= j < gcols ==> (#[trigger] price_row@[j]).wf(),
            forall|x: int|
                0 <= x < i && is_under(#[trigger] data@[x], mc) ==> {
                    let kk = count_under(data@, mc, x);
                    price_row@[kk].num == -data@[x].price.num && price_row@[kk].den
                        == data@[x].price.den
                },
            forall|j: int|
                gnv <= j < gcols ==> (#[trigger] price_row@[j]).num == 0,
            forall|j: int|
                k <= j < gcols ==> (#[trigger] price_row@[j]).num == 0,
        decreases len - i,
    {
        proof {
            lemma_count_under_le(data@, mc, i as int);
            lemma_count_under_mono(data@, mc, i as int + 1, len as int);
        }
        let d = data[i];
        if d.power.le(&mc) {
            price_row[k] = d.price.neg();
            proof {
                assert forall|x: int|
                    0 <= x < i + 1 && is_under(#[trigger] data@[x], mc) implies {
                    let kk = count_under(data@, mc, x);
                    price_row@[kk].num == -data@[x].price.num && price_row@[kk].den
                        == data@[x].price.den
                } by {
                    lemma_count_under_le(data@, mc, x);
                    if x < i {
                        lemma_count_under_mono(data@, mc, x + 1, i as int);
                    }
                }
            }
            k += 1;
        }
        i += 1;
    }
    result.push(price_row);
    let ghost snap_p = result@;
    proof {
        assert(snap_p.len() == gnv + len + 2);
        assert(snap_p[gnv + len + 1]@ == price_row@);
        assert(price_row_ok(data@, *config, gnv, gcols, price_row@));
    }
    // phase-one intermediate objective row: the accumulated coefficients of
    // every row that received an artificial variable, with -1 on the
    // matching slack columns and the summed limits on the right-hand side
    let mut inter = zero_row(cols);
    let mut i: usize = 0;
    let mut k: usize = 0;
    let mut m: usize = 0;
    let mut discharge = Rat::zero();
    while i < len
        invariant
            len == data@.len(),
            forall|x: int| 0 <= x < len ==> (#[trigger] data@[x]).wf(),
            config.wf(),
            mc == config.max_consumption,
            eff == config.battery_efficiency,
            1 <= len <= 0x10000000,
            i <= len,
            k == count_under(data@, mc, i as int),
            k + m == i,
            nv == count_under(data@, mc, len as int),
            gnv == nv as int,
            gcols == cols as int,
            cols == 2 * nv + len + na + 2,
            abase == 2 * nv + len + 1,
            one.num == 1 && one.den == 1,
            discharge.wf(),
            qeq(qv(discharge), discharge_sum(data@, mc, i as int)),
            b0.wf(),
            result@ == snap_p,
            snap_p.len() == gnv + len + 2,
            inter@.len() == gcols,
            forall|j: int| 0 <= j < gcols ==> (#[trigger] inter@[j]).wf(),
        decreases len - i,
    {
        proof {
            lemma_count_under_le(data@, mc, i as int);
            lemma_count_under_mono(data@, mc, i as int + 1, len as int);
            lemma_discharge_den_pos(data@, mc, i as int);
        }
        let d = data[i];
        if d.power.le(&mc) {
            k += 1;
        } else {
            let delta = match d.power.sub(&mc) {
                Some(v) => v,
                None => {
                    return Err(SolveError::Overflow);
                },
            };
            let d2 = match discharge.add(&delta) {
                Some(v) => v,
                None => {
                    return Err(SolveError::Overflow);
                },
            };
            proof {
                lemma_mul_sign(discharge.den as int, delta.den as int);
                lemma_mul_sign(d.power.den as int, mc.den as int);
                lemma_qeq_add2(
                    qv(discharge),
                    discharge_sum(data@, mc, i as int),
                    qv(delta),
                    qsub(qv(d.power), qv(mc)),
                );
                lemma_qeq_trans(
                    qv(d2),
                    qadd(qv(discharge), qv(delta)),
                    discharge_sum(data@, mc, i as int + 1),
                );
            }
            discharge = d2;
            let slimit = match discharge.sub(&b0) {
                Some(v) => v,
                None => {
                    return Err(SolveError::Overflow);
                },
            };
            if slimit.num >= 0 {
                proof {
                    lemma_count_under_le(data@, mc, len as int);
                    lemma_count_under_mono(data@, mc, i as int + 1, len as int);
                    assert(m < len - nv);
                    assert(k <= i);
                }
                let mut j: usize = 0;
                while j < k
                    invariant
                        j <= k,
                        k < gcols,
                        eff.wf(),
                        gcols == cols as int,
                        inter@.len() == gcols,
                        forall|x: int| 0 <= x < gcols ==> (#[trigger] inter@[x]).wf(),
                    decreases k - j,
                {
                    let s = match inter[j].add(&eff) {
                        Some(v) => v,
                        None => {
                            return Err(SolveError::Overflow);
                        },
                    };
                    inter[j] = s;
                    j += 1;
                }
                inter[3 * nv + m] = one.neg();
                let s = match inter[cols - 1].add(&slimit) {
                    Some(v) => v,
                    None => {
                        return Err(SolveError::Overflow);
                    },
                };
                inter[cols - 1] = s;
            }
            m += 1;
        }
        i += 1;
    }
    if flimit.num >= 0 {
        let mut j: usize = 0;
        while j < nv
            invariant
                j <= nv,
                nv < gcols,
                eff.wf(),
                gcols == cols as int,
                inter@.len() == gcols,
                forall|x: int| 0 <= x < gcols ==> (#[trigger] inter@[x]).wf(),
            decreases nv - j,
        {
            let s = match inter[j].add(&eff) {
                Some(v) => v,
                None => {
                    return Err(SolveError::Overflow);
                },
            };
            inter[j] = s;
            j += 1;
        }
        inter[nv + num_s - 1] = one.neg();
        let s = match inter[cols - 1].add(&flimit) {
            Some(v) => v,
            None => {
                return Err(SolveError::Overflow);
            },
        };
        inter[cols - 1] = s;
    }
    result.push(inter);
    proof {
        lemma_count_under_le(data@, mc, len as int);
        lemma_art_vs_count(data@, *config, len as int);
        assert(result@.len() == len + nv + 3);
        assert forall|r: int| 0 <= r < snap_f.len() implies result@[r] == snap_f[r] by {
            assert(result@[r] == snap_p[r]);
        }
        assert(result@[gnv + len + 1]@ == price_row@);
        assert(price_row_ok(data@, *config, gnv, gcols, price_row@));
        assert forall|r: int| 0 <= r < result@.len() implies (#[trigger] result@[r]@).len()
            == gcols by {
            if r < gnv + len + 1 {
                assert(result@[r] == snap_f[r]);
            } else if r == gnv + len + 1 {
                assert(result@[r]@ == price_row@);
            }
        }
        assert forall|r: int, j: int|
            0 <= r < result@.len() && 0 <= j < gcols implies (#[trigger] result@[r]@[j]).wf()
            by {
            if r < gnv + len + 1 {
                assert(result@[r] == snap_f[r]);
            } else if r == gnv + len + 1 {
                assert(result@[r]@ == price_row@);
            }
        }
        assert forall|r: int| 0 <= r < result@.len() - 2 implies (#[trigger] result@[r]@[gcols
            - 1]).num >= 0 by {
            assert(result@[r] == snap_f[r]);
        }
        assert forall|x: int|
            0 <= x < len && is_under(#[trigger] data@[x], mc) implies cap_row_ok(
            data@,
            *config,
            gnv,
            gcols,
            x,
            result@[count_under(data@, mc, x)]@,
        ) && capacity_row_ok(
            data@,
            *config,
            gnv,
            gcols,
            abase as int,
            x,
            result@[gnv + count_under(data@, mc, x)]@,
        ) by {
            lemma_count_under_le(data@, mc, x);
            lemma_count_under_mono(data@, mc, x + 1, len as int);
            assert(result@[count_under(data@, mc, x)] == snap_f[count_under(data@, mc, x)]);
            assert(result@[gnv + count_under(data@, mc, x)] == snap_f[gnv + count_under(
                data@,
                mc,
                x,
            )]);
        }
        assert forall|x: int|
            0 <= x < len && !is_under(#[trigger] data@[x], mc) implies sufficiency_row_ok(
            data@,
            *config,
            gnv,
            gcols,
            abase as int,
            x,
            result@[2 * gnv + x - count_under(data@, mc, x)]@,
        ) by {
            lemma_count_under_le(data@, mc, x);
            lemma_count_under_mono(data@, mc, x + 1, len as int);
            assert(result@[2 * gnv + x - count_under(data@, mc, x)] == snap_f[2 * gnv + x
                - count_under(data@, mc, x)]);
        }
        assert(result@[gnv + len] == snap_f[gnv + len]);
        assert(final_row_ok(data@, *config, gnv, gcols, abase as int, result@[gnv + len]@));
    }
    Ok((result, nv, na))
}

} // verus!
