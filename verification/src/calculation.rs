//! The end-to-end solve: build the tableau, run phase one and phase two of
//! the simplex solver, extract the decision variables, and map them back
//! onto the interval sequence as an energy-flow schedule.

use crate::data::{Config, Data, Plan};
use crate::dual_simplex::{Matrix, SolveError};
use crate::rat::{lemma_mul_sign, lemma_qeq_div_l, lemma_qeq_trans, qdiv, qeq, qsub, qv, Rat};
use crate::tableau_creation::{
    build_tableau, count_under, is_under, lemma_count_under_le, lemma_count_under_mono,
};
use vstd::prelude::*;

verus! {

/// Compute the optimal charge/discharge schedule for the given intervals
/// and battery configuration. Every interval yields exactly one plan
/// record, in order: an over-load interval discharges its excess power
/// (converted to quarter-hour energy), an under-load interval charges by
/// its decision-variable value; at most one of the two energy fields of a
/// record is nonzero. Errors are the solver's: infeasibility, the
/// iteration cap, arithmetic overflow, or a malformed solution column.
pub fn calculation(data: &Vec<Data>, config: &Config) -> (res: Result<Vec<Plan>, SolveError>)
    requires
        1 <= data@.len() <= 0x10000000,
        forall|i: int| 0 <= i < data@.len() ==> (#[trigger] data@[i]).wf(),
        config.wf(),
        config.battery_max_charge.num >= 0,
    ensures
        match res {
            Ok(planning) => {
                &&& planning@.len() == data@.len()
                &&& forall|i: int|
                    0 <= i < data@.len() ==> {
                        &&& (#[trigger] planning@[i]).start == data@[i].start
                        &&& planning@[i].end == data@[i].end
                        &&& planning@[i].energy_to_battery_wh.wf()
                        &&& planning@[i].energy_from_battery_wh.wf()
                        &&& (planning@[i].energy_to_battery_wh.num == 0 || planning@[
                            i
                        ].energy_from_battery_wh.num == 0)
                    }
                &&& forall|i: int|
                    0 <= i < data@.len() && !is_under(
                        #[trigger] data@[i],
                        config.max_consumption,
                    ) ==> {
                        &&& planning@[i].energy_to_battery_wh.num == 0
                        &&& qeq(
                            qv(planning@[i].energy_from_battery_wh),
                            qdiv(
                                qsub(qv(data@[i].power), qv(config.max_consumption)),
                                (4int, 1int),
                            ),
                        )
                    }
                &&& forall|i: int|
                    0 <= i < data@.len() && is_under(#[trigger] data@[i], config.max_consumption)
                        ==> planning@[i].energy_from_battery_wh.num == 0
            },
            Err(_) => true,
        },
{
    let (tableau, variables, artificials) = match build_tableau(data, config) {
        Ok(t) => t,
        Err(e) => {
            return Err(e);
        },
    };
    let mut matrix = Matrix::new(tableau, variables, artificials);
    match matrix.solve() {
        Ok(()) => {},
        Err(e) => {
            return Err(e);
        },
    }
    matrix.phase_two();
    match matrix.solve() {
        Ok(()) => {},
        Err(e) => {
            return Err(e);
        },
    }
    let solution = match matrix.get_solution() {
        Ok(s) => s,
        Err(e) => {
            return Err(e);
        },
    };
    let len = data.len();
    let mc = config.max_consumption;
    let four = Rat::from_int(4);
    let mut planning: Vec<Plan> = Vec::new();
    let mut offset: usize = 0;
    let mut i: usize = 0;
    while i < len
        invariant
            len == data@.len(),
            1 <= len <= 0x10000000,
            forall|x: int| 0 <= x < len ==> (#[trigger] data@[x]).wf(),
            config.wf(),
            mc == config.max_consumption,
            four.num == 4 && four.den == 1,
            i <= len,
            offset == count_under(data@, mc, i as int),
            solution@.len() == count_under(data@, mc, len as int),
            forall|c: int| 0 <= c < solution@.len() ==> (#[trigger] solution@[c]).wf(),
            planning@.len() == i,
            forall|x: int|
                0 <= x < i ==> {
                    &&& (#[trigger] planning@[x]).start == data@[x].start
                    &&& planning@[x].end == data@[x].end
                    &&& planning@[x].energy_to_battery_wh.wf()
                    &&& planning@[x].energy_from_battery_wh.wf()
                    &&& (planning@[x].energy_to_battery_wh.num == 0 || planning@[
                        x
                    ].energy_from_battery_wh.num == 0)
                },
            forall|x: int|
                0 <= x < i && !is_under(#[trigger] data@[x], mc) ==> {
                    &&& planning@[x].energy_to_battery_wh.num == 0
                    &&& qeq(
                        qv(planning@[x].energy_from_battery_wh),
                        qdiv(qsub(qv(data@[x].power), qv(mc)), (4int, 1int)),
                    )
                },
            forall|x: int|
                0 <= x < i && is_under(#[trigger] data@[x], mc) ==> planning@[
                    x
                ].energy_from_battery_wh.num == 0,
        decreases len - i,
    {
        proof {
            lemma_count_under_le(data@, mc, i as int);
            lemma_count_under_mono(data@, mc, i as int + 1, len as int);
        }
        let d = data[i];
        if d.power.le(&mc) {
            let val = solution[offset];
            let e4 = match val.div(&four) {
                Some(v) => v,
                None => {
                    return Err(SolveError::Overflow);
                },
            };
            planning.push(
                Plan {
                    start: d.start,
                    end: d.end,
                    energy_to_battery_wh: e4,
                    energy_from_battery_wh: Rat::zero(),
                },
            );
            offset += 1;
        } else {
            let delta = match d.power.sub(&mc) {
                Some(v) => v,
                None => {
                    return Err(SolveError::Overflow);
                },
            };
            let e4 = match delta.div(&four) {
                Some(v) => v,
                None => {
                    return Err(SolveError::Overflow);
                },
            };
            proof {
                lemma_qeq_div_l(qv(delta), qsub(qv(d.power), qv(mc)), (4int, 1int));
                lemma_mul_sign(delta.den as int, 4int);
                lemma_qeq_trans(
                    qv(e4),
                    qdiv(qv(delta), (4int, 1int)),
                    qdiv(qsub(qv(d.power), qv(mc)), (4int, 1int)),
                );
            }
            planning.push(
                Plan {
                    start: d.start,
                    end: d.end,
                    energy_to_battery_wh: Rat::zero(),
                    energy_from_battery_wh: e4,
                },
            );
        }
        i += 1;
    }
    Ok(planning)
}

} // verus!
