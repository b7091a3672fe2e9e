//! Evaluator/reporter: per-example report rows and the aggregate
//! MAE / RMSE error metrics, all in exact micro-unit arithmetic.
use vstd::prelude::*;
use vstd::arithmetic::div_mod::{lemma_div_is_ordered, lemma_div_multiples_vanish};
use crate::fixed::{sat, fix_sub, isqrt, CAP};
use crate::network::{Network, SocError, spec_calc};
use crate::telemetry::FeatureVec;

verus! {

/// Absolute value.
pub open spec fn abs_val(x: int) -> int {
    if x < 0 {
        -x
    } else {
        x
    }
}

/// The saturated error of example `i`: expected minus predicted.
pub open spec fn err_at(e: Seq<i64>, p: Seq<i64>, i: int) -> int {
    sat(e[i] - p[i])
}

/// Sum of absolute errors over the first `n` examples.
pub open spec fn sum_abs(e: Seq<i64>, p: Seq<i64>, n: int) -> int
    decreases n,
{
    if n <= 0 {
        0
    } else {
        sum_abs(e, p, n - 1) + abs_val(err_at(e, p, n - 1))
    }
}

/// Sum of squared errors over the first `n` examples.
pub open spec fn sum_sq(e: Seq<i64>, p: Seq<i64>, n: int) -> int
    decreases n,
{
    if n <= 0 {
        0
    } else {
        sum_sq(e, p, n - 1) + err_at(e, p, n - 1) * err_at(e, p, n - 1)
    }
}

/// Aggregate the error metrics of paired expected and predicted
/// values: the mean absolute error, and the root of the mean squared
/// error pinned between its floor square root and the next integer.
pub fn aggregate(expected: &Vec<i64>, predicted: &Vec<i64>) -> (r: Result<(i64, i64), SocError>)
    requires
        expected@.len() <= 0x4000_0000,
    ensures
        match r {
            Ok((mae, rmse)) => {
                &&& expected@.len() == predicted@.len()
                &&& expected@.len() >= 1
                &&& mae == sum_abs(expected@, predicted@, expected@.len() as int) / (
                expected@.len() as int)
                &&& (rmse as int) * (rmse as int) <= sum_sq(
                    expected@,
                    predicted@,
                    expected@.len() as int,
                ) / (expected@.len() as int)
                &&& (rmse as int + 1) * (rmse as int + 1) > sum_sq(
                    expected@,
                    predicted@,
                    expected@.len() as int,
                ) / (expected@.len() as int)
            },
            Err(e) => {
                &&& (expected@.len() != predicted@.len() ==> e == SocError::DimensionMismatch)
                &&& (expected@.len() == predicted@.len() ==> e == SocError::InsufficientData
                    && expected@.len() == 0)
            },
        },
{
    if expected.len() != predicted.len() {
        return Err(SocError::DimensionMismatch);
    }
    if expected.len() == 0 {
        return Err(SocError::InsufficientData);
    }
    let n = expected.len();
    let mut sum_a: u128 = 0;
    let mut sum_s: u128 = 0;
    let mut i: usize = 0;
    while i < n
        invariant
            n == expected@.len(),
            n == predicted@.len(),
            n <= 0x4000_0000,
            i <= n,
            sum_a == sum_abs(expected@, predicted@, i as int),
            sum_s == sum_sq(expected@, predicted@, i as int),
            sum_a <= (i as int) * (CAP as int),
            sum_s <= (i as int) * ((CAP as int) * (CAP as int)),
        decreases n - i,
    {
        let err = fix_sub(expected[i], predicted[i]);
        let a: u64 = if err < 0 {
            (-err) as u64
        } else {
            err as u64
        };
        proof {
            assert(a <= CAP);
            assert((a as int) * (a as int) == (err as int) * (err as int)) by (nonlinear_arith)
                requires
                    a as int == err as int || a as int == -(err as int),
            ;
            assert((a as int) * (a as int) <= (CAP as int) * (CAP as int)) by (nonlinear_arith)
                requires
                    0 <= a as int <= CAP as int,
            ;
            assert((i as int + 1) * (CAP as int) == (i as int) * (CAP as int) + (CAP as int))
                by (nonlinear_arith);
            assert((i as int + 1) * ((CAP as int) * (CAP as int)) == (i as int) * ((CAP as int)
                * (CAP as int)) + (CAP as int) * (CAP as int)) by (nonlinear_arith);
        }
        let sq: u128 = (a as u128) * (a as u128);
        sum_a = sum_a + a as u128;
        sum_s = sum_s + sq;
        i += 1;
    }
    let mean_a: u128 = sum_a / (n as u128);
    let mean_s: u128 = sum_s / (n as u128);
    proof {
        assert((n as int) * (CAP as int) == (CAP as int) * (n as int)) by (nonlinear_arith);
        lemma_div_is_ordered(sum_a as int, (n as int) * (CAP as int), n as int);
        lemma_div_multiples_vanish(CAP as int, n as int);
        assert(mean_a <= CAP);
    }
    let mae = mean_a as i64;
    let rmse_u = isqrt(mean_s);
    proof {
        assert((n as int) * ((CAP as int) * (CAP as int)) == ((CAP as int) * (CAP as int)) * (
        n as int)) by (nonlinear_arith);
        lemma_div_is_ordered(sum_s as int, (n as int) * ((CAP as int) * (CAP as int)), n as int);
        lemma_div_multiples_vanish((CAP as int) * (CAP as int), n as int);
        assert(mean_s <= (CAP as int) * (CAP as int));
        assert(rmse_u as int <= CAP as int) by (nonlinear_arith)
            requires
                (rmse_u as int) * (rmse_u as int) <= mean_s as int,
                mean_s as int <= (CAP as int) * (CAP as int),
                rmse_u >= 0,
                CAP as int > 0,
        ;
    }
    let rmse = rmse_u as i64;
    Ok((mae, rmse))
}

/// One report row: the raw normalized inputs, the expected label, and
/// the network's prediction.
#[derive(Clone, Copy, PartialEq, Eq, Structural, Debug)]
pub struct Row {
    pub prev_battery: i64,
    pub curr_battery: i64,
    pub curr_ldo: i64,
    pub expected: i64,
    pub predicted: i64,
}

/// Evaluation report: one row per held-out example, in the order the
/// examples were given, plus the aggregate error metrics.
#[derive(Clone, Debug)]
pub struct Report {
    pub rows: Vec<Row>,
    pub mae: i64,
    pub rmse: i64,
}

/// Rows stand in descending order of expected label.
pub open spec fn sorted_desc(rows: Seq<Row>) -> bool {
    forall|i: int, j: int|
        0 <= i <= j < rows.len() ==> (#[trigger] rows[i]).expected >= (#[trigger] rows[j]).expected
}

/// Sort report rows with a caller-supplied comparator.  The ghost
/// `rel` names the total, transitive order the comparator decides:
/// `leq(a, b)` must return exactly `rel(a, b)`, read as "`a` comes at
/// or before `b`".  The result holds exactly the given rows, ordered
/// by `rel`.
pub fn sort_rows_by<F: Fn(Row, Row) -> bool>(
    rows: &Vec<Row>,
    leq: F,
    Ghost(rel): Ghost<spec_fn(Row, Row) -> bool>,
) -> (r: Vec<Row>)
    requires
        forall|a: Row, b: Row| #[trigger] leq.requires((a, b)),
        forall|a: Row, b: Row, res: bool| #[trigger] leq.ensures((a, b), res) ==> res == rel(a, b),
        forall|a: Row, b: Row| #[trigger] rel(a, b) || #[trigger] rel(b, a),
        forall|a: Row, b: Row, c: Row|
            #[trigger] rel(a, b) && #[trigger] rel(b, c) ==> rel(a, c),
    ensures
        r@.len() == rows@.len(),
        r@.to_multiset() == rows@.to_multiset(),
        forall|i: int, j: int| 0 <= i <= j < r@.len() ==> #[trigger] rel(r@[i], r@[j]),
{
    broadcast use vstd::seq_lib::group_to_multiset_ensures;

    let mut work: Vec<Row> = Vec::new();
    let mut i: usize = 0;
    while i < rows.len()
        invariant
            i <= rows@.len(),
            work@ == rows@.subrange(0, i as int),
        decreases rows@.len() - i,
    {
        work.push(rows[i]);
        i += 1;
    }
    proof {
        assert(rows@.subrange(0, rows@.len() as int) =~= rows@);
    }
    let mut out: Vec<Row> = Vec::new();
    while work.len() > 0
        invariant
            forall|a: Row, b: Row| #[trigger] leq.requires((a, b)),
            forall|a: Row, b: Row, res: bool|
                #[trigger] leq.ensures((a, b), res) ==> res == rel(a, b),
            forall|a: Row, b: Row| #[trigger] rel(a, b) || #[trigger] rel(b, a),
            forall|a: Row, b: Row, c: Row|
                #[trigger] rel(a, b) && #[trigger] rel(b, c) ==> rel(a, c),
            out@.len() + work@.len() == rows@.len(),
            out@.to_multiset().add(work@.to_multiset()) == rows@.to_multiset(),
            forall|i2: int, j2: int|
                0 <= i2 <= j2 < out@.len() ==> #[trigger] rel(out@[i2], out@[j2]),
            forall|a: int, b: int|
                0 <= a < out@.len() && 0 <= b < work@.len() ==> #[trigger] rel(
                    out@[a],
                    work@[b],
                ),
        decreases work@.len(),
    {
        let mut best: usize = 0;
        let mut m: usize = 1;
        while m < work.len()
            invariant
                forall|a: Row, b: Row| #[trigger] leq.requires((a, b)),
                forall|a: Row, b: Row, res: bool|
                    #[trigger] leq.ensures((a, b), res) ==> res == rel(a, b),
                forall|a: Row, b: Row| #[trigger] rel(a, b) || #[trigger] rel(b, a),
                forall|a: Row, b: Row, c: Row|
                    #[trigger] rel(a, b) && #[trigger] rel(b, c) ==> rel(a, c),
                best < work@.len(),
                1 <= m <= work@.len(),
                forall|k: int| 0 <= k < m ==> rel(work@[best as int], #[trigger] work@[k]),
            decreases work@.len() - m,
        {
            let ghost old_best = best as int;
            if !leq(work[best], work[m]) {
                proof {
                    assert(rel(work@[m as int], work@[old_best]));
                    assert forall|k: int| 0 <= k < m + 1 implies rel(
                        work@[m as int],
                        #[trigger] work@[k],
                    ) by {
                        if k < m {
                            assert(rel(work@[old_best], work@[k]));
                        } else {
                            assert(rel(work@[m as int], work@[m as int]));
                        }
                    }
                }
                best = m;
            } else {
                proof {
                    assert(rel(work@[old_best], work@[m as int]));
                }
            }
            m += 1;
        }
        let ghost old_work = work@;
        let ghost old_out = out@;
        let top = work.remove(best);
        out.push(top);
        proof {
            old_work.to_multiset_ensures();
            vstd::seq_lib::to_multiset_remove(old_work, best as int);
            vstd::seq_lib::to_multiset_build(old_out, top);
            assert(old_work.contains(top));
            assert(old_work.to_multiset().count(top) > 0);
            assert(out@.to_multiset().add(work@.to_multiset()) =~= old_out.to_multiset().add(
                old_work.to_multiset(),
            ));
            assert forall|b: int| 0 <= b < work@.len() implies rel(top, #[trigger] work@[b]) by {
                if b < best {
                    assert(work@[b] == old_work[b]);
                } else {
                    assert(work@[b] == old_work[b + 1]);
                }
            }
        }
    }
    out
}

/// The observed default ordering policy for report rows: descending by
/// expected label.  Ties carry no promised order.  Labels are exact
/// integers here, so no reading can misorder the way an incomparable
/// value would.  The result holds exactly the given rows.
pub fn sort_rows_by_expected_desc(rows: &Vec<Row>) -> (r: Vec<Row>)
    ensures
        r@.len() == rows@.len(),
        sorted_desc(r@),
        r@.to_multiset() == rows@.to_multiset(),
{
    let leq = (|a: Row, b: Row| -> (res: bool)
        ensures
            res == (a.expected >= b.expected),
        { a.expected >= b.expected });
    let ghost rel: spec_fn(Row, Row) -> bool = |a: Row, b: Row| a.expected >= b.expected;
    let r = sort_rows_by(rows, leq, Ghost(rel));
    proof {
        assert forall|i: int, j: int|
            0 <= i <= j < r@.len() implies (#[trigger] r@[i]).expected >= (#[trigger] r@[
            j
        ]).expected by {
            assert(rel(r@[i], r@[j]));
        }
    }
    r
}

/// The input vector of one feature vector.
pub open spec fn feat_input(f: FeatureVec) -> Seq<i64> {
    seq![f.prev_battery, f.curr_battery, f.curr_ldo]
}

/// The network's prediction for one feature vector.
pub open spec fn spec_predicted(net: Network, f: FeatureVec) -> i64 {
    spec_calc(net, feat_input(f))[0]
}

/// The report row of one feature vector.
pub open spec fn spec_row(net: Network, f: FeatureVec) -> Row {
    Row {
        prev_battery: f.prev_battery,
        curr_battery: f.curr_battery,
        curr_ldo: f.curr_ldo,
        expected: f.label,
        predicted: spec_predicted(net, f),
    }
}

/// The labels of a dataset, in order.
pub open spec fn expected_seq(s: Seq<FeatureVec>) -> Seq<i64> {
    Seq::new(s.len(), |i: int| s[i].label)
}

/// The network's predictions over a dataset, in order.
pub open spec fn predicted_seq(net: Network, s: Seq<FeatureVec>) -> Seq<i64> {
    Seq::new(s.len(), |i: int| spec_predicted(net, s[i]))
}

/// Run the forward evaluator over every held-out example and aggregate
/// the error metrics: one row per example in the given order, the mean
/// absolute error, and the root mean squared error.
pub fn evaluate(net: &Network, test: &Vec<FeatureVec>) -> (r: Result<Report, SocError>)
    requires
        net.wf(),
        test@.len() <= 0x4000_0000,
    ensures
        match r {
            Ok(rep) => {
                &&& net.in_width == 3
                &&& net.spec_out_width() == 1
                &&& test@.len() >= 1
                &&& rep.rows@.len() == test@.len()
                &&& forall|i: int|
                    0 <= i < test@.len() ==> (#[trigger] rep.rows@[i]) == spec_row(
                        *net,
                        test@[i],
                    )
                &&& rep.mae == sum_abs(
                    expected_seq(test@),
                    predicted_seq(*net, test@),
                    test@.len() as int,
                ) / (test@.len() as int)
                &&& (rep.rmse as int) * (rep.rmse as int) <= sum_sq(
                    expected_seq(test@),
                    predicted_seq(*net, test@),
                    test@.len() as int,
                ) / (test@.len() as int)
                &&& (rep.rmse as int + 1) * (rep.rmse as int + 1) > sum_sq(
                    expected_seq(test@),
                    predicted_seq(*net, test@),
                    test@.len() as int,
                ) / (test@.len() as int)
            },
            Err(e) => {
                &&& (test@.len() == 0 ==> e == SocError::InsufficientData)
                &&& (test@.len() >= 1 ==> e == SocError::DimensionMismatch && (net.in_width != 3
                    || net.spec_out_width() != 1))
            },
        },
{
    if test.len() == 0 {
        return Err(SocError::InsufficientData);
    }
    if net.input_width() != 3 {
        return Err(SocError::DimensionMismatch);
    }
    if net.out_width() != 1 {
        return Err(SocError::DimensionMismatch);
    }
    let mut rows: Vec<Row> = Vec::new();
    let mut evec: Vec<i64> = Vec::new();
    let mut pvec: Vec<i64> = Vec::new();
    let mut i: usize = 0;
    while i < test.len()
        invariant
            net.wf(),
            net.in_width == 3,
            net.spec_out_width() == 1,
            i <= test@.len(),
            rows@.len() == i,
            evec@.len() == i,
            pvec@.len() == i,
            forall|k: int| 0 <= k < i ==> (#[trigger] rows@[k]) == spec_row(*net, test@[k]),
            forall|k: int| 0 <= k < i ==> (#[trigger] evec@[k]) == test@[k].label,
            forall|k: int| 0 <= k < i ==> (#[trigger] pvec@[k]) == spec_predicted(*net, test@[k]),
        decreases test@.len() - i,
    {
        let f = test[i];
        let input = vec![f.prev_battery, f.curr_battery, f.curr_ldo];
        proof {
            assert(input@ =~= feat_input(f));
        }
        let out = match net.calc(&input) {
            Ok(out) => out,
            Err(_) => {
                proof {
                    assert(false);
                }
                return Err(SocError::DimensionMismatch);
            },
        };
        let predicted = out[0];
        rows.push(
            Row {
                prev_battery: f.prev_battery,
                curr_battery: f.curr_battery,
                curr_ldo: f.curr_ldo,
                expected: f.label,
                predicted,
            },
        );
        evec.push(f.label);
        pvec.push(predicted);
        i += 1;
    }
    proof {
        assert(evec@ =~= expected_seq(test@));
        assert(pvec@ =~= predicted_seq(*net, test@));
    }
    let (mae, rmse) = match aggregate(&evec, &pvec) {
        Ok(m) => m,
        Err(_) => {
            proof {
                assert(false);
            }
            return Err(SocError::DimensionMismatch);
        },
    };
    Ok(Report { rows, mae, rmse })
}

} // verus!
