//! Data pipeline: sliding-window feature extraction with the
//! remaining-time label policy, and the shuffled train/test split.
use vstd::prelude::*;
use vstd::seq_lib::group_to_multiset_ensures;
use vstd::seq_lib::lemma_multiset_commutative;
use vstd::arithmetic::div_mod::{lemma_div_is_ordered, lemma_div_multiples_vanish};
use crate::fixed::MICRO;
use crate::telemetry::{DeviceState, FeatureVec, spec_norm};
use crate::network::SocError;
use crate::rng::rand_below;

verus! {

/// The canonical label policy: the fraction of remaining session time,
/// `(last - t) / last`, in micro-units (zero when the session ends at
/// time zero).
pub open spec fn spec_label(t: u64, last: u64) -> int {
    if last == 0 {
        0
    } else {
        ((last - t) * (MICRO as int)) / (last as int)
    }
}

/// Compute the remaining-time label for the sample at time `t` against
/// the final sample's time `last`.
pub fn label_of(t: u64, last: u64) -> (r: i64)
    requires
        t <= last,
    ensures
        r == spec_label(t, last),
        0 <= r <= MICRO,
{
    if last == 0 {
        0
    } else {
        let num: u128 = ((last - t) as u128) * 1_000_000u128;
        let q: u128 = num / (last as u128);
        proof {
            assert((last - t) as int * (MICRO as int) <= (last as int) * (MICRO as int))
                by (nonlinear_arith)
                requires
                    t <= last,
            ;
            lemma_div_is_ordered(
                (last - t) as int * (MICRO as int),
                (last as int) * (MICRO as int),
                last as int,
            );
            lemma_div_multiples_vanish(MICRO as int, last as int);
        }
        q as i64
    }
}

/// The feature vector derived from two temporally adjacent samples,
/// under a given label.
pub open spec fn spec_feature_labeled(prev: DeviceState, curr: DeviceState, label: i64) -> FeatureVec {
    FeatureVec {
        prev_battery: spec_norm(prev.adc_state.battery_mv) as i64,
        curr_battery: spec_norm(curr.adc_state.battery_mv) as i64,
        curr_ldo: spec_norm(curr.adc_state.ldo_inp_mv) as i64,
        label: label,
    }
}

/// The feature vector derived from two temporally adjacent samples
/// under the canonical remaining-time label policy.
pub open spec fn spec_feature(prev: DeviceState, curr: DeviceState, last_ts: u64) -> FeatureVec {
    spec_feature_labeled(prev, curr, spec_label(curr.time_sec, last_ts) as i64)
}

/// Slide a window of size two over the sample sequence under a
/// caller-supplied label policy, given as one label per sample (the
/// label of a pair is the current — second — sample's).  This is the
/// hook for any policy other than the canonical time ratio: compute
/// the labels however desired and hand them in.  Each adjacent pair
/// yields one feature vector, in the original order.
pub fn build_features_labeled(samples: &Vec<DeviceState>, labels: &Vec<i64>) -> (r: Result<
    Vec<FeatureVec>,
    SocError,
>)
    ensures
        match r {
            Ok(fv) => {
                &&& samples@.len() >= 2
                &&& labels@.len() == samples@.len()
                &&& fv@.len() == samples@.len() - 1
                &&& forall|i: int|
                    0 <= i < fv@.len() ==> (#[trigger] fv@[i]) == spec_feature_labeled(
                        samples@[i],
                        samples@[i + 1],
                        labels@[i + 1],
                    )
            },
            Err(e) => {
                &&& (samples@.len() < 2 ==> e == SocError::InsufficientData)
                &&& (samples@.len() >= 2 ==> e == SocError::DimensionMismatch && labels@.len()
                    != samples@.len())
            },
        },
{
    if samples.len() < 2 {
        return Err(SocError::InsufficientData);
    }
    if labels.len() != samples.len() {
        return Err(SocError::DimensionMismatch);
    }
    let mut fv: Vec<FeatureVec> = Vec::new();
    let mut i: usize = 1;
    while i < samples.len()
        invariant
            1 <= i <= samples@.len(),
            samples@.len() >= 2,
            labels@.len() == samples@.len(),
            fv@.len() == i - 1,
            forall|k: int|
                0 <= k < i - 1 ==> (#[trigger] fv@[k]) == spec_feature_labeled(
                    samples@[k],
                    samples@[k + 1],
                    labels@[k + 1],
                ),
        decreases samples@.len() - i,
    {
        let prev = samples[i - 1];
        let curr = samples[i];
        fv.push(curr.get_ai_data(prev, labels[i]));
        i += 1;
    }
    Ok(fv)
}

/// Slide a window of size two over the sample sequence: each adjacent
/// pair yields one labeled feature vector, in the original order, so a
/// sequence of N samples yields exactly N - 1 feature vectors.
pub fn build_features(samples: &Vec<DeviceState>) -> (r: Result<Vec<FeatureVec>, SocError>)
    requires
        forall|i: int, j: int|
            0 <= i <= j < samples@.len() ==> (#[trigger] samples@[i]).time_sec
                <= (#[trigger] samples@[j]).time_sec,
    ensures
        match r {
            Ok(fv) => {
                &&& samples@.len() >= 2
                &&& fv@.len() == samples@.len() - 1
                &&& forall|i: int|
                    0 <= i < fv@.len() ==> (#[trigger] fv@[i]) == spec_feature(
                        samples@[i],
                        samples@[i + 1],
                        samples@[samples@.len() - 1].time_sec,
                    )
            },
            Err(e) => {
                &&& e == SocError::InsufficientData
                &&& samples@.len() < 2
            },
        },
{
    if samples.len() < 2 {
        return Err(SocError::InsufficientData);
    }
    let last_ts = samples[samples.len() - 1].time_sec;
    let mut fv: Vec<FeatureVec> = Vec::new();
    let mut i: usize = 1;
    while i < samples.len()
        invariant
            1 <= i <= samples@.len(),
            samples@.len() >= 2,
            last_ts == samples@[samples@.len() - 1].time_sec,
            forall|a: int, b: int|
                0 <= a <= b < samples@.len() ==> (#[trigger] samples@[a]).time_sec
                    <= (#[trigger] samples@[b]).time_sec,
            fv@.len() == i - 1,
            forall|k: int|
                0 <= k < i - 1 ==> (#[trigger] fv@[k]) == spec_feature(
                    samples@[k],
                    samples@[k + 1],
                    last_ts,
                ),
        decreases samples@.len() - i,
    {
        let prev = samples[i - 1];
        let curr = samples[i];
        let label = label_of(curr.time_sec, last_ts);
        fv.push(curr.get_ai_data(prev, label));
        i += 1;
    }
    Ok(fv)
}

/// The split point: `floor(len * num / den)` elements go to the
/// training partition.
pub open spec fn split_point(len: int, num: int, den: int) -> int
    recommends
        den >= 1,
{
    (len * num) / den
}

/// Uniformly permute the dataset with the injected generator, then cut
/// it at `floor(len * frac_num / frac_den)`: the two partitions are
/// disjoint slices of the permutation, their lengths sum to the
/// dataset's, and together they hold exactly the original feature
/// vectors (as a multiset).
pub fn shuffle_and_split(
    data: &Vec<FeatureVec>,
    frac_num: u64,
    frac_den: u64,
    rng: &mut rand::rngs::StdRng,
) -> (r: (Vec<FeatureVec>, Vec<FeatureVec>))
    requires
        frac_den >= 1,
        frac_num <= frac_den,
    ensures
        r.0@.len() + r.1@.len() == data@.len(),
        r.0@.len() == split_point(data@.len() as int, frac_num as int, frac_den as int),
        r.0@.to_multiset().add(r.1@.to_multiset()) == data@.to_multiset(),
{
    broadcast use group_to_multiset_ensures;

    // Random permutation: repeatedly draw one remaining element.
    let mut work: Vec<FeatureVec> = Vec::new();
    let mut i: usize = 0;
    while i < data.len()
        invariant
            i <= data@.len(),
            work@ == data@.subrange(0, i as int),
        decreases data@.len() - i,
    {
        work.push(data[i]);
        i += 1;
    }
    proof {
        assert(data@.subrange(0, data@.len() as int) =~= data@);
    }
    let mut perm: Vec<FeatureVec> = Vec::new();
    while work.len() > 0
        invariant
            perm@.len() + work@.len() == data@.len(),
            perm@.to_multiset().add(work@.to_multiset()) == data@.to_multiset(),
        decreases work@.len(),
    {
        let idx = rand_below(rng, work.len() as u64) as usize;
        let ghost old_work = work@;
        let ghost old_perm = perm@;
        let f = work.remove(idx);
        perm.push(f);
        proof {
            old_work.to_multiset_ensures();
            vstd::seq_lib::to_multiset_remove(old_work, idx as int);
            vstd::seq_lib::to_multiset_build(old_perm, f);
            assert(work@.to_multiset() =~= old_work.to_multiset().remove(f));
            assert(perm@.to_multiset() =~= old_perm.to_multiset().insert(f));
            assert(old_work.contains(f));
            assert(old_work.to_multiset().count(f) > 0);
            assert(perm@.to_multiset().add(work@.to_multiset()) =~= old_perm.to_multiset().add(
                old_work.to_multiset(),
            ));
        }
    }

    // Cut the permutation at the requested fraction.
    proof {
        assert((data@.len() as int) * (frac_num as int)
            < 0x1_0000_0000_0000_0000_0000_0000_0000_0000int) by (nonlinear_arith)
            requires
                data@.len() <= 0xffff_ffff_ffff_ffffu64,
                frac_num <= 0xffff_ffff_ffff_ffffu64,
        ;
    }
    let cut_wide: u128 = (data.len() as u128) * (frac_num as u128) / (frac_den as u128);
    proof {
        assert((data@.len() as int) * (frac_num as int) <= (data@.len() as int) * (
        frac_den as int)) by (nonlinear_arith)
            requires
                frac_num <= frac_den,
        ;
        lemma_div_is_ordered(
            (data@.len() as int) * (frac_num as int),
            (data@.len() as int) * (frac_den as int),
            frac_den as int,
        );
        lemma_div_multiples_vanish(data@.len() as int, frac_den as int);
        assert((data@.len() as int) * (frac_den as int) == (frac_den as int) * (
        data@.len() as int)) by (nonlinear_arith);
        assert(cut_wide <= data@.len());
    }
    let cut = cut_wide as usize;
    let mut train: Vec<FeatureVec> = Vec::new();
    let mut test: Vec<FeatureVec> = Vec::new();
    let mut j: usize = 0;
    while j < perm.len()
        invariant
            j <= perm@.len(),
            cut <= perm@.len(),
            train@ == perm@.subrange(0, if j < cut {
                j as int
            } else {
                cut as int
            }),
            test@ == if j <= cut {
                Seq::<FeatureVec>::empty()
            } else {
                perm@.subrange(cut as int, j as int)
            },
        decreases perm@.len() - j,
    {
        if j < cut {
            train.push(perm[j]);
            proof {
                assert(train@ =~= perm@.subrange(
                    0,
                    if j + 1 < cut {
                        j + 1
                    } else {
                        cut as int
                    },
                ));
            }
        } else {
            test.push(perm[j]);
            proof {
                assert(test@ =~= perm@.subrange(cut as int, j + 1));
            }
        }
        j += 1;
    }
    proof {
        if cut < perm@.len() {
            assert(train@ + test@ =~= perm@);
        } else {
            assert(train@ + test@ =~= perm@);
        }
        lemma_multiset_commutative(train@, test@);
        assert(train@.to_multiset().add(test@.to_multiset()) == perm@.to_multiset());
    }
    (train, test)
}

} // verus!
