use rand::SeedableRng;
use soc_net::fixed::MICRO;
use soc_net::metrics::aggregate;
use soc_net::metrics::evaluate;
use soc_net::metrics::sort_rows_by_expected_desc;
use soc_net::metrics::Row;
use soc_net::network::create;
use soc_net::network::create_from_params;
use soc_net::network::Act;
use soc_net::network::Layer;
use soc_net::network::Network;
use soc_net::network::SocError;
use soc_net::pipeline::build_features;
use soc_net::pipeline::build_features_labeled;
use soc_net::pipeline::label_of;
use soc_net::pipeline::shuffle_and_split;
use soc_net::snapshot::decode;
use soc_net::snapshot::encode;
use soc_net::telemetry::ADCRead;
use soc_net::telemetry::DeviceState;
use soc_net::telemetry::FeatureVec;
use soc_net::train::fit;
use soc_net::train::train;

fn sample(battery: u16, ldo: u16, ts: u64) -> DeviceState {
    DeviceState {
        adc_state: ADCRead { battery_mv: battery, ldo_inp_mv: ldo, pressure_mv: 0 },
        n_pulses: 0,
        time_sec: ts,
    }
}

fn tiny_net(w: i64, b: i64, act: Act) -> Network {
    Network { in_width: 1, layers: vec![Layer { weights: vec![vec![w]], biases: vec![b] }], act }
}

#[test]
fn norm_maps_endpoints_exactly() {
    assert_eq!(DeviceState::norm(3300), 0);
    assert_eq!(DeviceState::norm(4100), MICRO);
    assert_eq!(DeviceState::norm(3700), 500_000);
    // Values outside the nominal range are not clamped.
    assert_eq!(DeviceState::norm(2500), -MICRO);
    assert_eq!(DeviceState::norm(4900), 2 * MICRO);
}

#[test]
fn feature_vector_from_adjacent_pair() {
    let prev = sample(4100, 3600, 0);
    let curr = sample(3700, 3650, 10);
    let fv = curr.get_ai_data(prev, 600_000);
    assert_eq!(fv.prev_battery, MICRO);
    assert_eq!(fv.curr_battery, 500_000);
    assert_eq!(fv.curr_ldo, 437_500);
    assert_eq!(fv.label, 600_000);
}

#[test]
fn label_is_remaining_time_fraction() {
    // Final timestamp 100, sample at 40: label is (100 - 40) / 100 = 0.6.
    assert_eq!(label_of(40, 100), 600_000);
    assert_eq!(label_of(0, 100), MICRO);
    assert_eq!(label_of(100, 100), 0);
    assert_eq!(label_of(0, 0), 0);
}

#[test]
fn sliding_window_yields_one_less() {
    let samples = vec![
        sample(4100, 3600, 0),
        sample(3900, 3600, 10),
        sample(3700, 3600, 20),
        sample(3500, 3600, 30),
        sample(3300, 3600, 40),
    ];
    let fv = build_features(&samples).unwrap();
    assert_eq!(fv.len(), 4);
    assert_eq!(fv[0].prev_battery, MICRO);
    assert_eq!(fv[0].curr_battery, 750_000);
    assert_eq!(fv[0].label, 750_000);
    assert_eq!(fv[3].curr_battery, 0);
    assert_eq!(fv[3].label, 0);
}

#[test]
fn too_few_samples_is_insufficient_data() {
    let one = vec![sample(3700, 3600, 5)];
    assert_eq!(build_features(&one).unwrap_err(), SocError::InsufficientData);
    let none: Vec<DeviceState> = Vec::new();
    assert_eq!(build_features(&none).unwrap_err(), SocError::InsufficientData);
}

#[test]
fn shuffle_and_split_partitions_the_dataset() {
    let mut data: Vec<FeatureVec> = Vec::new();
    let mut i: i64 = 0;
    while i < 10 {
        data.push(FeatureVec { prev_battery: i, curr_battery: i + 1, curr_ldo: i + 2, label: i });
        i += 1;
    }
    let mut rng = rand::rngs::StdRng::seed_from_u64(11);
    let (train_set, test_set) = shuffle_and_split(&data, 3, 5, &mut rng);
    assert_eq!(train_set.len() + test_set.len(), data.len());
    assert_eq!(train_set.len(), 6);
    let mut together: Vec<i64> = Vec::new();
    for f in train_set.iter() {
        together.push(f.label);
    }
    for f in test_set.iter() {
        together.push(f.label);
    }
    together.sort();
    assert_eq!(together, vec![0, 1, 2, 3, 4, 5, 6, 7, 8, 9]);
}

#[test]
fn create_rejects_degenerate_topologies() {
    let mut rng = rand::rngs::StdRng::seed_from_u64(1);
    assert_eq!(create(&vec![3], Act::Sigmoid, &mut rng).unwrap_err(), SocError::InvalidTopology);
    assert_eq!(
        create(&vec![3, 0, 1], Act::Sigmoid, &mut rng).unwrap_err(),
        SocError::InvalidTopology
    );
    assert_eq!(create(&Vec::new(), Act::Tanh, &mut rng).unwrap_err(), SocError::InvalidTopology);
}

#[test]
fn create_draws_unit_interval_parameters() {
    let mut rng = rand::rngs::StdRng::seed_from_u64(2);
    let net = create(&vec![3, 4, 1], Act::Sigmoid, &mut rng).unwrap();
    assert_eq!(net.in_width, 3);
    assert_eq!(net.layers.len(), 2);
    assert_eq!(net.layers[0].weights.len(), 4);
    assert_eq!(net.layers[0].weights[0].len(), 3);
    assert_eq!(net.layers[1].weights.len(), 1);
    for layer in net.layers.iter() {
        for row in layer.weights.iter() {
            for w in row.iter() {
                assert!(0 <= *w && *w < MICRO);
            }
        }
        for b in layer.biases.iter() {
            assert!(0 <= *b && *b < MICRO);
        }
    }
}

#[test]
fn custom_parameters_build_an_exact_network() {
    // A zero-centered initialization, not reachable with the default
    // uniform draw: one weight of -1.0 and a zero bias.
    let sizes = vec![1usize, 1];
    let params = vec![-MICRO, 0];
    let net = create_from_params(&sizes, Act::Tanh, &params).unwrap();
    assert_eq!(net.layers[0].weights[0][0], -MICRO);
    assert_eq!(net.layers[0].biases[0], 0);
    assert_eq!(net.calc(&vec![500_000]).unwrap(), vec![-500_000]);
    assert_eq!(
        create_from_params(&sizes, Act::Tanh, &vec![1, 2, 3]).unwrap_err(),
        SocError::DimensionMismatch
    );
    assert_eq!(
        create_from_params(&vec![1], Act::Tanh, &params).unwrap_err(),
        SocError::InvalidTopology
    );
    assert_eq!(
        create_from_params(&vec![1, 0], Act::Tanh, &params).unwrap_err(),
        SocError::InvalidTopology
    );
}

#[test]
fn labels_can_follow_another_policy() {
    // The sample-index-ratio policy, computed by the caller and
    // handed in instead of the canonical time ratio.
    let samples = vec![sample(4100, 3600, 0), sample(3900, 3600, 10), sample(3700, 3600, 20)];
    let labels = vec![MICRO, 500_000, 0];
    let fv = build_features_labeled(&samples, &labels).unwrap();
    assert_eq!(fv.len(), 2);
    assert_eq!(fv[0].label, 500_000);
    assert_eq!(fv[1].label, 0);
    assert_eq!(fv[0].curr_battery, 750_000);
    assert_eq!(
        build_features_labeled(&samples, &vec![1, 2]).unwrap_err(),
        SocError::DimensionMismatch
    );
    let one = vec![sample(3700, 3600, 5)];
    assert_eq!(build_features_labeled(&one, &vec![0]).unwrap_err(), SocError::InsufficientData);
}

#[test]
fn calc_output_width_follows_topology() {
    let mut rng = rand::rngs::StdRng::seed_from_u64(3);
    let net = create(&vec![3, 4, 3, 1], Act::Sigmoid, &mut rng).unwrap();
    let out = net.calc(&vec![0, 0, 0]).unwrap();
    assert_eq!(out.len(), 1);
    let wide = create(&vec![2, 5, 4], Act::Tanh, &mut rng).unwrap();
    let out2 = wide.calc(&vec![MICRO, -MICRO]).unwrap();
    assert_eq!(out2.len(), 4);
}

#[test]
fn calc_rejects_wrong_input_width() {
    let mut rng = rand::rngs::StdRng::seed_from_u64(4);
    let net = create(&vec![3, 2, 1], Act::Sigmoid, &mut rng).unwrap();
    assert_eq!(net.calc(&vec![0, 0]).unwrap_err(), SocError::DimensionMismatch);
    assert_eq!(net.calc(&Vec::new()).unwrap_err(), SocError::DimensionMismatch);
}

#[test]
fn calc_computes_the_exact_fixed_point_pass() {
    // One neuron, weight 1.0, bias 0: tanh keeps an interior value.
    let net = tiny_net(MICRO, 0, Act::Tanh);
    assert_eq!(net.calc(&vec![500_000]).unwrap(), vec![500_000]);
    // Hard sigmoid of the same pre-activation: 0.5 / 4 + 0.5 = 0.625.
    let net2 = tiny_net(MICRO, 0, Act::Sigmoid);
    assert_eq!(net2.calc(&vec![500_000]).unwrap(), vec![625_000]);
    // Saturation above one unit.
    let net3 = tiny_net(MICRO, MICRO, Act::Tanh);
    assert_eq!(net3.calc(&vec![MICRO]).unwrap(), vec![MICRO]);
}

#[test]
fn calc_is_pure() {
    let mut rng = rand::rngs::StdRng::seed_from_u64(5);
    let net = create(&vec![3, 4, 3, 1], Act::Sigmoid, &mut rng).unwrap();
    let input = vec![250_000, 500_000, 750_000];
    let a = net.calc(&input).unwrap();
    let b = net.calc(&input).unwrap();
    assert_eq!(a, b);
}

#[test]
fn fit_applies_the_delta_rule_exactly() {
    // Start at w = 0, b = 0 with hard tanh: the forward output is 0,
    // the error is 0.5, the slope is 1, so the delta is 0.5.  With
    // learning rate 0.5 the weight moves by 0.5 * (0.5 * 1.0) = 0.25
    // and the bias by 0.5 * 0.5 = 0.25.
    let mut net = tiny_net(0, 0, Act::Tanh);
    fit(&mut net, &vec![MICRO], &vec![500_000], 500_000).unwrap();
    assert_eq!(net.layers[0].weights[0][0], 250_000);
    assert_eq!(net.layers[0].biases[0], 250_000);
}

#[test]
fn fit_rejects_wrong_widths() {
    let mut net = tiny_net(0, 0, Act::Tanh);
    assert_eq!(
        fit(&mut net, &vec![0, 0], &vec![0], 500_000).unwrap_err(),
        SocError::DimensionMismatch
    );
    assert_eq!(
        fit(&mut net, &vec![0], &vec![0, 0], 500_000).unwrap_err(),
        SocError::DimensionMismatch
    );
    // A rejected call leaves the network untouched.
    assert_eq!(net.layers[0].weights[0][0], 0);
    assert_eq!(net.layers[0].biases[0], 0);
}

#[test]
fn repeated_fit_reduces_the_error() {
    let mut net = tiny_net(0, 0, Act::Tanh);
    let input = vec![MICRO];
    let target: i64 = 500_000;
    let before = (net.calc(&input).unwrap()[0] - target).abs();
    for _ in 0..50 {
        fit(&mut net, &input, &vec![target], 300_000).unwrap();
    }
    let after = (net.calc(&input).unwrap()[0] - target).abs();
    assert!(after < before);
}

#[test]
fn aggregate_matches_the_worked_example() {
    // expected [0.2, 0.4], predicted [0.3, 0.5]: MAE = 0.1, RMSE = 0.1.
    let (mae, rmse) = aggregate(&vec![200_000, 400_000], &vec![300_000, 500_000]).unwrap();
    assert_eq!(mae, 100_000);
    assert_eq!(rmse, 100_000);
}

#[test]
fn aggregate_error_cases() {
    assert_eq!(aggregate(&vec![1, 2], &vec![1]).unwrap_err(), SocError::DimensionMismatch);
    let empty: Vec<i64> = Vec::new();
    assert_eq!(aggregate(&empty, &Vec::new()).unwrap_err(), SocError::InsufficientData);
}

#[test]
fn evaluate_reports_rows_in_order() {
    let net = Network {
        in_width: 3,
        layers: vec![Layer { weights: vec![vec![MICRO, 0, 0]], biases: vec![0] }],
        act: Act::Tanh,
    };
    let data = vec![
        FeatureVec { prev_battery: 250_000, curr_battery: 0, curr_ldo: 0, label: 250_000 },
        FeatureVec { prev_battery: 750_000, curr_battery: 0, curr_ldo: 0, label: 250_000 },
    ];
    let rep = evaluate(&net, &data).unwrap();
    assert_eq!(rep.rows.len(), 2);
    assert_eq!(rep.rows[0].predicted, 250_000);
    assert_eq!(rep.rows[0].expected, 250_000);
    assert_eq!(rep.rows[1].predicted, 750_000);
    // Errors are 0.0 and 0.5: MAE = 0.25, RMSE = sqrt(0.125).
    assert_eq!(rep.mae, 250_000);
    assert_eq!(rep.rmse, 353_553);
}

#[test]
fn rows_sort_descending_by_expected() {
    let row = |e: i64, p: i64| Row {
        prev_battery: 0,
        curr_battery: 0,
        curr_ldo: 0,
        expected: e,
        predicted: p,
    };
    let rows = vec![row(250_000, 1), row(750_000, 2), row(500_000, 3), row(750_000, 4)];
    let sorted = sort_rows_by_expected_desc(&rows);
    assert_eq!(sorted.len(), 4);
    let expected_order: Vec<i64> = sorted.iter().map(|r| r.expected).collect();
    assert_eq!(expected_order, vec![750_000, 750_000, 500_000, 250_000]);
    let mut predicted: Vec<i64> = sorted.iter().map(|r| r.predicted).collect();
    predicted.sort();
    assert_eq!(predicted, vec![1, 2, 3, 4]);
}

#[test]
fn evaluate_rejects_empty_and_mismatched() {
    let net = tiny_net(0, 0, Act::Tanh);
    let empty: Vec<FeatureVec> = Vec::new();
    assert_eq!(evaluate(&net, &empty).unwrap_err(), SocError::InsufficientData);
    let data = vec![FeatureVec { prev_battery: 0, curr_battery: 0, curr_ldo: 0, label: 0 }];
    // A one-input network cannot take three-feature examples.
    assert_eq!(evaluate(&net, &data).unwrap_err(), SocError::DimensionMismatch);
}

#[test]
fn snapshot_round_trips_exactly() {
    let mut rng = rand::rngs::StdRng::seed_from_u64(6);
    let net = create(&vec![3, 4, 3, 1], Act::Sigmoid, &mut rng).unwrap();
    let bytes = encode(&net).unwrap();
    assert!(bytes.len() <= 1024);
    let back = decode(&bytes).unwrap();
    assert_eq!(back.in_width, net.in_width);
    assert_eq!(back.layers.len(), net.layers.len());
    for (a, b) in net.layers.iter().zip(back.layers.iter()) {
        assert_eq!(a.weights, b.weights);
        assert_eq!(a.biases, b.biases);
    }
    let input = vec![100_000, 200_000, 300_000];
    assert_eq!(net.calc(&input).unwrap(), back.calc(&input).unwrap());
}

#[test]
fn oversized_model_is_reported_not_truncated() {
    let mut rng = rand::rngs::StdRng::seed_from_u64(7);
    let net = create(&vec![3, 200, 1], Act::Sigmoid, &mut rng).unwrap();
    assert_eq!(encode(&net).unwrap_err(), SocError::CapacityExceeded);
}

#[test]
fn corrupt_snapshots_are_rejected() {
    assert_eq!(decode(&Vec::new()).unwrap_err(), SocError::CorruptSnapshot);
    // Unknown activation tag.
    assert_eq!(decode(&vec![9, 2, 1, 1]).unwrap_err(), SocError::CorruptSnapshot);
    // A zero layer size.
    assert_eq!(decode(&vec![0, 2, 1, 0]).unwrap_err(), SocError::CorruptSnapshot);
    // Sizes that do not reconcile with the payload length.
    let mut rng = rand::rngs::StdRng::seed_from_u64(8);
    let net = create(&vec![2, 2, 1], Act::Tanh, &mut rng).unwrap();
    let mut bytes = encode(&net).unwrap();
    bytes.pop();
    assert_eq!(decode(&bytes).unwrap_err(), SocError::CorruptSnapshot);
}

#[test]
fn training_beats_the_untrained_network() {
    // Five synthetic readings at timestamps 0..40; the battery drains
    // from 4100 mV to 3300 mV.
    let samples = vec![
        sample(4100, 3600, 0),
        sample(3900, 3600, 10),
        sample(3700, 3600, 20),
        sample(3500, 3600, 30),
        sample(3300, 3600, 40),
    ];
    let features = build_features(&samples).unwrap();
    assert_eq!(features.len(), 4);
    // Fixed seeding: take the first seed whose fresh network starts
    // inside the responsive region of the hard sigmoid.
    let mut chosen: Option<Network> = None;
    for seed in 0..64u64 {
        let mut rng = rand::rngs::StdRng::seed_from_u64(seed);
        let net = create(&vec![3, 4, 3, 1], Act::Sigmoid, &mut rng).unwrap();
        let input = vec![features[0].prev_battery, features[0].curr_battery, features[0].curr_ldo];
        let out = net.calc(&input).unwrap()[0];
        if 0 < out && out < MICRO {
            chosen = Some(net);
            break;
        }
    }
    let untrained = chosen.expect("a responsive seed exists");
    let mut trained = untrained.clone();
    let mut rng = rand::rngs::StdRng::seed_from_u64(99);
    train(&mut trained, &features, 300_000, 1000, &mut rng).unwrap();
    let before = evaluate(&untrained, &features).unwrap();
    let after = evaluate(&trained, &features).unwrap();
    assert!(after.mae < before.mae);
}
