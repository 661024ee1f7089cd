use eq_tensor::field::FieldElement;
use eq_tensor::harness::count_mismatches;
use eq_tensor::harness::gen_vec;
use eq_tensor::harness::pow2_usize;
use eq_tensor::harness::preset_configs;
use eq_tensor::harness::run_battery;
use eq_tensor::harness::run_trial;
use eq_tensor::harness::run_widths;
use eq_tensor::harness::zero_accumulator;
use eq_tensor::harness::FieldConfig;

#[test]
fn gen_vec_follows_the_recurrence() {
    // v_0 = seed, v_{k+1} = v_k · seed + 1, all mod 17.
    let v = gen_vec(6, 4, 17);
    let expected = [4u64, 0, 1, 5, 4, 0];
    assert_eq!(v.len(), 6);
    for (e, want) in v.iter().zip(expected) {
        assert_eq!(e.value, want);
        assert_eq!(e.modulus, 17);
    }
}

#[test]
fn gen_vec_reduces_large_seed() {
    let v = gen_vec(3, 100, 17);
    // base = 100 mod 17 = 15; then 15·15 + 1 = 226 mod 17 = 5; 5·15 + 1 = 76 mod 17 = 8.
    assert_eq!(v[0].value, 15);
    assert_eq!(v[1].value, 5);
    assert_eq!(v[2].value, 8);
}

#[test]
fn zero_accumulator_is_zeroed() {
    let acc = zero_accumulator(16, 17);
    assert_eq!(acc.len(), 16);
    for e in &acc {
        assert_eq!(e.value, 0);
        assert_eq!(e.modulus, 17);
    }
}

#[test]
fn count_mismatches_is_exact() {
    let m: u64 = 17;
    let mut a = Vec::new();
    let mut b = Vec::new();
    for v in [1u64, 2, 3, 4, 5] {
        a.push(FieldElement::new(v, m));
        b.push(FieldElement::new(v, m));
    }
    assert_eq!(count_mismatches(&a, &b), 0);
    b[1] = FieldElement::new(9, m);
    b[4] = FieldElement::new(0, m);
    assert_eq!(count_mismatches(&a, &b), 2);
}

#[test]
fn pow2_usize_doubles() {
    assert_eq!(pow2_usize(0), 1);
    assert_eq!(pow2_usize(1), 2);
    assert_eq!(pow2_usize(10), 1024);
}

#[test]
fn preset_configs_cover_three_widths() {
    let configs = preset_configs();
    assert_eq!(configs.len(), 3);
    assert_eq!(configs[0].modulus, 2305843009213693951);
    assert_eq!(configs[0].bit_width, 61);
    assert_eq!(configs[1].modulus, 2147483647);
    assert_eq!(configs[1].bit_width, 31);
    assert_eq!(configs[2].modulus, 131071);
    assert_eq!(configs[2].bit_width, 17);
    for c in &configs {
        assert!(c.generator >= 1 && c.generator < c.modulus);
    }
}

#[test]
fn single_trial_reports_no_mismatch() {
    let config = FieldConfig { modulus: 17, generator: 3, bit_width: 5 };
    assert_eq!(run_trial(config, 4, 11, 222), 0);
}

#[test]
fn battery_of_100_trials_at_dimension_10() {
    // The fixed battery: 100 pseudorandom (point, scalar) pairs at dimension
    // 10, for each of three distinct modulus bit-widths.
    let configs = preset_configs();
    for config in &configs {
        let report = run_battery(*config, 10, 100);
        assert_eq!(report.trials, 100);
        assert_eq!(report.mismatches, 0);
        assert!(report.passed);
    }
}

#[test]
fn run_widths_reports_per_configuration() {
    let configs = preset_configs();
    let reports = run_widths(&configs, 6, 10);
    assert_eq!(reports.len(), 3);
    for r in &reports {
        assert_eq!(r.trials, 10);
        assert_eq!(r.mismatches, 0);
        assert!(r.passed);
    }
}
