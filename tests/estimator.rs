use rand::rngs::StdRng;
use rand::{Rng, SeedableRng};
use sobol::model::{Model, Scalar, UnitSource};
use sobol::pairs::get_couples;
use sobol::params::{ParamError, Params, Value};
use sobol::sobol::{
    calc_sobol_1, calc_sobol_2, calc_sobol_total, first_order_from, first_order_indices,
    mean_product, moments, pick_freeze, recombine, sample, second_order_indices, total_indices,
    SobolError,
};

#[derive(Clone, Copy, Debug, PartialEq, PartialOrd)]
struct F(f64);

impl Scalar for F {
    fn spec_zero() -> F {
        Self::zero()
    }
    fn spec_one() -> F {
        Self::one()
    }
    fn spec_count(n: usize) -> F {
        Self::count(n)
    }
    fn spec_plus(self, other: F) -> F {
        self.plus(other)
    }
    fn spec_minus(self, other: F) -> F {
        self.minus(other)
    }
    fn spec_times(self, other: F) -> F {
        self.times(other)
    }
    fn spec_over(self, other: F) -> F {
        self.over(other)
    }
    fn spec_negligible(self) -> bool {
        self.is_negligible()
    }
    fn zero() -> F {
        F(0.0)
    }
    fn one() -> F {
        F(1.0)
    }
    fn count(n: usize) -> F {
        F(n as f64)
    }
    fn plus(self, other: F) -> F {
        F(self.0 + other.0)
    }
    fn minus(self, other: F) -> F {
        F(self.0 - other.0)
    }
    fn times(self, other: F) -> F {
        F(self.0 * other.0)
    }
    fn over(self, other: F) -> F {
        F(self.0 / other.0)
    }
    fn is_negligible(self) -> bool {
        self.0.abs() < 1e-12
    }
}

struct Uniform(StdRng);

impl UnitSource<F> for Uniform {
    fn unit(&mut self) -> F {
        F(self.0.gen::<f64>())
    }
}

fn rng(seed: u64) -> Uniform {
    Uniform(StdRng::seed_from_u64(seed))
}

fn value(p: &Params<F>, k: &str) -> f64 {
    p.get_float(k).unwrap().0
}

/// Explicit-Euler Gompertz growth, dC/dt = alpha * C * ln(K / C), to t = 10.
struct Gompertz {
    alpha: f64,
    k: f64,
    c0: f64,
}

impl Model<F> for Gompertz {
    fn spec_setup(params: &Params<F>) -> Self {
        Self::setup(params)
    }
    fn spec_run(&self) -> F {
        self.run()
    }
    fn setup(p: &Params<F>) -> Gompertz {
        Gompertz { alpha: value(p, "alpha"), k: value(p, "K"), c0: value(p, "C0") }
    }
    fn run(&self) -> F {
        let tmax = 10.0;
        let dt = 0.01;
        let mut c = self.c0;
        for _ in 0..((tmax / dt) as usize) {
            c = c + self.alpha * dt * (self.k / c).ln() * c;
        }
        F(c)
    }
}

/// Depends on `x` alone.
struct OnlyX(f64);

impl Model<F> for OnlyX {
    fn spec_setup(params: &Params<F>) -> Self {
        Self::setup(params)
    }
    fn spec_run(&self) -> F {
        self.run()
    }
    fn setup(p: &Params<F>) -> OnlyX {
        OnlyX(value(p, "x"))
    }
    fn run(&self) -> F {
        F(self.0)
    }
}

/// x + y * z: x acts alone, y and z only together.
struct Interacting(f64, f64, f64);

impl Model<F> for Interacting {
    fn spec_setup(params: &Params<F>) -> Self {
        Self::setup(params)
    }
    fn spec_run(&self) -> F {
        self.run()
    }
    fn setup(p: &Params<F>) -> Interacting {
        Interacting(value(p, "x"), value(p, "y"), value(p, "z"))
    }
    fn run(&self) -> F {
        F(self.0 + self.1 * self.2)
    }
}

struct ConstantModel;

impl Model<F> for ConstantModel {
    fn spec_setup(params: &Params<F>) -> Self {
        Self::setup(params)
    }
    fn spec_run(&self) -> F {
        self.run()
    }
    fn setup(_p: &Params<F>) -> ConstantModel {
        ConstantModel
    }
    fn run(&self) -> F {
        F(2.0)
    }
}

fn gompertz_set() -> Params<F> {
    let mut pr = Params::new();
    pr.insert("alpha", Value::Range(F(0.01), F(1.0)));
    pr.insert("K", Value::Range(F(0.01), F(1.0)));
    pr.insert("C0", Value::Range(F(0.001), F(0.01)));
    pr.insert("tmax", Value::Float(F(10.0)));
    pr
}

fn index_of(r: &Vec<(String, F)>, k: &str) -> f64 {
    r.iter().find(|e| e.0 == k).unwrap().1 .0
}

#[test]
fn test_sample() {
    let mut ranges = Params::new();
    ranges.insert("alpha", Value::Range(F(0.0), F(1.0)));
    let samples = sample(&ranges, 10, &mut rng(1));

    assert_eq!(samples.len(), 10);
    for pp in samples.iter() {
        let value = value(pp, "alpha");
        assert!((value >= 0.0) && (value <= 1.0));
    }
}

#[test]
fn test_get_couples() {
    let res = get_couples(3);

    assert_eq!(res[0], (0, 1));
    assert_eq!(res[1], (0, 2));
    assert_eq!(res[2], (1, 2));
}

#[test]
fn get_couples_counts() {
    assert_eq!(get_couples(0), vec![]);
    assert_eq!(get_couples(1), vec![]);
    assert_eq!(get_couples(2), vec![(0, 1)]);
    let res = get_couples(5);
    assert_eq!(res.len(), 10);
    assert_eq!(res[3], (0, 4));
    assert_eq!(res[4], (1, 2));
    assert_eq!(res[9], (3, 4));
}

#[test]
fn sample_stays_within_every_range() {
    let pr = gompertz_set();
    let samples = sample(&pr, 1000, &mut rng(2));
    assert_eq!(samples.len(), 1000);
    for p in samples.iter() {
        assert_eq!(p.varying_keys().len(), 0);
        assert_eq!(p.keys(), vec!["alpha", "K", "C0", "tmax"]);
        let a = value(p, "alpha");
        let k = value(p, "K");
        let c = value(p, "C0");
        assert!(a >= 0.01 && a <= 1.0);
        assert!(k >= 0.01 && k <= 1.0);
        assert!(c >= 0.001 && c <= 0.01);
        assert_eq!(value(p, "tmax"), 10.0);
    }
    assert_eq!(sample(&pr, 0, &mut rng(2)).len(), 0);
}

#[test]
fn recombine_takes_keys_from_donor() {
    let mut base: Params<f64> = Params::new();
    base.insert("a", Value::Float(1.0));
    base.insert("b", Value::Float(2.0));
    base.insert("c", Value::Float(3.0));
    let mut donor: Params<f64> = Params::new();
    donor.insert("a", Value::Float(10.0));
    donor.insert("b", Value::Float(20.0));
    donor.insert("c", Value::Float(30.0));

    let r = recombine(&base, &donor, &vec!["a", "c"]).unwrap();
    assert_eq!(r.keys(), vec!["a", "b", "c"]);
    assert_eq!(r.get_float("a"), Ok(10.0));
    assert_eq!(r.get_float("b"), Ok(2.0));
    assert_eq!(r.get_float("c"), Ok(30.0));
    // neither input is changed
    assert_eq!(base.get_float("a"), Ok(1.0));
    assert_eq!(donor.get_float("b"), Ok(20.0));
}

#[test]
fn recombine_errors() {
    let mut base: Params<f64> = Params::new();
    base.insert("a", Value::Float(1.0));
    let mut donor: Params<f64> = Params::new();
    donor.insert("a", Value::Range(0.0, 1.0));
    donor.insert("b", Value::Float(5.0));
    assert_eq!(recombine(&base, &donor, &vec!["a"]).err(), Some(ParamError::NotScalar));
    assert_eq!(recombine(&base, &donor, &vec!["b"]).err(), Some(ParamError::UnknownParameter));
    assert_eq!(recombine(&base, &donor, &vec!["z"]).err(), Some(ParamError::UnknownParameter));
    assert_eq!(recombine(&base, &donor, &vec![]).unwrap().get_float("a"), Ok(1.0));
}

#[test]
fn pick_freeze_pairs_samples_by_index() {
    let pr = gompertz_set();
    let a = sample(&pr, 20, &mut rng(3));
    let b = sample(&pr, 20, &mut rng(4));
    let batch = pick_freeze(&pr, &b, &a, &vec!["K"]);
    assert_eq!(batch.len(), 20);
    for s in 0..20 {
        assert_eq!(value(&batch[s], "K"), value(&a[s], "K"));
        assert_eq!(value(&batch[s], "alpha"), value(&b[s], "alpha"));
        assert_eq!(value(&batch[s], "C0"), value(&b[s], "C0"));
    }
    let batch2 = pick_freeze(&pr, &b, &a, &vec!["alpha", "C0"]);
    for s in 0..20 {
        assert_eq!(value(&batch2[s], "alpha"), value(&a[s], "alpha"));
        assert_eq!(value(&batch2[s], "C0"), value(&a[s], "C0"));
        assert_eq!(value(&batch2[s], "K"), value(&b[s], "K"));
    }
}

#[test]
fn moments_of_known_values() {
    let (mean, var) = moments(&vec![F(1.0), F(2.0)], &vec![F(3.0), F(4.0)]);
    assert_eq!(mean, F(2.5));
    assert_eq!(var, F(1.25));
}

#[test]
fn gompertz_scenario_first_order_and_total() {
    let pr = gompertz_set();
    let sob_1 = calc_sobol_1::<F, Gompertz, Uniform>(&pr, 15000, &mut rng(5)).unwrap();
    let names: Vec<&str> = sob_1.iter().map(|e| e.0.as_str()).collect();
    assert_eq!(names, vec!["alpha", "K", "C0"]);
    for e in sob_1.iter() {
        assert!(!e.1 .0.is_nan());
    }
    let sob_t = calc_sobol_total::<F, Gompertz, Uniform>(&pr, 15000, &mut rng(6)).unwrap();
    let names_t: Vec<&str> = sob_t.iter().map(|e| e.0.as_str()).collect();
    assert_eq!(names_t, vec!["alpha", "K", "C0"]);
    for k in ["alpha", "K", "C0"] {
        assert!(!index_of(&sob_t, k).is_nan());
        assert!(index_of(&sob_t, k) >= index_of(&sob_1, k) - 0.05);
    }
}

#[test]
fn gompertz_scenario_second_order_pairs() {
    let pr = gompertz_set();
    let sob_1 = calc_sobol_1::<F, Gompertz, Uniform>(&pr, 2000, &mut rng(7)).unwrap();
    let sob_2 = calc_sobol_2::<F, Gompertz, Uniform>(&pr, &sob_1, 7500, &mut rng(8)).unwrap();
    let pairs: Vec<(&str, &str)> = sob_2.iter().map(|e| (e.0.as_str(), e.1.as_str())).collect();
    assert_eq!(pairs, vec![("alpha", "K"), ("alpha", "C0"), ("K", "C0")]);
    for e in sob_2.iter() {
        assert!(!e.2 .0.is_nan());
    }
}

#[test]
fn ignored_parameter_has_zero_first_order_index() {
    let mut pr = Params::new();
    pr.insert("x", Value::Range(F(0.0), F(1.0)));
    pr.insert("w", Value::Range(F(0.0), F(1.0)));
    let sob_1 = calc_sobol_1::<F, OnlyX, Uniform>(&pr, 20000, &mut rng(9)).unwrap();
    assert!(index_of(&sob_1, "w").abs() < 0.05);
    assert!((index_of(&sob_1, "x") - 1.0).abs() < 0.05);
}

#[test]
fn total_effect_covers_interactions() {
    // x on [0, 1], y and z on [-1, 1]: S_x = S_T_x = 3/7, S_y = S_z = 0,
    // S_T_y = S_T_z = 4/7
    let mut pr = Params::new();
    pr.insert("x", Value::Range(F(0.0), F(1.0)));
    pr.insert("y", Value::Range(F(-1.0), F(1.0)));
    pr.insert("z", Value::Range(F(-1.0), F(1.0)));
    let sob_1 = calc_sobol_1::<F, Interacting, Uniform>(&pr, 20000, &mut rng(10)).unwrap();
    let sob_t = calc_sobol_total::<F, Interacting, Uniform>(&pr, 20000, &mut rng(11)).unwrap();
    for k in ["x", "y", "z"] {
        assert!(index_of(&sob_t, k) >= index_of(&sob_1, k) - 0.05);
    }
    assert!((index_of(&sob_1, "x") - 3.0 / 7.0).abs() < 0.05);
    assert!(index_of(&sob_1, "y").abs() < 0.05);
    assert!((index_of(&sob_t, "y") - 4.0 / 7.0).abs() < 0.05);
    assert!((index_of(&sob_t, "x") - 3.0 / 7.0).abs() < 0.05);
}

#[test]
fn fewer_than_two_varying_keys_give_no_pairs() {
    let mut pr = Params::new();
    pr.insert("x", Value::Range(F(0.0), F(1.0)));
    pr.insert("c", Value::Float(F(3.0)));
    let sob_1 = calc_sobol_1::<F, OnlyX, Uniform>(&pr, 100, &mut rng(12)).unwrap();
    let sob_2 = calc_sobol_2::<F, OnlyX, Uniform>(&pr, &sob_1, 100, &mut rng(13)).unwrap();
    assert_eq!(sob_2.len(), 0);

    let mut fixed = Params::new();
    fixed.insert("c", Value::Float(F(3.0)));
    let none_1 = calc_sobol_1::<F, ConstantModel, Uniform>(&fixed, 10, &mut rng(14)).unwrap();
    assert_eq!(none_1.len(), 0);
    let none_2 = calc_sobol_2::<F, ConstantModel, Uniform>(&fixed, &none_1, 10, &mut rng(15));
    assert_eq!(none_2.unwrap().len(), 0);
}

#[test]
fn zero_variance_is_reported() {
    let mut pr = Params::new();
    pr.insert("x", Value::Range(F(0.5), F(0.5)));
    assert_eq!(
        calc_sobol_1::<F, ConstantModel, Uniform>(&pr, 100, &mut rng(16)).err(),
        Some(SobolError::DegenerateVariance)
    );
    assert_eq!(
        calc_sobol_total::<F, ConstantModel, Uniform>(&pr, 100, &mut rng(17)).err(),
        Some(SobolError::DegenerateVariance)
    );
    let a = sample(&pr, 10, &mut rng(18));
    let b = sample(&pr, 10, &mut rng(19));
    assert_eq!(
        first_order_from::<F, ConstantModel>(&pr, &a, &b).err(),
        Some(SobolError::DegenerateVariance)
    );
}

#[test]
fn mean_product_of_known_values() {
    assert_eq!(mean_product(&vec![F(2.0), F(4.0)], &vec![F(1.0), F(2.0)]), F(5.0));
}

#[test]
fn first_order_indices_exact() {
    // mean 2.5, variance 1.25, U = (2 * 1 + 4 * 2) / 2 = 5
    let ya = vec![F(1.0), F(2.0)];
    let yb = vec![F(3.0), F(4.0)];
    let yk = vec![vec![F(2.0), F(4.0)], vec![F(1.0), F(2.0)]];
    let r = first_order_indices(&vec!["x", "y"], &ya, &yb, &yk).unwrap();
    assert_eq!(r.len(), 2);
    assert_eq!(r[0].0, "x");
    assert_eq!(r[0].1, F(-1.0));
    assert_eq!(r[1].0, "y");
    assert_eq!(r[1].1, F((2.5 - 6.25) / 1.25));
}

#[test]
fn total_indices_exact() {
    let ya = vec![F(1.0), F(2.0)];
    let yb = vec![F(3.0), F(4.0)];
    let yk = vec![vec![F(2.0), F(4.0)]];
    let r = total_indices(&vec!["x"], &ya, &yb, &yk).unwrap();
    assert_eq!(r.len(), 1);
    assert_eq!(r[0].0, "x");
    assert_eq!(r[0].1, F(2.0));
}

#[test]
fn second_order_indices_look_up_by_name() {
    // (5 - 6.25 - S_y - S_x) / 1.25 with S_x = 0.25, S_y = 0.5
    let ya = vec![F(1.0), F(2.0)];
    let yb = vec![F(3.0), F(4.0)];
    let yk = vec![vec![F(2.0), F(4.0)]];
    let sob1 = vec![("y".to_string(), F(0.5)), ("x".to_string(), F(0.25)), ("z".to_string(), F(9.0))];
    let r = second_order_indices(&vec!["x", "y"], &sob1, &ya, &yb, &yk).unwrap();
    assert_eq!(r.len(), 1);
    assert_eq!((r[0].0.as_str(), r[0].1.as_str()), ("x", "y"));
    assert!((r[0].2 .0 - (-1.6)).abs() < 1e-12);
}

#[test]
fn indices_report_degenerate_variance() {
    let ya = vec![F(2.0), F(2.0)];
    let yb = vec![F(2.0), F(2.0)];
    let yk = vec![vec![F(2.0), F(2.0)]];
    assert_eq!(first_order_indices(&vec!["x"], &ya, &yb, &yk).err(), Some(SobolError::DegenerateVariance));
    assert_eq!(total_indices(&vec!["x"], &ya, &yb, &yk).err(), Some(SobolError::DegenerateVariance));
    let sob1 = vec![("x".to_string(), F(0.0)), ("y".to_string(), F(0.0))];
    assert_eq!(
        second_order_indices(&vec!["x", "y"], &sob1, &ya, &yb, &yk).err(),
        Some(SobolError::DegenerateVariance)
    );
    // nothing to normalize: no error
    assert_eq!(first_order_indices(&vec![], &ya, &yb, &vec![]).unwrap().len(), 0);
    assert_eq!(second_order_indices(&vec!["x"], &sob1, &ya, &yb, &vec![]).unwrap().len(), 0);
}

#[test]
fn second_order_accepts_first_order_in_any_order() {
    let mut pr = Params::new();
    pr.insert("x", Value::Range(F(0.0), F(1.0)));
    pr.insert("y", Value::Range(F(-1.0), F(1.0)));
    pr.insert("z", Value::Range(F(-1.0), F(1.0)));
    let sob1 = vec![
        ("z".to_string(), F(0.0)),
        ("extra".to_string(), F(1.0)),
        ("y".to_string(), F(0.0)),
        ("x".to_string(), F(0.4)),
    ];
    let sob_2 = calc_sobol_2::<F, Interacting, Uniform>(&pr, &sob1, 2000, &mut rng(20)).unwrap();
    let pairs: Vec<(&str, &str)> = sob_2.iter().map(|e| (e.0.as_str(), e.1.as_str())).collect();
    assert_eq!(pairs, vec![("x", "y"), ("x", "z"), ("y", "z")]);
}
