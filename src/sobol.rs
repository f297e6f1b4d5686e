use vstd::prelude::*;
use crate::model::{Model, Scalar, UnitSource};
use crate::pairs::{canonical_pairs, get_couples, lemma_canonical_pairs};
use crate::params::{
    drawn, has_key, key_index, keys_unique, lemma_key_index, realizes, scalar_of, varying_of, ParamError,
    Params, Value,
};

verus! {

/// Failure of an index computation.
#[derive(Clone, Copy, Debug, PartialEq, Eq, Structural)]
pub enum SobolError {
    /// The baseline variance is (nearly) zero, so the indices cannot be normalized.
    DegenerateVariance,
}

/// The names held by a list of keys.
pub open spec fn names(keys: Seq<&str>) -> Seq<Seq<char>> {
    keys.map_values(|k: &str| k@)
}

/// `s` with the value under `k` replaced by the fixed value that `donor` holds
/// under `k`.
pub open spec fn override_one<V>(
    s: Seq<(Seq<char>, Value<V>)>,
    donor: Seq<(Seq<char>, Value<V>)>,
    k: Seq<char>,
) -> Result<Seq<(Seq<char>, Value<V>)>, ParamError> {
    match scalar_of(donor, k) {
        Err(e) => Err(e),
        Ok(v) => if has_key(s, k) {
            Ok(s.update(key_index(s, k), (k, Value::Float(v))))
        } else {
            Err(ParamError::UnknownParameter)
        },
    }
}

/// `s` with each of `ks` in turn taken over from `donor`; the first failure
/// stops the whole.
pub open spec fn override_all<V>(
    s: Seq<(Seq<char>, Value<V>)>,
    donor: Seq<(Seq<char>, Value<V>)>,
    ks: Seq<Seq<char>>,
) -> Result<Seq<(Seq<char>, Value<V>)>, ParamError>
    decreases ks.len(),
{
    if ks.len() == 0 {
        Ok(s)
    } else {
        match override_all(s, donor, ks.drop_last()) {
            Err(e) => Err(e),
            Ok(t) => override_one(t, donor, ks.last()),
        }
    }
}

/// Every member of `batch` is a well-formed realization of `p`.
pub open spec fn realizations<V: Copy>(p: Seq<(Seq<char>, Value<V>)>, batch: Seq<Params<V>>) -> bool {
    forall|s: int| 0 <= s < batch.len() ==> (#[trigger] batch[s]).wf() && realizes(p, batch[s]@)
}

/// Once a prefix of the keys fails, the whole fails the same way.
proof fn lemma_override_err<V>(
    s: Seq<(Seq<char>, Value<V>)>,
    donor: Seq<(Seq<char>, Value<V>)>,
    ks: Seq<Seq<char>>,
    i: int,
)
    requires
        0 <= i <= ks.len(),
        override_all(s, donor, ks.take(i)) is Err,
    ensures
        override_all(s, donor, ks) == override_all(s, donor, ks.take(i)),
    decreases ks.len(),
{
    if i == ks.len() {
        assert(ks.take(i) =~= ks);
    } else {
        assert(ks.drop_last().take(i) =~= ks.take(i));
        lemma_override_err(s, donor, ks.drop_last(), i);
    }
}

/// A varying key names a range entry.
proof fn lemma_varying_is_range<V>(p: Seq<(Seq<char>, Value<V>)>, k: Seq<char>)
    requires
        varying_of(p).contains(k),
    ensures
        exists|i: int| 0 <= i < p.len() && p[i].0 == k && p[i].1 is Range,
    decreases p.len(),
{
    let init = varying_of(p.drop_last());
    if init.contains(k) {
        lemma_varying_is_range(p.drop_last(), k);
        let i = choose|i: int|
            0 <= i < p.drop_last().len() && p.drop_last()[i].0 == k && p.drop_last()[i].1 is Range;
        assert(p[i] == p.drop_last()[i]);
    } else {
        assert(p[p.len() - 1] == p.last());
    }
}

/// Taking varying keys over from one realization into another succeeds, and
/// the result is again a realization with unique names.
proof fn lemma_override_realizes<V>(
    p: Seq<(Seq<char>, Value<V>)>,
    base: Seq<(Seq<char>, Value<V>)>,
    donor: Seq<(Seq<char>, Value<V>)>,
    ks: Seq<Seq<char>>,
)
    requires
        keys_unique(base),
        keys_unique(donor),
        realizes(p, base),
        realizes(p, donor),
        forall|j: int| 0 <= j < ks.len() ==> varying_of(p).contains(#[trigger] ks[j]),
    ensures
        match override_all(base, donor, ks) {
            Ok(t) => realizes(p, t) && keys_unique(t),
            Err(_) => false,
        },
    decreases ks.len(),
{
    if ks.len() > 0 {
        lemma_override_realizes(p, base, donor, ks.drop_last());
        let t = override_all(base, donor, ks.drop_last())->Ok_0;
        let k = ks.last();
        assert(varying_of(p).contains(ks[ks.len() - 1]));
        lemma_varying_is_range(p, k);
        let i = choose|i: int| 0 <= i < p.len() && p[i].0 == k && p[i].1 is Range;
        assert(donor[i].0 == p[i].0);
        assert(t[i].0 == p[i].0);
        lemma_key_index(donor, k, i);
        lemma_key_index(t, k, i);
        let u = t.update(i, (k, Value::Float(donor[i].1->Float_0)));
        assert(override_all(base, donor, ks) == Ok::<_, ParamError>(u));
        assert forall|j: int| 0 <= j < p.len() implies (#[trigger] u[j]).0 == p[j].0 && match p[j].1 {
            Value::Float(v) => u[j].1 == Value::Float(v),
            Value::Range(_, _) => u[j].1 is Float,
        } by {
            assert(t[j].0 == p[j].0);
        }
        assert forall|a: int, b: int| 0 <= a < u.len() && 0 <= b < u.len() && u[a].0 == u[b].0 implies a
            == b by {
            assert(u[a].0 == t[a].0);
            assert(u[b].0 == t[b].0);
        }
    }
}

/// Clone-and-override: a copy of `base` in which each key of `keys`, in turn,
/// takes the fixed value that `donor` holds under it. Fails with `NotScalar`
/// where `donor` holds a range there, and with `UnknownParameter` where either
/// set lacks the key.
pub fn recombine<V: Copy>(base: &Params<V>, donor: &Params<V>, keys: &Vec<&str>) -> (r: Result<
    Params<V>,
    ParamError,
>)
    requires
        base.wf(),
        donor.wf(),
    ensures
        match r {
            Ok(p) => p.wf() && override_all(base@, donor@, names(keys@)) == Ok::<_, ParamError>(p@),
            Err(e) => override_all(base@, donor@, names(keys@)) == Err::<
                Seq<(Seq<char>, Value<V>)>,
                ParamError,
            >(e),
        },
{
    let mut p = base.duplicate();
    let mut i: usize = 0;
    assert(names(keys@).take(0) =~= Seq::<Seq<char>>::empty());
    while i < keys.len()
        invariant
            i <= keys@.len(),
            base.wf(),
            donor.wf(),
            p.wf(),
            override_all(base@, donor@, names(keys@).take(i as int)) == Ok::<_, ParamError>(p@),
        decreases keys@.len() - i,
    {
        let k = keys[i];
        let ghost before = p@;
        assert(names(keys@).take(i + 1).drop_last() =~= names(keys@).take(i as int));
        assert(names(keys@).take(i + 1).last() == k@);
        match donor.get_float(k) {
            Ok(v) => {
                match p.set(k, Value::Float(v)) {
                    Ok(()) => {},
                    Err(e) => {
                        proof {
                            lemma_override_err(base@, donor@, names(keys@), i + 1);
                        }
                        return Err(e);
                    },
                }
            },
            Err(e) => {
                proof {
                    lemma_override_err(base@, donor@, names(keys@), i + 1);
                }
                return Err(e);
            },
        }
        i = i + 1;
    }
    assert(names(keys@).take(i as int) =~= names(keys@));
    Ok(p)
}

/// The recombined batch of pick-and-freeze: for each sample index `s`, the
/// realization `frozen[s]` with the keys `keys` taken over from `free[s]`.
pub fn pick_freeze<S: Scalar>(
    pr: &Params<S>,
    frozen: &Vec<Params<S>>,
    free: &Vec<Params<S>>,
    keys: &Vec<&str>,
) -> (r: Vec<Params<S>>)
    requires
        pr.wf(),
        frozen@.len() == free@.len(),
        realizations(pr@, frozen@),
        realizations(pr@, free@),
        forall|j: int| 0 <= j < keys@.len() ==> varying_of(pr@).contains(#[trigger] keys@[j]@),
    ensures
        r@.len() == frozen@.len(),
        realizations(pr@, r@),
        forall|s: int|
            0 <= s < r@.len() ==> (#[trigger] r@[s]).wf() && realizes(pr@, r@[s]@) && override_all(
                frozen@[s]@,
                free@[s]@,
                names(keys@),
            ) == Ok::<_, ParamError>(r@[s]@),
{
    let mut batch: Vec<Params<S>> = Vec::new();
    let mut s: usize = 0;
    while s < frozen.len()
        invariant
            s <= frozen@.len(),
            batch@.len() == s,
            pr.wf(),
            frozen@.len() == free@.len(),
            realizations(pr@, frozen@),
            realizations(pr@, free@),
            forall|j: int| 0 <= j < keys@.len() ==> varying_of(pr@).contains(#[trigger] keys@[j]@),
            forall|q: int|
                0 <= q < s ==> (#[trigger] batch@[q]).wf() && realizes(pr@, batch@[q]@)
                    && override_all(frozen@[q]@, free@[q]@, names(keys@)) == Ok::<_, ParamError>(
                    batch@[q]@,
                ),
        decreases frozen@.len() - s,
    {
        proof {
            assert forall|j: int| 0 <= j < names(keys@).len() implies varying_of(pr@).contains(
                #[trigger] names(keys@)[j],
            ) by {
                assert(names(keys@)[j] == keys@[j]@);
            }
            lemma_override_realizes(pr@, frozen@[s as int]@, free@[s as int]@, names(keys@));
        }
        match recombine(&frozen[s], &free[s], keys) {
            Ok(p) => {
                batch.push(p);
            },
            Err(_) => {
                assert(false);
            },
        }
        s = s + 1;
    }
    batch
}

/// `num_real` independent realizations of `pr`, in the order drawn.
pub fn sample<S: Scalar, R: UnitSource<S>>(pr: &Params<S>, num_real: usize, rng: &mut R) -> (r: Vec<
    Params<S>,
>)
    requires
        pr.wf(),
    ensures
        r@.len() == num_real,
        realizations(pr@, r@),
        forall|s: int| 0 <= s < r@.len() ==> drawn(pr@, (#[trigger] r@[s])@),
{
    let mut samples: Vec<Params<S>> = Vec::new();
    let mut i: usize = 0;
    while i < num_real
        invariant
            i <= num_real,
            samples@.len() == i,
            pr.wf(),
            realizations(pr@, samples@),
            forall|s: int| 0 <= s < samples@.len() ==> drawn(pr@, (#[trigger] samples@[s])@),
        decreases num_real - i,
    {
        samples.push(pr.realize(rng));
        i = i + 1;
    }
    samples
}

/// The model's output on a realization.
pub open spec fn out<S, M: Model<S>>(p: Params<S>) -> S {
    M::spec_setup(&p).spec_run()
}

/// The model's outputs on a batch, in order.
pub open spec fn outs<S, M: Model<S>>(batch: Seq<Params<S>>) -> Seq<S> {
    batch.map_values(|p: Params<S>| out::<S, M>(p))
}

/// The model's outputs on each of several batches.
pub open spec fn outs_all<S, M: Model<S>>(c: Seq<Seq<Params<S>>>) -> Seq<Seq<S>> {
    c.map_values(|batch: Seq<Params<S>>| outs::<S, M>(batch))
}

/// The contents of a list of vectors.
pub open spec fn vecs_view<S>(v: Seq<Vec<S>>) -> Seq<Seq<S>> {
    v.map_values(|x: Vec<S>| x@)
}

/// Left-to-right sum.
pub open spec fn sum_of<S: Scalar>(ys: Seq<S>) -> S
    decreases ys.len(),
{
    if ys.len() == 0 {
        S::spec_zero()
    } else {
        sum_of(ys.drop_last()).spec_plus(ys.last())
    }
}

/// Left-to-right sum of squares.
pub open spec fn sum_sq_of<S: Scalar>(ys: Seq<S>) -> S
    decreases ys.len(),
{
    if ys.len() == 0 {
        S::spec_zero()
    } else {
        sum_sq_of(ys.drop_last()).spec_plus(ys.last().spec_times(ys.last()))
    }
}

/// Mean and variance (mean of squares minus squared mean) of `ya ++ yb`.
pub open spec fn mean_var<S: Scalar>(ya: Seq<S>, yb: Seq<S>) -> (S, S) {
    let n = S::spec_count(ya.len() as usize).spec_plus(S::spec_count(yb.len() as usize));
    let mean = sum_of(ya + yb).spec_over(n);
    (mean, sum_sq_of(ya + yb).spec_over(n).spec_minus(mean.spec_times(mean)))
}

/// Left-to-right sum of `yk[s] * ya[s]`.
pub open spec fn sum_products<S: Scalar>(yk: Seq<S>, ya: Seq<S>) -> S
    decreases yk.len(),
{
    if yk.len() == 0 {
        S::spec_zero()
    } else {
        sum_products(yk.drop_last(), ya).spec_plus(yk.last().spec_times(ya[yk.len() - 1]))
    }
}

/// Average of `yk[s] * ya[s]`.
pub open spec fn mean_product_of<S: Scalar>(yk: Seq<S>, ya: Seq<S>) -> S {
    sum_products(yk, ya).spec_over(S::spec_count(yk.len() as usize))
}

/// `(u - mean^2) / variance`.
pub open spec fn normalized<S: Scalar>(u: S, mv: (S, S)) -> S {
    u.spec_minus(mv.0.spec_times(mv.0)).spec_over(mv.1)
}

/// First index of the entry named `k` in `s`.
pub open spec fn is_first<S>(s: Seq<(Seq<char>, S)>, k: Seq<char>, i: int) -> bool {
    &&& 0 <= i < s.len()
    &&& s[i].0 == k
    &&& forall|j: int| 0 <= j < i ==> s[j].0 != k
}

/// Some entry of `s` is named `k`.
pub open spec fn has_name<S>(s: Seq<(Seq<char>, S)>, k: Seq<char>) -> bool {
    exists|i: int| 0 <= i < s.len() && s[i].0 == k
}

/// The value of the first entry named `k` in `s`.
pub open spec fn first_value<S>(s: Seq<(Seq<char>, S)>, k: Seq<char>) -> S {
    s[choose|i: int| is_first(s, k, i)].1
}

/// Named values as plain sequences.
pub open spec fn named_view<S>(v: Seq<(String, S)>) -> Seq<(Seq<char>, S)> {
    v.map_values(|e: (String, S)| (e.0@, e.1))
}

pub open spec fn pairs_view<S>(v: Seq<(String, String, S)>) -> Seq<(Seq<char>, Seq<char>, S)> {
    v.map_values(|e: (String, String, S)| (e.0@, e.1@, e.2))
}

pub open spec fn result_view<S>(r: Result<Vec<(String, S)>, SobolError>) -> Result<
    Seq<(Seq<char>, S)>,
    SobolError,
> {
    match r {
        Ok(v) => Ok(named_view(v@)),
        Err(e) => Err(e),
    }
}

pub open spec fn pairs_result_view<S>(r: Result<Vec<(String, String, S)>, SobolError>) -> Result<
    Seq<(Seq<char>, Seq<char>, S)>,
    SobolError,
> {
    match r {
        Ok(v) => Ok(pairs_view(v@)),
        Err(e) => Err(e),
    }
}

/// First-order index of each name: `(U_k - mean^2) / variance`, with `U_k`
/// the average of `yk[k][s] * ya[s]`.
pub open spec fn first_order_values<S: Scalar>(
    names: Seq<Seq<char>>,
    ya: Seq<S>,
    yb: Seq<S>,
    yk: Seq<Seq<S>>,
) -> Seq<(Seq<char>, S)> {
    Seq::new(
        names.len(),
        |k: int| (names[k], normalized(mean_product_of(yk[k], ya), mean_var(ya, yb))),
    )
}

/// Total-effect index of each name: `1 - (U_k - mean^2) / variance`.
pub open spec fn total_values<S: Scalar>(
    names: Seq<Seq<char>>,
    ya: Seq<S>,
    yb: Seq<S>,
    yk: Seq<Seq<S>>,
) -> Seq<(Seq<char>, S)> {
    Seq::new(
        names.len(),
        |k: int|
            (names[k], S::spec_one().spec_minus(normalized(mean_product_of(yk[k], ya), mean_var(ya, yb)))),
    )
}

/// Second-order index of the `q`-th pair `(i, j)`:
/// `(U_ij - mean^2 - S_j - S_i) / variance`.
pub open spec fn second_order_values<S: Scalar>(
    names: Seq<Seq<char>>,
    sob1: Seq<(Seq<char>, S)>,
    ya: Seq<S>,
    yb: Seq<S>,
    yk: Seq<Seq<S>>,
) -> Seq<(Seq<char>, Seq<char>, S)> {
    let pairs = canonical_pairs(names.len() as int);
    let mv = mean_var(ya, yb);
    Seq::new(
        pairs.len(),
        |q: int|
            (
                names[pairs[q].0 as int],
                names[pairs[q].1 as int],
                mean_product_of(yk[q], ya).spec_minus(mv.0.spec_times(mv.0)).spec_minus(
                    first_value(sob1, names[pairs[q].1 as int]),
                ).spec_minus(first_value(sob1, names[pairs[q].0 as int])).spec_over(mv.1),
            ),
    )
}

/// The first-order result: empty without names, an error when the variance
/// is negligible, else the indices.
pub open spec fn first_order_spec<S: Scalar>(
    names: Seq<Seq<char>>,
    ya: Seq<S>,
    yb: Seq<S>,
    yk: Seq<Seq<S>>,
) -> Result<Seq<(Seq<char>, S)>, SobolError> {
    if names.len() == 0 {
        Ok(Seq::empty())
    } else if mean_var(ya, yb).1.spec_negligible() {
        Err(SobolError::DegenerateVariance)
    } else {
        Ok(first_order_values(names, ya, yb, yk))
    }
}

/// The total-effect result, in the same shape.
pub open spec fn total_spec<S: Scalar>(
    names: Seq<Seq<char>>,
    ya: Seq<S>,
    yb: Seq<S>,
    yk: Seq<Seq<S>>,
) -> Result<Seq<(Seq<char>, S)>, SobolError> {
    if names.len() == 0 {
        Ok(Seq::empty())
    } else if mean_var(ya, yb).1.spec_negligible() {
        Err(SobolError::DegenerateVariance)
    } else {
        Ok(total_values(names, ya, yb, yk))
    }
}

/// The second-order result: empty without pairs, an error when the variance
/// is negligible, else one index per pair in canonical order.
pub open spec fn second_order_spec<S: Scalar>(
    names: Seq<Seq<char>>,
    sob1: Seq<(Seq<char>, S)>,
    ya: Seq<S>,
    yb: Seq<S>,
    yk: Seq<Seq<S>>,
) -> Result<Seq<(Seq<char>, Seq<char>, S)>, SobolError> {
    if canonical_pairs(names.len() as int).len() == 0 {
        Ok(Seq::empty())
    } else if mean_var(ya, yb).1.spec_negligible() {
        Err(SobolError::DegenerateVariance)
    } else {
        Ok(second_order_values(names, sob1, ya, yb, yk))
    }
}

/// One key list per varying key: `[k]`.
pub open spec fn single_keys(vk: Seq<Seq<char>>) -> Seq<Seq<Seq<char>>> {
    Seq::new(vk.len(), |k: int| seq![vk[k]])
}

/// One key list per pair of varying keys, in canonical order: `[i, j]`.
pub open spec fn pair_keys(vk: Seq<Seq<char>>) -> Seq<Seq<Seq<char>>> {
    canonical_pairs(vk.len() as int).map_values(
        |p: (usize, usize)| seq![vk[p.0 as int], vk[p.1 as int]],
    )
}

/// `c[s]` is `frozen[s]` with the keys `ks` taken over from `free[s]`.
pub open spec fn recombined<S>(
    frozen: Seq<Params<S>>,
    free: Seq<Params<S>>,
    ks: Seq<Seq<char>>,
    c: Seq<Params<S>>,
) -> bool {
    &&& c.len() == frozen.len()
    &&& forall|s: int|
        0 <= s < c.len() ==> override_all(frozen[s]@, free[s]@, ks) == Ok::<_, ParamError>(
            (#[trigger] c[s])@,
        )
}

/// `c[k]` is the recombined batch for the key list `kss[k]`.
pub open spec fn all_recombined<S>(
    frozen: Seq<Params<S>>,
    free: Seq<Params<S>>,
    kss: Seq<Seq<Seq<char>>>,
    c: Seq<Seq<Params<S>>>,
) -> bool {
    &&& c.len() == kss.len()
    &&& forall|k: int| 0 <= k < c.len() ==> recombined(frozen, free, kss[k], #[trigger] c[k])
}

proof fn lemma_first_value<S>(s: Seq<(Seq<char>, S)>, k: Seq<char>, i: int)
    requires
        is_first(s, k, i),
    ensures
        first_value(s, k) == s[i].1,
{
    let j = choose|j: int| is_first(s, k, j);
    assert(is_first(s, k, j));
    if j < i {
        assert(s[j].0 != k);
    } else if i < j {
        assert(s[i].0 != k);
    }
}

/// The model's output on a realization.
pub fn eval_model<S: Scalar, M: Model<S>>(pr: &Params<S>) -> (r: S)
    ensures
        r == out::<S, M>(*pr),
{
    let model = M::setup(pr);
    model.run()
}

/// The model's output on each member of `batch`, in order.
pub fn outputs<S: Scalar, M: Model<S>>(batch: &Vec<Params<S>>) -> (r: Vec<S>)
    ensures
        r@ == outs::<S, M>(batch@),
{
    let mut ys: Vec<S> = Vec::new();
    let mut i: usize = 0;
    while i < batch.len()
        invariant
            i <= batch@.len(),
            ys@.len() == i,
            forall|j: int| 0 <= j < i ==> #[trigger] ys@[j] == out::<S, M>(batch@[j]),
        decreases batch@.len() - i,
    {
        ys.push(eval_model::<S, M>(&batch[i]));
        i = i + 1;
    }
    assert(ys@ =~= outs::<S, M>(batch@));
    ys
}

/// Mean and variance (mean of squares minus squared mean) of the outputs
/// `ya` followed by `yb`.
pub fn moments<S: Scalar>(ya: &Vec<S>, yb: &Vec<S>) -> (r: (S, S))
    ensures
        r == mean_var(ya@, yb@),
{
    let mut sum = S::zero();
    let mut sum_sq = S::zero();
    let mut i: usize = 0;
    while i < ya.len()
        invariant
            i <= ya@.len(),
            sum == sum_of(ya@.take(i as int)),
            sum_sq == sum_sq_of(ya@.take(i as int)),
        decreases ya@.len() - i,
    {
        assert(ya@.take(i + 1).drop_last() =~= ya@.take(i as int));
        sum = sum.plus(ya[i]);
        sum_sq = sum_sq.plus(ya[i].times(ya[i]));
        i = i + 1;
    }
    assert(ya@.take(i as int) =~= ya@ + yb@.take(0));
    let mut j: usize = 0;
    while j < yb.len()
        invariant
            j <= yb@.len(),
            sum == sum_of(ya@ + yb@.take(j as int)),
            sum_sq == sum_sq_of(ya@ + yb@.take(j as int)),
        decreases yb@.len() - j,
    {
        assert((ya@ + yb@.take(j + 1)).drop_last() =~= ya@ + yb@.take(j as int));
        assert((ya@ + yb@.take(j + 1)).last() == yb@[j as int]);
        sum = sum.plus(yb[j]);
        sum_sq = sum_sq.plus(yb[j].times(yb[j]));
        j = j + 1;
    }
    assert(yb@.take(j as int) =~= yb@);
    let n = S::count(ya.len()).plus(S::count(yb.len()));
    let mean = sum.over(n);
    let variance = sum_sq.over(n).minus(mean.times(mean));
    (mean, variance)
}

/// Average over `s` of `yk[s] * ya[s]`.
pub fn mean_product<S: Scalar>(yk: &Vec<S>, ya: &Vec<S>) -> (r: S)
    requires
        yk@.len() == ya@.len(),
    ensures
        r == mean_product_of(yk@, ya@),
{
    let mut sum = S::zero();
    let mut s: usize = 0;
    while s < yk.len()
        invariant
            s <= yk@.len(),
            yk@.len() == ya@.len(),
            sum == sum_products(yk@.take(s as int), ya@),
        decreases yk@.len() - s,
    {
        assert(yk@.take(s + 1).drop_last() =~= yk@.take(s as int));
        assert(yk@.take(s + 1).last() == yk@[s as int]);
        sum = sum.plus(yk[s].times(ya[s]));
        s = s + 1;
    }
    assert(yk@.take(s as int) =~= yk@);
    sum.over(S::count(yk.len()))
}

/// Position of the first entry named `k`.
fn index_of_name<S>(sob1: &Vec<(String, S)>, k: &str) -> (r: usize)
    requires
        has_name(named_view(sob1@), k@),
    ensures
        is_first(named_view(sob1@), k@, r as int),
{
    let key = k.to_owned();
    let mut i: usize = 0;
    while i < sob1.len()
        invariant
            i <= sob1@.len(),
            key@ == k@,
            forall|j: int| 0 <= j < i ==> named_view(sob1@)[j].0 != k@,
        decreases sob1@.len() - i,
    {
        assert(named_view(sob1@)[i as int].0 == sob1@[i as int].0@);
        if sob1[i].0 == key {
            return i;
        }
        i = i + 1;
    }
    assert(false);
    0
}

/// First-order indices from model outputs: `ya` and `yb` on the batches A
/// and B, and `yk[k]` on B with the `k`-th name taken from A.
pub fn first_order_indices<S: Scalar>(
    keys: &Vec<&str>,
    ya: &Vec<S>,
    yb: &Vec<S>,
    yk: &Vec<Vec<S>>,
) -> (r: Result<Vec<(String, S)>, SobolError>)
    requires
        yk@.len() == keys@.len(),
        forall|k: int| 0 <= k < yk@.len() ==> (#[trigger] yk@[k])@.len() == ya@.len(),
    ensures
        result_view(r) == first_order_spec(names(keys@), ya@, yb@, vecs_view(yk@)),
{
    let mut sp: Vec<(String, S)> = Vec::new();
    if keys.len() == 0 {
        assert(named_view(sp@) =~= Seq::<(Seq<char>, S)>::empty());
        return Ok(sp);
    }
    let (avg, var) = moments(ya, yb);
    if var.is_negligible() {
        return Err(SobolError::DegenerateVariance);
    }
    let ghost target = first_order_values(names(keys@), ya@, yb@, vecs_view(yk@));
    let mut i: usize = 0;
    while i < keys.len()
        invariant
            i <= keys@.len(),
            yk@.len() == keys@.len(),
            forall|k: int| 0 <= k < yk@.len() ==> (#[trigger] yk@[k])@.len() == ya@.len(),
            (avg, var) == mean_var(ya@, yb@),
            target == first_order_values(names(keys@), ya@, yb@, vecs_view(yk@)),
            named_view(sp@) == target.take(i as int),
        decreases keys@.len() - i,
    {
        let u = mean_product(&yk[i], ya);
        let value = u.minus(avg.times(avg)).over(var);
        let name = keys[i].to_owned();
        assert(vecs_view(yk@)[i as int] == yk@[i as int]@);
        assert(names(keys@)[i as int] == keys@[i as int]@);
        let ghost prev = sp@;
        sp.push((name, value));
        assert(sp@ == prev.push((name, value)));
        assert(target[i as int] == (name@, value));
        assert(target.take(i as int).len() == i);
        assert(named_view(prev).len() == i);
        assert(prev.len() == i);
        assert(named_view(sp@).len() == i + 1);
        assert forall|k: int| 0 <= k < i + 1 implies #[trigger] named_view(sp@)[k] == target.take(i + 1)[k] by {
            assert(named_view(sp@)[k] == (sp@[k].0@, sp@[k].1));
            if k < i {
                assert(named_view(prev)[k] == (prev[k].0@, prev[k].1));
                assert(named_view(prev)[k] == target.take(i as int)[k]);
            }
        }
        assert(named_view(sp@) =~= target.take(i + 1));
        i = i + 1;
    }
    assert(target.take(i as int) =~= target);
    Ok(sp)
}

/// Total-effect indices from model outputs: `ya` and `yb` on the batches A
/// and B, and `yk[k]` on A with the `k`-th name taken from B.
pub fn total_indices<S: Scalar>(
    keys: &Vec<&str>,
    ya: &Vec<S>,
    yb: &Vec<S>,
    yk: &Vec<Vec<S>>,
) -> (r: Result<Vec<(String, S)>, SobolError>)
    requires
        yk@.len() == keys@.len(),
        forall|k: int| 0 <= k < yk@.len() ==> (#[trigger] yk@[k])@.len() == ya@.len(),
    ensures
        result_view(r) == total_spec(names(keys@), ya@, yb@, vecs_view(yk@)),
{
    let mut sp: Vec<(String, S)> = Vec::new();
    if keys.len() == 0 {
        assert(named_view(sp@) =~= Seq::<(Seq<char>, S)>::empty());
        return Ok(sp);
    }
    let (avg, var) = moments(ya, yb);
    if var.is_negligible() {
        return Err(SobolError::DegenerateVariance);
    }
    let ghost target = total_values(names(keys@), ya@, yb@, vecs_view(yk@));
    let mut i: usize = 0;
    while i < keys.len()
        invariant
            i <= keys@.len(),
            yk@.len() == keys@.len(),
            forall|k: int| 0 <= k < yk@.len() ==> (#[trigger] yk@[k])@.len() == ya@.len(),
            (avg, var) == mean_var(ya@, yb@),
            target == total_values(names(keys@), ya@, yb@, vecs_view(yk@)),
            named_view(sp@) == target.take(i as int),
        decreases keys@.len() - i,
    {
        let u = mean_product(&yk[i], ya);
        let value = S::one().minus(u.minus(avg.times(avg)).over(var));
        let name = keys[i].to_owned();
        assert(vecs_view(yk@)[i as int] == yk@[i as int]@);
        assert(names(keys@)[i as int] == keys@[i as int]@);
        let ghost prev = sp@;
        sp.push((name, value));
        assert(sp@ == prev.push((name, value)));
        assert(target[i as int] == (name@, value));
        assert(target.take(i as int).len() == i);
        assert(named_view(prev).len() == i);
        assert(prev.len() == i);
        assert(named_view(sp@).len() == i + 1);
        assert forall|k: int| 0 <= k < i + 1 implies #[trigger] named_view(sp@)[k] == target.take(i + 1)[k] by {
            assert(named_view(sp@)[k] == (sp@[k].0@, sp@[k].1));
            if k < i {
                assert(named_view(prev)[k] == (prev[k].0@, prev[k].1));
                assert(named_view(prev)[k] == target.take(i as int)[k]);
            }
        }
        assert(named_view(sp@) =~= target.take(i + 1));
        i = i + 1;
    }
    assert(target.take(i as int) =~= target);
    Ok(sp)
}

/// With fewer than two varying keys there is no pair; with two or more there
/// is at least one.
pub proof fn lemma_pair_count(n: int)
    requires
        0 <= n <= usize::MAX,
    ensures
        n < 2 <==> canonical_pairs(n).len() == 0,
{
    lemma_canonical_pairs(n);
    if n < 2 {
        assert(n * (n - 1) == 0) by (nonlinear_arith)
            requires
                0 <= n < 2,
        ;
    } else {
        assert(n * (n - 1) >= 2) by (nonlinear_arith)
            requires
                n >= 2,
        ;
    }
}

/// Second-order indices from model outputs: `ya` and `yb` on the batches A
/// and B, and `yk[q]` on B with both names of the `q`-th canonical pair taken
/// from A; `sob1` supplies the first-order index of each name.
pub fn second_order_indices<S: Scalar>(
    keys: &Vec<&str>,
    sob1: &Vec<(String, S)>,
    ya: &Vec<S>,
    yb: &Vec<S>,
    yk: &Vec<Vec<S>>,
) -> (r: Result<Vec<(String, String, S)>, SobolError>)
    requires
        yk@.len() == canonical_pairs(keys@.len() as int).len(),
        forall|q: int| 0 <= q < yk@.len() ==> (#[trigger] yk@[q])@.len() == ya@.len(),
        keys@.len() >= 2 ==> forall|k: int|
            0 <= k < keys@.len() ==> has_name(named_view(sob1@), (#[trigger] keys@[k])@),
    ensures
        pairs_result_view(r) == second_order_spec(
            names(keys@),
            named_view(sob1@),
            ya@,
            yb@,
            vecs_view(yk@),
        ),
{
    let couples = get_couples(keys.len());
    proof {
        lemma_canonical_pairs(keys@.len() as int);
        lemma_pair_count(keys@.len() as int);
    }
    let mut spr: Vec<(String, String, S)> = Vec::new();
    if couples.len() == 0 {
        assert(pairs_view(spr@) =~= Seq::<(Seq<char>, Seq<char>, S)>::empty());
        return Ok(spr);
    }
    let (avg, var) = moments(ya, yb);
    if var.is_negligible() {
        return Err(SobolError::DegenerateVariance);
    }
    let ghost nm = names(keys@);
    let ghost target = second_order_values(nm, named_view(sob1@), ya@, yb@, vecs_view(yk@));
    let mut q: usize = 0;
    while q < couples.len()
        invariant
            q <= couples@.len(),
            couples@ == canonical_pairs(keys@.len() as int),
            keys@.len() >= 2,
            nm == names(keys@),
            yk@.len() == couples@.len(),
            forall|t: int| 0 <= t < yk@.len() ==> (#[trigger] yk@[t])@.len() == ya@.len(),
            forall|k: int|
                0 <= k < keys@.len() ==> has_name(named_view(sob1@), (#[trigger] keys@[k])@),
            forall|t: int|
                0 <= t < couples@.len() ==> (#[trigger] couples@[t]).0 < couples@[t].1
                    < keys@.len(),
            (avg, var) == mean_var(ya@, yb@),
            target == second_order_values(nm, named_view(sob1@), ya@, yb@, vecs_view(yk@)),
            pairs_view(spr@) == target.take(q as int),
        decreases couples@.len() - q,
    {
        let (i, j) = couples[q];
        assert(couples@[q as int].0 < couples@[q as int].1 < keys@.len());
        let u = mean_product(&yk[q], ya);
        let pi = index_of_name(sob1, keys[i]);
        let pj = index_of_name(sob1, keys[j]);
        proof {
            lemma_first_value(named_view(sob1@), keys@[i as int]@, pi as int);
            lemma_first_value(named_view(sob1@), keys@[j as int]@, pj as int);
        }
        let vp = sob1[pi].1;
        let vr = sob1[pj].1;
        let value = u.minus(avg.times(avg)).minus(vr).minus(vp).over(var);
        let name_i = keys[i].to_owned();
        let name_j = keys[j].to_owned();
        assert(vecs_view(yk@)[q as int] == yk@[q as int]@);
        assert(nm[i as int] == keys@[i as int]@);
        assert(nm[j as int] == keys@[j as int]@);
        assert(named_view(sob1@)[pi as int].1 == vp);
        assert(named_view(sob1@)[pj as int].1 == vr);
        let ghost prev = spr@;
        spr.push((name_i, name_j, value));
        assert(spr@ == prev.push((name_i, name_j, value)));
        assert(target[q as int] == (name_i@, name_j@, value));
        assert(target.take(q as int).len() == q);
        assert(pairs_view(prev).len() == q);
        assert(prev.len() == q);
        assert(pairs_view(spr@).len() == q + 1);
        assert forall|k: int| 0 <= k < q + 1 implies #[trigger] pairs_view(spr@)[k] == target.take(q + 1)[k] by {
            assert(pairs_view(spr@)[k] == (spr@[k].0@, spr@[k].1@, spr@[k].2));
            if k < q {
                assert(pairs_view(prev)[k] == (prev[k].0@, prev[k].1@, prev[k].2));
                assert(pairs_view(prev)[k] == target.take(q as int)[k]);
            }
        }
        assert(pairs_view(spr@) =~= target.take(q + 1));
        q = q + 1;
    }
    assert(target.take(q as int) =~= target);
    Ok(spr)
}

/// The one-key list `[k]`, where `k` is the `i`-th varying key of `pr`.
fn varying_key_list<'a, V: Copy>(pr: &Params<V>, vkeys: &Vec<&'a str>, i: usize) -> (r: Vec<&'a str>)
    requires
        vkeys@.map_values(|k: &str| k@) == varying_of(pr@),
        i < vkeys@.len(),
    ensures
        names(r@) == seq![vkeys@[i as int]@],
        forall|j: int| 0 <= j < r@.len() ==> varying_of(pr@).contains(#[trigger] r@[j]@),
{
    let mut keys: Vec<&str> = Vec::new();
    keys.push(vkeys[i]);
    assert(varying_of(pr@)[i as int] == vkeys@[i as int]@);
    assert(names(keys@) =~= seq![vkeys@[i as int]@]);
    keys
}

/// First-order indices from the batches `a` (A) and `b` (B). For each
/// varying key `k` the model runs on B with `k` taken from A, and the result
/// is `first_order_spec` of those outputs and of the outputs on A and B.
pub fn first_order_from<S: Scalar, M: Model<S>>(
    pr: &Params<S>,
    a: &Vec<Params<S>>,
    b: &Vec<Params<S>>,
) -> (r: Result<Vec<(String, S)>, SobolError>)
    requires
        pr.wf(),
        a@.len() == b@.len(),
        realizations(pr@, a@),
        realizations(pr@, b@),
    ensures
        exists|c: Seq<Seq<Params<S>>>|
            #[trigger] all_recombined(b@, a@, single_keys(varying_of(pr@)), c) && result_view(r)
                == first_order_spec(
                varying_of(pr@),
                outs::<S, M>(a@),
                outs::<S, M>(b@),
                outs_all::<S, M>(c),
            ),
{
    let vkeys = pr.varying_keys();
    let ghost vk = varying_of(pr@);
    let ya = outputs::<S, M>(a);
    let yb = outputs::<S, M>(b);
    let mut yk: Vec<Vec<S>> = Vec::new();
    let ghost mut c: Seq<Seq<Params<S>>> = Seq::empty();
    let mut i: usize = 0;
    while i < vkeys.len()
        invariant
            i <= vkeys@.len(),
            vkeys@.map_values(|k: &str| k@) == vk,
            vk == varying_of(pr@),
            pr.wf(),
            a@.len() == b@.len(),
            realizations(pr@, a@),
            realizations(pr@, b@),
            c.len() == i,
            yk@.len() == i,
            vecs_view(yk@) == outs_all::<S, M>(c),
            forall|k: int| 0 <= k < i ==> (#[trigger] yk@[k])@.len() == a@.len(),
            forall|k: int| 0 <= k < i ==> recombined(b@, a@, single_keys(vk)[k], #[trigger] c[k]),
        decreases vkeys@.len() - i,
    {
        let keys = varying_key_list(pr, &vkeys, i);
        let batch = pick_freeze(pr, b, a, &keys);
        let ys = outputs::<S, M>(&batch);
        assert(single_keys(vk)[i as int] == names(keys@));
        assert(recombined(b@, a@, single_keys(vk)[i as int], batch@));
        let ghost prev_yk = yk@;
        let ghost prev_c = c;
        yk.push(ys);
        proof {
            c = c.push(batch@);
            assert forall|k: int| 0 <= k < yk@.len() implies #[trigger] vecs_view(yk@)[k] == outs_all::<S, M>(c)[k] by {
                if k < prev_yk.len() {
                    assert(vecs_view(prev_yk)[k] == outs_all::<S, M>(prev_c)[k]);
                    assert(yk@[k] == prev_yk[k]);
                    assert(c[k] == prev_c[k]);
                } else {
                    assert(yk@[k] == ys);
                    assert(c[k] == batch@);
                }
            }
        }
        assert(vecs_view(yk@) =~= outs_all::<S, M>(c));
        i = i + 1;
    }
    assert(names(vkeys@) =~= vk);
    assert(all_recombined(b@, a@, single_keys(vk), c));
    first_order_indices(&vkeys, &ya, &yb, &yk)
}

/// Total-effect indices from the batches `a` (A) and `b` (B). For each
/// varying key `k` the model runs on A with `k` taken from B, and the result
/// is `total_spec` of those outputs and of the outputs on A and B.
pub fn total_from<S: Scalar, M: Model<S>>(
    pr: &Params<S>,
    a: &Vec<Params<S>>,
    b: &Vec<Params<S>>,
) -> (r: Result<Vec<(String, S)>, SobolError>)
    requires
        pr.wf(),
        a@.len() == b@.len(),
        realizations(pr@, a@),
        realizations(pr@, b@),
    ensures
        exists|c: Seq<Seq<Params<S>>>|
            #[trigger] all_recombined(a@, b@, single_keys(varying_of(pr@)), c) && result_view(r)
                == total_spec(
                varying_of(pr@),
                outs::<S, M>(a@),
                outs::<S, M>(b@),
                outs_all::<S, M>(c),
            ),
{
    let vkeys = pr.varying_keys();
    let ghost vk = varying_of(pr@);
    let ya = outputs::<S, M>(a);
    let yb = outputs::<S, M>(b);
    let mut yk: Vec<Vec<S>> = Vec::new();
    let ghost mut c: Seq<Seq<Params<S>>> = Seq::empty();
    let mut i: usize = 0;
    while i < vkeys.len()
        invariant
            i <= vkeys@.len(),
            vkeys@.map_values(|k: &str| k@) == vk,
            vk == varying_of(pr@),
            pr.wf(),
            a@.len() == b@.len(),
            realizations(pr@, a@),
            realizations(pr@, b@),
            c.len() == i,
            yk@.len() == i,
            vecs_view(yk@) == outs_all::<S, M>(c),
            forall|k: int| 0 <= k < i ==> (#[trigger] yk@[k])@.len() == a@.len(),
            forall|k: int| 0 <= k < i ==> recombined(a@, b@, single_keys(vk)[k], #[trigger] c[k]),
        decreases vkeys@.len() - i,
    {
        let keys = varying_key_list(pr, &vkeys, i);
        let batch = pick_freeze(pr, a, b, &keys);
        let ys = outputs::<S, M>(&batch);
        assert(single_keys(vk)[i as int] == names(keys@));
        assert(recombined(a@, b@, single_keys(vk)[i as int], batch@));
        let ghost prev_yk = yk@;
        let ghost prev_c = c;
        yk.push(ys);
        proof {
            c = c.push(batch@);
            assert forall|k: int| 0 <= k < yk@.len() implies #[trigger] vecs_view(yk@)[k] == outs_all::<S, M>(c)[k] by {
                if k < prev_yk.len() {
                    assert(vecs_view(prev_yk)[k] == outs_all::<S, M>(prev_c)[k]);
                    assert(yk@[k] == prev_yk[k]);
                    assert(c[k] == prev_c[k]);
                } else {
                    assert(yk@[k] == ys);
                    assert(c[k] == batch@);
                }
            }
        }
        assert(vecs_view(yk@) =~= outs_all::<S, M>(c));
        i = i + 1;
    }
    assert(names(vkeys@) =~= vk);
    assert(all_recombined(a@, b@, single_keys(vk), c));
    total_indices(&vkeys, &ya, &yb, &yk)
}

/// Second-order indices from the batches `a` (A) and `b` (B), given the
/// first-order indices `sob1`. For each canonical pair `(i, j)` of varying
/// keys the model runs on B with both keys taken from A, and the result is
/// `second_order_spec` of those outputs and of the outputs on A and B. With
/// fewer than two varying keys the list is empty.
pub fn second_order_from<S: Scalar, M: Model<S>>(
    pr: &Params<S>,
    sob1: &Vec<(String, S)>,
    a: &Vec<Params<S>>,
    b: &Vec<Params<S>>,
) -> (r: Result<Vec<(String, String, S)>, SobolError>)
    requires
        pr.wf(),
        varying_of(pr@).len() >= 2 ==> forall|k: int|
            0 <= k < varying_of(pr@).len() ==> has_name(
                named_view(sob1@),
                #[trigger] varying_of(pr@)[k],
            ),
        a@.len() == b@.len(),
        realizations(pr@, a@),
        realizations(pr@, b@),
    ensures
        exists|c: Seq<Seq<Params<S>>>|
            #[trigger] all_recombined(b@, a@, pair_keys(varying_of(pr@)), c) && pairs_result_view(r)
                == second_order_spec(
                varying_of(pr@),
                named_view(sob1@),
                outs::<S, M>(a@),
                outs::<S, M>(b@),
                outs_all::<S, M>(c),
            ),
        varying_of(pr@).len() < 2 ==> match r {
            Ok(spr) => spr@.len() == 0,
            Err(_) => false,
        },
{
    let vkeys = pr.varying_keys();
    let ghost vk = varying_of(pr@);
    let couples = get_couples(vkeys.len());
    proof {
        lemma_canonical_pairs(vkeys@.len() as int);
        lemma_pair_count(vkeys@.len() as int);
        assert(vkeys@.map_values(|k: &str| k@).len() == vkeys@.len());
    }
    let ya = outputs::<S, M>(a);
    let yb = outputs::<S, M>(b);
    let mut yk: Vec<Vec<S>> = Vec::new();
    let ghost mut c: Seq<Seq<Params<S>>> = Seq::empty();
    let mut q: usize = 0;
    while q < couples.len()
        invariant
            q <= couples@.len(),
            couples@ == canonical_pairs(vk.len() as int),
            vkeys@.map_values(|k: &str| k@) == vk,
            vkeys@.len() == vk.len(),
            vk == varying_of(pr@),
            forall|t: int|
                0 <= t < couples@.len() ==> (#[trigger] couples@[t]).0 < couples@[t].1
                    < vk.len(),
            pr.wf(),
            a@.len() == b@.len(),
            realizations(pr@, a@),
            realizations(pr@, b@),
            c.len() == q,
            yk@.len() == q,
            vecs_view(yk@) == outs_all::<S, M>(c),
            forall|k: int| 0 <= k < q ==> (#[trigger] yk@[k])@.len() == a@.len(),
            forall|k: int| 0 <= k < q ==> recombined(b@, a@, pair_keys(vk)[k], #[trigger] c[k]),
        decreases couples@.len() - q,
    {
        let (i, j) = couples[q];
        assert(couples@[q as int].0 < couples@[q as int].1 < vk.len());
        assert(vkeys@.map_values(|k: &str| k@)[i as int] == vkeys@[i as int]@);
        assert(vkeys@.map_values(|k: &str| k@)[j as int] == vkeys@[j as int]@);
        let mut pair: Vec<&str> = Vec::new();
        pair.push(vkeys[i]);
        pair.push(vkeys[j]);
        assert forall|t: int| 0 <= t < pair@.len() implies vk.contains(#[trigger] pair@[t]@) by {
            if t == 0 {
                assert(vk[i as int] == pair@[t]@);
            } else {
                assert(vk[j as int] == pair@[t]@);
            }
        }
        let batch = pick_freeze(pr, b, a, &pair);
        let ys = outputs::<S, M>(&batch);
        assert(names(pair@) =~= seq![vk[i as int], vk[j as int]]);
        assert(pair_keys(vk)[q as int] == names(pair@));
        assert(recombined(b@, a@, pair_keys(vk)[q as int], batch@));
        let ghost prev_yk = yk@;
        let ghost prev_c = c;
        yk.push(ys);
        proof {
            c = c.push(batch@);
            assert forall|k: int| 0 <= k < yk@.len() implies #[trigger] vecs_view(yk@)[k] == outs_all::<S, M>(c)[k] by {
                if k < prev_yk.len() {
                    assert(vecs_view(prev_yk)[k] == outs_all::<S, M>(prev_c)[k]);
                    assert(yk@[k] == prev_yk[k]);
                    assert(c[k] == prev_c[k]);
                } else {
                    assert(yk@[k] == ys);
                    assert(c[k] == batch@);
                }
            }
        }
        assert(vecs_view(yk@) =~= outs_all::<S, M>(c));
        q = q + 1;
    }
    assert(names(vkeys@) =~= vk);
    assert(all_recombined(b@, a@, pair_keys(vk), c));
    if vkeys.len() >= 2 {
        assert forall|k: int| 0 <= k < vkeys@.len() implies has_name(
            named_view(sob1@),
            (#[trigger] vkeys@[k])@,
        ) by {
            assert(vk[k] == vkeys@[k]@);
        }
    }
    let r = second_order_indices(&vkeys, sob1, &ya, &yb, &yk);
    proof {
        if vk.len() < 2 {
            assert(pairs_result_view(r) == Ok::<_, SobolError>(Seq::<(Seq<char>, Seq<char>, S)>::empty()));
            assert(pairs_view(r->Ok_0@).len() == r->Ok_0@.len());
        }
    }
    r
}

/// First-order indices of `pr` on two fresh batches of `nsamp` realizations,
/// A drawn first.
pub fn calc_sobol_1<S: Scalar, M: Model<S>, R: UnitSource<S>>(
    pr: &Params<S>,
    nsamp: usize,
    rng: &mut R,
) -> (r: Result<Vec<(String, S)>, SobolError>)
    requires
        pr.wf(),
    ensures
        exists|a: Seq<Params<S>>, b: Seq<Params<S>>, c: Seq<Seq<Params<S>>>|
            {
                &&& a.len() == nsamp
                &&& b.len() == nsamp
                &&& realizations(pr@, a)
                &&& realizations(pr@, b)
                &&& #[trigger] all_recombined(b, a, single_keys(varying_of(pr@)), c)
                &&& result_view(r) == first_order_spec(
                    varying_of(pr@),
                    outs::<S, M>(a),
                    outs::<S, M>(b),
                    outs_all::<S, M>(c),
                )
            },
{
    let samples_1 = sample(pr, nsamp, rng);
    let samples_2 = sample(pr, nsamp, rng);
    let r = first_order_from::<S, M>(pr, &samples_1, &samples_2);
    proof {
        let c = choose|c: Seq<Seq<Params<S>>>|
            #[trigger] all_recombined(samples_2@, samples_1@, single_keys(varying_of(pr@)), c)
                && result_view(r) == first_order_spec(
                varying_of(pr@),
                outs::<S, M>(samples_1@),
                outs::<S, M>(samples_2@),
                outs_all::<S, M>(c),
            );
        assert(all_recombined(samples_2@, samples_1@, single_keys(varying_of(pr@)), c));
    }
    r
}

/// Total-effect indices of `pr` on two fresh batches of `nsamp`
/// realizations, A drawn first.
pub fn calc_sobol_total<S: Scalar, M: Model<S>, R: UnitSource<S>>(
    pr: &Params<S>,
    nsamp: usize,
    rng: &mut R,
) -> (r: Result<Vec<(String, S)>, SobolError>)
    requires
        pr.wf(),
    ensures
        exists|a: Seq<Params<S>>, b: Seq<Params<S>>, c: Seq<Seq<Params<S>>>|
            {
                &&& a.len() == nsamp
                &&& b.len() == nsamp
                &&& realizations(pr@, a)
                &&& realizations(pr@, b)
                &&& #[trigger] all_recombined(a, b, single_keys(varying_of(pr@)), c)
                &&& result_view(r) == total_spec(
                    varying_of(pr@),
                    outs::<S, M>(a),
                    outs::<S, M>(b),
                    outs_all::<S, M>(c),
                )
            },
{
    let samples_1 = sample(pr, nsamp, rng);
    let samples_2 = sample(pr, nsamp, rng);
    let r = total_from::<S, M>(pr, &samples_1, &samples_2);
    proof {
        let c = choose|c: Seq<Seq<Params<S>>>|
            #[trigger] all_recombined(samples_1@, samples_2@, single_keys(varying_of(pr@)), c)
                && result_view(r) == total_spec(
                varying_of(pr@),
                outs::<S, M>(samples_1@),
                outs::<S, M>(samples_2@),
                outs_all::<S, M>(c),
            );
        assert(all_recombined(samples_1@, samples_2@, single_keys(varying_of(pr@)), c));
    }
    r
}

/// Second-order indices of `pr` on two fresh batches of `nsamp`
/// realizations, A drawn first, given first-order indices `sob1` that name
/// every varying key.
pub fn calc_sobol_2<S: Scalar, M: Model<S>, R: UnitSource<S>>(
    pr: &Params<S>,
    sob1: &Vec<(String, S)>,
    nsamp: usize,
    rng: &mut R,
) -> (r: Result<Vec<(String, String, S)>, SobolError>)
    requires
        pr.wf(),
        varying_of(pr@).len() >= 2 ==> forall|k: int|
            0 <= k < varying_of(pr@).len() ==> has_name(
                named_view(sob1@),
                #[trigger] varying_of(pr@)[k],
            ),
    ensures
        exists|a: Seq<Params<S>>, b: Seq<Params<S>>, c: Seq<Seq<Params<S>>>|
            {
                &&& a.len() == nsamp
                &&& b.len() == nsamp
                &&& realizations(pr@, a)
                &&& realizations(pr@, b)
                &&& #[trigger] all_recombined(b, a, pair_keys(varying_of(pr@)), c)
                &&& pairs_result_view(r) == second_order_spec(
                    varying_of(pr@),
                    named_view(sob1@),
                    outs::<S, M>(a),
                    outs::<S, M>(b),
                    outs_all::<S, M>(c),
                )
            },
        varying_of(pr@).len() < 2 ==> match r {
            Ok(spr) => spr@.len() == 0,
            Err(_) => false,
        },
{
    let samples_1 = sample(pr, nsamp, rng);
    let samples_2 = sample(pr, nsamp, rng);
    let r = second_order_from::<S, M>(pr, sob1, &samples_1, &samples_2);
    proof {
        let c = choose|c: Seq<Seq<Params<S>>>|
            #[trigger] all_recombined(samples_2@, samples_1@, pair_keys(varying_of(pr@)), c)
                && pairs_result_view(r) == second_order_spec(
                varying_of(pr@),
                named_view(sob1@),
                outs::<S, M>(samples_1@),
                outs::<S, M>(samples_2@),
                outs_all::<S, M>(c),
            );
        assert(all_recombined(samples_2@, samples_1@, pair_keys(varying_of(pr@)), c));
    }
    r
}

} // verus!
