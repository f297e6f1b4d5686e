use vstd::prelude::*;
use crate::model::{Scalar, UnitSource};

verus! {

/// Specification of one parameter: a fixed value, or a uniform range given by
/// its two bounds.
#[derive(Clone, Copy, Debug, PartialEq)]
pub enum Value<V> {
    Float(V),
    Range(V, V),
}

/// Failures of the parameter-set accessors.
#[derive(Clone, Copy, Debug, PartialEq, Eq, Structural)]
pub enum ParamError {
    /// The name is not a key of the parameter set.
    UnknownParameter,
    /// The parameter is a range, which has no single value until realized.
    NotScalar,
}

/// `k` is the name of some entry of `s`.
pub open spec fn has_key<V>(s: Seq<(Seq<char>, Value<V>)>, k: Seq<char>) -> bool {
    exists|i: int| 0 <= i < s.len() && s[i].0 == k
}

/// No two entries of `s` share a name.
pub open spec fn keys_unique<V>(s: Seq<(Seq<char>, Value<V>)>) -> bool {
    forall|i: int, j: int| 0 <= i < s.len() && 0 <= j < s.len() && s[i].0 == s[j].0 ==> i == j
}

/// The position of the entry named `k` (meaningful when `has_key(s, k)`).
pub open spec fn key_index<V>(s: Seq<(Seq<char>, Value<V>)>, k: Seq<char>) -> int {
    choose|i: int| 0 <= i < s.len() && s[i].0 == k
}

/// The specification stored under `k`, if any.
pub open spec fn lookup<V>(s: Seq<(Seq<char>, Value<V>)>, k: Seq<char>) -> Option<Value<V>> {
    if has_key(s, k) {
        Some(s[key_index(s, k)].1)
    } else {
        None
    }
}

/// `s` after storing `v` under `k`: in place when `k` is present, else appended.
pub open spec fn inserted<V>(s: Seq<(Seq<char>, Value<V>)>, k: Seq<char>, v: Value<V>) -> Seq<
    (Seq<char>, Value<V>),
> {
    if has_key(s, k) {
        s.update(key_index(s, k), (k, v))
    } else {
        s.push((k, v))
    }
}

/// The fixed value stored under `k`, or why there is none.
pub open spec fn scalar_of<V>(s: Seq<(Seq<char>, Value<V>)>, k: Seq<char>) -> Result<V, ParamError> {
    match lookup(s, k) {
        None => Err(ParamError::UnknownParameter),
        Some(Value::Float(v)) => Ok(v),
        Some(Value::Range(_, _)) => Err(ParamError::NotScalar),
    }
}

/// The names of the entries of `s`, in order.
pub open spec fn keys_of<V>(s: Seq<(Seq<char>, Value<V>)>) -> Seq<Seq<char>> {
    s.map_values(|e: (Seq<char>, Value<V>)| e.0)
}

/// The names of the range entries of `s`, in order.
pub open spec fn varying_of<V>(s: Seq<(Seq<char>, Value<V>)>) -> Seq<Seq<char>>
    decreases s.len(),
{
    if s.len() == 0 {
        Seq::empty()
    } else {
        let init = varying_of(s.drop_last());
        match s.last().1 {
            Value::Range(_, _) => init.push(s.last().0),
            Value::Float(_) => init,
        }
    }
}

/// `q` is a realization of `p`: the same names in the same order, every fixed
/// value copied unchanged, and every range resolved to some fixed value.
pub open spec fn realizes<V>(p: Seq<(Seq<char>, Value<V>)>, q: Seq<(Seq<char>, Value<V>)>) -> bool {
    &&& q.len() == p.len()
    &&& forall|i: int|
        0 <= i < p.len() ==> (#[trigger] q[i]).0 == p[i].0 && match p[i].1 {
            Value::Float(v) => q[i].1 == Value::Float(v),
            Value::Range(_, _) => q[i].1 is Float,
        }
}

/// The point `t * lower + (1 - t) * upper` of a range, for a draw `t`.
pub open spec fn lerp<S: Scalar>(t: S, lower: S, upper: S) -> S {
    t.spec_times(lower).spec_plus(S::spec_one().spec_minus(t).spec_times(upper))
}

/// Every range of `p` became, in `q`, the point `lerp(t, lower, upper)` for
/// some draw `t`.
pub open spec fn drawn<S: Scalar>(p: Seq<(Seq<char>, Value<S>)>, q: Seq<(Seq<char>, Value<S>)>) -> bool {
    forall|i: int|
        #![trigger p[i]]
        0 <= i < p.len() ==> match p[i].1 {
            Value::Range(lower, upper) => exists|t: S| q[i].1 == Value::Float(#[trigger] lerp(t, lower, upper)),
            Value::Float(_) => true,
        }
}

pub proof fn lemma_key_index<V>(s: Seq<(Seq<char>, Value<V>)>, k: Seq<char>, i: int)
    requires
        keys_unique(s),
        0 <= i < s.len(),
        s[i].0 == k,
    ensures
        has_key(s, k),
        key_index(s, k) == i,
{
    assert(has_key(s, k));
}

/// A realization of a set that holds only fixed values is that set itself,
/// whatever was drawn.
pub proof fn lemma_fixed_realization<V>(p: Seq<(Seq<char>, Value<V>)>, q: Seq<(Seq<char>, Value<V>)>)
    requires
        forall|i: int| 0 <= i < p.len() ==> (#[trigger] p[i]).1 is Float,
        realizes(p, q),
    ensures
        q == p,
{
    assert forall|i: int| 0 <= i < p.len() implies #[trigger] q[i] == p[i] by {
        assert(p[i].1 is Float);
        assert(q[i].0 == p[i].0);
    }
    assert(q =~= p);
}

/// A set of named parameters, kept in insertion order, names unique.
pub struct Params<V> {
    pp: Vec<(String, Value<V>)>,
}

impl<V> View for Params<V> {
    type V = Seq<(Seq<char>, Value<V>)>;

    closed spec fn view(&self) -> Seq<(Seq<char>, Value<V>)> {
        self.pp@.map_values(|e: (String, Value<V>)| (e.0@, e.1))
    }
}

impl<V: Copy> Params<V> {
    /// Names are unique.
    pub open spec fn wf(&self) -> bool {
        keys_unique(self@)
    }

    /// An empty parameter set.
    pub fn new() -> (r: Self)
        ensures
            r@ == Seq::<(Seq<char>, Value<V>)>::empty(),
            r.wf(),
    {
        let r = Params { pp: Vec::new() };
        assert(r@ =~= Seq::<(Seq<char>, Value<V>)>::empty());
        r
    }

    /// The position of the entry named `tag`.
    fn find(&self, tag: &String) -> (r: Option<usize>)
        requires
            self.wf(),
        ensures
            match r {
                Some(i) => i < self@.len() && key_index(self@, tag@) == i && has_key(self@, tag@),
                None => !has_key(self@, tag@),
            },
    {
        let mut i: usize = 0;
        while i < self.pp.len()
            invariant
                i <= self.pp@.len(),
                self@.len() == self.pp@.len(),
                self.wf(),
                forall|j: int| 0 <= j < i ==> self@[j].0 != tag@,
            decreases self.pp@.len() - i,
        {
            assert(self@[i as int].0 == self.pp@[i as int].0@);
            if self.pp[i].0 == *tag {
                proof {
                    lemma_key_index(self@, tag@, i as int);
                }
                return Some(i);
            }
            i = i + 1;
        }
        None
    }

    /// A copy of this set, entry by entry.
    pub fn duplicate(&self) -> (r: Self)
        ensures
            r@ == self@,
    {
        let mut pp: Vec<(String, Value<V>)> = Vec::new();
        let mut i: usize = 0;
        while i < self.pp.len()
            invariant
                i <= self.pp@.len(),
                pp@.len() == i,
                forall|j: int| 0 <= j < i ==> (#[trigger] pp@[j]).0@ == self.pp@[j].0@ && pp@[j].1 == self.pp@[j].1,
            decreases self.pp@.len() - i,
        {
            let name = self.pp[i].0.clone();
            let value = self.pp[i].1;
            pp.push((name, value));
            i = i + 1;
        }
        let r = Params { pp };
        assert(r@ =~= self@);
        r
    }

    /// Stores `value` under `tag`, replacing what was there.
    pub fn insert(&mut self, tag: &str, value: Value<V>)
        requires
            old(self).wf(),
        ensures
            final(self).wf(),
            final(self)@ == inserted(old(self)@, tag@, value),
    {
        let name = tag.to_owned();
        match self.find(&name) {
            Some(i) => {
                self.pp.set(i, (name, value));
                assert(self@ =~= old(self)@.update(i as int, (tag@, value)));
            },
            None => {
                self.pp.push((name, value));
                assert(self@ =~= old(self)@.push((tag@, value)));
            },
        }
    }

    /// The specification stored under `tag`.
    pub fn get(&self, tag: &str) -> (r: Result<Value<V>, ParamError>)
        requires
            self.wf(),
        ensures
            r == match lookup(self@, tag@) {
                Some(v) => Ok(v),
                None => Err::<Value<V>, ParamError>(ParamError::UnknownParameter),
            },
    {
        let name = tag.to_owned();
        match self.find(&name) {
            Some(i) => {
                assert(self@[i as int].1 == self.pp@[i as int].1);
                Ok(self.pp[i].1)
            },
            None => Err(ParamError::UnknownParameter),
        }
    }

    /// The fixed value stored under `tag`.
    pub fn get_float(&self, tag: &str) -> (r: Result<V, ParamError>)
        requires
            self.wf(),
        ensures
            r == scalar_of(self@, tag@),
    {
        match self.get(tag) {
            Ok(Value::Float(f)) => Ok(f),
            Ok(Value::Range(_, _)) => Err(ParamError::NotScalar),
            Err(e) => Err(e),
        }
    }

    /// Replaces the specification of an existing parameter.
    pub fn set(&mut self, tag: &str, val: Value<V>) -> (r: Result<(), ParamError>)
        requires
            old(self).wf(),
        ensures
            final(self).wf(),
            has_key(old(self)@, tag@) ==> r is Ok && final(self)@ == old(self)@.update(
                key_index(old(self)@, tag@),
                (tag@, val),
            ),
            !has_key(old(self)@, tag@) ==> r == Err::<(), ParamError>(ParamError::UnknownParameter)
                && final(self)@ == old(self)@,
    {
        let name = tag.to_owned();
        match self.find(&name) {
            Some(i) => {
                self.pp.set(i, (name, val));
                assert(self@ =~= old(self)@.update(i as int, (tag@, val)));
                Ok(())
            },
            None => Err(ParamError::UnknownParameter),
        }
    }

    /// Number of parameters.
    pub fn len(&self) -> (r: usize)
        ensures
            r == self@.len(),
    {
        self.pp.len()
    }

    /// The names of all parameters, in order.
    pub fn keys<'s>(&'s self) -> (r: Vec<&'s str>)
        ensures
            r@.map_values(|k: &str| k@) == keys_of(self@),
    {
        let mut res: Vec<&'s str> = Vec::new();
        let mut i: usize = 0;
        while i < self.pp.len()
            invariant
                i <= self.pp@.len(),
                res@.map_values(|k: &str| k@) == keys_of(self@).take(i as int),
            decreases self.pp@.len() - i,
        {
            res.push(self.pp[i].0.as_str());
            assert(keys_of(self@).take(i + 1) =~= keys_of(self@).take(i as int).push(
                self.pp@[i as int].0@,
            ));
            assert(res@.map_values(|k: &str| k@) =~= keys_of(self@).take(i + 1));
            i = i + 1;
        }
        assert(keys_of(self@).take(i as int) =~= keys_of(self@));
        res
    }

    /// The names of the range parameters, in order.
    pub fn varying_keys<'s>(&'s self) -> (r: Vec<&'s str>)
        ensures
            r@.map_values(|k: &str| k@) == varying_of(self@),
    {
        let mut res: Vec<&'s str> = Vec::new();
        let mut i: usize = 0;
        while i < self.pp.len()
            invariant
                i <= self.pp@.len(),
                res@.map_values(|k: &str| k@) == varying_of(self@.take(i as int)),
            decreases self.pp@.len() - i,
        {
            assert(self@.take(i + 1).drop_last() =~= self@.take(i as int));
            assert(self@.take(i + 1).last() == (self.pp@[i as int].0@, self.pp@[i as int].1));
            match self.pp[i].1 {
                Value::Float(_) => {},
                Value::Range(_, _) => {
                    res.push(self.pp[i].0.as_str());
                },
            }
            assert(res@.map_values(|k: &str| k@) =~= varying_of(self@.take(i + 1)));
            i = i + 1;
        }
        assert(self@.take(i as int) =~= self@);
        res
    }
}

impl<S: Scalar> Params<S> {
    /// Draws a realization: every fixed value is copied, and every range
    /// `(lower, upper)` becomes `t * lower + (1 - t) * upper` for a fresh draw
    /// `t` of `rng`.
    pub fn realize<R: UnitSource<S>>(&self, rng: &mut R) -> (r: Params<S>)
        requires
            self.wf(),
        ensures
            r.wf(),
            realizes(self@, r@),
            drawn(self@, r@),
    {
        let mut pp: Vec<(String, Value<S>)> = Vec::new();
        let mut i: usize = 0;
        while i < self.pp.len()
            invariant
                i <= self.pp@.len(),
                pp@.len() == i,
                forall|j: int|
                    0 <= j < i ==> (#[trigger] pp@[j]).0@ == self.pp@[j].0@ && match self.pp@[j].1 {
                        Value::Float(v) => pp@[j].1 == Value::Float(v),
                        Value::Range(lower, upper) => exists|t: S|
                            pp@[j].1 == Value::Float(#[trigger] lerp(t, lower, upper)),
                    },
            decreases self.pp@.len() - i,
        {
            let name = self.pp[i].0.clone();
            match self.pp[i].1 {
                Value::Float(f) => {
                    pp.push((name, Value::Float(f)));
                },
                Value::Range(lower, upper) => {
                    let t = rng.unit();
                    let v = t.times(lower).plus(S::one().minus(t).times(upper));
                    assert(v == lerp(t, lower, upper));
                    pp.push((name, Value::Float(v)));
                },
            }
            i = i + 1;
        }
        let r = Params { pp };
        assert forall|j: int| 0 <= j < self@.len() implies (#[trigger] r@[j]).0 == self@[j].0 && match self@[j].1 {
            Value::Float(v) => r@[j].1 == Value::Float(v),
            Value::Range(_, _) => r@[j].1 is Float,
        } by {
            assert(r@[j] == (r.pp@[j].0@, r.pp@[j].1));
            assert(self@[j] == (self.pp@[j].0@, self.pp@[j].1));
        }
        assert forall|j: int| #![trigger self@[j]] 0 <= j < self@.len() implies match self@[j].1 {
            Value::Range(lower, upper) => exists|t: S| r@[j].1 == Value::Float(#[trigger] lerp(t, lower, upper)),
            Value::Float(_) => true,
        } by {
            assert(r@[j] == (r.pp@[j].0@, r.pp@[j].1));
            assert(self@[j] == (self.pp@[j].0@, self.pp@[j].1));
        }
        assert(keys_unique(r@)) by {
            assert forall|a: int, b: int| 0 <= a < r@.len() && 0 <= b < r@.len() && r@[a].0 == r@[b].0 implies a == b by {
                assert(r@[a].0 == self@[a].0);
                assert(r@[b].0 == self@[b].0);
            }
        }
        r
    }
}

} // verus!
