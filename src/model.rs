//! Clock models: a name, a coefficient table and an adjustment that turns
//! the model's weighted sum into an age.
use vstd::prelude::*;
use crate::table::{load_spec, CoefTable, LoadError, Weights};

verus! {

/// Accumulated sums are held in units of 10^-18 (nano-units squared).
pub const ACC_SCALE: i128 = 1_000_000_000_000_000_000;

/// Largest magnitude an accumulated sum may reach.
pub const ACC_LIMIT: i128 = 1_000_000_000_000_000_000_000_000_000_000_000_000;

/// How a model turns its weighted sum into an age.
#[derive(Clone, Copy, Debug, PartialEq, Eq, Structural)]
pub enum Adjustment {
    /// `21·e^x − 1` below zero, `21·x + 21` from zero up.
    Horvath,
    /// The sum itself.
    Identity,
}

/// An age in years.
#[derive(Clone, Copy, Debug, PartialEq, Eq, Structural)]
pub enum Age {
    /// Exactly `v / ACC_SCALE` years.
    Exact(i128),
    /// `21·e^(x / ACC_SCALE) − 1` years.
    ExpOf(i128),
}

/// The age that adjustment `a` gives for the sum `x` (in units of
/// 10^-18).
pub open spec fn adjusted(a: Adjustment, x: int) -> Age {
    match a {
        Adjustment::Identity => Age::Exact(x as i128),
        Adjustment::Horvath => if x < 0 {
            Age::ExpOf(x as i128)
        } else {
            Age::Exact((21 * x + 21 * ACC_SCALE) as i128)
        },
    }
}

/// Applies adjustment `a` to the sum `x`.
pub fn adjust(a: Adjustment, x: i128) -> (r: Age)
    requires
        -ACC_LIMIT <= x <= ACC_LIMIT,
    ensures
        r == adjusted(a, x as int),
{
    match a {
        Adjustment::Identity => Age::Exact(x),
        Adjustment::Horvath => if x < 0 {
            Age::ExpOf(x)
        } else {
            Age::Exact(21 * x + 21 * ACC_SCALE)
        },
    }
}

/// The reserved identifier whose weight is a model's base offset.
pub open spec fn intercept_key() -> Seq<char> {
    "intercept"@
}

/// The weight of probe `p` in `t`, zero where `t` has none.
pub open spec fn weight_of(t: Weights, p: Seq<char>) -> int {
    if t.contains_key(p) {
        t[p]
    } else {
        0
    }
}

/// A clock: a coefficient table and an adjustment, under a name.
pub struct Model {
    pub name: String,
    pub coefs: CoefTable,
    pub adjust: Adjustment,
}

impl Model {
    /// The model's weights by probe identifier, in nano-units.
    pub open spec fn weights(&self) -> Weights {
        self.coefs@
    }

    /// The model's adjustment.
    pub open spec fn kind(&self) -> Adjustment {
        self.adjust
    }

    /// The base offset: the weight of `"intercept"`, if the table has one.
    pub fn intercept(&self) -> (r: Option<i64>)
        ensures
            match r {
                Some(v) => self.weights().contains_key(intercept_key()) && self.weights()[intercept_key()]
                    == v,
                None => !self.weights().contains_key(intercept_key()),
            },
    {
        let key = "intercept".to_owned();
        self.coefs.get(&key)
    }

    /// The weight of a probe; zero for a probe the model does not use.
    pub fn weight(&self, probe_id: &String) -> (r: i64)
        ensures
            r == weight_of(self.weights(), probe_id@),
    {
        match self.coefs.get(probe_id) {
            None => 0,
            Some(v) => v,
        }
    }

    /// Turns an accumulated sum into this model's age.
    pub fn adjustment(&self, age: i128) -> (r: Age)
        requires
            -ACC_LIMIT <= age <= ACC_LIMIT,
        ensures
            r == adjusted(self.kind(), age as int),
    {
        adjust(self.adjust, age)
    }

    /// The Horvath clock, from its coefficient resource.
    pub fn horvath(resource: &[u8]) -> (r: Result<Model, LoadError>)
        ensures
            match r {
                Ok(m) => load_spec(resource@) == Ok::<Weights, LoadError>(m.weights())
                    && m.kind() == Adjustment::Horvath && m.name@ == "Horvath Clock"@,
                Err(e) => load_spec(resource@) == Err::<Weights, LoadError>(e),
            },
    {
        match CoefTable::load(resource) {
            Ok(t) => Ok(Model { name: "Horvath Clock".to_owned(), coefs: t, adjust: Adjustment::Horvath }),
            Err(e) => Err(e),
        }
    }

    /// The DNAm PhenoAge clock, from its coefficient resource.
    pub fn pheno(resource: &[u8]) -> (r: Result<Model, LoadError>)
        ensures
            match r {
                Ok(m) => load_spec(resource@) == Ok::<Weights, LoadError>(m.weights())
                    && m.kind() == Adjustment::Identity && m.name@ == "DNAm PhenoAge"@,
                Err(e) => load_spec(resource@) == Err::<Weights, LoadError>(e),
            },
    {
        match CoefTable::load(resource) {
            Ok(t) => Ok(Model { name: "DNAm PhenoAge".to_owned(), coefs: t, adjust: Adjustment::Identity }),
            Err(e) => Err(e),
        }
    }

    /// Every built-in clock, in order: Horvath, then PhenoAge.
    pub fn all(horvath_resource: &[u8], pheno_resource: &[u8]) -> (r: Result<Vec<Model>, LoadError>)
        ensures
            match r {
                Ok(ms) => ms@.len() == 2 && load_spec(horvath_resource@) == Ok::<Weights, LoadError>(
                    ms@[0].weights(),
                ) && ms@[0].kind() == Adjustment::Horvath && load_spec(pheno_resource@) == Ok::<
                    Weights,
                    LoadError,
                >(ms@[1].weights()) && ms@[1].kind() == Adjustment::Identity && ms@[0].name@
                    == "Horvath Clock"@ && ms@[1].name@ == "DNAm PhenoAge"@,
                Err(e) => load_spec(horvath_resource@) == Err::<Weights, LoadError>(e) || (
                load_spec(horvath_resource@) is Ok && load_spec(pheno_resource@) == Err::<
                    Weights,
                    LoadError,
                >(e)),
            },
    {
        let h = match Model::horvath(horvath_resource) {
            Ok(m) => m,
            Err(e) => return Err(e),
        };
        let p = match Model::pheno(pheno_resource) {
            Ok(m) => m,
            Err(e) => return Err(e),
        };
        let mut ms: Vec<Model> = Vec::new();
        ms.push(h);
        ms.push(p);
        Ok(ms)
    }
}

} // verus!
