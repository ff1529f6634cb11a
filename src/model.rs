use vstd::prelude::*;

verus! {

/// The six model variants of the GR family.
#[derive(Clone, Copy, Debug, PartialEq, Eq, Structural)]
pub enum Model {
    /// Annual model: one parameter, no stores.
    Gr1a,
    /// Monthly model: production and routing stores, no unit hydrograph.
    Gr2m,
    /// Hourly four-parameter model.
    Gr4h,
    /// Daily four-parameter model.
    Gr4j,
    /// Daily five-parameter model, with the second unit hydrograph only.
    Gr5j,
    /// Daily six-parameter model, with an exponential store.
    Gr6j,
}

/// How many parameters a model takes.
pub open spec fn spec_parameter_count(m: Model) -> nat {
    match m {
        Model::Gr1a => 1,
        Model::Gr2m => 2,
        Model::Gr4h => 4,
        Model::Gr4j => 4,
        Model::Gr5j => 5,
        Model::Gr6j => 6,
    }
}

/// How many store levels a model's state holds.
pub open spec fn spec_state_count(m: Model) -> nat {
    match m {
        Model::Gr1a => 0,
        Model::Gr6j => 3,
        _ => 2,
    }
}

/// Whether a model routes water through the first unit hydrograph,
/// whose length is `ceil(x4)`.
pub open spec fn spec_uses_first_hydrograph(m: Model) -> bool {
    m == Model::Gr4h || m == Model::Gr4j || m == Model::Gr6j
}

/// Whether a model routes water through the second unit hydrograph,
/// whose length is `ceil(2 x4)`.
pub open spec fn spec_uses_second_hydrograph(m: Model) -> bool {
    m == Model::Gr4h || m == Model::Gr4j || m == Model::Gr5j || m == Model::Gr6j
}

impl Model {
    /// The length of the model's parameter vector.
    pub fn parameter_count(&self) -> (r: usize)
        ensures
            r == spec_parameter_count(*self),
    {
        match self {
            Model::Gr1a => 1,
            Model::Gr2m => 2,
            Model::Gr4h => 4,
            Model::Gr4j => 4,
            Model::Gr5j => 5,
            Model::Gr6j => 6,
        }
    }

    /// The length of the model's state vector.
    pub fn state_count(&self) -> (r: usize)
        ensures
            r == spec_state_count(*self),
    {
        match self {
            Model::Gr1a => 0,
            Model::Gr6j => 3,
            _ => 2,
        }
    }

    /// Whether the model has the first unit hydrograph.
    pub fn uses_first_hydrograph(&self) -> (r: bool)
        ensures
            r == spec_uses_first_hydrograph(*self),
    {
        match self {
            Model::Gr4h | Model::Gr4j | Model::Gr6j => true,
            _ => false,
        }
    }

    /// Whether the model has the second unit hydrograph; exactly the
    /// models that read the time base `x4`.
    pub fn uses_second_hydrograph(&self) -> (r: bool)
        ensures
            r == spec_uses_second_hydrograph(*self),
    {
        match self {
            Model::Gr1a | Model::Gr2m => false,
            _ => true,
        }
    }
}

} // verus!
