use crate::hydrograph::{hydrograph_sizes, sizes_of, HydrographSizes};
use crate::model::{
    spec_parameter_count, spec_state_count, spec_uses_first_hydrograph,
    spec_uses_second_hydrograph, Model,
};
use crate::time_base::{
    bits_are_positive_finite, lemma_exceeds_downward, time_base_of_bits, TimeBase,
};
use vstd::prelude::*;

verus! {

/// Why a model run was refused before it started.
#[derive(Clone, Copy, Debug, PartialEq, Eq, Structural)]
pub enum InputError {
    /// The parameter vector does not have the model's length.
    InvalidParameterCount,
    /// Rainfall and evapotranspiration differ in length.
    LengthMismatch,
    /// The state vector does not have the model's length.
    InvalidStateSize,
    /// The time base `x4` is zero, negative, infinite or not a number.
    InvalidTimeBase,
    /// A unit-hydrograph buffer is shorter than its table.
    InvalidBufferSize,
}

/// The sizes of what a caller hands to a model run, and the bits of the
/// time base `x4` (the fourth parameter), which only the models with unit
/// hydrographs read.
#[derive(Clone, Copy, Debug, PartialEq, Eq, Structural)]
pub struct InputShape {
    pub parameter_count: usize,
    pub time_base_bits: u64,
    pub rainfall_len: usize,
    pub evapotranspiration_len: usize,
    pub state_len: usize,
    pub first_buffer_len: usize,
    pub second_buffer_len: usize,
}

/// A buffer of `len` places holds a table of `ceil(x4)` places, that is
/// `x4 <= len`.
pub open spec fn holds_table(len: int, x4: TimeBase) -> bool {
    !x4.exceeds(len)
}

/// The first refusal that applies to a run of `model` on inputs of this
/// shape, checked in the order of the variants of `InputError`.
pub open spec fn spec_input_error(model: Model, shape: InputShape) -> Option<InputError> {
    let x4 = time_base_of_bits(shape.time_base_bits);
    if shape.parameter_count != spec_parameter_count(model) {
        Some(InputError::InvalidParameterCount)
    } else if shape.rainfall_len != shape.evapotranspiration_len {
        Some(InputError::LengthMismatch)
    } else if shape.state_len != spec_state_count(model) {
        Some(InputError::InvalidStateSize)
    } else if !spec_uses_second_hydrograph(model) {
        None
    } else if !bits_are_positive_finite(shape.time_base_bits) {
        Some(InputError::InvalidTimeBase)
    } else if (spec_uses_first_hydrograph(model) && !holds_table(
        shape.first_buffer_len as int,
        x4,
    )) || !holds_table(shape.second_buffer_len as int, x4.spec_doubled()) {
        Some(InputError::InvalidBufferSize)
    } else {
        None
    }
}

/// `len >= n` for the ceiling `n` of `x4`, tested as `x4 <= len`.
proof fn lemma_holds_table_iff(x4: TimeBase, n: int, len: int)
    requires
        x4.wf(),
        x4.has_ceiling(n),
        n >= 1,
        len >= 0,
    ensures
        holds_table(len, x4) == (len >= n),
{
    if len < n {
        lemma_exceeds_downward(x4, len, n - 1);
    } else if x4.exceeds(len) {
        lemma_exceeds_downward(x4, n, len);
    }
}

/// Checks the inputs of a run of `model` before it starts. On success it
/// returns the table lengths of the unit hydrographs, for the models that
/// have them.
pub fn check_inputs(model: Model, shape: &InputShape) -> (r: Result<
    Option<HydrographSizes>,
    InputError,
>)
    ensures
        match r {
            Err(e) => spec_input_error(model, *shape) == Some(e),
            Ok(sizes) => {
                &&& spec_input_error(model, *shape) is None
                &&& match sizes {
                    Some(s) => spec_uses_second_hydrograph(model) && sizes_of(
                        time_base_of_bits(shape.time_base_bits),
                        s,
                    ),
                    None => !spec_uses_second_hydrograph(model),
                }
            },
        },
{
    if shape.parameter_count != model.parameter_count() {
        return Err(InputError::InvalidParameterCount);
    }
    if shape.rainfall_len != shape.evapotranspiration_len {
        return Err(InputError::LengthMismatch);
    }
    if shape.state_len != model.state_count() {
        return Err(InputError::InvalidStateSize);
    }
    if !model.uses_second_hydrograph() {
        return Ok(None);
    }
    let x4 = match TimeBase::from_bits(shape.time_base_bits) {
        Some(x4) => x4,
        None => {
            return Err(InputError::InvalidTimeBase);
        },
    };
    let sizes = match hydrograph_sizes(&x4) {
        Some(sizes) => sizes,
        None => {
            proof {
                if !x4.spec_doubled().exceeds(shape.second_buffer_len as int) {
                    lemma_exceeds_downward(
                        x4.spec_doubled(),
                        shape.second_buffer_len as int,
                        usize::MAX as int,
                    );
                }
            }
            return Err(InputError::InvalidBufferSize);
        },
    };
    proof {
        lemma_holds_table_iff(x4, sizes.first as int, shape.first_buffer_len as int);
        lemma_holds_table_iff(
            x4.spec_doubled(),
            sizes.second as int,
            shape.second_buffer_len as int,
        );
    }
    if (model.uses_first_hydrograph() && shape.first_buffer_len < sizes.first)
        || shape.second_buffer_len < sizes.second {
        return Err(InputError::InvalidBufferSize);
    }
    Ok(Some(sizes))
}

} // verus!
