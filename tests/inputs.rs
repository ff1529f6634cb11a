use hydrogr::hydrograph::HydrographSizes;
use hydrogr::inputs::{check_inputs, InputError, InputShape};
use hydrogr::model::Model;

fn shape(parameter_count: usize, x4: f64, n: usize, state_len: usize, uh1: usize, uh2: usize) -> InputShape {
    InputShape {
        parameter_count,
        time_base_bits: x4.to_bits(),
        rainfall_len: n,
        evapotranspiration_len: n,
        state_len,
        first_buffer_len: uh1,
        second_buffer_len: uh2,
    }
}

#[test]
fn model_shapes() {
    let expected = [
        (Model::Gr1a, 1, 0, false, false),
        (Model::Gr2m, 2, 2, false, false),
        (Model::Gr4h, 4, 2, true, true),
        (Model::Gr4j, 4, 2, true, true),
        (Model::Gr5j, 5, 2, false, true),
        (Model::Gr6j, 6, 3, true, true),
    ];
    for (model, params, states, first, second) in expected {
        assert_eq!(model.parameter_count(), params);
        assert_eq!(model.state_count(), states);
        assert_eq!(model.uses_first_hydrograph(), first);
        assert_eq!(model.uses_second_hydrograph(), second);
    }
}

#[test]
fn hourly_fixture_inputs_are_accepted() {
    let r = check_inputs(Model::Gr4h, &shape(4, 2.0, 10, 2, 20, 40));
    assert_eq!(r, Ok(Some(HydrographSizes { first: 2, second: 4 })));
}

#[test]
fn daily_fixture_inputs_are_accepted() {
    let r = check_inputs(Model::Gr4j, &shape(4, 2.208, 370, 2, 3, 5));
    assert_eq!(r, Ok(Some(HydrographSizes { first: 3, second: 5 })));
}

#[test]
fn models_without_hydrographs_ignore_time_base() {
    assert_eq!(check_inputs(Model::Gr1a, &shape(1, 0.0, 5, 0, 0, 0)), Ok(None));
    assert_eq!(check_inputs(Model::Gr2m, &shape(2, f64::NAN, 5, 2, 0, 0)), Ok(None));
}

#[test]
fn gr5j_ignores_first_buffer() {
    let r = check_inputs(Model::Gr5j, &shape(5, 2.5, 4, 2, 0, 5));
    assert_eq!(r, Ok(Some(HydrographSizes { first: 3, second: 5 })));
}

#[test]
fn wrong_parameter_count_is_refused() {
    let r = check_inputs(Model::Gr4j, &shape(3, 2.0, 10, 2, 2, 4));
    assert_eq!(r, Err(InputError::InvalidParameterCount));
    let r = check_inputs(Model::Gr6j, &shape(5, 2.0, 10, 3, 2, 4));
    assert_eq!(r, Err(InputError::InvalidParameterCount));
}

#[test]
fn series_of_different_lengths_are_refused() {
    let mut s = shape(4, 2.0, 10, 2, 2, 4);
    s.evapotranspiration_len = 9;
    assert_eq!(check_inputs(Model::Gr4j, &s), Err(InputError::LengthMismatch));
}

#[test]
fn wrong_state_length_is_refused() {
    let r = check_inputs(Model::Gr6j, &shape(6, 2.0, 10, 2, 2, 4));
    assert_eq!(r, Err(InputError::InvalidStateSize));
}

#[test]
fn non_positive_time_base_is_refused() {
    for x4 in [0.0, -1.0, f64::INFINITY, f64::NAN] {
        let r = check_inputs(Model::Gr4j, &shape(4, x4, 10, 2, 2, 4));
        assert_eq!(r, Err(InputError::InvalidTimeBase));
    }
}

#[test]
fn short_buffers_are_refused() {
    let r = check_inputs(Model::Gr4j, &shape(4, 2.208, 10, 2, 2, 5));
    assert_eq!(r, Err(InputError::InvalidBufferSize));
    let r = check_inputs(Model::Gr4j, &shape(4, 2.208, 10, 2, 3, 4));
    assert_eq!(r, Err(InputError::InvalidBufferSize));
    let r = check_inputs(Model::Gr4j, &shape(4, 1e300, 10, 2, 3, 4));
    assert_eq!(r, Err(InputError::InvalidBufferSize));
}

#[test]
fn errors_come_in_order() {
    let mut s = shape(3, -1.0, 10, 7, 0, 0);
    s.evapotranspiration_len = 1;
    assert_eq!(check_inputs(Model::Gr4j, &s), Err(InputError::InvalidParameterCount));
    s.parameter_count = 4;
    assert_eq!(check_inputs(Model::Gr4j, &s), Err(InputError::LengthMismatch));
    s.evapotranspiration_len = 10;
    assert_eq!(check_inputs(Model::Gr4j, &s), Err(InputError::InvalidStateSize));
    s.state_len = 2;
    assert_eq!(check_inputs(Model::Gr4j, &s), Err(InputError::InvalidTimeBase));
    s.time_base_bits = 2.0f64.to_bits();
    assert_eq!(check_inputs(Model::Gr4j, &s), Err(InputError::InvalidBufferSize));
}
