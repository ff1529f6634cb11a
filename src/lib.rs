//! Integer side of the GR family of rainfall-runoff models: the shape of
//! each model, the checks on its inputs, the time base of its unit
//! hydrographs and the segments of its S-curves.

pub mod hydrograph;
pub mod inputs;
pub mod model;
pub mod time_base;
