use vstd::prelude::*;

verus! {

/// Whether the interactive driver is advancing the simulation.
#[allow(non_camel_case_types)]
#[derive(Debug, Clone, Copy, PartialEq, Eq, Structural)]
pub enum PlayState {
    play,
    paused,
}

impl PlayState {
    /// Toggles between playing and paused.
    pub fn swap(&self) -> (r: PlayState)
        ensures
            *self == PlayState::play ==> r == PlayState::paused,
            *self == PlayState::paused ==> r == PlayState::play,
    {
        match self {
            PlayState::play => PlayState::paused,
            PlayState::paused => PlayState::play,
        }
    }
}

} // verus!

verus! {

/// The one way building a simulation can fail: a vision radius that is not
/// positive or exceeds the domain, or a time step that is not positive.
#[derive(Debug, Clone, Copy, PartialEq, Eq, Structural)]
pub enum SimError {
    InvalidConfiguration,
}

} // verus!

verus! {

/// How the initial population is laid out.
#[derive(Debug, Clone, Copy, PartialEq, Eq, Structural)]
pub enum IC {
    Random,
    School,
}

/// The boundary policy of the domain; `R` is the type of the soft band's
/// width.
#[derive(Debug)]
pub enum BC<R> {
    Soft(R),
    Periodic,
    Hard,
}

impl<R> BC<R> {
    /// Cycles Soft, then Periodic, then Hard, then Soft again with the band
    /// width `soft_range`.
    pub fn swap(&self, soft_range: R) -> (r: BC<R>)
        ensures
            self is Soft ==> r is Periodic,
            self is Periodic ==> r is Hard,
            self is Hard ==> r == BC::Soft(soft_range),
    {
        match self {
            BC::Soft(_) => BC::Periodic,
            BC::Periodic => BC::Hard,
            BC::Hard => BC::Soft(soft_range),
        }
    }
}

/// Prey coefficients as typed into the parameter editor.
pub struct GUIPreyParams {
    pub current_direction: String,
    pub prey_alignment: String,
    pub prey_attraction: String,
    pub prey_repulsion: String,
    pub predator_alignment: String,
    pub predator_centering: String,
    pub predator_repulsion: String,
    pub boundary: String,
}

/// Predator coefficients as typed into the parameter editor.
pub struct GUIPredParams {
    pub current_direction: String,
    pub prey_alignment: String,
    pub prey_attraction: String,
    pub nearest_prey: String,
    pub predator_alignment: String,
    pub predator_centering: String,
    pub predator_repulsion: String,
    pub boundary: String,
}

/// Everything the parameter editor shows.
pub struct GUIParameters {
    pub bound_length: String,
    pub vision_radius: String,
    pub prey_params: GUIPreyParams,
    pub pred_params: GUIPredParams,
}

impl GUIPreyParams {
    /// The editor's starting prey values.
    pub fn new() -> (r: GUIPreyParams)
        ensures
            r.current_direction@ == "0"@,
            r.prey_alignment@ == "1"@,
            r.prey_attraction@ == "0"@,
            r.prey_repulsion@ == "0"@,
            r.predator_alignment@ == "0"@,
            r.predator_centering@ == "10"@,
            r.predator_repulsion@ == "1.0"@,
            r.boundary@ == "20"@,
    {
        GUIPreyParams {
            current_direction: "0".to_owned(),
            prey_alignment: "1".to_owned(),
            prey_attraction: "0".to_owned(),
            prey_repulsion: "0".to_owned(),
            predator_alignment: "0".to_owned(),
            predator_centering: "10".to_owned(),
            predator_repulsion: "1.0".to_owned(),
            boundary: "20".to_owned(),
        }
    }
}

impl GUIPredParams {
    /// The editor's starting predator values.
    pub fn new() -> (r: GUIPredParams)
        ensures
            r.current_direction@ == "0"@,
            r.prey_alignment@ == "0"@,
            r.prey_attraction@ == "0"@,
            r.nearest_prey@ == "1"@,
            r.predator_alignment@ == "0"@,
            r.predator_centering@ == "0"@,
            r.predator_repulsion@ == "0"@,
            r.boundary@ == "10"@,
    {
        GUIPredParams {
            current_direction: "0".to_owned(),
            prey_alignment: "0".to_owned(),
            prey_attraction: "0".to_owned(),
            nearest_prey: "1".to_owned(),
            predator_alignment: "0".to_owned(),
            predator_centering: "0".to_owned(),
            predator_repulsion: "0".to_owned(),
            boundary: "10".to_owned(),
        }
    }
}

impl GUIParameters {
    /// The editor's starting values: a domain of side 10 and prey vision 1.
    pub fn new() -> (r: GUIParameters)
        ensures
            r.bound_length@ == "10"@,
            r.vision_radius@ == "1"@,
            r.prey_params.prey_alignment@ == "1"@,
            r.prey_params.predator_centering@ == "10"@,
            r.prey_params.boundary@ == "20"@,
            r.pred_params.nearest_prey@ == "1"@,
            r.pred_params.boundary@ == "10"@,
    {
        GUIParameters {
            bound_length: "10".to_owned(),
            vision_radius: "1".to_owned(),
            prey_params: GUIPreyParams::new(),
            pred_params: GUIPredParams::new(),
        }
    }
}

} // verus!
