use vstd::prelude::*;

use crate::calendar::{parse_start, start_of};
use crate::duration::seconds_of;
use crate::phases::{PhaseInstance, PhaseInstanceSpec};

verus! {

/// A recipe as it is described: its phases in the order they run, and an optional start
/// text that falls back to the timeline's start.
#[derive(Clone, Debug)]
pub struct RecipeSpec {
    pub name: String,
    pub color_hex: String,
    pub start_string: Option<String>,
    pub phase_specs: Vec<PhaseInstanceSpec>,
}

impl RecipeSpec {
    /// The start that the recipe's own start text names, in seconds, if it has a readable
    /// one.
    pub fn start_date(&self) -> (r: Option<i64>)
        ensures
            seconds_of(r) == match self.start_string {
                Some(s) => start_of(s@),
                None => None,
            },
    {
        match &self.start_string {
            Some(s) => parse_start(s.as_str()),
            None => None,
        }
    }
}

/// A scheduled recipe: its phases in the order they run.
#[derive(Clone, Debug)]
pub struct Recipe {
    pub id: usize,
    pub name: String,
    pub color: String,
    pub start_date: i64,
    pub phases: Vec<PhaseInstance>,
}

} // verus!
