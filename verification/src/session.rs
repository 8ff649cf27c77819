//! The build session's state: a build runs as an independent unit of work and
//! reports its result back exactly once; the most recently delivered result
//! wins.
use vstd::prelude::*;

use crate::builder::{Spritesheet, SpritesheetError};

verus! {

/// Where the session's spritesheet stands: nothing built yet, a build in
/// flight, or a finished sheet.
pub enum SpriteSheetState {
    Empty,
    Building,
    Finished(Spritesheet),
}

impl SpriteSheetState {
    /// A finished sheet is present.
    pub fn is_ok(&self) -> (r: bool)
        ensures
            r == (self is Finished),
    {
        matches!(self, SpriteSheetState::Finished(_))
    }

    /// Nothing was built and nothing is in flight.
    pub fn is_none(&self) -> (r: bool)
        ensures
            r == (self is Empty),
    {
        matches!(self, SpriteSheetState::Empty)
    }

    /// A build is in flight.
    pub fn is_building(&self) -> (r: bool)
        ensures
            r == (self is Building),
    {
        matches!(self, SpriteSheetState::Building)
    }

    /// Starting a build: whatever stood before, the session is now building.
    pub fn start_build(&mut self)
        ensures
            *final(self) is Building,
    {
        *self = SpriteSheetState::Building;
    }

    /// Delivering a build's result: a success replaces the state with the
    /// sheet, a failure leaves the state empty and hands the error back for
    /// the caller to surface. The delivered result always wins over the
    /// previous state.
    pub fn deliver(&mut self, result: Result<Spritesheet, SpritesheetError>) -> (r: Option<
        SpritesheetError,
    >)
        ensures
            result is Ok ==> *final(self) is Finished && (*final(self))->Finished_0 == result->Ok_0
                && r is None,
            result is Err ==> *final(self) is Empty && r == Some(result->Err_0),
    {
        match result {
            Ok(sheet) => {
                *self = SpriteSheetState::Finished(sheet);
                None
            },
            Err(e) => {
                *self = SpriteSheetState::Empty;
                Some(e)
            },
        }
    }
}

} // verus!
