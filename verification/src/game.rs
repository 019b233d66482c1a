//! A small two-player simulation to drive with the netcode client: each
//! player moves along one axis.

use crate::netcode::{InputSet, RollbackableGameState};
use vstd::prelude::*;

verus! {

/// A player's position.
#[derive(Clone, Copy, Debug)]
pub struct Player {
    pub x: i32,
}

/// The positions of both players.
#[derive(Clone, Copy, Debug)]
pub struct GameState {
    pub p1: Player,
    pub p2: Player,
}

/// What a player does on one frame: move right (positive), move left
/// (negative) or stay.
#[derive(Clone, Copy, Debug)]
pub struct GameInput {
    pub x_axis: i32,
}

impl PartialEq for GameInput {
    fn eq(&self, other: &Self) -> (r: bool) {
        self.x_axis == other.x_axis
    }
}

impl vstd::std_specs::cmp::PartialEqSpecImpl for GameInput {
    open spec fn obeys_eq_spec() -> bool {
        true
    }

    open spec fn eq_spec(&self, other: &Self) -> bool {
        self.x_axis == other.x_axis
    }
}

impl Default for GameInput {
    fn default() -> (r: Self)
        ensures
            r.x_axis == 0,
    {
        Self { x_axis: 0 }
    }
}

/// What the simulation reads of a player on one frame.
pub type PlayerInputHistory = GameInput;

/// How far a player moves on one frame.
pub const STEP: i32 = 4;

/// The position `x` after a frame on the input `x_axis`. Positions wrap at
/// the ends of the axis.
pub open spec fn moved(x: i32, x_axis: i32) -> i32 {
    if x_axis > 0 {
        x.wrapping_add(STEP)
    } else if x_axis < 0 {
        x.wrapping_sub(STEP)
    } else {
        x
    }
}

impl GameState {
    /// The state after a frame on the inputs of both players.
    pub open spec fn after(self, p1: GameInput, p2: GameInput) -> GameState {
        GameState {
            p1: Player { x: moved(self.p1.x, p1.x_axis) },
            p2: Player { x: moved(self.p2.x, p2.x_axis) },
        }
    }

    /// The players at their starting positions, 100 to the left and to the
    /// right of the middle.
    pub fn new() -> (s: Self)
        ensures
            s.p1.x == -100,
            s.p2.x == 100,
    {
        Self { p1: Player { x: -100 }, p2: Player { x: 100 } }
    }

    /// Moves each player by its input.
    pub fn update(&mut self, p1: &PlayerInputHistory, p2: &PlayerInputHistory)
        ensures
            *final(self) == old(self).after(*p1, *p2),
    {
        if p1.x_axis > 0 {
            self.p1.x = self.p1.x.wrapping_add(STEP);
        } else if p1.x_axis < 0 {
            self.p1.x = self.p1.x.wrapping_sub(STEP);
        }
        if p2.x_axis > 0 {
            self.p2.x = self.p2.x.wrapping_add(STEP);
        } else if p2.x_axis < 0 {
            self.p2.x = self.p2.x.wrapping_sub(STEP);
        }
    }
}

impl RollbackableGameState for GameState {
    type Input = GameInput;

    type SavedState = GameState;

    /// Each player moves by its input for the frame, the last of its slice.
    /// A frame without an input of both players leaves the state as it is.
    open spec fn advanced(&self, inputs: Seq<Seq<GameInput>>) -> Self {
        if inputs.len() >= 2 && inputs[0].len() > 0 && inputs[1].len() > 0 {
            self.after(inputs[0].last(), inputs[1].last())
        } else {
            *self
        }
    }

    open spec fn saved(&self) -> GameState {
        *self
    }

    open spec fn loaded(load: GameState) -> Self {
        load
    }

    proof fn lemma_load_saved(&self) {
    }

    fn advance_frame(&mut self, input: InputSet<'_, GameInput>) {
        if input.inputs.len() >= 2 {
            let first = input.inputs[0];
            let second = input.inputs[1];
            if first.len() > 0 && second.len() > 0 {
                self.update(&first[first.len() - 1], &second[second.len() - 1]);
            }
        }
    }

    fn save_state(&self) -> GameState {
        *self
    }

    fn load_state(&mut self, load: GameState) {
        *self = load;
    }
}

} // verus!
