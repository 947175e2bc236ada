use vstd::prelude::*;
use crate::game::moska::PlayerAction;

verus! {

/// One request for the action dispatch surface: an action kind and the
/// hand or zone position it applies to.
#[derive(Clone, Copy, PartialEq, Eq, Structural, Debug)]
pub struct Action {
    pub action: PlayerAction,
    pub card_index: usize,
}

/// The identity a bot plays under: the seat it acts for. The action
/// selection itself consumes the engine's public state and dispatch
/// surface and lives with the host layer.
pub struct MoskaAI {
    player_index: usize,
}

impl View for MoskaAI {
    type V = usize;

    closed spec fn view(&self) -> usize {
        self.player_index
    }
}

impl MoskaAI {
    pub fn new(player_index: usize) -> (b: Self)
        ensures
            b@ == player_index,
    {
        Self { player_index }
    }

    /// The seat this bot acts for.
    pub fn player_index(&self) -> (r: usize)
        ensures
            r == self@,
    {
        self.player_index
    }
}

} // verus!
