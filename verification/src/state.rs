//! Session-level game states and the game-over signal.

use vstd::prelude::*;

verus! {

/// The top-level states a play session moves through.
#[derive(Clone, Copy, Hash, PartialEq, Eq, Structural, Debug)]
pub enum GameState {
    MainMenu,
    Pause,
    Editor,
    /// The game is running.
    Playing,
    TimeUp,
    /// Restart menu after a game over.
    GameComplete,
}

/// Event that ends a play session.
#[derive(Debug)]
pub struct GameOver(pub EndReason);

/// What triggered the game over.
#[derive(Clone, Copy, Debug, PartialEq, Eq, Structural)]
pub enum EndReason {
    Victory,
    Loss,
}

} // verus!
