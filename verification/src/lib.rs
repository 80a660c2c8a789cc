//! A solitaire rule engine: a shared card and draw-pile model together with
//! the move-legality and win-condition logic of two variants, Aces Up and
//! Klondike. The engine performs no input or output; a presentation layer
//! drives it through the operations exposed here and renders the state it
//! queries.

pub mod aces_up;
pub mod deck;
pub mod game;
pub mod klondike;
