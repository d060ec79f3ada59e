//! An adjudicator for the board game Diplomacy.
//!
//! Given a map, the units of the great powers on it and the orders that the
//! powers have submitted for a movement phase, the library decides which orders
//! succeed, moves the units, and tells which units are dislodged. Around that
//! it keeps the phases of a game year: movement, retreats, builds.
//!
//! The heart of the library is the resolver in [`adjudicate`]. What it computes
//! is written down as mathematical functions in [`model`]; the executable code
//! is proved to compute exactly those. [`laws`], [`conservation`] and
//! [`invariants`] hold what is proved of every game.
//!
//! A game is a [`Stpsyr`]. [`Stpsyr::new`] reads the map, [`Stpsyr::add_order`]
//! or [`Stpsyr::parse`] submit orders, [`Stpsyr::apply`] ends the phase.

pub mod adjudicate;
pub mod adjusts;
pub mod apply;
pub mod board;
pub mod conservation;
pub mod convert;
pub mod describe;
pub mod equality;
pub mod invariants;
pub mod laws;
pub mod mapfile;
pub mod model;
pub mod orders;
pub mod parse;
pub mod paths;
pub mod phase;
pub mod progress;
pub mod retreats;
pub mod select;
pub mod text;
pub mod turn;
pub mod types;

pub use mapfile::MapError;
pub use model::AdjudicationError;
pub use select::Pick;
pub use types::{
    Action, Adjust, AdjustAction, MapRegion, Order, OrderState, Phase, Power, Province,
    Retreat, RetreatAction, Stpsyr, Unit, UnitType,
};
