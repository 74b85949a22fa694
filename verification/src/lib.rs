//! Core rules of a two-player spaceship battle game: crew navigation over a ship's nav mesh,
//! breadth-first path planning, reactor power distribution between ship systems, weapon charging
//! and firing, shield recovery, combat damage, doors, intel, the lobby, and how a player's
//! pointer presses and keys turn into weapon targeting and orders.

pub mod reactor;
pub mod nav;
pub mod systems;
pub mod engines;
pub mod shields;
pub mod weapon;
pub mod weapons;
pub mod pathing;
pub mod ship;
pub mod ship_systems;
pub mod crew;
pub mod doors;
pub mod ship_state;
pub mod combat;
pub mod intel;
pub mod lobby;
pub mod targeting;
pub mod controls;
