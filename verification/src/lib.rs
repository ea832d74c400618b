//! Core rules of a grid world in which plants grow, fire spreads and
//! creatures wander, eat, breed and fight.

pub mod grids;
pub mod types;
pub mod element;
pub mod messages;
pub mod text;
pub mod conf;
pub mod gnd;
pub mod mob;
pub mod refs;
pub mod random;
pub mod weighted;
pub mod observe;
pub mod plate;
pub mod cosmos;
pub mod deamon;
pub mod ripper;
pub mod online;
pub mod conencode;
pub mod gen;
pub mod tick;
pub mod mail;
pub mod singletons;
