pub mod atk;
pub mod bio;
pub mod bio_hear;
pub mod bfs;
pub mod bio_order;
pub mod gene;
pub mod letters;
pub mod mech;
pub mod pathfind;
pub mod pool;
pub mod species;
