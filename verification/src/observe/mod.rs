pub mod logger;
pub mod pic;
pub mod plate;
pub mod species;
pub mod stats;
