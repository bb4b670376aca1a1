pub mod char_map;
pub mod generator;
pub mod geometry;
pub mod laws;
pub mod layout;

pub use generator::{generate_crossword, Comparator, CrosswordGenerator, GeneratorMode, UltimateComparator};
pub use geometry::{Orientation, XY};
pub use layout::{Layout, WordPosition};
