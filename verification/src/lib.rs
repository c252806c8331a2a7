pub mod text;
pub mod grid;
pub mod state;
pub mod frontier;
pub mod engine;
pub mod race;
pub mod games;
pub mod scratchcards;
pub mod scratch_scores;
pub mod sequences;
pub mod camel;
pub mod network;
pub mod multi_network;
pub mod calibration;
pub mod calibration_words;
pub mod springs;
pub mod lens;
pub mod almanac;
pub mod seed_location;
pub mod seed_location_ranges;
pub mod lens_boxes;
pub mod schematic;
pub mod mirrors;
pub mod mirrors_smudged;
pub mod tiles;
