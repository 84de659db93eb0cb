pub mod cell;
pub mod coord;
pub mod graph;
pub mod gridmap;
pub mod table;
pub mod ui;
pub mod updater;
pub mod value;
