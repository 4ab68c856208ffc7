pub mod analysis;
pub mod cycles;
pub mod dependencies;
pub mod graph;
pub mod import_graph;
pub mod imports;
pub mod names;
pub mod paths;
pub mod report;
pub mod resolve;
pub mod rotation;
pub mod scan;
pub mod search;
pub mod text;
