pub mod decimal;
pub mod listing;
pub mod pipeline;
pub mod records;
pub mod report;
pub mod scan;
pub mod segment;
pub mod stats;
pub mod summary;
pub mod table;
