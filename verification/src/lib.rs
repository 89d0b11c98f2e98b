pub mod app;
pub mod cli;
pub mod convert;
pub mod external;
pub mod model;
pub mod repository;
pub mod text;
pub mod toon_patch;
pub mod ui;
