pub mod app;
pub mod game_objects;
pub mod physics;
pub mod profiler;
pub mod render;
pub mod input;
pub mod models;
