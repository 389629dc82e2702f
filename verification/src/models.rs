pub mod mesh;
pub mod traits;
