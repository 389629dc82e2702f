pub mod resource_manager;
pub mod render_loop;
pub mod texture;
pub mod mesh_cache;
