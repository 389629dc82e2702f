pub mod collider;
