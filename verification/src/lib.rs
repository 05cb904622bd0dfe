pub mod codec;
pub mod ecc;
pub mod encode;
pub mod grid;
pub mod mask;
pub mod render;
pub mod tables;
pub mod types;
