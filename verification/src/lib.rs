pub mod order;
pub mod text;
pub mod tree;
pub mod window;

