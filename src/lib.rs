pub mod technology;
pub mod tree;
pub mod path;
pub mod codec;
pub mod outline;
