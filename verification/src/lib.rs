pub mod backend;
pub mod codec;
pub mod json;
pub mod order;
pub mod providers;
pub mod text;
