pub mod discovery;
pub mod install;
pub mod store;
pub mod catalog;
pub mod codec;
pub mod merge;
pub mod models;
pub mod text;
