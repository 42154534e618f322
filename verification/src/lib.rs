pub mod text;
pub mod bridge;
pub mod pbn;
pub mod commands;
