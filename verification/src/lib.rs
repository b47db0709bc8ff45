pub mod arena;
pub mod walk;
pub mod layout;
pub mod events;
pub mod shell;
pub mod laws;
