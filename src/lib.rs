pub mod actions;
pub mod card;
pub mod event;
pub mod logic;
pub mod players;
pub mod session;
pub mod laws;
