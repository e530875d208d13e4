pub mod auth;
pub mod cards;
pub mod cycle;
pub mod messages;
pub mod player;
pub mod pmap;
pub mod game;
pub mod manager;
