//! The rules of a small multiplayer asteroids game.
pub mod battle;
pub mod battle_laws;
pub mod client;
pub mod client_laws;
pub mod controller;
pub mod double;
pub mod entity;
pub mod field_laws;
pub mod graveyard;
pub mod history;
pub mod hit_laws;
pub mod hits;
pub mod ids;
pub mod interpolation;
pub mod lists;
pub mod lobby;
pub mod lobby_laws;
pub mod motion;
pub mod nonce;
pub mod option_laws;
pub mod options;
pub mod order_laws;
pub mod pace;
pub mod packets;
pub mod report;
pub mod retain;
pub mod server_laws;
pub mod spawn;
pub mod steering;
pub mod teams;
pub mod tick;
pub mod tool_laws;
pub mod transport;
pub mod unzip;
pub mod world;
