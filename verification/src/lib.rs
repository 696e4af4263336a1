//! Lumière: the rules of a daemon that drives Neewer Bluetooth lights.

pub mod access;
pub mod anim;
pub mod animation;
pub mod api;
pub mod args;
pub mod brightness;
pub mod caps;
pub mod client;
pub mod controls;
pub mod convert;
pub mod events;
pub mod fade;
pub mod format;
pub mod id;
pub mod idmap;
pub mod library;
pub mod light;
pub mod mode;
pub mod models;
pub mod order;
pub mod panels;
pub mod platform;
pub mod playback;
pub mod player;
pub mod preset;
pub mod probe;
pub mod registry;
pub mod roles;
pub mod rounding;
pub mod scan;
pub mod selector;
pub mod session;
pub mod sim;
pub mod slug;
pub mod state;
pub mod store;
pub mod text;
pub mod tickets;
pub mod transport;
pub mod web;
pub mod wire;
pub mod world;
