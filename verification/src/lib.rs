//! The rules of the rift game world that do not depend on an engine: the walkability grid and
//! its path search, map tile bookkeeping, actor animation cues, the embedded asset table, the
//! wire vocabulary, and the website's sign-in helpers.

pub mod actors;
pub mod ai;
pub mod auth;
pub mod assets;
pub mod client;
pub mod compass;
pub mod content;
pub mod explore;
pub mod groups;
pub mod identity;
pub mod movement;
pub mod nav;
pub mod properties;
pub mod protocol;
pub mod site;
pub mod terminal;
pub mod text;
pub mod tilemap;
pub mod tiles;
pub mod visibility;
pub mod web;
