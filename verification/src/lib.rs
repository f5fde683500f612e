//! Installs, replaces and removes game mods: the decisions behind the `chef`
//! command line, stated as contracts and proved.

pub mod add;
pub mod again;
pub mod agreement;
pub mod archive;
pub mod assets;
pub mod catalog;
pub mod check;
pub mod commands;
pub mod deploy;
pub mod digest;
pub mod download;
pub mod emit;
pub mod error;
pub mod fetch;
pub mod identify;
pub mod json;
pub mod layout;
pub mod lock;
pub mod menu;
pub mod names;
pub mod offers;
pub mod order;
pub mod plan;
pub mod prune;
pub mod remove;
pub mod resolution;
pub mod restoring;
pub mod session;
pub mod state;
pub mod strmap;
pub mod target;
pub mod text;
pub mod undo;
pub mod update;
pub mod upgrade;
pub mod version;
pub mod which;
