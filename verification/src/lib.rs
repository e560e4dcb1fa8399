//! Verified core of the Agent Kitten Discord bot: configuration paths over
//! JSON documents, message chunking, leveling arithmetic and the decisions
//! that the bot's commands and event handlers make.

pub mod chunking;
pub mod commands;
pub mod config;
pub mod database;
pub mod events;
pub mod json;
pub mod json_text;
pub mod leveling;
pub mod music;
pub mod status;
pub mod text;
pub mod textgen;
