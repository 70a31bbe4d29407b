//! Dialogue databases and the rules that play them: conversations of
//! entries joined by links, stepped one line or menu at a time.

pub mod data;
pub mod first;
pub mod step;
pub mod validate;
pub mod assoc;
pub mod variables;
pub mod visits;
pub mod persist;
pub mod runner;
pub mod dialogue_line;
pub mod action;
pub mod errors;
pub mod dialogue;
pub mod graph;
pub mod conversation;
pub mod repo;
pub mod local;
pub mod display;
pub mod actors;
pub mod talk_data;
pub mod script_map;
pub mod builder;
pub mod raw_talk;
pub mod talk_graph;
