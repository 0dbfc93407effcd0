//! The logic of a Stream Deck controller: profiles, pages and the action
//! instances on them, plugin manifests, marketplace links, and the routing of
//! device events, each with a contract that Verus checks.
pub mod animation;
pub mod audio;
pub mod catalogue;
pub mod deck;
pub mod disk;
pub mod encoder;
pub mod icon_packs;
pub mod inbound;
pub mod install;
pub mod install_run;
pub mod instances;
pub mod json;
pub mod keypad;
pub mod label;
pub mod local_plugins;
pub mod manifest;
pub mod manifest_text;
pub mod marketplace;
pub mod migration;
pub mod options_schema;
pub mod pages;
pub mod path;
pub mod picture;
pub mod plugins;
pub mod processes;
pub mod profiles;
pub mod queue;
pub mod relocate;
pub mod screens;
pub mod shared;
pub mod stores;
pub mod text;
pub mod ui;
pub mod webserver;
pub mod webview;
