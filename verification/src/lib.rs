//! The logic of a desktop manager for Subversion working copies: command lines and their
//! replies, commit planning, history search, statistics and the state behind every page.

pub mod auth;
pub mod charts;
pub mod client;
pub mod commit;
pub mod compare;
pub mod config;
pub mod date;
pub mod dialogs;
pub mod diff;
pub mod header;
pub mod history;
pub mod home;
pub mod icon;
pub mod jobs;
pub mod locate;
pub mod menu;
pub mod model;
pub mod order;
pub mod pages;
pub mod paint;
pub mod path;
pub mod refresh;
pub mod replies;
pub mod results;
pub mod search;
pub mod settings;
pub mod state;
pub mod stats;
pub mod stats_page;
pub mod stream;
pub mod svn;
pub mod tasks;
pub mod text;
pub mod updates;
pub mod upload;
pub mod windows;
pub mod work;
pub mod xml;
