//! InSearch: the verified core of a content-aware file search tool.
pub mod cli;
pub mod context_menu;
pub mod docx;
pub mod extract;
pub mod filter;
pub mod matcher;
pub mod model;
pub mod output;
pub mod pattern;
pub mod query;
pub mod renderer;
pub mod scan;
pub mod search;
pub mod session;
pub mod split;
pub mod strings;
pub mod text;
pub mod timestamp;
pub mod ui;
pub mod update;
pub mod watch;
