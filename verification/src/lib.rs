pub mod app;
pub mod chunking;
pub mod cli;
pub mod clusters;
pub mod config;
pub mod domain;
pub mod factory;
pub mod git;
pub mod globs;
pub mod init;
pub mod likeness;
pub mod links;
pub mod lists;
pub mod logging;
pub mod mcp;
pub mod ranking;
pub mod score;
pub mod search;
pub mod service;
pub mod text;
pub mod vectordbs;
pub mod worker;
