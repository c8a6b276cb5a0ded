//! A small development server's logic: what to serve for a request, and the
//! text of everything it writes back.

pub mod banner;
pub mod cli;
pub mod compress;
pub mod config;
pub mod file;
pub mod logging;
pub mod markdown;
pub mod pages;
pub mod path;
pub mod qvalue;
pub mod serve;
pub mod startup;
pub mod style;
pub mod text;
