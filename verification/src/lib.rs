//! Decision logic of a meta package manager.

pub mod adapters;
pub mod cli;
pub mod context;
pub mod coverage;
pub mod engine;
pub mod error;
pub mod execution;
pub mod host;
pub mod json;
pub mod matching;
pub mod model;
pub mod normalize;
pub mod order;
pub mod path;
pub mod planner;
pub mod platform;
pub mod process;
pub mod selection;
pub mod survey;
pub mod text;
pub mod ui;
