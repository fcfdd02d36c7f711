use vstd::prelude::*;

pub mod app;

pub mod config;
pub mod context;
pub mod controller;
pub mod discover;
pub mod git;
pub mod herdr;
pub mod host;
pub mod input;
pub mod intent;
pub mod launch;
pub mod layout;
pub mod model;
pub mod path;
pub mod poller;
pub mod porcelain;
pub mod presenter;
pub mod render;
pub mod repo_kind;
pub mod text;
pub mod theme;
pub mod tree;

verus! {

} // verus!
