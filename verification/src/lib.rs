use vstd::prelude::*;

pub mod common;
pub mod monotone;
pub mod idx;
pub mod union_find;
pub mod graph;
pub mod tree;
pub mod parity;
pub mod timeout;
pub mod iter;
pub mod contraction;
pub mod diagram;
pub mod scaffold;
pub mod manifold;
pub mod labelled;
pub mod projection;
pub mod util;
pub mod graphic2d;
pub mod cubicalisation;
pub mod normalization;
pub mod typecheck;
pub mod antipushout;
pub mod rewrite;
pub mod label;
pub mod explosion;
pub mod expansion;
