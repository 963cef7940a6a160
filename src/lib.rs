//! Rendezvous broker between chess analysis requesters and external engine
//! providers: domain model, UCI output parser, progress aggregation, the
//! per-selector job hub and the table of handed-out jobs.

pub mod model;
pub mod token;
pub mod chess;
pub mod uci;
pub mod render;
pub mod emit;
pub mod ids;
pub mod hub;
pub mod ongoing;
pub mod work;
pub mod round_trip;
