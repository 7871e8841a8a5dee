//! Learning from face feedback: events, identity-balanced sampling, profile
//! and question rules.

pub mod events;
pub mod evidence;
pub mod features;
pub mod held_out;
pub mod metrics;
pub mod model;
pub mod profile;
pub mod promotion;
pub mod questions;
pub mod sampling;
pub mod training;
pub mod evaluation_order;
