//! The combinatorial core of a brick assembly engine.
//!
//! Parts carry connectors (snap studs and anti-studs, clips and bars). Placing
//! parts into a model links connectors together; querying the model plans
//! candidate placements and filters them. Everything geometric (positions,
//! rotations, bounding boxes) is measured elsewhere and handed to this crate
//! as plain facts; this crate owns the rules that decide what is linked, which
//! candidates exist, in which order, and which of them survive.
pub mod connectors;
pub mod engine;
pub mod candidates;
pub mod filter;
pub mod link_order;
