//! Sweeping a cloud storage hierarchy for grants that break a sharing policy.
//!
//! The crate holds the decisions of such a sweep and none of its I/O. A caller
//! owns the connection to the storage service: it asks the
//! [`traversal::Traversal`] which call to make next, makes it, and hands the
//! answer back as a [`service::Event`]. Every decision (which folder to list,
//! which resource to inspect, which permission to delete, what to record as a
//! failure) is taken here, and each is proved to follow the state machine that
//! the modules spell out as mathematical functions.
//!
//! - [`model`], [`policy`] and [`service`] hold the data: resources,
//!   permissions, the policies, and the calls and answers of the service.
//! - [`lister`] and [`sanitizer`] are the two small machines: the paged
//!   listing of a folder, and the inspection of one resource.
//! - [`traversal`] is the walk that drives them over the hierarchy.
//! - [`world`] models a storage service; [`soundness`] and [`progress`] prove
//!   what holds of a run against it, and [`laws`] states the results.
//! - [`credentials`] reads the service account key.

pub mod text;
pub mod model;
pub mod policy;
pub mod service;
pub mod sanitizer;
pub mod lister;
pub mod traversal;
pub mod world;
pub mod soundness;
pub mod progress;
pub mod laws;
pub mod credentials;
