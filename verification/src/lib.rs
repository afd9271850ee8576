//! The ingestion-and-dispatch core of a distributed web-archive scanner.
//!
//! A master coordinates a pool of workers.  Each worker leases an
//! archive locator, pulls the compressed object, decompresses it member
//! by member, cuts the stream into boundary-marked records, normalizes
//! the fetched responses into documents, and dispatches document batches
//! into scan engines under queue-depth backpressure, delivering the
//! engines' outputs back to the master.  The master owns the work queue,
//! the query definitions, and the collected outputs.
//!
//! Everything that decides or computes lives here, verified: the framing
//! and record codec, the document normalizer, the dispatch governor, the
//! query partitioner, the output aggregator, the orchestrator's state
//! machine, and the master's handlers.  The scan engine, the object
//! store and the relational store are outside collaborators: what they
//! return is stated where they are called, and nothing more is assumed
//! of them.
pub mod codec;
pub mod decode;
pub mod document;
pub mod extract;
pub mod govern;
pub mod group;
pub mod master;
pub mod orchestrator;
pub mod outputs;
pub mod record;
pub mod telemetry;
pub mod util;
pub mod work;
