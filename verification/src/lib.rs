//! Source-coverage instrumentation for one function's control-flow graph.
//!
//! Given the blocks of a function and the source spans of their instructions,
//! the crate decides where counters go so that the execution count of every
//! reported source region can be worked out from as few runtime counters as
//! it manages with.
//!
//! The work is done in stages, one module each:
//!
//! - [`graph`] draws the blocks together into the nodes of a coverage graph,
//!   one for every chain of blocks without a branch.
//! - [`spans`] chooses the source spans that are reported, each with the node
//!   that it belongs to.
//! - [`counters`] gives every node that has a span a counting term: a
//!   physical counter, or an expression over other terms. [`flow`] says what
//!   the terms are worth: under every flow through the graph, a term has the
//!   count of its node or edge as its value.
//! - [`region`] turns a span into lines and columns, with [`source_map`] for
//!   the files and [`span`] for the spans.
//! - [`instrument`] runs the stages, writes the markers of the counters into
//!   the blocks, and leaves the coverage information with the body.
//!   [`inject`] holds the two changes that it makes to the blocks, [`mir`]
//!   the blocks themselves, and [`hir`] what else is known of the function.
//!
//! Two modules stand apart. [`linkers`] checks that the linkers a toolchain
//! needs are at hand, and [`open_options`] finds fault with the options that
//! a program sets for opening a file.

pub mod counters;
pub mod flow;
pub mod graph;
pub mod hir;
pub mod inject;
pub mod instrument;
pub mod linkers;
pub mod mir;
pub mod open_options;
pub mod region;
pub mod source_map;
pub mod span;
pub mod spans;
