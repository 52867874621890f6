//! Explanations for region (lifetime) errors: from the relational facts of a
//! region-inference analysis over one function to an annotated causal graph.
//!
//! The way from the facts to a graph:
//!
//! - `loader` takes the text of the fact files apart and interns the points
//!   (`labels`, `interner`); `facts` holds the relations, `atoms` their
//!   atoms.
//! - `explain` derives, for one error, the part of the relations that leads
//!   to it, by the rules of `rules`.
//! - `path` searches one chain of regions from the error back to the region
//!   that was given the loan; the walk itself is in `frames`.
//! - `graph` ties the chain to the source: variables and lines; `recovery`
//!   finds the local of each region in the body that the compiler wrote.
//! - `simplify` splices out the regions that say nothing to the reader.
//! - `report` puts these steps together, and `render` gathers what a
//!   diagram of the graph shows.
//!
//! `relation` and `assoc` hold the small collections that the others use,
//! and `samples` the building blocks of the sample programs.

pub mod assoc;
pub mod atoms;
pub mod explain;
pub mod facts;
pub mod frames;
pub mod graph;
pub mod interner;
pub mod labels;
pub mod loader;
pub mod path;
pub mod recovery;
pub mod relation;
pub mod render;
pub mod report;
pub mod rules;
pub mod samples;
pub mod simplify;
