//! Core logic of a Python package installer and environment manager,
//! verified with Verus.
//!
//! Two things live here. The first is the resolver: it chooses a version
//! for every package that a manifest needs, from a snapshot of a package
//! index, and gives the result as a graph.
//!
//! * [`version`], [`specifier`], [`marker`] and [`requirement`] are the
//!   algebra of versions, of the sets of versions that specifiers describe,
//!   and of the conditions under which a requirement applies.
//!   [`number`], [`parse`], [`syntax`], [`grammar`] and [`notation`] read
//!   versions and requirements from their normal form and write them.
//! * [`index`] is the snapshot, [`manifest`] what is asked for, and
//!   [`candidate`] which releases may be chosen and in what order.
//! * [`solver`] is the search, [`graph`] its result, and [`resolve`] the
//!   operation that ties them together.
//! * [`active`], [`soundness`], [`completeness`], [`agreement`], [`order`],
//!   [`laws`], [`neutrality`] and [`idempotence`] hold what is proved of all
//!   this: every node meets what asks for it, a solution is found wherever
//!   there is one, and constraints and preferences that cannot matter do
//!   not matter.
//!
//! The second is the layout of a bare virtual environment: [`venv`] says
//! which files are to be written, [`cfg`] writes `pyvenv.cfg`, with
//! [`interpreter`], [`path`] and [`text`] as their tools.

pub mod active;
pub mod agreement;
pub mod candidate;
pub mod cfg;
pub mod completeness;
pub mod grammar;
pub mod graph;
pub mod idempotence;
pub mod index;
pub mod interpreter;
pub mod laws;
pub mod manifest;
pub mod marker;
pub mod neutrality;
pub mod notation;
pub mod number;
pub mod order;
pub mod parse;
pub mod path;
pub mod requirement;
pub mod resolve;
pub mod solver;
pub mod soundness;
pub mod specifier;
pub mod syntax;
pub mod text;
pub mod venv;
pub mod version;
