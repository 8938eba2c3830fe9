//! Graph storage in two interchangeable representations: a mutable
//! hash-map-backed graph and an immutable compressed (CSR) graph, with the
//! converter between them and the label interners both rely on.

pub mod converter;
pub mod generic;
pub mod graph_gen;
pub mod graph_impl;
pub mod io;
pub mod map;
