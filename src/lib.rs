pub mod align;
pub mod dict;
pub mod fst;
pub mod g2p;
pub mod lattice;
pub mod model;
pub mod symbols;
pub mod train;
pub mod weight;
