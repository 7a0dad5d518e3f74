//! Verified logic of a set of browser science demos: a porous-crystal foundry game,
//! polymer topologies for evolutionary packing, and small lattice simulations.
pub mod levels;
pub mod flow;
pub mod foundry;
pub mod genetics;
pub mod search;
pub mod topology;
pub mod lattice;
pub mod network;
pub mod grains;
pub mod reconnect;
pub mod shapes;
pub mod text;
