//! A digital logic circuit simulation engine.
//!
//! A circuit is a directed acyclic graph of boolean gates connected by
//! signal-carrying wires.  The library offers operations to build composite
//! circuits (adders), to compute structural properties (longest-path ranks
//! and a topological evaluation order), and to propagate signals
//! synchronously until the circuit settles.

pub mod adder;
pub mod bits;
pub mod circuit;
pub mod eval;
pub mod rank;

pub use adder::adder_chain;
pub use adder::full_adder_shape;
pub use adder::half_adder_shape;
pub use adder::lemma_adder_chain_value;
pub use adder::lemma_full_adder_value;
pub use adder::lemma_half_adder_value;
pub use adder::node_vals_num;
pub use bits::get_bit;
pub use bits::set_bit;
pub use circuit::Circuit;
pub use circuit::Gate;
pub use circuit::Node;
pub use circuit::lemma_single_source;
pub use eval::lemma_extends_node_val;
pub use eval::lemma_node_val_structural;
pub use eval::lemma_settled_is_fixed_point;
pub use rank::flip_ranks;
pub use rank::lemma_rank_bounds;
pub use rank::lemma_rank_monotonic;
