//! Derivation of point-to-point testbed topologies from a list of hosts, and their rendering
//! as a testbed description and as a shell script that configures the hosts.

pub mod dsl;
pub mod error;
pub mod graph;
pub mod matching;
pub mod mesh;
pub mod model;
pub mod script;
pub mod sorting;
pub mod text;
pub mod topology;

pub use error::{Stage, TopologyError};
pub use matching::{derive_explicit, resolve_link};
pub use model::{
    default_declared_ports, default_flavor, default_image, default_ports, Adjacency, Config,
    DSLConfig, Device, Host, Link, Testbed,
};
pub use script::script_generation_ports;
pub use topology::derive_graph;
