//! Distributed k-means clustering over a peer-to-peer message exchange.
//!
//! The library holds the integer logic of the clustering program: how the
//! points and the clusters are shared out among the workers, how points are
//! grouped around their nearest centre, how a new centre is chosen inside a
//! cluster, the decisions a node takes for each message of the protocol,
//! the framing of long messages into datagrams, and the reading of counts
//! typed by the user. Floating-point work (coordinates, distances, means)
//! stays with the host program, which hands distances over as order keys.

pub mod kmeans;
pub mod kmeans_struct;
pub mod ledger_struct;
pub mod node;
pub mod tool;
pub mod udp_transmission;
