//! Weighted directed graphs over labelled nodes: building adjacency lists from
//! labelled edges, least-cost distances with an indexed priority queue, and the
//! enumeration of simple paths; with the validated route collections that feed them.

pub mod adjacency;
pub mod distance;
pub mod graph;
pub mod labels;
pub mod paths;
pub mod pqueue;
pub mod route;
pub mod routes;
pub mod trajectory;

pub use adjacency::adj_list;
pub use distance::{eager_dijkstra, shortest_path, PathError};
pub use graph::Edge;
pub use paths::all_simple_paths;
pub use pqueue::{IndexedMinPQ, PqError};
pub use route::{Route, ROUTE_TO_ITSELF, ZERO_DISTANCE};
pub use routes::{route_tuple, Routes};
pub use trajectory::{Trajectories, NO_ROUTE_ERROR, REP_ERROR};
