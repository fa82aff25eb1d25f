//! Verified core of a cluster DNS-traffic topology viewer.
//!
//! The library turns raw DNS query-log lines into a classified, aggregated
//! view of which workload talks to which service or external domain, and
//! prepares that view for display: graph construction, filtering, radial
//! ring layout, and the modal keyboard state machine of the interactive
//! session. Everything here is pure computation on plain values; reading
//! the log stream, looking workloads up in the cluster, and drawing on a
//! terminal live outside the library.

pub mod classify;
pub mod filter;
pub mod graph;
pub mod interact;
pub mod json;
pub mod layout;
pub mod parse;
pub mod pipeline;
pub mod state;
pub mod text;
pub mod util;
