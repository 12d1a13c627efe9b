//! Control-plane logic of an XDP firewall: address and CIDR parsing, the
//! rule store that mirrors the kernel's rule maps, epoch versioning, map
//! value encodings, API access and attach-mode decisions, the metrics page,
//! and the decision tally of the inference module.

pub mod bytes;
pub mod text;
pub mod addr;
pub mod maps;
pub mod rules;
pub mod change;
pub mod tally;
pub mod api;
pub mod metrics;
