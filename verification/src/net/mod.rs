//! Sockets.

pub mod socket_opts;
