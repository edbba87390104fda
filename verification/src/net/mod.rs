//! The network layer: partition keys and the public suffix list they are
//! drawn from, cookies, HSTS, redirects, HTTP/1.1 framing, DNS messages and the
//! partitioned connection pool.
pub mod clock;
pub mod ip;
pub mod table;
pub mod assoc;
pub mod bytes;
pub mod psl;
pub mod partition;
pub mod hsts;
pub mod cookie;
pub mod pool;
pub mod http1;
pub mod redirect;
pub mod dns;
pub mod resolver;
pub mod fetch;
pub mod tls;

