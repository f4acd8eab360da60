//! A small C-library core: the syscall error convention, raw descriptors,
//! a buffered line reader, a DNS stub-resolver codec and the line parsers
//! behind the `/etc/hosts`, `/etc/protocols` and `/etc/services` databases.
//! Every operation that touches the operating system is split off: the
//! library decides, the caller performs the read, send or receive and hands
//! the outcome back.

pub mod types;
pub mod sys;
pub mod bytes;
pub mod text;
pub mod name;
pub mod dns;
pub mod resolver;
pub mod rlb;
pub mod rawfile;
pub mod netdb;
