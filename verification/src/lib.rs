//! Broadcast transport for framed diagnostic log records.
//!
//! A logging front end produces one log record per *session* (a begin/end
//! cycle).  This library keeps a registry of remote observer connections,
//! admits newly accepted connections at session boundaries only, runs each
//! record through the frame codec, and plans the per-connection byte
//! deliveries so that a slow or dead observer never corrupts the stream seen
//! by the others.  Socket I/O itself is left to the embedding program: the
//! library hands out delivery plans (connection handle, bytes) and takes back
//! reports of failed handles to prune.

pub mod codec;
pub mod registry;
pub mod session;
