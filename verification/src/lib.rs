//! A concurrent TCP port scanner's core: how a fixed number of workers divide
//! the port space, how their findings become one ordered report, and how the
//! command line is read.

pub mod args;
pub mod connector;
pub mod coordinator;
pub mod partition;
pub mod report;
pub mod text;
