//! A browser for OpenSSH configuration: the configuration is read into
//! hosts and groups, shown as a foldable tree that can be searched, and
//! hosts are opened with `ssh`, in the terminal or in an embedded session.
//! Every operation of the browser states what it does; the laws that hold
//! across operations are proved beside them.
pub mod text;
pub mod directive;
pub mod host_options;
pub mod ssh_config;
pub mod config_scan;
pub mod scan_laws;
pub mod tree;
pub mod tree_laws;
pub mod search;
pub mod reachability;
pub mod embedded_session;
pub mod ssh;
pub mod app;
pub mod visibility;
pub mod details;
pub mod events;
pub mod console;
