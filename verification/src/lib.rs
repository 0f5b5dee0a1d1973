//! The verified core of a host daemon that runs sandboxed agents: names and
//! message grammars, framing, the mailbox, session ownership, terminals and
//! the argument lists of the sandboxes it starts.
pub mod answers;
pub mod arguments;
pub mod binds;
pub mod board;
pub mod call_laws;
pub mod catalog;
pub mod cli;
pub mod client;
pub mod command_laws;
pub mod commands;
pub mod config;
pub mod connection;
pub mod control;
pub mod controller;
pub mod courier;
pub mod directory;
pub mod dispatch;
pub mod docker;
pub mod docker_forward;
pub mod docker_scope;
pub mod docker_shared;
pub mod endpoint;
pub mod helper;
pub mod host;
pub mod integration;
pub mod json;
pub mod launch;
pub mod lines;
pub mod listing;
pub mod mailbox;
pub mod mailbox_effects;
pub mod mailbox_laws;
pub mod messages;
pub mod messaging;
pub mod names;
pub mod network;
pub mod numbers;
pub mod options;
pub mod params;
pub mod paths;
pub mod permission_laws;
pub mod permissions;
pub mod picture;
pub mod plain;
pub mod process;
pub mod progress;
pub mod protocol;
pub mod records;
pub mod relay;
pub mod replies;
pub mod rpc;
pub mod sandbox_etc;
pub mod screen;
pub mod seccomp;
pub mod session;
pub mod session_laws;
pub mod shown_laws;
pub mod snapshot;
pub mod store;
pub mod terminal;
pub mod text;
pub mod tree;
pub mod unix;
pub mod values;
pub mod worker;
