use vstd::prelude::*;

pub mod artifact_ref;
pub mod authz;
pub mod chunk_manifest;
pub mod client_view;
pub mod chunk_writer;
pub mod command;
pub mod consolidate;
pub mod decision;
pub mod destination;
pub mod diag_session;
pub mod dispatch;
pub mod detector;
pub mod error;
pub mod event;
pub mod export_identity;
pub mod ext_auth;
pub mod ext_server;
pub mod handoff;
pub mod ids;
pub mod intervals;
pub mod keys;
pub mod leak_window;
pub mod loopback_http;
pub mod manifest;
pub mod manifest_verify;
pub mod message;
pub mod method;
pub mod outcome;
pub mod process_tree;
pub mod protocol;
pub mod recovery;
pub mod rollback;
pub mod session_setup;
pub mod source;
pub mod supervisor;
pub mod text;
pub mod timeline;
pub mod transport;
pub mod wasapi;
pub mod wav;

verus! {

} // verus!
