//! Data model and graph algorithms of a distributed issue tracker that keeps
//! its issues as commits and references of a git repository.
//!
//! An issue is a tree of messages. Each message is a commit, and its first
//! parent is the message that it replies to. References name the head of an
//! issue and the messages without a reply, in this repository and in each
//! remote one. The metadata of an issue is kept in the trailers of its
//! messages.

pub mod error;
pub mod seqs;
pub mod text;
pub mod oid;
pub mod time;
pub mod trailer;
pub mod message;
pub mod accumulation;
pub mod reference;
pub mod priorization;
pub mod repository;
pub mod history;
pub mod issue;
pub mod graph;
pub mod gc;
pub mod mirror;
pub mod filters;
pub mod listing;
pub mod display;
