//! A doubly linked list that hands out stable, independently held handles to
//! its nodes, with runtime-arbitrated read/write access to each payload.
pub mod list;
