//! A circular doubly linked list.
//!
//! The list is a ring of nodes: each node holds a payload and two link
//! fields, `next` and `prev`.  Following `next` from the head visits every
//! node and wraps around from the tail back to the head; `prev` runs the
//! other way.  Links are tagged: a link is either *owning* (it keeps its
//! target alive) or *observing* (it merely names its target).  Every `next`
//! link is owning except the tail's, which observes the head, and every
//! `prev` link is observing, so the cyclic graph never contains an ownership
//! cycle and every node is released the moment its owning holder lets go.
//!
//! Nodes live in an arena owned by the list handle and links name arena
//! slots, so one operation can rewrite the link fields of several nodes
//! while the handle keeps exclusive access.  The module [`cdl_list`] holds
//! the list itself; [`ops`] holds a small model of operation sequences and
//! the laws proved over them.

pub mod cdl_list;
pub mod ops;
