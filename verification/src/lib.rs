//! The reconciliation and state core of a retained-mode widget toolkit.
//!
//! A widget tree is a value of [`node::WidgetNode`]: every node owns its
//! hook states and its children, and every node and state has its identity
//! from a node store ([`store`]). A pass walks the tree parent before child
//! ([`runner`]): at each node the widget's update predicate decides whether
//! its render routine runs; the render takes its persistent state from the
//! node's hook registry ([`hooks`]) and lists the children it asks for
//! ([`children`]), which are reconciled against the children of the render
//! before ([`matching`]). Event handlers write to hook states between
//! passes ([`events`]). What holds across renders and passes is stated in
//! [`guarantees`]; what a caller must establish can be tested
//! ([`validity`]).

pub mod store;
pub mod styles;
pub mod render;
pub mod change;
pub mod context;
pub mod hooks;
pub mod node;
pub mod matching;
pub mod children;
pub mod events;
pub mod runner;
pub mod validity;
pub mod guarantees;
pub mod widgets;
