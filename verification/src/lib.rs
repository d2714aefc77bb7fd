//! A terminal UI document model: a node tree with focus management, event routing,
//! a route history, and the decisions of its components.

pub mod wrapping_list;
pub mod error_boundary;
pub mod events;
pub mod dom;
pub mod component;
pub mod borders;
pub mod list_view;
pub mod notification;
pub mod router;
pub mod tab_view;
