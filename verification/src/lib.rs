//! Editing core.
pub mod block;
pub mod cache;
pub mod command;
pub mod document;
pub mod edit;
pub mod geometry;
pub mod grid;
pub mod hidden;
pub mod history;
pub mod html;
pub mod keymap;
pub mod layout;
pub mod list;
pub mod marks;
pub mod offset;
pub mod outline;
pub mod panel;
pub mod presentation;
pub mod projection;
pub mod search;
pub mod segmentation;
pub mod selection;
pub mod table;
pub mod text;
pub mod toc;
pub mod viewport;
pub mod visual;
pub mod widget;
