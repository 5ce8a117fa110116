//! Ratlings: the decisions and text handling behind a viewer for small Ratatui lessons.
pub mod text;
pub mod lesson;
pub mod report;
pub mod exercise;
pub mod progress;
pub mod tour;
pub mod markup;
pub mod viewer;
pub mod layout;
pub mod exercises;
pub mod screen;
