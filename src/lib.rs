pub mod format;
pub mod laws;
pub mod store;
pub mod text;

pub use store::{TaskView, TodoItem, TodoList};
