//! A hierarchical todo store: task items with identity, status, priority and
//! optional parent links, owned by a list that keeps a parent-to-children
//! index in lock-step with each item's parent reference.

pub mod display;
pub mod item;
pub mod store;
pub mod sys;
pub mod theme;

pub use display::FilterType;
pub use display::PriorityFilter;
pub use display::StatusFilter;
pub use item::ItemModel;
pub use item::Priority;
pub use item::Status;
pub use item::TodoItem;
pub use store::MoveError;
pub use store::TodoList;
pub use theme::CyberpunkTheme;
