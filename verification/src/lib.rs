pub mod bookmarks;
pub mod index;
pub mod ipc;
pub mod jsontree;
pub mod text;
pub mod translit;
pub mod watch;
