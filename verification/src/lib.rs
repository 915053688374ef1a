pub mod domain;
pub mod hierarchy;
pub mod layout;
pub mod order;
pub mod outside;
pub mod scanner;
pub mod text;
pub mod watch;
