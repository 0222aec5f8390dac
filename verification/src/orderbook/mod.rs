pub mod arena;
pub mod book;
pub mod feed;
pub mod links;
