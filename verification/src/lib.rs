pub mod text;
pub mod outside;
pub mod feed;
pub mod post;
pub mod blog;
pub mod helpers;
pub mod pagination;
pub mod routes;
