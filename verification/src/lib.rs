pub mod cli;
pub mod error;
pub mod handlers;
pub mod markdown;
pub mod resolve;
pub mod scan;
pub mod server;
pub mod template;
pub mod text;
