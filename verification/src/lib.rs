//! A GraphQL forum service: its domain, its configuration format, its
//! cursor-based pagination and the decisions its resolvers make.
//!
//! The HTTP server, the GraphQL schema objects and the PostgreSQL queries live
//! in the application around this library; what they compute is decided here.
pub mod configuration;
pub mod cursor;
pub mod decimal;
pub mod domain;
pub mod graphql;
pub mod pagination;
pub mod server_configuration;
pub mod settings;
pub mod tree;
