//! A small mock HTTP server: it maps request paths to pre-loaded file
//! contents and answers each request with one fixed-shape HTTP/1.1 response.
pub mod args;
pub mod response;
pub mod routes;
pub mod text;
