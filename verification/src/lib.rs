//! Core of a small host monitor: what it collects, stores, alerts on and lets in.

pub mod alert;
pub mod auth;
pub mod base64;
pub mod collectors;
pub mod config;
pub mod dns_metrics;
pub mod journald;
pub mod json;
pub mod outside;
pub mod routes;
pub mod schedule;
pub mod schema;
pub mod store;
pub mod tailer;
pub mod text;
pub mod url;
