//! A personal bookmark manager: save, tag, search, rename tags and delete
//! URL bookmarks, either against a local store or a remote instance over
//! HTTP, through one shared command contract.

pub mod colors;
pub mod commands;
pub mod config;
pub mod db;
pub mod decimal;
pub mod remote;
pub mod routes;
pub mod util;
pub mod web;
pub mod wire;
