//! A role-based access-control policy engine.
//!
//! A policy is a list of role-inheritance rules and a list of permission
//! rules. From them the engine builds a role graph and a forest of matching
//! tries, and answers whether a role may reach a slash-delimited resource
//! path. Every answer is fail-closed: what no rule allows is denied.

pub mod access_checker;
pub mod laws;
pub mod parse;
pub mod permissions;
pub mod roles;
pub mod string_map;
pub mod text;
