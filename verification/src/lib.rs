//! Phone model catalogue.
//!
//! Devices are collected from public pages ([`collector`]) or read from input
//! files ([`parser`]), kept as records ([`record`]) that an index finds by model
//! id, code, codename, name, brand and series ([`kv`], [`query`], [`built`]), and
//! searched by the vectors of their texts ([`embed`], [`search`], [`order`]).
//!
//! Every function states what it returns over mathematical views: strings are
//! sequences of characters, lists are sequences of the views of their elements.

pub mod built;
pub mod cli;
pub mod collector;
pub mod embed;
pub mod json;
pub mod kv;
pub mod model;
pub mod number;
pub mod order;
pub mod parser;
pub mod pattern;
pub mod query;
pub mod record;
pub mod search;
pub mod seen;
pub mod text;
