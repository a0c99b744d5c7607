//! Wikitext archive tooling: a verified lexer and parser for the constrained
//! MediaWiki markup used by the archive (headings, numbered clauses, tables,
//! inline styled text), together with the pure state kept by the archive
//! managers (configuration, guild records, regex profiles, plugin manifests).

use vstd::prelude::*;

pub mod ast;
pub mod config;
pub mod converters;
pub mod error;
pub mod guilds;
pub mod plugins;
pub mod regex;
pub mod lexer;
pub mod parser;
pub mod table_parser;
pub mod class_parser;

use crate::config::Config;

verus! {

/// Formats the authorization header value for the configured account:
/// bot accounts carry the `Bot ` prefix, user accounts send the bare token.
pub fn format_auth(cfg: &Config) -> (r: String)
    ensures
        cfg.bot ==> r@ == "Bot "@ + cfg.token@,
        !cfg.bot ==> r@ == cfg.token@,
{
    let mut r = String::new();
    if cfg.bot {
        r.append("Bot ");
    }
    r.append(cfg.token.as_str());
    r
}

} // verus!
