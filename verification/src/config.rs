//! The account configuration the archive tooling runs under: credentials
//! for the wiki endpoint and the chat service. Reading and writing the
//! on-disk configuration file is a collaborator's job; this type holds the
//! values and their invariant-free accessors.

use vstd::prelude::*;

verus! {

/// The tool's account configuration.
#[derive(Debug, Clone, PartialEq)]
pub struct Config {
    pub token: String,
    pub login: String,
    pub passwd: String,
    pub endpoint: String,
    pub bot: bool,
}

/// The model of a [`Config`].
pub struct ConfigModel {
    pub token: Seq<char>,
    pub login: Seq<char>,
    pub passwd: Seq<char>,
    pub endpoint: Seq<char>,
    pub bot: bool,
}

impl View for Config {
    type V = ConfigModel;

    open spec fn view(&self) -> ConfigModel {
        ConfigModel {
            token: self.token@,
            login: self.login@,
            passwd: self.passwd@,
            endpoint: self.endpoint@,
            bot: self.bot,
        }
    }
}

impl Config {
    /// Replaces the chat-service token; every other field is kept.
    pub fn set_token(&mut self, token: String)
        ensures
            final(self).token == token,
            final(self).login == old(self).login,
            final(self).passwd == old(self).passwd,
            final(self).endpoint == old(self).endpoint,
            final(self).bot == old(self).bot,
    {
        self.token = token;
    }

    /// The chat-service token.
    pub fn get_token(&self) -> (r: &String)
        ensures
            r == &self.token,
    {
        &self.token
    }

    /// A configuration with the given credentials, the default wiki
    /// endpoint, and the bot flag set — the in-memory part of creating a
    /// fresh configuration; writing it to disk is a collaborator's job.
    pub fn with_credentials(token: String, login: String, passwd: String) -> (r: Config)
        ensures
            r.token == token,
            r.login == login,
            r.passwd == passwd,
            r.endpoint@ == "https://qwrky.dev/mediawiki/api.php"@,
            r.bot,
    {
        Config {
            token,
            login,
            passwd,
            endpoint: "https://qwrky.dev/mediawiki/api.php".to_owned(),
            bot: true,
        }
    }
}

} // verus!
