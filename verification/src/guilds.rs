//! The guilds the archive tooling watches: each guild names the chat
//! channels its executive orders and its legislation are scraped from.
//! Loading and saving the on-disk guild file is a collaborator's job.

use vstd::prelude::*;

verus! {

/// One watched guild: its id, display name, and the source channels for
/// executive orders and legislation.
#[derive(Debug, Clone, PartialEq)]
pub struct GuildInfo {
    pub id: u64,
    pub name: String,
    pub eo_src: u64,
    pub leg_src: u64,
}

/// The model of a [`GuildInfo`].
pub struct GuildInfoModel {
    pub id: u64,
    pub name: Seq<char>,
    pub eo_src: u64,
    pub leg_src: u64,
}

impl View for GuildInfo {
    type V = GuildInfoModel;

    open spec fn view(&self) -> GuildInfoModel {
        GuildInfoModel {
            id: self.id,
            name: self.name@,
            eo_src: self.eo_src,
            leg_src: self.leg_src,
        }
    }
}

impl DeepView for GuildInfo {
    type V = GuildInfoModel;

    open spec fn deep_view(&self) -> GuildInfoModel {
        self.view()
    }
}

/// The watched guilds, in order.
#[derive(Debug, Clone, PartialEq)]
pub struct Guilds {
    guilds: Vec<GuildInfo>,
}

impl View for Guilds {
    type V = Seq<GuildInfoModel>;

    closed spec fn view(&self) -> Seq<GuildInfoModel> {
        self.guilds.deep_view()
    }
}

impl Guilds {
    /// Wraps a guild list.
    pub fn new(guilds: Vec<GuildInfo>) -> (r: Guilds)
        ensures
            r@ == guilds.deep_view(),
    {
        Guilds { guilds }
    }

    /// The watched guilds, in order.
    pub fn get_guilds(&self) -> (r: &Vec<GuildInfo>)
        ensures
            r.deep_view() == self@,
    {
        &self.guilds
    }
}

impl Default for Guilds {
    /// The built-in guild list: the two guilds the tool was written for,
    /// with their executive-order and legislation source channels. Writing
    /// the list to disk is a collaborator's job.
    fn default() -> (r: Guilds)
        ensures
            r@.len() == 2,
            r@[0] == (GuildInfoModel {
                id: 554769523635650580u64,
                name: "SimDemocracy"@,
                eo_src: 1232486399295619103u64,
                leg_src: 1346304876581228554u64,
            }),
            r@[1] == (GuildInfoModel {
                id: 1342703437371932712u64,
                name: "National Archives"@,
                eo_src: 1348711268877467738u64,
                leg_src: 1348710825619230750u64,
            }),
    {
        let mut guilds: Vec<GuildInfo> = Vec::new();
        guilds.push(
            GuildInfo {
                id: 554769523635650580,
                name: "SimDemocracy".to_owned(),
                eo_src: 1232486399295619103,
                leg_src: 1346304876581228554,
            },
        );
        guilds.push(
            GuildInfo {
                id: 1342703437371932712,
                name: "National Archives".to_owned(),
                eo_src: 1348711268877467738,
                leg_src: 1348710825619230750,
            },
        );
        Guilds { guilds }
    }
}

} // verus!
