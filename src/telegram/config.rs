use vstd::prelude::*;

use super::chat;
use crate::markov::{MarkovType, ReplyMode, DEFAULT_CHANCE, DEFAULT_HYBRID_THRESHOLD};

verus! {

/// The bot's credentials.
#[derive(Debug)]
pub struct Secret {
    pub token: String,
}

/// Access levels of the chain commands, as read from a configuration file.
#[derive(Clone, Copy, Debug, PartialEq, Eq)]
pub struct MarkovAccess {
    pub append: Option<chat::Access>,
    pub generate: Option<chat::Access>,
    pub reply: Option<chat::Access>,
}

/// Access levels of the admin commands, as read from a configuration file.
#[derive(Clone, Copy, Debug, PartialEq, Eq)]
pub struct AdminCmdAccess {
    pub config: Option<chat::Access>,
    pub blacklist: Option<chat::Access>,
}

/// All access levels, as read from a configuration file.
#[derive(Clone, Copy, Debug, PartialEq, Eq)]
pub struct Access {
    pub markov: Option<MarkovAccess>,
    pub admin_commands: Option<AdminCmdAccess>,
}

/// A chat's configuration as read from its file: any setting may be missing.
#[derive(Clone, Copy, Debug, PartialEq, Eq)]
pub struct MarkovConfigToml {
    pub markov_type: Option<MarkovType>,
    pub chance: Option<u64>,
    pub reply_mode: Option<ReplyMode>,
    pub separate_newline: Option<bool>,
    pub access: Option<Access>,
}

#[derive(Clone, Copy, Debug, PartialEq, Eq)]
pub struct MarkovAccessConfig {
    pub append: chat::Access,
    pub generate: chat::Access,
    pub reply: chat::Access,
}

#[derive(Clone, Copy, Debug, PartialEq, Eq)]
pub struct AdminCmdAccessConfig {
    pub config: chat::Access,
    pub blacklist: chat::Access,
}

#[derive(Clone, Copy, Debug, PartialEq, Eq)]
pub struct AccessConfig {
    pub markov: MarkovAccessConfig,
    pub admin_commands: AdminCmdAccessConfig,
}

/// A chat's complete configuration.
#[derive(Clone, Copy, Debug, PartialEq, Eq)]
pub struct MarkovConfig {
    pub markov_type: MarkovType,
    pub chance: u64,
    pub reply_mode: ReplyMode,
    pub separate_newline: bool,
    pub access: AccessConfig,
}

pub open spec fn or_default<T>(o: Option<T>, d: T) -> T {
    match o {
        Some(v) => v,
        None => d,
    }
}

pub open spec fn spec_default_markov_access() -> MarkovAccessConfig {
    MarkovAccessConfig {
        append: chat::Access::All,
        generate: chat::Access::All,
        reply: chat::Access::All,
    }
}

pub open spec fn spec_default_admin_access() -> AdminCmdAccessConfig {
    AdminCmdAccessConfig { config: chat::Access::Admins, blacklist: chat::Access::Admins }
}

pub open spec fn spec_default_access() -> AccessConfig {
    AccessConfig {
        markov: spec_default_markov_access(),
        admin_commands: spec_default_admin_access(),
    }
}

pub open spec fn spec_default_config() -> MarkovConfig {
    MarkovConfig {
        markov_type: MarkovType::Hybrid(DEFAULT_HYBRID_THRESHOLD),
        chance: DEFAULT_CHANCE,
        reply_mode: ReplyMode::Reply,
        separate_newline: true,
        access: spec_default_access(),
    }
}

/// A file's settings written out in full.
pub open spec fn toml_of(c: MarkovConfig) -> MarkovConfigToml {
    MarkovConfigToml {
        markov_type: Some(c.markov_type),
        chance: Some(c.chance),
        reply_mode: Some(c.reply_mode),
        separate_newline: Some(c.separate_newline),
        access: Some(access_toml_of(c.access)),
    }
}

pub open spec fn access_toml_of(a: AccessConfig) -> Access {
    Access {
        markov: Some(
            MarkovAccess {
                append: Some(a.markov.append),
                generate: Some(a.markov.generate),
                reply: Some(a.markov.reply),
            },
        ),
        admin_commands: Some(
            AdminCmdAccess {
                config: Some(a.admin_commands.config),
                blacklist: Some(a.admin_commands.blacklist),
            },
        ),
    }
}

/// The access levels a file gives, each missing one by its default.
pub open spec fn access_of(a: Option<Access>) -> AccessConfig {
    let d = spec_default_access();
    match a {
        None => d,
        Some(v) => AccessConfig {
            markov: match v.markov {
                None => d.markov,
                Some(m) => MarkovAccessConfig {
                    append: or_default(m.append, d.markov.append),
                    generate: or_default(m.generate, d.markov.generate),
                    reply: or_default(m.reply, d.markov.reply),
                },
            },
            admin_commands: match v.admin_commands {
                None => d.admin_commands,
                Some(m) => AdminCmdAccessConfig {
                    config: or_default(m.config, d.admin_commands.config),
                    blacklist: or_default(m.blacklist, d.admin_commands.blacklist),
                },
            },
        },
    }
}

/// The configuration a file gives, each missing setting by its default.
pub open spec fn config_of(t: MarkovConfigToml) -> MarkovConfig {
    let d = spec_default_config();
    MarkovConfig {
        markov_type: or_default(t.markov_type, d.markov_type),
        chance: or_default(t.chance, d.chance),
        reply_mode: or_default(t.reply_mode, d.reply_mode),
        separate_newline: or_default(t.separate_newline, d.separate_newline),
        access: access_of(t.access),
    }
}

/// Whether a file holds every setting.
pub open spec fn complete(t: MarkovConfigToml) -> bool {
    &&& t.markov_type is Some
    &&& t.chance is Some
    &&& t.reply_mode is Some
    &&& t.separate_newline is Some
    &&& t.access matches Some(a) && {
        &&& a.markov matches Some(m) && m.append is Some && m.generate is Some && m.reply is Some
        &&& a.admin_commands matches Some(c) && c.config is Some && c.blacklist is Some
    }
}

pub fn default_markov_access() -> (r: MarkovAccessConfig)
    ensures
        r == spec_default_markov_access(),
{
    MarkovAccessConfig {
        append: chat::Access::All,
        generate: chat::Access::All,
        reply: chat::Access::All,
    }
}

pub fn default_admin_access() -> (r: AdminCmdAccessConfig)
    ensures
        r == spec_default_admin_access(),
{
    AdminCmdAccessConfig { config: chat::Access::Admins, blacklist: chat::Access::Admins }
}

pub fn default_access() -> (r: AccessConfig)
    ensures
        r == spec_default_access(),
{
    AccessConfig { markov: default_markov_access(), admin_commands: default_admin_access() }
}

/// The configuration of a chat that has no file yet.
pub fn default_config() -> (r: MarkovConfig)
    ensures
        r == spec_default_config(),
{
    MarkovConfig {
        markov_type: MarkovType::Hybrid(DEFAULT_HYBRID_THRESHOLD),
        chance: DEFAULT_CHANCE,
        reply_mode: ReplyMode::Reply,
        separate_newline: true,
        access: default_access(),
    }
}

/// The file settings of a complete configuration.
pub fn config_to_toml(c: MarkovConfig) -> (r: MarkovConfigToml)
    ensures
        r == toml_of(c),
{
    MarkovConfigToml {
        markov_type: Some(c.markov_type),
        chance: Some(c.chance),
        reply_mode: Some(c.reply_mode),
        separate_newline: Some(c.separate_newline),
        access: Some(access_to_toml(c.access)),
    }
}

fn access_to_toml(a: AccessConfig) -> (r: Access)
    ensures
        r == access_toml_of(a),
{
    Access {
        markov: Some(
            MarkovAccess {
                append: Some(a.markov.append),
                generate: Some(a.markov.generate),
                reply: Some(a.markov.reply),
            },
        ),
        admin_commands: Some(
            AdminCmdAccess {
                config: Some(a.admin_commands.config),
                blacklist: Some(a.admin_commands.blacklist),
            },
        ),
    }
}

fn fill<T: Copy>(o: &mut Option<T>, d: T, missing: &mut bool) -> (r: T)
    ensures
        r == or_default(*old(o), d),
        *final(o) == Some(r),
        *final(missing) == (*old(missing) || (*old(o)) is None),
{
    match *o {
        Some(v) => v,
        None => {
            *missing = true;
            *o = Some(d);
            d
        },
    }
}

/// Completes a chat's settings: each missing one takes its default, in the returned
/// configuration and in `configtoml` alike. The flag tells whether any was missing, so
/// that the file is to be written anew.
pub fn set_missing_config(configtoml: &mut MarkovConfigToml) -> (r: (MarkovConfig, bool))
    ensures
        r.0 == config_of(*old(configtoml)),
        *final(configtoml) == toml_of(r.0),
        r.1 == !complete(*old(configtoml)),
{
    let mut has_missing = false;
    let chance = fill(&mut configtoml.chance, DEFAULT_CHANCE, &mut has_missing);
    let markov_type = fill(&mut configtoml.markov_type, MarkovType::default(), &mut has_missing);
    let reply_mode = fill(&mut configtoml.reply_mode, ReplyMode::default(), &mut has_missing);
    let separate_newline = fill(&mut configtoml.separate_newline, true, &mut has_missing);
    let access = match configtoml.access {
        Some(mut v) => {
            let markov = match v.markov {
                Some(mut m) => {
                    let generate = fill(&mut m.generate, chat::Access::All, &mut has_missing);
                    let append = fill(&mut m.append, chat::Access::All, &mut has_missing);
                    let reply = fill(&mut m.reply, chat::Access::All, &mut has_missing);
                    v.markov = Some(m);
                    MarkovAccessConfig { append, generate, reply }
                },
                None => {
                    has_missing = true;
                    let d = default_markov_access();
                    v.markov = Some(
                        MarkovAccess {
                            append: Some(d.append),
                            generate: Some(d.generate),
                            reply: Some(d.reply),
                        },
                    );
                    d
                },
            };
            let admin_commands = match v.admin_commands {
                Some(mut c) => {
                    let config = fill(&mut c.config, chat::Access::Admins, &mut has_missing);
                    let blacklist = fill(&mut c.blacklist, chat::Access::Admins, &mut has_missing);
                    v.admin_commands = Some(c);
                    AdminCmdAccessConfig { config, blacklist }
                },
                None => {
                    has_missing = true;
                    let d = default_admin_access();
                    v.admin_commands = Some(
                        AdminCmdAccess { config: Some(d.config), blacklist: Some(d.blacklist) },
                    );
                    d
                },
            };
            configtoml.access = Some(v);
            AccessConfig { markov, admin_commands }
        },
        None => {
            has_missing = true;
            let d = default_access();
            configtoml.access = Some(access_to_toml(d));
            d
        },
    };
    (MarkovConfig { markov_type, chance, reply_mode, separate_newline, access }, has_missing)
}

} // verus!
