use sneedov::markov::{MarkovType, ReplyMode};
use sneedov::telegram::chat;
use sneedov::telegram::config::{
    config_to_toml, default_config, set_missing_config, Access, AdminCmdAccess, MarkovConfigToml,
};

#[test]
fn empty_file_takes_every_default() {
    let mut t = MarkovConfigToml {
        markov_type: None,
        chance: None,
        reply_mode: None,
        separate_newline: None,
        access: None,
    };
    let (c, missing) = set_missing_config(&mut t);
    assert!(missing);
    assert_eq!(c, default_config());
    assert_eq!(c.markov_type, MarkovType::Hybrid(10));
    assert_eq!(c.chance, 10);
    assert_eq!(c.reply_mode, ReplyMode::Reply);
    assert!(c.separate_newline);
    assert_eq!(c.access.markov.append, chat::Access::All);
    assert_eq!(c.access.admin_commands.blacklist, chat::Access::Admins);
    assert_eq!(t, config_to_toml(default_config()));
}

#[test]
fn complete_file_is_kept() {
    let mut c = default_config();
    c.chance = 3;
    c.markov_type = MarkovType::Double(0);
    let mut t = config_to_toml(c);
    let before = t;
    let (got, missing) = set_missing_config(&mut t);
    assert!(!missing);
    assert_eq!(got, c);
    assert_eq!(t, before);
}

#[test]
fn partly_missing_access_is_filled() {
    let mut t = config_to_toml(default_config());
    t.access = Some(Access {
        markov: None,
        admin_commands: Some(AdminCmdAccess { config: Some(chat::Access::Owner), blacklist: None }),
    });
    let (c, missing) = set_missing_config(&mut t);
    assert!(missing);
    assert_eq!(c.access.admin_commands.config, chat::Access::Owner);
    assert_eq!(c.access.admin_commands.blacklist, chat::Access::Admins);
    assert_eq!(c.access.markov.reply, chat::Access::All);
    let filled = t.access.unwrap();
    assert_eq!(filled.admin_commands.unwrap().blacklist, Some(chat::Access::Admins));
    assert_eq!(filled.markov.unwrap().generate, Some(chat::Access::All));
}
