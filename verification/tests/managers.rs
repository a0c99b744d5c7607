use sd_archivemanager::config::Config;
use sd_archivemanager::converters::{clean_doc_title, doc_id_from_segments, message_id_from_link};
use sd_archivemanager::error::Error;
use sd_archivemanager::format_auth;
use sd_archivemanager::guilds::Guilds;
use sd_archivemanager::plugins::{PluginManager, PluginManifest};
use sd_archivemanager::regex::{Profile, RegexManager, Target};

fn profile(author: &str, name: &str, target: Target) -> Profile {
    Profile {
        author: author.to_string(),
        regex: "x".to_string(),
        for_title: false,
        name: name.to_string(),
        replace: "y".to_string(),
        target,
    }
}

#[test]
fn config_token_accessors() {
    let mut config = Config {
        token: "old".to_string(),
        login: "user".to_string(),
        passwd: "pw".to_string(),
        endpoint: "https://example.invalid/api.php".to_string(),
        bot: false,
    };
    assert_eq!(config.get_token().as_str(), "old");
    config.set_token("new".to_string());
    assert_eq!(config.get_token().as_str(), "new");
    assert_eq!(config.login, "user");
}

#[test]
fn config_with_credentials() {
    let config = Config::with_credentials(
        "tok".to_string(),
        "login".to_string(),
        "pw".to_string(),
    );
    assert_eq!(config.token, "tok");
    assert_eq!(config.endpoint, "https://qwrky.dev/mediawiki/api.php");
    assert!(config.bot);
}

#[test]
fn auth_header_formats() {
    let mut config = Config::with_credentials(
        "abc".to_string(),
        "l".to_string(),
        "p".to_string(),
    );
    assert_eq!(format_auth(&config), "Bot abc");
    config.bot = false;
    assert_eq!(format_auth(&config), "abc");
}

#[test]
fn default_guild_list() {
    let guilds = Guilds::default();
    let list = guilds.get_guilds();
    assert_eq!(list.len(), 2);
    assert_eq!(list[0].id, 554769523635650580);
    assert_eq!(list[0].name, "SimDemocracy");
    assert_eq!(list[0].eo_src, 1232486399295619103);
    assert_eq!(list[0].leg_src, 1346304876581228554);
    assert_eq!(list[1].id, 1342703437371932712);
    assert_eq!(list[1].name, "National Archives");
    assert_eq!(list[1].eo_src, 1348711268877467738);
    assert_eq!(list[1].leg_src, 1348710825619230750);
}

#[test]
fn save_regex_appends_profile() {
    let mut rgx = RegexManager::new();
    assert!(rgx.profile.is_none());
    rgx.save_regex(
        "xyz".to_string(),
        "testuser",
        "Testing",
        false,
        Target::EO,
        "abc".to_string(),
    )
    .unwrap();
    let stored = rgx.profile.as_ref().unwrap();
    assert_eq!(stored.len(), 1);
    assert_eq!(stored[0].author, "testuser");
    assert_eq!(stored[0].regex, "xyz");
    assert_eq!(stored[0].name, "Testing");
    assert_eq!(stored[0].replace, "abc");
    assert_eq!(stored[0].target, Target::EO);
    assert!(!stored[0].for_title);
    rgx.save_regex(
        "second".to_string(),
        "other",
        "More",
        true,
        Target::Legislation,
        "z".to_string(),
    )
    .unwrap();
    assert_eq!(rgx.profile.as_ref().unwrap().len(), 2);
}

#[test]
fn get_regexs_filters_and_sorts() {
    let rgx = RegexManager {
        profile: Some(vec![
            profile("alice, bob", "002-Second", Target::EO),
            profile("*", "001-First", Target::EO),
            profile("bob", "003-Other-target", Target::Legislation),
            profile("carol", "000-Not-bob", Target::EO),
        ]),
    };
    let picked = rgx.get_regexs("bob", Target::EO);
    let names: Vec<&str> = picked.iter().map(|p| p.name.as_str()).collect();
    assert_eq!(names, vec!["001-First", "002-Second"]);
    assert!(rgx.get_regexs("dave", Target::CaseLaw).is_empty());
    // the wildcard must be the whole field, not one entry of a list
    let mixed = RegexManager {
        profile: Some(vec![profile("a,*", "004-Listed-star", Target::EO)]),
    };
    assert!(mixed.get_regexs("bob", Target::EO).is_empty());
    assert_eq!(mixed.get_regexs("*", Target::EO).len(), 1);
}

#[test]
fn get_regexs_trims_author_entries() {
    let rgx = RegexManager {
        profile: Some(vec![profile("alice , bob ,carol", "001", Target::EO)]),
    };
    assert_eq!(rgx.get_regexs("bob", Target::EO).len(), 1);
    assert_eq!(rgx.get_regexs("carol", Target::EO).len(), 1);
    assert!(rgx.get_regexs("dave", Target::EO).is_empty());
}

#[test]
fn empty_manager_answers_nothing() {
    let rgx = RegexManager::new();
    assert!(rgx.get_regexs("anyone", Target::EO).is_empty());
    let plugins = PluginManager { plugins: None };
    assert!(plugins.get_plugins("anyone", Target::EO).is_empty());
}

#[test]
fn get_plugins_filters_and_sorts() {
    let manifest = |author: &str, name: &str, target: Target| PluginManifest {
        name: name.to_string(),
        author: author.to_string(),
        pre: true,
        post: false,
        target,
        path: "/plugins/p.wasm".to_string(),
    };
    let plugins = PluginManager {
        plugins: Some(vec![
            manifest("*", "b-late", Target::EO),
            manifest("bob", "a-early", Target::EO),
            manifest("bob", "c-other", Target::CaseLaw),
        ]),
    };
    let picked = plugins.get_plugins("bob", Target::EO);
    let names: Vec<&str> = picked.iter().map(|p| p.name.as_str()).collect();
    assert_eq!(names, vec!["a-early", "b-late"]);
}

#[test]
fn message_id_extraction() {
    assert_eq!(
        message_id_from_link("https://discord.com/channels/554769523635650580/1348749282349416529"),
        Ok(1348749282349416529)
    );
    assert_eq!(
        message_id_from_link("https://discord.com/channels/1/notdigits"),
        Err(Error::InvalidLink)
    );
    assert_eq!(message_id_from_link("no-slashes"), Err(Error::InvalidLink));
    // an optional leading plus sign is accepted, as a plain decimal parse would
    assert_eq!(
        message_id_from_link("https://discord.com/channels/1/+77"),
        Ok(77)
    );
    assert_eq!(
        message_id_from_link("https://discord.com/channels/1/+"),
        Err(Error::InvalidLink)
    );
    assert_eq!(
        message_id_from_link("https://discord.com/channels/1/99999999999999999999999"),
        Err(Error::InvalidLink)
    );
    assert_eq!(Error::InvalidLink.describe(), "invalid url");
}

#[test]
fn doc_id_extraction() {
    let segments = vec![
        "document".to_string(),
        "d".to_string(),
        "ABC123".to_string(),
        "edit".to_string(),
    ];
    assert_eq!(doc_id_from_segments(&segments), Some("ABC123".to_string()));
    assert_eq!(doc_id_from_segments(&vec!["x".to_string()]), None);
    assert_eq!(doc_id_from_segments(&vec!["d".to_string()]), None);
}

#[test]
fn doc_title_cleanup() {
    assert_eq!(clean_doc_title("My Law - Google Docs"), "My Law");
    assert_eq!(clean_doc_title("Plain title"), "Plain title");
    assert_eq!(clean_doc_title(""), "");
}
