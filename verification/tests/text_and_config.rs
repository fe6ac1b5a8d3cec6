use nextcloud_ics_sync::config::{
    load_calendar_id, load_ics_password, load_ics_url, load_ics_username,
    load_nextcloud_password, load_nextcloud_url, load_nextcloud_username, Config, ConfigError,
    Environment,
};
use nextcloud_ics_sync::nextcloud::utils::get_calendar_id_after_username;
use nextcloud_ics_sync::text::{join, replace, trim_matches_char};

fn full_env() -> Environment {
    let mut env = Environment::new();
    env.set("NEXTCLOUD_URL".to_string(), "https://cloud.example.com".to_string());
    env.set("NEXTCLOUD_USERNAME".to_string(), "myuser".to_string());
    env.set("NEXTCLOUD_PASSWORD".to_string(), "xxxx-xxxx".to_string());
    env.set("CALENDAR_ID".to_string(), "work".to_string());
    env.set("ICS_URL".to_string(), "https://example.com/work.ics".to_string());
    env
}

fn missing_name(result: Result<Config, ConfigError>) -> String {
    match result {
        Ok(_) => panic!("expected a missing variable"),
        Err(ConfigError::MissingVar { name }) => name,
    }
}

#[test]
fn calendar_id_after_username_plain() {
    assert_eq!(
        get_calendar_id_after_username("/remote.php/dav/calendars/alice/work/", "alice"),
        Some("work".to_string())
    );
}

#[test]
fn calendar_id_after_username_home_collection_is_none() {
    assert_eq!(get_calendar_id_after_username("/remote.php/dav/calendars/alice/", "alice"), None);
}

#[test]
fn calendar_id_after_username_other_user_is_none() {
    assert_eq!(get_calendar_id_after_username("/remote.php/dav/calendars/bob/work/", "alice"), None);
}

#[test]
fn calendar_id_after_username_trims_all_slashes() {
    assert_eq!(
        get_calendar_id_after_username("/calendars/alice///personal//", "alice"),
        Some("personal".to_string())
    );
}

#[test]
fn calendar_id_after_username_splits_at_first_occurrence() {
    assert_eq!(
        get_calendar_id_after_username("/calendars/alice/alice/work/", "alice"),
        Some("alice/work".to_string())
    );
}

#[test]
fn calendar_id_after_username_needs_slashes_around_user() {
    assert_eq!(get_calendar_id_after_username("/calendars/malice/work/", "alice"), None);
}

#[test]
fn text_helpers() {
    assert_eq!(replace("a%2Fb%2F%2F", "%2F", "-"), "a-b--");
    assert_eq!(replace("%2%2F", "%2F", "-"), "%2-");
    assert_eq!(trim_matches_char("//a/b//", '/'), "a/b");
    assert_eq!(trim_matches_char("///", '/'), "");
    let ids = vec!["personal".to_string(), "work".to_string(), "birthdays".to_string()];
    assert_eq!(join(&ids, ", "), "personal, work, birthdays");
    assert_eq!(join(&Vec::new(), ", "), "");
}

#[test]
fn environment_set_replaces() {
    let mut env = Environment::new();
    env.set("A".to_string(), "1".to_string());
    env.set("A".to_string(), "2".to_string());
    assert_eq!(env.get("A"), Some("2".to_string()));
    assert_eq!(env.get("B"), None);
}

#[test]
fn config_from_full_env() {
    let config = Config::from_env(&full_env()).ok().unwrap();
    assert_eq!(
        config.nextcloud_calendar_url,
        "https://cloud.example.com/remote.php/dav/calendars/myuser/work/"
    );
    assert_eq!(config.nextcloud_url, "https://cloud.example.com");
    assert_eq!(config.nextcloud_username, "myuser");
    assert_eq!(config.nextcloud_password, "xxxx-xxxx");
    assert_eq!(config.ics_url, "https://example.com/work.ics");
    assert_eq!(config.ics_username, None);
    assert_eq!(config.ics_password, None);
}

#[test]
fn config_optional_ics_credentials() {
    let mut env = full_env();
    env.set("ICS_USERNAME".to_string(), "user".to_string());
    let config = Config::from_env(&env).ok().unwrap();
    assert_eq!(config.ics_username, Some("user".to_string()));
    assert_eq!(config.ics_password, None);
}

#[test]
fn config_reports_first_missing_variable() {
    assert_eq!(missing_name(Config::from_env(&Environment::new())), "NEXTCLOUD_URL");
    let mut env = Environment::new();
    env.set("NEXTCLOUD_URL".to_string(), "u".to_string());
    env.set("ICS_URL".to_string(), "i".to_string());
    assert_eq!(missing_name(Config::from_env(&env)), "NEXTCLOUD_USERNAME");
    env.set("NEXTCLOUD_USERNAME".to_string(), "n".to_string());
    assert_eq!(missing_name(Config::from_env(&env)), "CALENDAR_ID");
    env.set("CALENDAR_ID".to_string(), "c".to_string());
    assert_eq!(missing_name(Config::from_env(&env)), "NEXTCLOUD_PASSWORD");
    let mut env = full_env();
    let mut without_ics = Environment::new();
    for key in ["NEXTCLOUD_URL", "NEXTCLOUD_USERNAME", "NEXTCLOUD_PASSWORD", "CALENDAR_ID"] {
        without_ics.set(key.to_string(), env.get(key).unwrap());
    }
    assert_eq!(missing_name(Config::from_env(&without_ics)), "ICS_URL");
    env.set("ICS_PASSWORD".to_string(), "p".to_string());
    assert!(Config::from_env(&env).is_ok());
}

#[test]
fn load_single_variables() {
    let mut env = full_env();
    env.set("ICS_USERNAME".to_string(), "user".to_string());
    env.set("ICS_PASSWORD".to_string(), "secret".to_string());
    assert_eq!(load_ics_url(&env).ok(), Some("https://example.com/work.ics".to_string()));
    assert_eq!(load_ics_username(&env).ok(), Some("user".to_string()));
    assert_eq!(load_ics_password(&env).ok(), Some("secret".to_string()));
    assert_eq!(load_calendar_id(&env).ok(), Some("work".to_string()));
    assert_eq!(load_nextcloud_username(&env).ok(), Some("myuser".to_string()));
    assert_eq!(load_nextcloud_password(&env).ok(), Some("xxxx-xxxx".to_string()));
    assert_eq!(load_nextcloud_url(&env).ok(), Some("https://cloud.example.com".to_string()));
    match load_ics_username(&full_env()) {
        Err(ConfigError::MissingVar { name }) => assert_eq!(name, "ICS_USERNAME"),
        Ok(_) => panic!("ICS_USERNAME is not set"),
    }
}
