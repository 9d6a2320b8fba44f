use translation_tool::cli::{KeyValidation, TranslationKeyValidator, UpdateAutocomplete};
use translation_tool::commands::{check_new_key, CommandError};
use translation_tool::config::{get_config, Config};
use translation_tool::error::ParserError;
use translation_tool::files::find_default_locale_file;

fn strings(v: &[&str]) -> Vec<String> {
    v.iter().map(|s| s.to_string()).collect()
}

#[test]
fn suggestions_hold_every_word() {
    let ac = UpdateAutocomplete::new(strings(&["nav.home", "nav.menu.open", "footer.home"]));
    assert_eq!(ac.get_suggestions("home"), strings(&["nav.home", "footer.home"]));
    assert_eq!(ac.get_suggestions("nav home"), strings(&["nav.home"]));
    assert_eq!(ac.get_suggestions(""), strings(&["nav.home", "nav.menu.open", "footer.home"]));
    assert!(ac.get_suggestions("zzz").is_empty());
}

#[test]
fn validator_accepts_known_keys() {
    let v = TranslationKeyValidator::new(strings(&["a.b"]), false);
    assert_eq!(v.validate("a.b"), KeyValidation::Valid);
    assert_eq!(
        v.validate("a.c"),
        KeyValidation::Invalid("'a.c' is not a valid key in the main locale file".to_string())
    );
}

#[test]
fn inverted_validator_refuses_known_keys() {
    let v = TranslationKeyValidator::new(strings(&["nav"]), true);
    assert_eq!(v.validate("other"), KeyValidation::Valid);
    assert_eq!(
        v.validate("nav"),
        KeyValidation::Invalid("'nav' has sub-keys. Can not select this key.".to_string())
    );
}

#[test]
fn adding_a_group_key_is_refused() {
    let groups = strings(&["nav", "nav.menu"]);
    assert_eq!(
        check_new_key(&groups, &"nav.menu".to_string()),
        Err(CommandError::Generic("'nav.menu' has nested keys. Could not add as this key.".to_string()))
    );
    assert_eq!(check_new_key(&groups, &"nav.menu.new".to_string()), Ok(()));
}

#[test]
fn command_error_message() {
    assert_eq!(CommandError::Generic("3 issues found.".to_string()).message(), "3 issues found.");
}

#[test]
fn default_locale_file_is_found() {
    let names = strings(&["fr.json", "en.json", "de.json"]);
    assert_eq!(find_default_locale_file(&names, &"en".to_string()), Ok(1));
    assert_eq!(
        find_default_locale_file(&names, &"it".to_string()),
        Err("Could not find default translation file. Searching for it.json".to_string())
    );
}

#[test]
fn config_defaults() {
    let c = Config::default();
    assert_eq!(c.default_locale, "en");
    assert_eq!(c.translations_directory, "translations");
    assert!(c.post_write_commands.is_empty());
}

#[test]
fn config_falls_back_to_defaults() {
    let c = get_config(Err("Config not found".to_string()));
    assert_eq!(c.default_locale, "en");
    let loaded = Config {
        post_write_commands: strings(&["echo done"]),
        default_locale: "fr".to_string(),
        translations_directory: "locales".to_string(),
    };
    let c = get_config(Ok(loaded));
    assert_eq!(c.default_locale, "fr");
    assert_eq!(c.translations_directory, "locales");
    assert_eq!(c.post_write_commands, strings(&["echo done"]));
}

#[test]
fn parser_error_messages() {
    assert_eq!(ParserError::KeyNotFound { key: "a".to_string() }.message(), "Key 'a' not found");
    assert_eq!(
        ParserError::NotAString { key: "nav".to_string() }.message(),
        "Value for key 'nav' is not a string"
    );
    assert_eq!(
        ParserError::InvalidValueType { key: "a.b".to_string(), value_type: "number".to_string() }.message(),
        "Invalid value 'number' for key: 'a.b', it should be either a string or map with strings."
    );
    assert_eq!(
        ParserError::FileDoesNotExist("x/en.json".to_string()).message(),
        "File does not exist: x/en.json"
    );
    assert_eq!(
        ParserError::PathSegmentConflict { path: "a".to_string() }.message(),
        "Key 'a' holds a string, so it can not hold nested keys"
    );
}
