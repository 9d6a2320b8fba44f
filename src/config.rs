use vstd::prelude::*;
use vstd::string::StringExecFns;

verus! {

/// The tool's settings.
#[derive(Clone, Debug)]
pub struct Config {
    /// Shell commands run after translation files were written.
    pub post_write_commands: Vec<String>,
    /// The locale whose file holds the reference keys.
    pub default_locale: String,
    /// The directory of the translation files.
    pub translations_directory: String,
}

/// Whether `c` holds the settings used when none are configured.
pub open spec fn is_default_config(c: Config) -> bool {
    &&& c.post_write_commands@.len() == 0
    &&& c.default_locale@ == "en"@
    &&& c.translations_directory@ == "translations"@
}

impl Default for Config {
    fn default() -> (r: Self)
        ensures
            is_default_config(r),
    {
        Self {
            default_locale: String::from_str("en"),
            post_write_commands: Vec::new(),
            translations_directory: String::from_str("translations"),
        }
    }
}

/// The settings in force: those loaded, or the defaults when loading failed.
pub fn get_config(loaded: Result<Config, String>) -> (r: Config)
    ensures
        loaded is Ok ==> r == loaded->Ok_0,
        loaded is Err ==> is_default_config(r),
{
    match loaded {
        Ok(config) => config,
        Err(_) => Config::default(),
    }
}

} // verus!
