//! The settings file: its fields, its template, and where it lives.
//!
//! Reading and parsing the file is the program's work; the library holds
//! the settings as plain values.

use vstd::prelude::*;
use crate::error::KindleError;
use crate::paths::{join_path, path_join};

verus! {

const QUALIFIER: &'static str = "com";

const ORGANIZATION: &'static str = "kaiogu";

const APPLICATION: &'static str = "kindle-to-markdown";

/// Returns the qualifier, organization and application name under which the
/// platform keeps the program's folders.
pub fn project_names() -> (names: (&'static str, &'static str, &'static str))
    ensures
        names.0@ == "com"@,
        names.1@ == "kaiogu"@,
        names.2@ == "kindle-to-markdown"@,
{
    (QUALIFIER, ORGANIZATION, APPLICATION)
}

/// Settings read from `settings.toml`; an absent key is `None`.
#[derive(Debug, Clone, PartialEq, Eq)]
pub struct AppSettings {
    pub discover: Option<bool>,
    pub output: Option<String>,
    pub layout: Option<SettingsLayout>,
    pub sort_by: Option<SettingsSort>,
    pub dedupe: Option<bool>,
    pub copy_raw: Option<CopyRawSetting>,
    pub no_stats: Option<bool>,
}

impl Default for AppSettings {
    fn default() -> (s: Self)
        ensures
            s.discover is None,
            s.output is None,
            s.layout is None,
            s.sort_by is None,
            s.dedupe is None,
            s.copy_raw is None,
            s.no_stats is None,
    {
        AppSettings {
            discover: None,
            output: None,
            layout: None,
            sort_by: None,
            dedupe: None,
            copy_raw: None,
            no_stats: None,
        }
    }
}

/// The `layout` setting.
#[derive(Debug, Clone, Copy, PartialEq, Eq, Structural)]
pub enum SettingsLayout {
    Single,
    ByBook,
}

/// The `sort-by` setting.
#[derive(Debug, Clone, Copy, PartialEq, Eq, Structural)]
pub enum SettingsSort {
    Book,
    Date,
    Location,
}

/// The `copy-raw` setting: on or off, or the path of the copy.
#[derive(Debug, Clone, PartialEq, Eq)]
pub enum CopyRawSetting {
    Enabled(bool),
    Path(String),
}

/// The text of the settings template.
pub open spec fn settings_template() -> Seq<char> {
    "# kindle-to-markdown settings\n#\n# Remove the leading `#` to enable a setting.\n\n# discover = true\n# output = \"clippings\"\n# layout = \"by-book\"\n# sort-by = \"location\"\n# dedupe = true\n# copy-raw = true\n# no-stats = false\n"@
}

/// Returns the template written by `--init-config`: every setting, commented out.
pub fn example_settings_toml() -> (t: &'static str)
    ensures
        t@ == settings_template(),
{
    "# kindle-to-markdown settings\n#\n# Remove the leading `#` to enable a setting.\n\n# discover = true\n# output = \"clippings\"\n# layout = \"by-book\"\n# sort-by = \"location\"\n# dedupe = true\n# copy-raw = true\n# no-stats = false\n"
}

#[verifier::external_type_specification]
#[verifier::external_body]
pub struct ExProjectDirs(directories::ProjectDirs);

/// Calls `directories::ProjectDirs::from`. Its result depends on the
/// environment (the home folder), so nothing is claimed of it.
#[verifier::external_body]
fn project_dirs_from(qualifier: &str, organization: &str, application: &str) -> Option<
    directories::ProjectDirs,
> {
    directories::ProjectDirs::from(qualifier, organization, application)
}

/// Calls `directories::ProjectDirs::config_dir` and returns the path as
/// text, with characters that are not Unicode replaced. Nothing is claimed
/// of it: the folder comes from the environment.
#[verifier::external_body]
fn project_config_dir(dirs: &directories::ProjectDirs) -> String {
    dirs.config_dir().to_string_lossy().into_owned()
}

/// Returns the settings file in the configuration folder `config_dir`, or
/// the error where the platform gave no such folder.
pub fn settings_path_in(config_dir: Option<String>) -> (r: Result<String, KindleError>)
    ensures
        config_dir is None ==> r == Err::<String, KindleError>(KindleError::NoSettingsDirectory),
        config_dir matches Some(d) ==> r matches Ok(p) && p@ == path_join(d@, "settings.toml"@),
{
    match config_dir {
        Some(d) => Ok(join_path(d.as_str(), "settings.toml")),
        None => Err(KindleError::NoSettingsDirectory),
    }
}

/// Returns the settings file in the configuration folder that the platform
/// gives for `project_names()`.
pub fn settings_path() -> (r: Result<String, KindleError>)
    ensures
        r matches Err(e) ==> e == KindleError::NoSettingsDirectory,
        r matches Ok(p) ==> exists|d: Seq<char>| p@ == #[trigger] path_join(d, "settings.toml"@),
{
    let (qualifier, organization, application) = project_names();
    let dir = match project_dirs_from(qualifier, organization, application) {
        Some(dirs) => Some(project_config_dir(&dirs)),
        None => None,
    };
    let ghost dv = dir;
    let r = settings_path_in(dir);
    proof {
        if let Some(d) = dv {
            assert(r matches Ok(p) && p@ == path_join(d@, "settings.toml"@));
        }
    }
    r
}

/// Returns the settings file to use: the given one, else the one of this
/// platform's configuration folder.
pub fn resolved_settings_path(override_path: Option<&str>) -> (r: Result<String, KindleError>)
    ensures
        override_path matches Some(p) ==> r matches Ok(q) && q@ == p@,
        override_path is None ==> (r matches Err(e) ==> e == KindleError::NoSettingsDirectory),
        override_path is None ==> (r matches Ok(q) ==> exists|d: Seq<char>|
            q@ == #[trigger] path_join(d, "settings.toml"@)),
{
    match override_path {
        Some(p) => Ok(p.to_owned()),
        None => settings_path(),
    }
}

} // verus!
