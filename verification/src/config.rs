//! Layered configuration: compiled-in defaults overlaid by whatever
//! keys the optional user settings file defines. One resolution pass
//! per invocation produces an immutable `Config` threaded through every
//! component.

use vstd::prelude::*;
use vstd::string::*;
use crate::errors::BmarkError;
use crate::order::str_eq;

verus! {

/// The effective configuration of one invocation.
pub struct Config {
    pub data_dir: String,
    pub dmenu_cmd: String,
    pub editor_cmd: String,
    pub terminal_cmd: String,
    pub alias_prefix: String,
    pub display_sep: String,
    pub show_paths: bool,
}

pub open spec fn default_dmenu_cmd() -> Seq<char> {
    "rofi -dmenu"@
}

pub open spec fn default_editor_cmd() -> Seq<char> {
    "nvim"@
}

pub open spec fn default_terminal_cmd() -> Seq<char> {
    "kitty --detach"@
}

pub open spec fn default_alias_prefix() -> Seq<char> {
    "_"@
}

pub open spec fn default_display_sep() -> Seq<char> {
    ":"@
}

impl Default for Config {
    /// The compiled-in defaults; the data directory starts empty and
    /// must come from the platform or the settings file.
    fn default() -> (r: Config)
        ensures
            r.data_dir@ == ""@,
            r.dmenu_cmd@ == default_dmenu_cmd(),
            r.editor_cmd@ == default_editor_cmd(),
            r.terminal_cmd@ == default_terminal_cmd(),
            r.alias_prefix@ == default_alias_prefix(),
            r.display_sep@ == default_display_sep(),
            r.show_paths == false,
    {
        Config {
            data_dir: "".to_owned(),
            dmenu_cmd: "rofi -dmenu".to_owned(),
            editor_cmd: "nvim".to_owned(),
            terminal_cmd: "kitty --detach".to_owned(),
            alias_prefix: "_".to_owned(),
            display_sep: ":".to_owned(),
            show_paths: false,
        }
    }
}

/// One key of the settings file, with its value if it was a string and
/// its value if it was a boolean; any other value shape carries
/// neither.
pub type ConfigPair = (String, Option<String>, Option<bool>);

/// What parsing a settings file yields: its top-level keys in the
/// parser's order, each with its string or boolean value, or `None`
/// when the text is not well-formed. The result depends on the text
/// alone.
pub uninterp spec fn toml_pairs(s: Seq<char>) -> Option<
    Seq<(Seq<char>, Option<Seq<char>>, Option<bool>)>,
>;

/// Relies on toml::from_str for `toml::Table`: parses TOML text into
/// its top-level key/value table, refusing malformed text; string and
/// boolean values are kept, values of any other type are carried as
/// neither.
#[verifier::external_body]
fn parse_toml_pairs(s: &str) -> (r: Option<Vec<ConfigPair>>)
    ensures
        r is Some <==> toml_pairs(s@) is Some,
        r matches Some(v) ==> toml_pairs(s@) == Some(v.deep_view()),
{
    let table: toml::Table = match toml::from_str(s) {
        Ok(t) => t,
        Err(_) => return None,
    };
    let mut out: Vec<ConfigPair> = Vec::new();
    for (k, v) in table {
        out.push(match v {
            toml::Value::String(x) => (k, Some(x), None),
            toml::Value::Boolean(b) => (k, None, Some(b)),
            _ => (k, None, None),
        });
    }
    Some(out)
}

/// Relies on directories::ProjectDirs::from, config_dir and data_dir:
/// the platform's per-user configuration and data directories for the
/// given qualifier, organization and application. The result depends
/// on the environment, so nothing is promised of it.
#[verifier::external_body]
fn project_dirs(qual: &str, org: &str, app: &str) -> (r: Option<(String, String)>)
{
    let d = directories::ProjectDirs::from(qual, org, app)?;
    let c = d.config_dir().to_str()?.to_string();
    let dd = d.data_dir().to_str()?.to_string();
    Some((c, dd))
}

/// The first settings entry carrying this key, if any.
pub open spec fn first_entry(
    ps: Seq<(Seq<char>, Option<Seq<char>>, Option<bool>)>,
    key: Seq<char>,
) -> Option<(Seq<char>, Option<Seq<char>>, Option<bool>)>
    decreases ps.len(),
{
    if ps.len() == 0 {
        None
    } else if ps[0].0 == key {
        Some(ps[0])
    } else {
        first_entry(ps.drop_first(), key)
    }
}

/// The effective string value of a key: the settings value when the
/// key is present with a string, the default otherwise.
pub open spec fn eff_string(
    ps: Seq<(Seq<char>, Option<Seq<char>>, Option<bool>)>,
    key: Seq<char>,
    dflt: Seq<char>,
) -> Seq<char> {
    match first_entry(ps, key) {
        Some(e) => match e.1 {
            Some(s) => s,
            None => dflt,
        },
        None => dflt,
    }
}

/// The effective boolean value of a key, by the same rule.
pub open spec fn eff_bool(
    ps: Seq<(Seq<char>, Option<Seq<char>>, Option<bool>)>,
    key: Seq<char>,
    dflt: bool,
) -> bool {
    match first_entry(ps, key) {
        Some(e) => match e.2 {
            Some(b) => b,
            None => dflt,
        },
        None => dflt,
    }
}

/// The effective data directory: the settings value when present as a
/// string, else the platform's, else none at all.
pub open spec fn eff_data_dir(
    ps: Seq<(Seq<char>, Option<Seq<char>>, Option<bool>)>,
    platform: Option<Seq<char>>,
) -> Option<Seq<char>> {
    match first_entry(ps, "data_dir"@) {
        Some(e) => match e.1 {
            Some(s) => Some(s),
            None => platform,
        },
        None => platform,
    }
}

/// A configuration resolved from the settings entries `ps` and the
/// platform data directory: every field is its settings value when the
/// key is present with the right shape, the default otherwise.
pub open spec fn resolved(
    c: Config,
    ps: Seq<(Seq<char>, Option<Seq<char>>, Option<bool>)>,
    platform: Option<Seq<char>>,
) -> bool {
    &&& eff_data_dir(ps, platform) == Some(c.data_dir@)
    &&& c.dmenu_cmd@ == eff_string(ps, "dmenu_cmd"@, default_dmenu_cmd())
    &&& c.editor_cmd@ == eff_string(ps, "editor_cmd"@, default_editor_cmd())
    &&& c.terminal_cmd@ == eff_string(ps, "terminal_cmd"@, default_terminal_cmd())
    &&& c.alias_prefix@ == eff_string(ps, "alias_prefix"@, default_alias_prefix())
    &&& c.display_sep@ == eff_string(ps, "display_sep"@, default_display_sep())
    &&& c.show_paths == eff_bool(ps, "show_paths"@, false)
}

/// Finds the first settings entry carrying this key.
fn lookup<'a>(pairs: &'a Vec<ConfigPair>, key: &str) -> (r: Option<&'a ConfigPair>)
    ensures
        match r {
            Some(e) => first_entry(pairs.deep_view(), key@) == Some(e.deep_view()),
            None => first_entry(pairs.deep_view(), key@) is None,
        },
{
    let n = pairs.len();
    let mut i: usize = 0;
    proof {
        assert(pairs.deep_view().skip(0) =~= pairs.deep_view());
    }
    while i < n
        invariant
            i <= n,
            n == pairs@.len(),
            pairs.deep_view().len() == n,
            first_entry(pairs.deep_view(), key@) == first_entry(
                pairs.deep_view().skip(i as int),
                key@,
            ),
        decreases n - i,
    {
        proof {
            assert(pairs.deep_view().skip(i as int)[0] == pairs.deep_view()[i as int]);
            assert(pairs.deep_view().skip(i as int).drop_first() =~= pairs.deep_view().skip(
                i as int + 1,
            ));
        }
        if str_eq(pairs[i].0.as_str(), key) {
            return Some(&pairs[i]);
        }
        i = i + 1;
    }
    None
}

/// The effective string value of a key, from the parsed settings.
fn eff_string_exec(pairs: &Vec<ConfigPair>, key: &str, dflt: &str) -> (r: String)
    ensures
        r@ == eff_string(pairs.deep_view(), key@, dflt@),
{
    match lookup(pairs, key) {
        Some(e) => match &e.1 {
            Some(s) => s.clone(),
            None => dflt.to_owned(),
        },
        None => dflt.to_owned(),
    }
}

/// The effective boolean value of a key, from the parsed settings.
fn eff_bool_exec(pairs: &Vec<ConfigPair>, key: &str, dflt: bool) -> (r: bool)
    ensures
        r == eff_bool(pairs.deep_view(), key@, dflt),
{
    match lookup(pairs, key) {
        Some(e) => match &e.2 {
            Some(b) => *b,
            None => dflt,
        },
        None => dflt,
    }
}

impl Config {
    /// Overlays the parsed settings entries on the defaults. Fails
    /// exactly when neither the settings nor the platform yields a
    /// data directory; every other field falls back silently.
    pub fn resolve(platform_data_dir: &Option<String>, pairs: &Vec<ConfigPair>) -> (r: Result<
        Config,
        BmarkError,
    >)
        ensures
            match r {
                Ok(c) => resolved(c, pairs.deep_view(), platform_data_dir.deep_view()),
                Err(e) => eff_data_dir(pairs.deep_view(), platform_data_dir.deep_view()) is None
                    && e is DataDirUnresolvable,
            },
    {
        let data_dir: Option<String> = match lookup(pairs, "data_dir") {
            Some(e) => match &e.1 {
                Some(s) => Some(s.clone()),
                None => match platform_data_dir {
                    Some(p) => Some(p.clone()),
                    None => None,
                },
            },
            None => match platform_data_dir {
                Some(p) => Some(p.clone()),
                None => None,
            },
        };
        let data_dir = match data_dir {
            Some(d) => d,
            None => {
                return Err(BmarkError::DataDirUnresolvable);
            },
        };
        Ok(
            Config {
                data_dir,
                dmenu_cmd: eff_string_exec(pairs, "dmenu_cmd", "rofi -dmenu"),
                editor_cmd: eff_string_exec(pairs, "editor_cmd", "nvim"),
                terminal_cmd: eff_string_exec(pairs, "terminal_cmd", "kitty --detach"),
                alias_prefix: eff_string_exec(pairs, "alias_prefix", "_"),
                display_sep: eff_string_exec(pairs, "display_sep", ":"),
                show_paths: eff_bool_exec(pairs, "show_paths", false),
            },
        )
    }

    /// Resolves the configuration from the settings file text, if any,
    /// and the platform data directory. A malformed settings file is
    /// reported in the second component and the defaults stand, as if
    /// no file were present.
    pub fn from_sources(platform_data_dir: &Option<String>, config_text: Option<&str>) -> (r: (
        Result<Config, BmarkError>,
        bool,
    ))
        ensures
            ({
                let parsed = match config_text {
                    Some(t) => toml_pairs(t@),
                    None => Some(Seq::<(Seq<char>, Option<Seq<char>>, Option<bool>)>::empty()),
                };
                let ps = match parsed {
                    Some(ps) => ps,
                    None => Seq::empty(),
                };
                &&& r.1 == (config_text is Some && parsed is None)
                &&& match r.0 {
                    Ok(c) => resolved(c, ps, platform_data_dir.deep_view()),
                    Err(e) => eff_data_dir(ps, platform_data_dir.deep_view()) is None && e
                        is DataDirUnresolvable,
                }
            }),
    {
        let empty_pairs: Vec<ConfigPair> = Vec::new();
        proof {
            assert(empty_pairs.deep_view() =~= Seq::<
                (Seq<char>, Option<Seq<char>>, Option<bool>),
            >::empty());
        }
        match config_text {
            None => (Config::resolve(platform_data_dir, &empty_pairs), false),
            Some(t) => match parse_toml_pairs(t) {
                None => (Config::resolve(platform_data_dir, &empty_pairs), true),
                Some(v) => (Config::resolve(platform_data_dir, &v), false),
            },
        }
    }
}

/// A path below a directory, joined with a slash.
pub open spec fn spec_join(dir: Seq<char>, name: Seq<char>) -> Seq<char> {
    dir + "/"@ + name
}

/// Joins a file name onto a directory path.
pub fn join_path(dir: &String, name: &str) -> (r: String)
    ensures
        r@ == spec_join(dir@, name@),
{
    let mut out = dir.clone();
    out.append("/");
    out.append(name);
    proof {
        assert(out@ =~= spec_join(dir@, name@));
    }
    out
}

/// The quoted-string rendering of a field: `key = "value"` and a line
/// break.
pub open spec fn spec_config_field(key: Seq<char>, value: Seq<char>) -> Seq<char> {
    key + " = \""@ + value + "\"\n"@
}

/// `true` or `false`.
pub open spec fn spec_bool_text(b: bool) -> Seq<char> {
    if b {
        "true"@
    } else {
        "false"@
    }
}

/// How `config show` prints a configuration: one quoted field per
/// line, a stray comma after the display separator, and the flag
/// quoted like a string.
pub open spec fn spec_render_config(c: Config) -> Seq<char> {
    spec_config_field("data_dir"@, c.data_dir@) + spec_config_field("dmenu_cmd"@, c.dmenu_cmd@)
        + spec_config_field("editor_cmd"@, c.editor_cmd@) + spec_config_field(
        "terminal_cmd"@,
        c.terminal_cmd@,
    ) + spec_config_field("alias_prefix"@, c.alias_prefix@) + "display_sep = \""@
        + c.display_sep@ + "\",\n"@ + "show_paths = \""@ + spec_bool_text(c.show_paths) + "\""@
}

/// What `config create` writes: the default values verbatim, without
/// the flag.
pub open spec fn spec_default_config_text() -> Seq<char> {
    spec_config_field("data_dir"@, ""@) + spec_config_field("dmenu_cmd"@, default_dmenu_cmd())
        + spec_config_field("editor_cmd"@, default_editor_cmd()) + spec_config_field(
        "terminal_cmd"@,
        default_terminal_cmd(),
    ) + spec_config_field("alias_prefix"@, default_alias_prefix()) + "display_sep = \""@
        + default_display_sep() + "\""@
}

impl Config {
    /// Renders the configuration the way `config show` prints it.
    pub fn render(&self) -> (r: String)
        ensures
            r@ == spec_render_config(*self),
    {
        let mut out = String::new();
        out.append("data_dir = \"");
        out.append(self.data_dir.as_str());
        out.append("\"\ndmenu_cmd = \"");
        out.append(self.dmenu_cmd.as_str());
        out.append("\"\neditor_cmd = \"");
        out.append(self.editor_cmd.as_str());
        out.append("\"\nterminal_cmd = \"");
        out.append(self.terminal_cmd.as_str());
        out.append("\"\nalias_prefix = \"");
        out.append(self.alias_prefix.as_str());
        out.append("\"\ndisplay_sep = \"");
        out.append(self.display_sep.as_str());
        out.append("\",\nshow_paths = \"");
        if self.show_paths {
            out.append("true");
        } else {
            out.append("false");
        }
        out.append("\"");
        proof {
            reveal_strlit("data_dir = \"");
            reveal_strlit("\"\ndmenu_cmd = \"");
            reveal_strlit("\"\neditor_cmd = \"");
            reveal_strlit("\"\nterminal_cmd = \"");
            reveal_strlit("\"\nalias_prefix = \"");
            reveal_strlit("\"\ndisplay_sep = \"");
            reveal_strlit("\",\nshow_paths = \"");
            reveal_strlit("\"");
            reveal_strlit("data_dir");
            reveal_strlit("dmenu_cmd");
            reveal_strlit("editor_cmd");
            reveal_strlit("terminal_cmd");
            reveal_strlit("alias_prefix");
            reveal_strlit(" = \"");
            reveal_strlit("\"\n");
            reveal_strlit("display_sep = \"");
            reveal_strlit("\",\n");
            reveal_strlit("show_paths = \"");
            assert(out@ =~= spec_render_config(*self));
        }
        out
    }

    /// Renders the settings file `config create` writes: the defaults
    /// verbatim.
    pub fn default_file_content() -> (r: String)
        ensures
            r@ == spec_default_config_text(),
    {
        let c = Config::default();
        let mut out = String::new();
        out.append("data_dir = \"");
        out.append(c.data_dir.as_str());
        out.append("\"\ndmenu_cmd = \"");
        out.append(c.dmenu_cmd.as_str());
        out.append("\"\neditor_cmd = \"");
        out.append(c.editor_cmd.as_str());
        out.append("\"\nterminal_cmd = \"");
        out.append(c.terminal_cmd.as_str());
        out.append("\"\nalias_prefix = \"");
        out.append(c.alias_prefix.as_str());
        out.append("\"\ndisplay_sep = \"");
        out.append(c.display_sep.as_str());
        out.append("\"");
        proof {
            reveal_strlit("data_dir = \"");
            reveal_strlit("\"\ndmenu_cmd = \"");
            reveal_strlit("\"\neditor_cmd = \"");
            reveal_strlit("\"\nterminal_cmd = \"");
            reveal_strlit("\"\nalias_prefix = \"");
            reveal_strlit("\"\ndisplay_sep = \"");
            reveal_strlit("\"");
            reveal_strlit("data_dir");
            reveal_strlit("dmenu_cmd");
            reveal_strlit("editor_cmd");
            reveal_strlit("terminal_cmd");
            reveal_strlit("alias_prefix");
            reveal_strlit(" = \"");
            reveal_strlit("\"\n");
            reveal_strlit("display_sep = \"");
            reveal_strlit("");
            assert(out@ =~= spec_default_config_text());
        }
        out
    }

    /// The platform's per-user data directory for this tool, if the
    /// platform names one. The answer depends on the environment.
    pub fn platform_data_dir() -> (r: Option<String>) {
        match project_dirs("com", "bmark", "bmark") {
            Some((_, d)) => Some(d),
            None => None,
        }
    }

    /// The path of the optional user settings file, if the platform
    /// names a configuration directory for this tool.
    pub fn user_config_file() -> (r: Option<String>)
        ensures
            r matches Some(p) ==> exists|d: Seq<char>| p@ == #[trigger] spec_join(
                d,
                "config.toml"@,
            ),
    {
        match project_dirs("com", "bmark", "bmark") {
            Some((c, _)) => {
                let f = join_path(&c, "config.toml");
                proof {
                    assert(f@ == spec_join(c@, "config.toml"@));
                }
                Some(f)
            },
            None => None,
        }
    }

    /// The bookmark store file inside the data directory.
    pub fn get_bookmarks_file(&self) -> (r: String)
        ensures
            r@ == spec_join(self.data_dir@, "bookmarks.toml"@),
    {
        join_path(&self.data_dir, "bookmarks.toml")
    }

    /// The alias file inside the data directory.
    pub fn get_alias_file(&self) -> (r: String)
        ensures
            r@ == spec_join(self.data_dir@, "aliases.sh"@),
    {
        join_path(&self.data_dir, "aliases.sh")
    }

    /// The line `config source-cmd` prints: a `source` command for the
    /// alias file.
    pub fn source_cmd_line(&self) -> (r: String)
        ensures
            r@ == "source \""@ + spec_join(self.data_dir@, "aliases.sh"@) + "\""@,
    {
        let mut out = String::new();
        out.append("source \"");
        out.append(self.data_dir.as_str());
        out.append("/aliases.sh\"");
        proof {
            reveal_strlit("source \"");
            reveal_strlit("/aliases.sh\"");
            reveal_strlit("/");
            reveal_strlit("aliases.sh");
            reveal_strlit("\"");
            assert(out@ =~= "source \""@ + spec_join(self.data_dir@, "aliases.sh"@) + "\""@);
        }
        out
    }
}

} // verus!
