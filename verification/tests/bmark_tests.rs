use bmark::bookmarks::Bookmarks;
use bmark::cli::ConfigCommand;
use bmark::cli::ConfigCreate;
use bmark::cli::ConfigEdit;
use bmark::cli::ConfigShow;
use bmark::cli::ConfigSourceCmd;
use bmark::codec::load;
use bmark::codec::serialize_entry;
use bmark::codec::serialize_table;
use bmark::config::Config;
use bmark::errors::BmarkError;
use bmark::plan::plan_add;
use bmark::plan::plan_config;
use bmark::plan::plan_rm;
use bmark::plan::ConfigPlan;
use bmark::render::generate;
use bmark::render::parse_choice;
use bmark::render::render_human;
use bmark::render::render_plain;
use bmark::table::BookmarkTable;

fn table_of(pairs: &[(&str, &str)]) -> BookmarkTable {
    let mut t = BookmarkTable::new();
    for (k, v) in pairs {
        t = t.insert(k.to_string(), v.to_string()).unwrap();
    }
    t
}

fn entries_of(t: &BookmarkTable) -> Vec<(String, String)> {
    let mut out = Vec::new();
    let mut i = 0;
    while i < t.len() {
        out.push((t.name_at(i).clone(), t.path_at(i).clone()));
        i += 1;
    }
    out
}

fn test_config() -> Config {
    let mut c = Config::default();
    c.data_dir = "/data".to_string();
    c
}

#[test]
fn serialize_bare_and_quoted_names() {
    assert_eq!(serialize_entry(&"a".to_string(), &"/x".to_string()), "a = \"/x\"\n");
    assert_eq!(
        serialize_entry(&"b c".to_string(), &"/path with space".to_string()),
        "\"b c\" = \"/path with space\"\n"
    );
}

#[test]
fn serialize_table_in_name_order() {
    let t = table_of(&[("zeta", "/z"), ("alpha", "/a")]);
    assert_eq!(serialize_table(&t), "alpha = \"/a\"\nzeta = \"/z\"\n");
}

#[test]
fn load_round_trip() {
    let t = table_of(&[("alpha", "/a"), ("b c", "/path with space"), ("zeta", "/z")]);
    let text = serialize_table(&t);
    let t2 = load(&text).unwrap();
    assert_eq!(entries_of(&t), entries_of(&t2));
    assert_eq!(serialize_table(&t2), text);
}

#[test]
fn round_trip_keeps_tricky_names_and_empty_paths() {
    let t = table_of(&[("a=b", ""), ("c", "/x")]);
    let text = serialize_table(&t);
    assert_eq!(text, "a=b = \"\"\nc = \"/x\"\n");
    let t2 = load(&text).unwrap();
    assert_eq!(entries_of(&t), entries_of(&t2));
}

#[test]
fn load_sorts_and_unquotes() {
    let t = load("\"b c\" = \"/y\"\na = \"/x\"\n").unwrap();
    assert_eq!(
        entries_of(&t),
        vec![("a".to_string(), "/x".to_string()), ("b c".to_string(), "/y".to_string())]
    );
}

#[test]
fn load_accepts_missing_final_newline() {
    let t = load("a = \"/x\"").unwrap();
    assert_eq!(entries_of(&t), vec![("a".to_string(), "/x".to_string())]);
}

#[test]
fn load_skips_empty_lines() {
    let t = load("\na = \"/x\"\n\n").unwrap();
    assert_eq!(t.len(), 1);
}

#[test]
fn load_rejects_unparseable_line() {
    assert!(matches!(load("garbage\n"), Err(BmarkError::StoreCorrupt)));
    assert!(matches!(load("a = unquoted\n"), Err(BmarkError::StoreCorrupt)));
    assert!(matches!(load("= \"/x\"\n"), Err(BmarkError::StoreCorrupt)));
}

#[test]
fn load_rejects_duplicate_names() {
    assert!(matches!(load("a = \"/x\"\na = \"/y\"\n"), Err(BmarkError::StoreCorrupt)));
}

#[test]
fn add_rejects_duplicate_name() {
    let t = table_of(&[("a", "/x")]);
    let r = plan_add(&t, Some("a".to_string()), &"/elsewhere".to_string(), &test_config());
    match r {
        Err(BmarkError::DuplicateName(n)) => assert_eq!(n, "a"),
        _ => panic!("expected DuplicateName"),
    }
    assert_eq!(entries_of(&t), vec![("a".to_string(), "/x".to_string())]);
}

#[test]
fn add_derives_name_from_working_directory() {
    let t = BookmarkTable::new();
    let p = plan_add(&t, None, &"/home/user/project".to_string(), &test_config()).unwrap();
    assert_eq!(p.name, "project");
    assert_eq!(p.append_line, "project = \"/home/user/project\"\n");
    assert_eq!(p.alias_text, "alias _project='cd \"/home/user/project\"'\n");
    assert!(!p.space_warning);
    assert_eq!(
        entries_of(&p.table),
        vec![("project".to_string(), "/home/user/project".to_string())]
    );
}

#[test]
fn add_spaced_name_warns_and_gets_no_alias() {
    let t = BookmarkTable::new();
    let p = plan_add(&t, Some("b c".to_string()), &"/y".to_string(), &test_config()).unwrap();
    assert!(p.space_warning);
    assert_eq!(p.append_line, "\"b c\" = \"/y\"\n");
    assert_eq!(p.alias_text, "");
}

#[test]
fn generate_skips_spaced_names() {
    let t = table_of(&[("a", "/x"), ("b c", "/y")]);
    let out = generate(&t, &"_".to_string());
    assert_eq!(out, "alias _a='cd \"/x\"'\n");
}

#[test]
fn generate_is_deterministic() {
    let t = table_of(&[("a", "/x"), ("b", "/y")]);
    let first = generate(&t, &"_".to_string());
    let second = generate(&t, &"_".to_string());
    assert_eq!(first, second);
    assert_eq!(first, "alias _a='cd \"/x\"'\nalias _b='cd \"/y\"'\n");
    assert_eq!(generate(&BookmarkTable::new(), &"_".to_string()), "");
}

#[test]
fn rm_single_entry_empties_everything() {
    let t = table_of(&[("a", "/x")]);
    let p = plan_rm(&t, &"a".to_string(), &test_config()).unwrap();
    assert_eq!(p.table.len(), 0);
    assert_eq!(p.store_text, "");
    assert_eq!(p.alias_text, "");
}

#[test]
fn rm_keeps_exactly_the_others() {
    let t = table_of(&[("a", "/x"), ("b", "/y"), ("c", "/z")]);
    let p = plan_rm(&t, &"b".to_string(), &test_config()).unwrap();
    assert_eq!(
        entries_of(&p.table),
        vec![("a".to_string(), "/x".to_string()), ("c".to_string(), "/z".to_string())]
    );
    assert_eq!(p.store_text, "a = \"/x\"\nc = \"/z\"\n");
}

#[test]
fn rm_missing_name_fails_and_changes_nothing() {
    let t = table_of(&[("a", "/x")]);
    match plan_rm(&t, &"zzz".to_string(), &test_config()) {
        Err(BmarkError::NotFound(n)) => assert_eq!(n, "zzz"),
        _ => panic!("expected NotFound"),
    }
    assert_eq!(entries_of(&t), vec![("a".to_string(), "/x".to_string())]);
}

#[test]
fn render_human_aligns_names() {
    let t = table_of(&[("a", "/x"), ("longname", "/y")]);
    let out = render_human(&t, &":".to_string());
    assert_eq!(out, "a       :/x\nlongname:/y\n");
}

#[test]
fn reverse_parse_recovers_path() {
    let t = table_of(&[("a", "/x"), ("longname", "/y")]);
    let rendered = render_human(&t, &":".to_string());
    let first_line: String = rendered.lines().next().unwrap().to_string() + "\n";
    assert_eq!(parse_choice(&first_line, ":").unwrap(), "/x");
    assert_eq!(parse_choice("longname:/y\n", ":").unwrap(), "/y");
    assert_eq!(parse_choice("longname:/y", ":").unwrap(), "/y");
}

#[test]
fn reverse_parse_empty_choice_is_cancellation() {
    assert!(matches!(parse_choice("", ":"), Err(BmarkError::NoChoice)));
}

#[test]
fn reverse_parse_without_separator_fails() {
    assert!(matches!(parse_choice("no separator here\n", ":"), Err(BmarkError::UnparseableChoice)));
}

#[test]
fn render_plain_runs_entries_together() {
    let t = table_of(&[("a", "/x"), ("b", "/y")]);
    assert_eq!(render_plain(&t), "a - /xb - /y");
}

#[test]
fn config_defaults_without_settings_file() {
    let (r, warned) = Config::from_sources(&Some("/data".to_string()), None);
    let c = r.unwrap();
    assert!(!warned);
    assert_eq!(c.data_dir, "/data");
    assert_eq!(c.dmenu_cmd, "rofi -dmenu");
    assert_eq!(c.editor_cmd, "nvim");
    assert_eq!(c.terminal_cmd, "kitty --detach");
    assert_eq!(c.alias_prefix, "_");
    assert_eq!(c.display_sep, ":");
    assert!(!c.show_paths);
}

#[test]
fn config_overrides_present_keys_only() {
    let text = "dmenu_cmd = \"fzf\"\nshow_paths = true\ndata_dir = \"/custom\"\n";
    let (r, warned) = Config::from_sources(&Some("/data".to_string()), Some(text));
    let c = r.unwrap();
    assert!(!warned);
    assert_eq!(c.data_dir, "/custom");
    assert_eq!(c.dmenu_cmd, "fzf");
    assert_eq!(c.editor_cmd, "nvim");
    assert!(c.show_paths);
}

#[test]
fn config_ignores_keys_of_the_wrong_shape() {
    let text = "dmenu_cmd = true\nshow_paths = \"yes\"\n";
    let (r, warned) = Config::from_sources(&Some("/data".to_string()), Some(text));
    let c = r.unwrap();
    assert!(!warned);
    assert_eq!(c.dmenu_cmd, "rofi -dmenu");
    assert!(!c.show_paths);
}

#[test]
fn config_malformed_settings_warns_and_uses_defaults() {
    let (r, warned) = Config::from_sources(&Some("/data".to_string()), Some("::: not toml :::"));
    let c = r.unwrap();
    assert!(warned);
    assert_eq!(c.dmenu_cmd, "rofi -dmenu");
    assert_eq!(c.data_dir, "/data");
}

#[test]
fn config_without_any_data_dir_is_fatal() {
    let (r, warned) = Config::from_sources(&None, None);
    assert!(!warned);
    assert!(matches!(r, Err(BmarkError::DataDirUnresolvable)));
}

#[test]
fn config_settings_data_dir_beats_platform() {
    let (r, _) = Config::from_sources(&None, Some("data_dir = \"/from-file\"\n"));
    assert_eq!(r.unwrap().data_dir, "/from-file");
}

#[test]
fn config_render_matches_show_format() {
    let c = test_config();
    assert_eq!(
        c.render(),
        "data_dir = \"/data\"\ndmenu_cmd = \"rofi -dmenu\"\neditor_cmd = \"nvim\"\nterminal_cmd = \"kitty --detach\"\nalias_prefix = \"_\"\ndisplay_sep = \":\",\nshow_paths = \"false\""
    );
}

#[test]
fn config_default_file_content_is_the_defaults() {
    assert_eq!(
        Config::default_file_content(),
        "data_dir = \"\"\ndmenu_cmd = \"rofi -dmenu\"\neditor_cmd = \"nvim\"\nterminal_cmd = \"kitty --detach\"\nalias_prefix = \"_\"\ndisplay_sep = \":\""
    );
}

#[test]
fn config_paths_join_the_data_dir() {
    let c = test_config();
    assert_eq!(c.get_bookmarks_file(), "/data/bookmarks.toml");
    assert_eq!(c.get_alias_file(), "/data/aliases.sh");
    assert_eq!(c.source_cmd_line(), "source \"/data/aliases.sh\"");
}

#[test]
fn bookmarks_store_paths_and_listing() {
    let c = test_config();
    let b = Bookmarks::from_config(&c);
    assert_eq!(b.file, "/data/bookmarks.toml");
    let b2 = Bookmarks::from("/tmp/other.toml".to_string());
    assert_eq!(b2.file, "/tmp/other.toml");
    let t = table_of(&[("a", "/x")]);
    assert_eq!(b.readable(&t, &c), render_human(&t, &c.display_sep));
}

#[test]
fn plan_config_decides_each_subcommand() {
    let c = test_config();
    match plan_config(&ConfigCommand::Show(ConfigShow { help: false }), &c) {
        ConfigPlan::Show(s) => assert_eq!(s, c.render()),
        _ => panic!("expected Show"),
    }
    match plan_config(&ConfigCommand::Create(ConfigCreate { help: false }), &c) {
        ConfigPlan::Create(s) => assert_eq!(s, Config::default_file_content()),
        _ => panic!("expected Create"),
    }
    match plan_config(&ConfigCommand::Edit(ConfigEdit { help: false, editor: None }), &c) {
        ConfigPlan::Edit => {}
        _ => panic!("expected Edit"),
    }
    match plan_config(&ConfigCommand::SourceCmd(ConfigSourceCmd { help: false }), &c) {
        ConfigPlan::SourceCmd(s) => assert_eq!(s, "source \"/data/aliases.sh\""),
        _ => panic!("expected SourceCmd"),
    }
}

#[test]
fn lookup_by_name() {
    let t = table_of(&[("a", "/x"), ("b", "/y")]);
    assert!(t.has_name(&"a".to_string()));
    assert!(!t.has_name(&"zzz".to_string()));
    assert_eq!(t.find(&"b".to_string()), Some(1));
    assert_eq!(t.find(&"zzz".to_string()), None);
    assert!(t.is_wf());
}

#[test]
fn add_rejects_empty_name() {
    let t = BookmarkTable::new();
    let r = plan_add(&t, Some(String::new()), &"/x".to_string(), &test_config());
    assert!(matches!(r, Err(BmarkError::InvalidName)));
    let r = plan_add(&t, None, &"/".to_string(), &test_config());
    assert!(matches!(r, Err(BmarkError::InvalidName)));
}

#[test]
fn error_messages_name_their_context() {
    assert_eq!(
        BmarkError::DuplicateName("a".to_string()).message(),
        "A bookmark with the name 'a' already exists."
    );
    assert_eq!(
        BmarkError::NotFound("a".to_string()).message(),
        "ERROR: could not find bookmark `a`."
    );
    assert_eq!(
        BmarkError::StoreUnreadable("/data/bookmarks.toml".to_string()).message(),
        "ERROR: could not open bookmarks file: `/data/bookmarks.toml`"
    );
    assert_eq!(BmarkError::StoreCorrupt.message(), "ERROR: Could not parse bookmarks file.");
    assert_eq!(BmarkError::InvalidName.message(), "ERROR: Bookmark names must be non-empty.");
    assert_eq!(
        BmarkError::DataDirUnresolvable.message(),
        "ERROR: Could not determine data directory."
    );
    assert_eq!(BmarkError::NoChoice.message(), "No bookmark chosen.");
    assert_eq!(
        BmarkError::UnparseableChoice.message(),
        "ERROR: Could not parse chosen bookmark line."
    );
}
