//! Settings, and what they choose from.
use std::collections::HashMap;

use atuin_fullhistory::dates::Dialect;
use atuin_fullhistory::defaults::{DefaultValue, Dirs};
use atuin_fullhistory::filter::FilterMode;
use atuin_fullhistory::logs::{LogConfig, LogLevel, Logs};
use atuin_fullhistory::options::{
    Ai, CursorStyle, Daemon, DotfilesSettings, ExitMode, KeyBindingConfig, KeymapConfig,
    KeymapMode, Keys, KvSettings, MetaSettings, Preview, PreviewStrategy, ScriptsSettings, Search,
    Stats, Style, Sync, SyncProtocol, ThemeSettings, Tmux, WordJumpMode,
};
use atuin_fullhistory::paths::System;
use atuin_fullhistory::query::SearchMode;
use atuin_fullhistory::settings::{ExpandedPaths, Settings, SettingsError};
use atuin_fullhistory::timezone::Timezone;
use atuin_fullhistory::ui::{column_field, ColumnField, Ui, UiColumn, UiColumnType, UiError};

fn settings() -> Settings {
    Settings {
        data_dir: None,
        dialect: Dialect::Us,
        timezone: Timezone(0),
        style: Style::Compact,
        auto_sync: true,
        update_check: false,
        sync_address: String::new(),
        sync_protocol: SyncProtocol::default(),
        sync_frequency: "5m".to_string(),
        db_path: "/data/history.db".to_string(),
        record_store_path: "/data/records.db".to_string(),
        key_path: "/data/key".to_string(),
        search_mode: SearchMode::Fuzzy,
        filter_mode: None,
        filter_mode_shell_up_key_binding: None,
        search_mode_shell_up_key_binding: None,
        shell_up_key_binding: false,
        inline_height: 40,
        inline_height_shell_up_key_binding: None,
        invert: false,
        show_preview: true,
        max_preview_height: 4,
        show_help: true,
        show_tabs: true,
        show_numeric_shortcuts: true,
        auto_hide_height: 8,
        exit_mode: ExitMode::ReturnOriginal,
        keymap_mode: KeymapMode::Emacs,
        keymap_mode_shell: KeymapMode::Auto,
        keymap_cursor: HashMap::new(),
        word_jump_mode: WordJumpMode::Emacs,
        word_chars: String::new(),
        scroll_context_lines: 1,
        history_format: String::new(),
        prefers_reduced_motion: false,
        store_failed: true,
        history_filter: Vec::new(),
        cwd_filter: Vec::new(),
        secrets_filter: true,
        workspaces: false,
        ctrl_n_shortcuts: false,
        network_connect_timeout: 5,
        network_timeout: 30,
        enter_accept: false,
        smart_sort: false,
        command_chaining: false,
        stats: Stats::default(),
        sync: Sync::default(),
        keys: Keys::standard_defaults(),
        keymap: KeymapConfig::default(),
        preview: Preview::default(),
        dotfiles: DotfilesSettings::default(),
        daemon: Daemon::default(),
        search: Search::default(),
        theme: ThemeSettings::default(),
        ui: Ui::default(),
        scripts: ScriptsSettings::in_data_dir(&System::this(), "/data"),
        kv: KvSettings::in_data_dir(&System::this(), "/data"),
        tmux: Tmux::default(),
        logs: Logs::default(),
        meta: MetaSettings::in_data_dir(&System::this(), "/data"),
        ai: Ai::default(),
    }
}

#[test]
fn next_mode_goes_round() {
    let mut s = settings();
    assert_eq!(SearchMode::Prefix.next(&s), SearchMode::FullText);
    assert_eq!(SearchMode::FullText.next(&s), SearchMode::Fuzzy);
    assert_eq!(SearchMode::Fuzzy.next(&s), SearchMode::Prefix);
    s.search_mode = SearchMode::Skim;
    assert_eq!(SearchMode::FullText.next(&s), SearchMode::Skim);
    assert_eq!(SearchMode::Skim.next(&s), SearchMode::Prefix);
    s.search_mode = SearchMode::DaemonFuzzy;
    assert_eq!(SearchMode::FullText.next(&s), SearchMode::DaemonFuzzy);
    assert_eq!(SearchMode::DaemonFuzzy.next(&s), SearchMode::Prefix);
}

#[test]
fn filter_mode_to_start_with() {
    let mut s = settings();
    assert_eq!(s.default_filter_mode(false), FilterMode::Global);
    s.filter_mode = Some(FilterMode::Host);
    assert_eq!(s.default_filter_mode(false), FilterMode::Host);
    s.search.filters = vec![FilterMode::Workspace, FilterMode::Directory];
    assert_eq!(s.default_filter_mode(false), FilterMode::Directory);
    assert_eq!(s.default_filter_mode(true), FilterMode::Directory);
    s.workspaces = true;
    assert_eq!(s.default_filter_mode(false), FilterMode::Directory);
    assert_eq!(s.default_filter_mode(true), FilterMode::Workspace);
    // A mode that is set is taken even where it would not be one to start with.
    s.filter_mode = Some(FilterMode::Workspace);
    assert_eq!(s.default_filter_mode(false), FilterMode::Workspace);
    s.filter_mode = None;
    s.search.filters = vec![FilterMode::Workspace];
    assert_eq!(s.default_filter_mode(false), FilterMode::Global);
    s.search.filters = vec![];
    assert_eq!(s.default_filter_mode(true), FilterMode::Global);
}

#[test]
fn plain_paths_are_not_changed() {
    assert_eq!(Settings::expand_path("/a/b".to_string()).unwrap(), "/a/b");
    assert_eq!(Settings::expand_path("a~/b".to_string()).unwrap(), "a~/b");
    assert_eq!(Settings::expand_path("~you/b".to_string()).unwrap(), "~you/b");
    assert_eq!(Settings::expand_path(String::new()).unwrap(), "");
}

#[test]
fn dollars_that_no_name_follows_stay() {
    let expand = |path: &str| Settings::expand_path(path.to_string()).unwrap();
    assert_eq!(expand("/a$$b"), "/a$b");
    assert_eq!(expand("/$$$$"), "/$$");
    assert_eq!(expand("/a$-b"), "/a$-b");
    assert_eq!(expand("/a$"), "/a$");
    assert_eq!(expand("/a${b"), "/a${b");
    assert_eq!(expand("~you$$"), "~you$");
    // Only what stands in the path itself is taken for the home directory.
    assert_eq!(expand("${ATUIN_FULLHISTORY_NO_SUCH_VARIABLE:-~}/x"), "~/x");
    assert_eq!(expand("/${ATUIN_FULLHISTORY_NO_SUCH_VARIABLE:-$A}/$$x"), "/$A/$x");
}

#[test]
fn paths_are_expanded() {
    let home = Settings::expand_path("~/b".to_string()).unwrap();
    assert!(home.ends_with("/b"));
    assert!(matches!(
        Settings::expand_path("/$ATUIN_FULLHISTORY_NO_SUCH_VARIABLE/x".to_string()),
        Err(SettingsError::Expand(_))
    ));
    // A value to take where a variable is not there.
    assert_eq!(
        Settings::expand_path("/${ATUIN_FULLHISTORY_NO_SUCH_VARIABLE:-here}/x".to_string()).unwrap(),
        "/here/x"
    );
}

#[test]
fn what_became_of_a_path_is_told() {
    assert_eq!(Settings::expanded(Ok("/x".to_string())).unwrap(), "/x");
    match Settings::expanded(Err("no".to_string())) {
        Err(SettingsError::Expand(why)) => assert_eq!(why, "no"),
        _ => panic!("taken for a path"),
    }
}

#[test]
fn finish_keeps_plain_settings() {
    let done = settings().finish().unwrap();
    assert_eq!(done.db_path, "/data/history.db");
    assert_eq!(done.key_path, "/data/key");
    assert_eq!(done.logs.search.file, "search.log");
    assert_eq!(done.inline_height, 40);
}

#[test]
fn finish_expands_every_path() {
    let path = "/${ATUIN_FULLHISTORY_NO_SUCH_VARIABLE:-v}/x".to_string();
    let mut s = settings();
    s.db_path = path.clone();
    s.record_store_path = path.clone();
    s.key_path = path.clone();
    s.daemon.socket_path = path.clone();
    s.daemon.pidfile_path = path.clone();
    s.logs.dir = path.clone();
    s.logs.search.file = path.clone();
    s.logs.daemon.file = path.clone();
    s.logs.ai.file = path.clone();
    let s = s.finish().unwrap();
    for p in [
        &s.db_path,
        &s.record_store_path,
        &s.key_path,
        &s.daemon.socket_path,
        &s.daemon.pidfile_path,
        &s.logs.dir,
        &s.logs.search.file,
        &s.logs.daemon.file,
    ] {
        assert_eq!(p, "/v/x");
    }
    assert_eq!(s.logs.ai.file, path);
}

#[test]
fn finish_refuses_columns_that_do_not_fit() {
    let mut s = settings();
    s.ui.columns = vec![UiColumn::new(UiColumnType::Command, false), UiColumn::new(UiColumnType::Command, false)];
    assert!(matches!(
        s.finish(),
        Err(SettingsError::Ui(UiError::TooManyExpand { count: 2 }))
    ));
    let mut s = settings();
    s.key_path = "$ATUIN_FULLHISTORY_NO_SUCH_VARIABLE".to_string();
    s.ui.columns = vec![UiColumn::new(UiColumnType::Command, false), UiColumn::new(UiColumnType::Command, false)];
    assert!(matches!(s.finish(), Err(SettingsError::Expand(_))));
}

fn expanded(path: &str) -> ExpandedPaths {
    ExpandedPaths {
        db_path: Ok(format!("{path}/0")),
        record_store_path: Ok(format!("{path}/1")),
        key_path: Ok(format!("{path}/2")),
        socket_path: Ok(format!("{path}/3")),
        pidfile_path: Ok(format!("{path}/4")),
        logs_dir: Ok(format!("{path}/5")),
        search_log: Ok(format!("{path}/6")),
        daemon_log: Ok(format!("{path}/7")),
    }
}

#[test]
fn expanded_paths_go_where_they_belong() {
    let s = settings().with_expanded_paths(expanded("/p")).unwrap();
    assert_eq!(s.db_path, "/p/0");
    assert_eq!(s.record_store_path, "/p/1");
    assert_eq!(s.key_path, "/p/2");
    assert_eq!(s.daemon.socket_path, "/p/3");
    assert_eq!(s.daemon.pidfile_path, "/p/4");
    assert_eq!(s.logs.dir, "/p/5");
    assert_eq!(s.logs.search.file, "/p/6");
    assert_eq!(s.logs.daemon.file, "/p/7");
}

#[test]
fn first_path_that_is_wrong_is_named() {
    // From the `k`th path on every path is wrong, each in words of its own, and so are the
    // columns.
    for k in 0..8usize {
        let fault = |i: usize, path: Result<String, SettingsError>| {
            if i >= k {
                Err(SettingsError::Expand(i.to_string()))
            } else {
                path
            }
        };
        let r = expanded("/p");
        let r = ExpandedPaths {
            db_path: fault(0, r.db_path),
            record_store_path: fault(1, r.record_store_path),
            key_path: fault(2, r.key_path),
            socket_path: fault(3, r.socket_path),
            pidfile_path: fault(4, r.pidfile_path),
            logs_dir: fault(5, r.logs_dir),
            search_log: fault(6, r.search_log),
            daemon_log: fault(7, r.daemon_log),
        };
        let mut s = settings();
        let c = UiColumn::new(UiColumnType::Command, false);
        s.ui.columns = vec![c, c];
        match s.with_expanded_paths(r) {
            Err(SettingsError::Expand(words)) => assert_eq!(words, k.to_string()),
            _ => panic!("path {k} is wrong"),
        }
    }
}

#[test]
fn columns_are_looked_at_after_the_paths() {
    let mut s = settings();
    let c = UiColumn::new(UiColumnType::Command, false);
    s.ui.columns = vec![c, c, c];
    assert!(matches!(
        s.with_expanded_paths(expanded("/p")),
        Err(SettingsError::Ui(UiError::TooManyExpand { count: 3 }))
    ));
}

#[test]
fn places_of_files() {
    assert_eq!(Settings::get_config_path(&System::this(), None, "/c/atuin"), "/c/atuin/config.toml");
    assert_eq!(Settings::get_config_path(&System::this(), Some("/x/"), "/c/atuin"), "/x/config.toml");
    assert_eq!(Settings::effective_data_dir(None, "/d").unwrap(), "/d");
    assert_eq!(Settings::effective_data_dir(Some("/e".to_string()), "/d").unwrap(), "/e");
    assert!(Settings::effective_data_dir(
        Some("$ATUIN_FULLHISTORY_NO_SUCH_VARIABLE".to_string()),
        "/d"
    )
    .is_err());
    assert_eq!(Settings::example_config(), "");
}

#[test]
fn links_that_lead_nowhere() {
    let s = settings();
    assert_eq!(
        s.checked_paths(),
        vec!["/data/history.db", "/data/records.db", "/data/key", "/data/meta.db"]
    );
    assert!(Settings::paths_ok(&vec![(false, false), (true, true), (false, true), (false, true)]));
    assert!(!Settings::paths_ok(&vec![(false, true), (true, false)]));
}

#[test]
fn defaults_of_settings() {
    let dirs = Dirs {
        system: System::this(),
        data: "/data".to_string(),
        runtime: "/run".to_string(),
        logs: "/logs".to_string(),
    };
    let table = Settings::builder_with_data_dir(&dirs, true);
    assert_eq!(table.len(), 75);
    let mut keys: Vec<&str> = table.iter().map(|r| r.0.as_str()).collect();
    keys.sort_unstable();
    keys.dedup();
    assert_eq!(keys.len(), 75);
    let get = |key: &str| &table.iter().find(|r| r.0 == key).unwrap().1;
    assert!(matches!(get("db_path"), DefaultValue::Text(s) if s == "/data/history.db"));
    assert!(matches!(get("daemon.socket_path"), DefaultValue::Text(s) if s == "/run/atuin.sock"));
    assert!(matches!(get("daemon.pidfile_path"), DefaultValue::Text(s) if s == "/data/atuin-daemon.pid"));
    assert!(matches!(get("logs.dir"), DefaultValue::Text(s) if s == "/logs"));
    assert!(matches!(get("history_format"), DefaultValue::Text(s) if s == "{time}\t{command}\t{duration}"));
    assert!(matches!(get("inline_height"), DefaultValue::Number(40)));
    assert!(matches!(get("daemon.tcp_port"), DefaultValue::Number(8889)));
    assert!(matches!(get("local_timeout"), DefaultValue::Real(2)));
    assert!(matches!(get("search.frecency_score_multiplier"), DefaultValue::Real(1)));
    assert!(matches!(get("filter_mode"), DefaultValue::Nothing));
    assert!(matches!(get("theme.debug"), DefaultValue::Nothing));
    assert!(matches!(get("keymap_cursor"), DefaultValue::EmptyTable));
    assert!(matches!(get("prefers_reduced_motion"), DefaultValue::Flag(true)));
    assert!(matches!(get("secrets_filter"), DefaultValue::Flag(true)));
    assert!(matches!(get("invert"), DefaultValue::Flag(false)));
    match get("search.filters") {
        DefaultValue::List(names) => assert_eq!(
            *names,
            vec!["global", "host", "session", "workspace", "directory", "session-preload"]
        ),
        _ => panic!("not a list"),
    }
}

#[test]
fn standard_keys() {
    let mut keys = Keys::standard_defaults();
    assert!(!keys.has_non_default_values());
    keys.prefix = "b".to_string();
    assert!(keys.has_non_default_values());
    assert!(Keys::default().has_non_default_values());
    let mut keys = Keys::standard_defaults();
    keys.accept_with_backspace = true;
    assert!(keys.has_non_default_values());
}

#[test]
fn keymaps_that_are_empty() {
    let mut map = KeymapConfig::default();
    assert!(map.is_empty());
    map.inspector.insert("q".to_string(), KeyBindingConfig::Simple("exit".to_string()));
    assert!(!map.is_empty());
}

#[test]
fn labels_of_options() {
    assert_eq!(KeymapMode::VimNormal.as_str(), "VIMNORMAL");
    assert_eq!(KeymapMode::Emacs.as_str(), "EMACS");
    assert_eq!(KeymapMode::VimInsert.as_str(), "VIMINSERT");
    assert_eq!(KeymapMode::Auto.as_str(), "AUTO");
    assert_eq!(CursorStyle::DefaultUserShape.as_str(), "DEFAULT");
    assert_eq!(CursorStyle::BlinkingUnderScore.as_str(), "BLINKUNDERLINE");
    assert_eq!(CursorStyle::SteadyBar.as_str(), "STEADYBAR");
    assert_eq!(LogLevel::Trace.as_directive(), "trace");
    assert_eq!(LogLevel::Error.as_directive(), "error");
}

#[test]
fn log_levels_from_words() {
    let levels =
        [LogLevel::Trace, LogLevel::Debug, LogLevel::Info, LogLevel::Warn, LogLevel::Error];
    for a in levels {
        assert_eq!(LogLevel::from_directive(a.as_directive()), Some(a));
        for b in levels {
            assert_eq!(a.as_directive() == b.as_directive(), a == b);
        }
    }
    assert_eq!(LogLevel::from_directive("Info"), None);
    assert_eq!(LogLevel::from_directive(""), None);
    assert_eq!(LogLevel::default().as_directive(), "info");
}

#[test]
fn defaults_of_options() {
    let stats = Stats::default();
    assert_eq!(stats.common_prefix, vec!["sudo", "doas"]);
    assert_eq!(stats.common_subcommands.len(), 21);
    assert_eq!(stats.common_subcommands[0], "apt");
    assert_eq!(stats.common_subcommands[20], "yarn");
    assert!(stats.ignored_commands.is_empty());
    assert_eq!(Search::default().filters[3], FilterMode::SessionPreload);
    assert_eq!(Daemon::default().sync_frequency, 300);
    assert_eq!(Daemon::default().tcp_port, 8889);
    assert_eq!(Tmux::default().width, "80%");
    assert_eq!(Tmux::default().height, "60%");
    assert_eq!(ThemeSettings::default().max_depth, Some(10));
    assert_eq!(Preview::default().strategy, PreviewStrategy::Auto);
    assert_eq!(SyncProtocol::default(), SyncProtocol::Auto);
    assert!(!Ai::default().enabled);
    assert_eq!(KvSettings::in_data_dir(&System::this(), "/d").db_path, "/d/kv.db");
    assert_eq!(ScriptsSettings::in_data_dir(&System::this(), "/d/").db_path, "/d/scripts.db");
    assert_eq!(MetaSettings::in_data_dir(&System::this(), "/d").db_path, "/d/meta.db");
}

#[test]
fn logs_fall_back_on_what_holds_for_all() {
    let mut logs = Logs::default();
    logs.dir = "/logs".to_string();
    assert!(logs.search_enabled() && logs.daemon_enabled() && logs.ai_enabled());
    assert_eq!(logs.search_level(), LogLevel::Info);
    assert_eq!(logs.daemon_retention(), 4);
    assert_eq!(logs.search_path(&System::this()), "/logs/search.log");
    assert_eq!(logs.daemon_path(&System::this()), "/logs/daemon.log");
    assert_eq!(logs.ai_path(&System::this()), "/logs/ai.log");
    logs.search = LogConfig {
        file: "/elsewhere/s.log".to_string(),
        enabled: Some(false),
        level: Some(LogLevel::Debug),
        retention: Some(9),
    };
    assert!(!logs.search_enabled());
    assert_eq!(logs.search_level(), LogLevel::Debug);
    assert_eq!(logs.search_retention(), 9);
    assert_eq!(logs.search_path(&System::this()), "/elsewhere/s.log");
    assert_eq!(logs.ai_level(), LogLevel::Info);
    assert_eq!(logs.ai_retention(), 4);
    assert_eq!(logs.daemon_level(), LogLevel::Info);
    assert!(Logs::default_enabled());
    assert_eq!(Logs::default_retention(), 4);
}

#[test]
fn widths_of_columns() {
    assert_eq!(UiColumnType::Duration.default_width(false), 5);
    assert_eq!(UiColumnType::Time.default_width(false), 9);
    assert_eq!(UiColumnType::Datetime.default_width(false), 16);
    assert_eq!(UiColumnType::Directory.default_width(false), 20);
    assert_eq!(UiColumnType::Host.default_width(false), 15);
    assert_eq!(UiColumnType::User.default_width(false), 10);
    assert_eq!(UiColumnType::Command.default_width(false), 0);
    assert_eq!(UiColumnType::Exit.default_width(false), 3);
    assert_eq!(UiColumnType::Exit.default_width(true), 11);
}

#[test]
fn new_columns_have_the_default_width() {
    for t in [
        UiColumnType::Duration,
        UiColumnType::Time,
        UiColumnType::Datetime,
        UiColumnType::Directory,
        UiColumnType::Host,
        UiColumnType::User,
        UiColumnType::Exit,
        UiColumnType::Command,
    ] {
        for windows in [false, true] {
            let c = UiColumn::new(t, windows);
            assert_eq!(c, UiColumn::with_width(t, t.default_width(windows)));
            assert_eq!(c.expand, t == UiColumnType::Command);
            assert_eq!(c.width == 0, t == UiColumnType::Command);
            assert_eq!(UiColumn::from_parts(Some(t), None, None, windows), Ok(c));
        }
    }
    assert_eq!(UiColumn::new(UiColumnType::Exit, true).width, 11);
    assert_eq!(UiColumn::new(UiColumnType::Exit, false).width, 3);
}

#[test]
fn columns_from_settings() {
    assert_eq!(UiColumnType::from_name("datetime"), Some(UiColumnType::Datetime));
    assert_eq!(UiColumnType::from_name("Datetime"), None);
    assert_eq!(column_field("type"), ColumnField::Type);
    assert_eq!(column_field("width"), ColumnField::Width);
    assert_eq!(column_field("expand"), ColumnField::Expand);
    assert_eq!(column_field("Width"), ColumnField::Other);
    let c = UiColumn::from_parts(Some(UiColumnType::Host), None, None, false).unwrap();
    assert_eq!(c, UiColumn { column_type: UiColumnType::Host, width: 15, expand: false });
    let c = UiColumn::from_parts(Some(UiColumnType::Host), Some(3), Some(true), false).unwrap();
    assert_eq!(c, UiColumn { column_type: UiColumnType::Host, width: 3, expand: true });
    let c = UiColumn::from_parts(Some(UiColumnType::Command), None, None, false).unwrap();
    assert!(c.expand);
    assert_eq!(UiColumn::from_parts(None, Some(3), None, false), Err(UiError::MissingType));
    assert!(UiColumn::with_width(UiColumnType::Command, 8).expand);
    assert_eq!(UiColumn::with_width(UiColumnType::Time, 8).width, 8);
}

#[test]
fn columns_that_fit_together() {
    let ui = Ui::default();
    let types: Vec<UiColumnType> = ui.columns.iter().map(|c| c.column_type).collect();
    assert_eq!(types, vec![UiColumnType::Duration, UiColumnType::Time, UiColumnType::Command]);
    let shown: Vec<(u16, bool)> = ui.columns.iter().map(|c| (c.width, c.expand)).collect();
    assert_eq!(shown, vec![(5, false), (9, false), (0, true)]);
    assert_eq!(ui.validate(), Ok(()));
    assert_eq!(Ui { columns: vec![] }.validate(), Ok(()));
    let c = UiColumn::new(UiColumnType::Command, false);
    let e = Ui { columns: vec![c, c, c] }.validate().unwrap_err();
    assert_eq!(e, UiError::TooManyExpand { count: 3 });
    assert_eq!(
        e.text(),
        "Only one column can have expand = true, but 3 columns are set to expand"
    );
    assert_eq!(UiError::MissingType.text(), "missing field `type`");
}

#[test]
fn time_zones_from_texts() {
    assert_eq!(Timezone::from_str("utc").unwrap(), Timezone(0));
    assert_eq!(Timezone::from_str("UTC").unwrap(), Timezone(0));
    assert_eq!(Timezone::from_str("0").unwrap(), Timezone(0));
    assert_eq!(Timezone::from_str("+9").unwrap(), Timezone(32_400));
    assert_eq!(Timezone::from_str("-03:30").unwrap(), Timezone(-12_600));
    assert_eq!(Timezone::from_str("+1:2:3").unwrap(), Timezone(3_723));
    assert!(Timezone::from_str("Local").is_ok());
    assert!(Timezone::from_str("l").is_ok());
    assert_eq!(Timezone::from_str("9").unwrap_err().text, "9");
    assert!(Timezone::from_str("").is_err());
    assert!(Timezone::from_str("+99").is_err());
    assert_eq!(Timezone(0).text(), "+00:00:00");
    assert_eq!(Timezone(-12_600).text(), "-03:30:00");
    assert_eq!(Timezone(3_723).text(), "+01:02:03");
    assert_eq!(Timezone(93_599).text(), "+25:59:59");
    assert_eq!(Timezone::from_parts("local", Some(60), None), Some(Timezone(60)));
    assert_eq!(Timezone::from_parts("L", None, None), Some(Timezone(0)));
    assert_eq!(Timezone::from_parts("x", Some(60), Some(5)), Some(Timezone(5)));
    assert_eq!(Timezone::from_parts("x", Some(60), None), None);
}
