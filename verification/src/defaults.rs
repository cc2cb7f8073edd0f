//! What the settings are where nothing else is said.
use vstd::prelude::*;

use crate::paths::{join_path, path_from, string_views, System};
use crate::settings::Settings;

verus! {

/// Where data, sockets and logs are kept.
pub struct Dirs {
    /// The system that they are on.
    pub system: System,
    pub data: String,
    pub runtime: String,
    pub logs: String,
}

/// A value of a setting.
pub enum DefaultValue {
    Text(String),
    Flag(bool),
    Number(i64),
    /// A number with a fraction of nothing.
    Real(i64),
    List(Vec<String>),
    EmptyTable,
    Nothing,
}

/// A value of a setting, its text as a sequence of characters.
pub enum DefaultView {
    Text(Seq<char>),
    Flag(bool),
    Number(i64),
    Real(i64),
    List(Seq<Seq<char>>),
    EmptyTable,
    Nothing,
}

impl View for DefaultValue {
    type V = DefaultView;

    open spec fn view(&self) -> DefaultView {
        match self {
            DefaultValue::Text(s) => DefaultView::Text(s@),
            DefaultValue::Flag(b) => DefaultView::Flag(*b),
            DefaultValue::Number(n) => DefaultView::Number(*n),
            DefaultValue::Real(n) => DefaultView::Real(*n),
            DefaultValue::List(items) => DefaultView::List(string_views(items@)),
            DefaultValue::EmptyTable => DefaultView::EmptyTable,
            DefaultValue::Nothing => DefaultView::Nothing,
        }
    }
}

/// Settings and their values.
pub open spec fn table_view(v: Seq<(String, DefaultValue)>) -> Seq<(Seq<char>, DefaultView)> {
    v.map_values(|row: (String, DefaultValue)| (row.0@, row.1@))
}

/// The filter modes that there are to go through, by name.
pub open spec fn default_filter_names() -> Seq<Seq<char>> {
    seq!["global"@, "host"@, "session"@, "workspace"@, "directory"@, "session-preload"@]
}

/// Where things are kept.
pub open spec fn path_defaults(
    windows: bool,
    data: Seq<char>,
    runtime: Seq<char>,
    logs: Seq<char>,
) -> Seq<(Seq<char>, DefaultView)> {
    seq![
        ("db_path"@, DefaultView::Text(path_from(windows, data, "history.db"@))),
        ("record_store_path"@, DefaultView::Text(path_from(windows, data, "records.db"@))),
        ("key_path"@, DefaultView::Text(path_from(windows, data, "key"@))),
        ("daemon.socket_path"@, DefaultView::Text(path_from(windows, runtime, "atuin.sock"@))),
        ("daemon.pidfile_path"@, DefaultView::Text(path_from(windows, data, "atuin-daemon.pid"@))),
        ("logs.dir"@, DefaultView::Text(logs)),
        ("kv.db_path"@, DefaultView::Text(path_from(windows, data, "kv.db"@))),
        ("scripts.db_path"@, DefaultView::Text(path_from(windows, data, "scripts.db"@))),
        ("meta.db_path"@, DefaultView::Text(path_from(windows, data, "meta.db"@))),
    ]
}

fn add_path_defaults(out: &mut Vec<(String, DefaultValue)>, dirs: &Dirs)
    ensures
        table_view(final(out)@) == table_view(old(out)@) + path_defaults(
            dirs.system.windows(),
            dirs.data@,
            dirs.runtime@,
            dirs.logs@,
        ),
{
    add_path(out, &dirs.system, "db_path", dirs.data.as_str(), "history.db");
    add_path(out, &dirs.system, "record_store_path", dirs.data.as_str(), "records.db");
    add_path(out, &dirs.system, "key_path", dirs.data.as_str(), "key");
    add_path(out, &dirs.system, "daemon.socket_path", dirs.runtime.as_str(), "atuin.sock");
    add_path(out, &dirs.system, "daemon.pidfile_path", dirs.data.as_str(), "atuin-daemon.pid");
    add_text(out, "logs.dir", dirs.logs.as_str());
    add_path(out, &dirs.system, "kv.db_path", dirs.data.as_str(), "kv.db");
    add_path(out, &dirs.system, "scripts.db_path", dirs.data.as_str(), "scripts.db");
    add_path(out, &dirs.system, "meta.db_path", dirs.data.as_str(), "meta.db");
    assert(table_view(out@) =~= table_view(old(out)@) + path_defaults(
        dirs.system.windows(),
        dirs.data@,
        dirs.runtime@,
        dirs.logs@,
    ));
}

/// How the view looks.
pub open spec fn view_defaults(reduced_motion: bool) -> Seq<(Seq<char>, DefaultView)> {
    seq![
        ("style"@, DefaultView::Text("compact"@)),
        ("inline_height"@, DefaultView::Number(40)),
        ("show_preview"@, DefaultView::Flag(true)),
        ("preview.strategy"@, DefaultView::Text("auto"@)),
        ("max_preview_height"@, DefaultView::Number(4)),
        ("show_help"@, DefaultView::Flag(true)),
        ("show_tabs"@, DefaultView::Flag(true)),
        ("show_numeric_shortcuts"@, DefaultView::Flag(true)),
        ("auto_hide_height"@, DefaultView::Number(8)),
        ("invert"@, DefaultView::Flag(false)),
        ("prefers_reduced_motion"@, DefaultView::Flag(reduced_motion)),
        ("theme.name"@, DefaultView::Text("default"@)),
        ("theme.debug"@, DefaultView::Nothing),
    ]
}

fn add_view_defaults(out: &mut Vec<(String, DefaultValue)>, reduced_motion: bool)
    ensures
        table_view(final(out)@) == table_view(old(out)@) + view_defaults(reduced_motion),
{
    add_text(out, "style", "compact");
    set_default(out, "inline_height", DefaultValue::Number(40));
    set_default(out, "show_preview", DefaultValue::Flag(true));
    add_text(out, "preview.strategy", "auto");
    set_default(out, "max_preview_height", DefaultValue::Number(4));
    set_default(out, "show_help", DefaultValue::Flag(true));
    set_default(out, "show_tabs", DefaultValue::Flag(true));
    set_default(out, "show_numeric_shortcuts", DefaultValue::Flag(true));
    set_default(out, "auto_hide_height", DefaultValue::Number(8));
    set_default(out, "invert", DefaultValue::Flag(false));
    set_default(out, "prefers_reduced_motion", DefaultValue::Flag(reduced_motion));
    add_text(out, "theme.name", "default");
    set_default(out, "theme.debug", DefaultValue::Nothing);
    assert(table_view(out@) =~= table_view(old(out)@) + view_defaults(reduced_motion));
}

/// How history is searched and shown.
pub open spec fn search_defaults() -> Seq<(Seq<char>, DefaultView)> {
    seq![
        ("history_format"@, DefaultView::Text("{time}\t{command}\t{duration}"@)),
        ("dialect"@, DefaultView::Text("us"@)),
        ("timezone"@, DefaultView::Text("local"@)),
        ("search_mode"@, DefaultView::Text("fuzzy"@)),
        ("filter_mode"@, DefaultView::Nothing),
        ("workspaces"@, DefaultView::Flag(false)),
        ("smart_sort"@, DefaultView::Flag(false)),
        ("search.recency_score_multiplier"@, DefaultView::Real(1)),
        ("search.frequency_score_multiplier"@, DefaultView::Real(1)),
        ("search.frecency_score_multiplier"@, DefaultView::Real(1)),
        ("search.filters"@, DefaultView::List(default_filter_names())),
        ("local_timeout"@, DefaultView::Real(2)),
    ]
}

fn add_search_defaults(out: &mut Vec<(String, DefaultValue)>)
    ensures
        table_view(final(out)@) == table_view(old(out)@) + search_defaults(),
{
    add_text(out, "history_format", "{time}\t{command}\t{duration}");
    add_text(out, "dialect", "us");
    add_text(out, "timezone", "local");
    add_text(out, "search_mode", "fuzzy");
    set_default(out, "filter_mode", DefaultValue::Nothing);
    set_default(out, "workspaces", DefaultValue::Flag(false));
    set_default(out, "smart_sort", DefaultValue::Flag(false));
    set_default(out, "search.recency_score_multiplier", DefaultValue::Real(1));
    set_default(out, "search.frequency_score_multiplier", DefaultValue::Real(1));
    set_default(out, "search.frecency_score_multiplier", DefaultValue::Real(1));
    set_default(out, "search.filters", DefaultValue::List(filter_names()));
    set_default(out, "local_timeout", DefaultValue::Real(2));
    assert(table_view(out@) =~= table_view(old(out)@) + search_defaults());
}

/// What keys do.
pub open spec fn key_defaults() -> Seq<(Seq<char>, DefaultView)> {
    seq![
        ("exit_mode"@, DefaultView::Text("return-original"@)),
        ("word_jump_mode"@, DefaultView::Text("emacs"@)),
        ("word_chars"@, DefaultView::Text("abcdefghijklmnopqrstuvwxyzABCDEFGHIJKLMNOPQRSTUVWXYZ0123456789"@)),
        ("scroll_context_lines"@, DefaultView::Number(1)),
        ("shell_up_key_binding"@, DefaultView::Flag(false)),
        ("ctrl_n_shortcuts"@, DefaultView::Flag(false)),
        ("enter_accept"@, DefaultView::Flag(false)),
        ("command_chaining"@, DefaultView::Flag(false)),
        ("keymap_mode"@, DefaultView::Text("emacs"@)),
        ("keymap_mode_shell"@, DefaultView::Text("auto"@)),
        ("keymap_cursor"@, DefaultView::EmptyTable),
    ]
}

fn add_key_defaults(out: &mut Vec<(String, DefaultValue)>)
    ensures
        table_view(final(out)@) == table_view(old(out)@) + key_defaults(),
{
    add_text(out, "exit_mode", "return-original");
    add_text(out, "word_jump_mode", "emacs");
    add_text(out, "word_chars", "abcdefghijklmnopqrstuvwxyzABCDEFGHIJKLMNOPQRSTUVWXYZ0123456789");
    set_default(out, "scroll_context_lines", DefaultValue::Number(1));
    set_default(out, "shell_up_key_binding", DefaultValue::Flag(false));
    set_default(out, "ctrl_n_shortcuts", DefaultValue::Flag(false));
    set_default(out, "enter_accept", DefaultValue::Flag(false));
    set_default(out, "command_chaining", DefaultValue::Flag(false));
    add_text(out, "keymap_mode", "emacs");
    add_text(out, "keymap_mode_shell", "auto");
    set_default(out, "keymap_cursor", DefaultValue::EmptyTable);
    assert(table_view(out@) =~= table_view(old(out)@) + key_defaults());
}

/// What keys at the edges of the line and of the list do.
pub open spec fn edge_key_defaults() -> Seq<(Seq<char>, DefaultView)> {
    seq![
        ("keys.scroll_exits"@, DefaultView::Flag(true)),
        ("keys.accept_past_line_end"@, DefaultView::Flag(true)),
        ("keys.exit_past_line_start"@, DefaultView::Flag(true)),
        ("keys.accept_past_line_start"@, DefaultView::Flag(false)),
        ("keys.accept_with_backspace"@, DefaultView::Flag(false)),
        ("keys.prefix"@, DefaultView::Text("a"@)),
    ]
}

fn add_edge_key_defaults(out: &mut Vec<(String, DefaultValue)>)
    ensures
        table_view(final(out)@) == table_view(old(out)@) + edge_key_defaults(),
{
    set_default(out, "keys.scroll_exits", DefaultValue::Flag(true));
    set_default(out, "keys.accept_past_line_end", DefaultValue::Flag(true));
    set_default(out, "keys.exit_past_line_start", DefaultValue::Flag(true));
    set_default(out, "keys.accept_past_line_start", DefaultValue::Flag(false));
    set_default(out, "keys.accept_with_backspace", DefaultValue::Flag(false));
    add_text(out, "keys.prefix", "a");
    assert(table_view(out@) =~= table_view(old(out)@) + edge_key_defaults());
}

/// What is recorded and kept in step with a server.
pub open spec fn sync_defaults() -> Seq<(Seq<char>, DefaultView)> {
    seq![
        ("auto_sync"@, DefaultView::Flag(true)),
        ("update_check"@, DefaultView::Flag(false)),
        ("sync_address"@, DefaultView::Text("https://api.atuin.sh"@)),
        ("sync_frequency"@, DefaultView::Text("5m"@)),
        ("secrets_filter"@, DefaultView::Flag(true)),
        ("network_connect_timeout"@, DefaultView::Number(5)),
        ("network_timeout"@, DefaultView::Number(30)),
        ("sync.records"@, DefaultView::Flag(true)),
        ("store_failed"@, DefaultView::Flag(true)),
    ]
}

fn add_sync_defaults(out: &mut Vec<(String, DefaultValue)>)
    ensures
        table_view(final(out)@) == table_view(old(out)@) + sync_defaults(),
{
    set_default(out, "auto_sync", DefaultValue::Flag(true));
    set_default(out, "update_check", DefaultValue::Flag(false));
    add_text(out, "sync_address", "https://api.atuin.sh");
    add_text(out, "sync_frequency", "5m");
    set_default(out, "secrets_filter", DefaultValue::Flag(true));
    set_default(out, "network_connect_timeout", DefaultValue::Number(5));
    set_default(out, "network_timeout", DefaultValue::Number(30));
    set_default(out, "sync.records", DefaultValue::Flag(true));
    set_default(out, "store_failed", DefaultValue::Flag(true));
    assert(table_view(out@) =~= table_view(old(out)@) + sync_defaults());
}

/// What works in the background.
pub open spec fn daemon_defaults() -> Seq<(Seq<char>, DefaultView)> {
    seq![
        ("daemon.sync_frequency"@, DefaultView::Number(300)),
        ("daemon.enabled"@, DefaultView::Flag(false)),
        ("daemon.autostart"@, DefaultView::Flag(false)),
        ("daemon.systemd_socket"@, DefaultView::Flag(false)),
        ("daemon.tcp_port"@, DefaultView::Number(8889)),
        ("ai.enabled"@, DefaultView::Flag(false)),
        ("ai.send_cwd"@, DefaultView::Flag(false)),
        ("tmux.enabled"@, DefaultView::Flag(false)),
        ("tmux.width"@, DefaultView::Text("80%"@)),
        ("tmux.height"@, DefaultView::Text("60%"@)),
    ]
}

fn add_daemon_defaults(out: &mut Vec<(String, DefaultValue)>)
    ensures
        table_view(final(out)@) == table_view(old(out)@) + daemon_defaults(),
{
    set_default(out, "daemon.sync_frequency", DefaultValue::Number(300));
    set_default(out, "daemon.enabled", DefaultValue::Flag(false));
    set_default(out, "daemon.autostart", DefaultValue::Flag(false));
    set_default(out, "daemon.systemd_socket", DefaultValue::Flag(false));
    set_default(out, "daemon.tcp_port", DefaultValue::Number(8889));
    set_default(out, "ai.enabled", DefaultValue::Flag(false));
    set_default(out, "ai.send_cwd", DefaultValue::Flag(false));
    set_default(out, "tmux.enabled", DefaultValue::Flag(false));
    add_text(out, "tmux.width", "80%");
    add_text(out, "tmux.height", "60%");
    assert(table_view(out@) =~= table_view(old(out)@) + daemon_defaults());
}

/// What is logged.
pub open spec fn log_defaults() -> Seq<(Seq<char>, DefaultView)> {
    seq![
        ("logs.enabled"@, DefaultView::Flag(true)),
        ("logs.level"@, DefaultView::Text("info"@)),
        ("logs.search.file"@, DefaultView::Text("search.log"@)),
        ("logs.daemon.file"@, DefaultView::Text("daemon.log"@)),
        ("logs.ai.file"@, DefaultView::Text("ai.log"@)),
    ]
}

fn add_log_defaults(out: &mut Vec<(String, DefaultValue)>)
    ensures
        table_view(final(out)@) == table_view(old(out)@) + log_defaults(),
{
    set_default(out, "logs.enabled", DefaultValue::Flag(true));
    add_text(out, "logs.level", "info");
    add_text(out, "logs.search.file", "search.log");
    add_text(out, "logs.daemon.file", "daemon.log");
    add_text(out, "logs.ai.file", "ai.log");
    assert(table_view(out@) =~= table_view(old(out)@) + log_defaults());
}

/// Every setting that has a value where nothing else is said, and that value, given where data,
/// sockets and logs are kept and whether motion is to be reduced. A dot stands between the name
/// of a group and that of a setting in it.
pub open spec fn default_table(
    windows: bool,
    data: Seq<char>,
    runtime: Seq<char>,
    logs: Seq<char>,
    reduced_motion: bool,
) -> Seq<(Seq<char>, DefaultView)> {
    path_defaults(windows, data, runtime, logs) + view_defaults(reduced_motion)
        + search_defaults() + key_defaults() + edge_key_defaults() + sync_defaults() + daemon_defaults() + log_defaults()
}

fn set_default(out: &mut Vec<(String, DefaultValue)>, key: &str, value: DefaultValue)
    ensures
        table_view(final(out)@) == table_view(old(out)@).push((key@, value@)),
{
    out.push((key.to_owned(), value));
    assert(table_view(out@) =~= table_view(old(out)@).push((key@, value@)));
}

fn add_text(out: &mut Vec<(String, DefaultValue)>, key: &str, value: &str)
    ensures
        table_view(final(out)@) == table_view(old(out)@).push((key@, DefaultView::Text(value@))),
{
    set_default(out, key, DefaultValue::Text(value.to_owned()));
}

fn add_path(
    out: &mut Vec<(String, DefaultValue)>,
    system: &System,
    key: &str,
    dir: &str,
    file: &str,
)
    ensures
        table_view(final(out)@) == table_view(old(out)@).push(
            (key@, DefaultView::Text(path_from(system.windows(), dir@, file@))),
        ),
{
    set_default(out, key, DefaultValue::Text(join_path(system, dir, file)));
}

fn filter_names() -> (out: Vec<String>)
    ensures
        string_views(out@) == default_filter_names(),
{
    let out = vec![
        "global".to_owned(), "host".to_owned(), "session".to_owned(), "workspace".to_owned(), "directory".to_owned(), "session-preload".to_owned(),
    ];
    assert(string_views(out@) =~= default_filter_names());
    out
}

impl Settings {
    /// Every setting that has a value where nothing else is said, and that value.
    pub fn builder_with_data_dir(dirs: &Dirs, reduced_motion: bool) -> (out: Vec<
        (String, DefaultValue),
    >)
        ensures
            table_view(out@) == default_table(
                dirs.system.windows(),
                dirs.data@,
                dirs.runtime@,
                dirs.logs@,
                reduced_motion,
            ),
    {
        let mut out: Vec<(String, DefaultValue)> = Vec::new();
        assert(table_view(out@) =~= Seq::empty());
        add_path_defaults(&mut out, dirs);
        add_view_defaults(&mut out, reduced_motion);
        add_search_defaults(&mut out);
        add_key_defaults(&mut out);
        add_edge_key_defaults(&mut out);
        add_sync_defaults(&mut out);
        add_daemon_defaults(&mut out);
        add_log_defaults(&mut out);
        assert(table_view(out@) =~= default_table(
            dirs.system.windows(),
            dirs.data@,
            dirs.runtime@,
            dirs.logs@,
            reduced_motion,
        ));
        out
    }
}

} // verus!
