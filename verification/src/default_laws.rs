//! The settings that hold where nothing else is said agree with what the parts of the settings
//! hold by themselves.
use vstd::prelude::*;

use crate::defaults::{
    daemon_defaults, default_table, edge_key_defaults, key_defaults, log_defaults, path_defaults,
    search_defaults, sync_defaults, view_defaults, DefaultView,
};
use crate::logs::{LogLevel, Logs};
use crate::options::{Ai, Daemon, Keys, KvSettings, MetaSettings, ScriptsSettings, Tmux};
use crate::paths::System;

verus! {

/// Whether a setting has a value in a table.
pub open spec fn has_row(
    table: Seq<(Seq<char>, DefaultView)>,
    key: Seq<char>,
    value: DefaultView,
) -> bool {
    exists|i: int| 0 <= i < table.len() && #[trigger] table[i] == (key, value)
}

proof fn lemma_row_before(
    a: Seq<(Seq<char>, DefaultView)>,
    b: Seq<(Seq<char>, DefaultView)>,
)
    ensures
        forall|key: Seq<char>, value: DefaultView|
            has_row(a, key, value) ==> #[trigger] has_row(a + b, key, value),
        forall|key: Seq<char>, value: DefaultView|
            has_row(b, key, value) ==> #[trigger] has_row(a + b, key, value),
{
    let all = a + b;
    assert forall|key: Seq<char>, value: DefaultView| has_row(a, key, value) implies
        #[trigger] has_row(all, key, value) by {
        let i = choose|i: int| 0 <= i < a.len() && #[trigger] a[i] == (key, value);
        assert(all[i] == (key, value));
    }
    assert forall|key: Seq<char>, value: DefaultView| has_row(b, key, value) implies
        #[trigger] has_row(all, key, value) by {
        let i = choose|i: int| 0 <= i < b.len() && #[trigger] b[i] == (key, value);
        assert(all[a.len() + i] == (key, value));
    }
}

/// What one part of the table says, the table says.
proof fn lemma_table_rows(
    windows: bool,
    data: Seq<char>,
    runtime: Seq<char>,
    logs: Seq<char>,
    motion: bool,
    key: Seq<char>,
    value: DefaultView,
)
    ensures
        has_row(path_defaults(windows, data, runtime, logs), key, value) || has_row(
            view_defaults(motion),
            key,
            value,
        ) || has_row(search_defaults(), key, value) || has_row(key_defaults(), key, value) || has_row(
            edge_key_defaults(),
            key,
            value,
        ) || has_row(sync_defaults(), key, value) || has_row(daemon_defaults(), key, value)
            || has_row(log_defaults(), key, value) ==> has_row(
            default_table(windows, data, runtime, logs, motion),
            key,
            value,
        ),
{
    let p1 = path_defaults(windows, data, runtime, logs);
    let p2 = p1 + view_defaults(motion);
    let p3 = p2 + search_defaults();
    let p4 = p3 + key_defaults();
    let p5 = p4 + edge_key_defaults();
    let p6 = p5 + sync_defaults();
    let p7 = p6 + daemon_defaults();
    lemma_row_before(p1, view_defaults(motion));
    lemma_row_before(p2, search_defaults());
    lemma_row_before(p3, key_defaults());
    lemma_row_before(p4, edge_key_defaults());
    lemma_row_before(p5, sync_defaults());
    lemma_row_before(p6, daemon_defaults());
    lemma_row_before(p7, log_defaults());
    assert(has_row(p1, key, value) ==> has_row(p2, key, value));
    assert(has_row(view_defaults(motion), key, value) ==> has_row(p2, key, value));
    assert(has_row(p2, key, value) ==> has_row(p3, key, value));
    assert(has_row(search_defaults(), key, value) ==> has_row(p3, key, value));
    assert(has_row(key_defaults(), key, value) ==> has_row(p4, key, value));
    assert(has_row(sync_defaults(), key, value) ==> has_row(p6, key, value));
    assert(has_row(p3, key, value) ==> has_row(p4, key, value));
    assert(has_row(p4, key, value) ==> has_row(p5, key, value));
    assert(has_row(edge_key_defaults(), key, value) ==> has_row(p5, key, value));
    assert(has_row(p5, key, value) ==> has_row(p6, key, value));
    assert(has_row(p6, key, value) ==> has_row(p7, key, value));
    assert(has_row(daemon_defaults(), key, value) ==> has_row(p7, key, value));
    assert(p7 + log_defaults() == default_table(windows, data, runtime, logs, motion));
}

/// What is kept in files is kept in the directory for data, or for sockets, or for logs.
pub proof fn law_default_paths(
    windows: bool,
    data: Seq<char>,
    runtime: Seq<char>,
    logs: Seq<char>,
    motion: bool,
)
    ensures
        ({
            let table = default_table(windows, data, runtime, logs, motion);
            let at = |dir: Seq<char>, file: Seq<char>|
                DefaultView::Text(crate::paths::path_from(windows, dir, file));
            &&& has_row(table, "db_path"@, at(data, "history.db"@))
            &&& has_row(table, "record_store_path"@, at(data, "records.db"@))
            &&& has_row(table, "key_path"@, at(data, "key"@))
            &&& has_row(table, "daemon.socket_path"@, at(runtime, "atuin.sock"@))
            &&& has_row(table, "daemon.pidfile_path"@, at(data, "atuin-daemon.pid"@))
            &&& has_row(table, "logs.dir"@, DefaultView::Text(logs))
            &&& has_row(table, "kv.db_path"@, at(data, "kv.db"@))
            &&& has_row(table, "scripts.db_path"@, at(data, "scripts.db"@))
            &&& has_row(table, "meta.db_path"@, at(data, "meta.db"@))
            &&& has_row(table, "prefers_reduced_motion"@, DefaultView::Flag(motion))
        }),
{
    let table = default_table(windows, data, runtime, logs, motion);
    let p = path_defaults(windows, data, runtime, logs);
    let view = view_defaults(motion);
    assert forall|i: int| 0 <= i < p.len() implies has_row(table, (#[trigger] p[i]).0, p[i].1) by {
        lemma_table_rows(windows, data, runtime, logs, motion, p[i].0, p[i].1);
    }
    lemma_table_rows(windows, data, runtime, logs, motion, view[10].0, view[10].1);
    assert(p.len() == 9);
    assert(p[0].0 == "db_path"@ && p[1].0 == "record_store_path"@ && p[2].0 == "key_path"@);
    assert(p[3].0 == "daemon.socket_path"@ && p[4].0 == "daemon.pidfile_path"@);
    assert(p[5].0 == "logs.dir"@ && p[6].0 == "kv.db_path"@);
    assert(p[7].0 == "scripts.db_path"@ && p[8].0 == "meta.db_path"@);
}

/// The files of pairs, scripts and of what is known of the history are where each of them is kept
/// by itself.
pub proof fn law_default_files(
    system: System,
    dir: &str,
    runtime: Seq<char>,
    logs: Seq<char>,
    motion: bool,
    kv: KvSettings,
    scripts: ScriptsSettings,
    meta: MetaSettings,
)
    requires
        call_ensures(KvSettings::in_data_dir, (&system, dir), kv),
        call_ensures(ScriptsSettings::in_data_dir, (&system, dir), scripts),
        call_ensures(MetaSettings::in_data_dir, (&system, dir), meta),
    ensures
        ({
            let table = default_table(system.windows(), dir@, runtime, logs, motion);
            &&& has_row(table, "kv.db_path"@, DefaultView::Text(kv.db_path@))
            &&& has_row(table, "scripts.db_path"@, DefaultView::Text(scripts.db_path@))
            &&& has_row(table, "meta.db_path"@, DefaultView::Text(meta.db_path@))
        }),
{
    law_default_paths(system.windows(), dir@, runtime, logs, motion);
}

/// The keys, the daemon, the window of the multiplexer, the suggestions and the logs are set as
/// each of them is by itself.
pub proof fn law_default_parts(
    windows: bool,
    data: Seq<char>,
    runtime: Seq<char>,
    logs_dir: Seq<char>,
    motion: bool,
    keys: Keys,
    daemon: Daemon,
    tmux: Tmux,
    ai: Ai,
    logs: Logs,
)
    requires
        call_ensures(Keys::standard_defaults, (), keys),
        call_ensures(Daemon::default, (), daemon),
        call_ensures(Tmux::default, (), tmux),
        call_ensures(Ai::default, (), ai),
        call_ensures(Logs::default, (), logs),
    ensures
        ({
            let table = default_table(windows, data, runtime, logs_dir, motion);
            &&& has_row(table, "keys.scroll_exits"@, DefaultView::Flag(keys.scroll_exits))
            &&& has_row(
                table,
                "keys.accept_past_line_end"@,
                DefaultView::Flag(keys.accept_past_line_end),
            )
            &&& has_row(
                table,
                "keys.exit_past_line_start"@,
                DefaultView::Flag(keys.exit_past_line_start),
            )
            &&& has_row(
                table,
                "keys.accept_past_line_start"@,
                DefaultView::Flag(keys.accept_past_line_start),
            )
            &&& has_row(
                table,
                "keys.accept_with_backspace"@,
                DefaultView::Flag(keys.accept_with_backspace),
            )
            &&& has_row(table, "keys.prefix"@, DefaultView::Text(keys.prefix@))
            &&& has_row(table, "daemon.enabled"@, DefaultView::Flag(daemon.enabled))
            &&& has_row(table, "daemon.autostart"@, DefaultView::Flag(daemon.autostart))
            &&& has_row(table, "daemon.systemd_socket"@, DefaultView::Flag(daemon.systemd_socket))
            &&& has_row(
                table,
                "daemon.sync_frequency"@,
                DefaultView::Number(daemon.sync_frequency as i64),
            )
            &&& has_row(table, "daemon.tcp_port"@, DefaultView::Number(daemon.tcp_port as i64))
            &&& has_row(table, "tmux.enabled"@, DefaultView::Flag(tmux.enabled))
            &&& has_row(table, "tmux.width"@, DefaultView::Text(tmux.width@))
            &&& has_row(table, "tmux.height"@, DefaultView::Text(tmux.height@))
            &&& has_row(table, "ai.enabled"@, DefaultView::Flag(ai.enabled))
            &&& has_row(table, "ai.send_cwd"@, DefaultView::Flag(ai.send_cwd))
            &&& has_row(table, "logs.enabled"@, DefaultView::Flag(logs.enabled))
            &&& has_row(table, "logs.level"@, DefaultView::Text(logs.level.directive()))
            &&& has_row(table, "logs.search.file"@, DefaultView::Text(logs.search.file@))
            &&& has_row(table, "logs.daemon.file"@, DefaultView::Text(logs.daemon.file@))
            &&& has_row(table, "logs.ai.file"@, DefaultView::Text(logs.ai.file@))
        }),
{
    let table = default_table(windows, data, runtime, logs_dir, motion);
    let a = edge_key_defaults();
    let b = daemon_defaults();
    let c = log_defaults();
    assert forall|i: int| 0 <= i < a.len() implies has_row(table, (#[trigger] a[i]).0, a[i].1) by {
        lemma_table_rows(windows, data, runtime, logs_dir, motion, a[i].0, a[i].1);
    }
    assert forall|i: int| 0 <= i < b.len() implies has_row(table, (#[trigger] b[i]).0, b[i].1) by {
        lemma_table_rows(windows, data, runtime, logs_dir, motion, b[i].0, b[i].1);
    }
    assert forall|i: int| 0 <= i < c.len() implies has_row(table, (#[trigger] c[i]).0, c[i].1) by {
        lemma_table_rows(windows, data, runtime, logs_dir, motion, c[i].0, c[i].1);
    }
    assert(a.len() == 6 && b.len() == 10 && c.len() == 5);
    assert(a[0].0 == "keys.scroll_exits"@ && a[1].0 == "keys.accept_past_line_end"@);
    assert(a[2].0 == "keys.exit_past_line_start"@ && a[3].0 == "keys.accept_past_line_start"@);
    assert(a[4].0 == "keys.accept_with_backspace"@ && a[5].0 == "keys.prefix"@);
    assert(b[0].0 == "daemon.sync_frequency"@ && b[1].0 == "daemon.enabled"@);
    assert(b[2].0 == "daemon.autostart"@ && b[3].0 == "daemon.systemd_socket"@);
    assert(b[4].0 == "daemon.tcp_port"@ && b[5].0 == "ai.enabled"@ && b[6].0 == "ai.send_cwd"@);
    assert(b[7].0 == "tmux.enabled"@ && b[8].0 == "tmux.width"@ && b[9].0 == "tmux.height"@);
    assert(c[0].0 == "logs.enabled"@ && c[1].0 == "logs.level"@);
    assert(c[2].0 == "logs.search.file"@ && c[3].0 == "logs.daemon.file"@);
    assert(c[4].0 == "logs.ai.file"@);
    assert(keys@ == crate::options::standard_keys());
    assert(keys@.prefix == keys.prefix@);
    assert(logs.level == LogLevel::Info);
}

/// How things are shown where nothing else is said.
pub proof fn law_default_view(
    windows: bool,
    data: Seq<char>,
    runtime: Seq<char>,
    logs: Seq<char>,
    motion: bool,
)
    ensures
        ({
            let table = default_table(windows, data, runtime, logs, motion);
            &&& has_row(table, "style"@, DefaultView::Text("compact"@))
            &&& has_row(table, "inline_height"@, DefaultView::Number(40))
            &&& has_row(table, "show_preview"@, DefaultView::Flag(true))
            &&& has_row(table, "preview.strategy"@, DefaultView::Text("auto"@))
            &&& has_row(table, "max_preview_height"@, DefaultView::Number(4))
            &&& has_row(table, "show_help"@, DefaultView::Flag(true))
            &&& has_row(table, "show_tabs"@, DefaultView::Flag(true))
            &&& has_row(table, "show_numeric_shortcuts"@, DefaultView::Flag(true))
            &&& has_row(table, "auto_hide_height"@, DefaultView::Number(8))
            &&& has_row(table, "invert"@, DefaultView::Flag(false))
            &&& has_row(table, "theme.name"@, DefaultView::Text("default"@))
            &&& has_row(table, "theme.debug"@, DefaultView::Nothing)
        }),
{
    let table = default_table(windows, data, runtime, logs, motion);
    let v = view_defaults(motion);
    assert forall|i: int| 0 <= i < v.len() implies has_row(table, (#[trigger] v[i]).0, v[i].1) by {
        lemma_table_rows(windows, data, runtime, logs, motion, v[i].0, v[i].1);
    }
    assert(v.len() == 13);
    assert(v[0].0 == "style"@);
    assert(v[1].0 == "inline_height"@);
    assert(v[2].0 == "show_preview"@);
    assert(v[3].0 == "preview.strategy"@);
    assert(v[4].0 == "max_preview_height"@);
    assert(v[5].0 == "show_help"@);
    assert(v[6].0 == "show_tabs"@);
    assert(v[7].0 == "show_numeric_shortcuts"@);
    assert(v[8].0 == "auto_hide_height"@);
    assert(v[9].0 == "invert"@);
    assert(v[11].0 == "theme.name"@);
    assert(v[12].0 == "theme.debug"@);
}

/// How history is searched where nothing else is said.
pub proof fn law_default_search(
    windows: bool,
    data: Seq<char>,
    runtime: Seq<char>,
    logs: Seq<char>,
    motion: bool,
)
    ensures
        ({
            let table = default_table(windows, data, runtime, logs, motion);
            &&& has_row(table, "history_format"@, DefaultView::Text("{time}\t{command}\t{duration}"@))
            &&& has_row(table, "dialect"@, DefaultView::Text("us"@))
            &&& has_row(table, "timezone"@, DefaultView::Text("local"@))
            &&& has_row(table, "search_mode"@, DefaultView::Text("fuzzy"@))
            &&& has_row(table, "filter_mode"@, DefaultView::Nothing)
            &&& has_row(table, "workspaces"@, DefaultView::Flag(false))
            &&& has_row(table, "smart_sort"@, DefaultView::Flag(false))
            &&& has_row(table, "search.recency_score_multiplier"@, DefaultView::Real(1))
            &&& has_row(table, "search.frequency_score_multiplier"@, DefaultView::Real(1))
            &&& has_row(table, "search.frecency_score_multiplier"@, DefaultView::Real(1))
            &&& has_row(table, "search.filters"@, DefaultView::List(
                    seq!["global"@, "host"@, "session"@, "workspace"@, "directory"@, "session-preload"@],
                ))
            &&& has_row(table, "local_timeout"@, DefaultView::Real(2))
        }),
{
    let table = default_table(windows, data, runtime, logs, motion);
    let v = search_defaults();
    assert forall|i: int| 0 <= i < v.len() implies has_row(table, (#[trigger] v[i]).0, v[i].1) by {
        lemma_table_rows(windows, data, runtime, logs, motion, v[i].0, v[i].1);
    }
    assert(v.len() == 12);
    assert(v[0].0 == "history_format"@);
    assert(v[1].0 == "dialect"@);
    assert(v[2].0 == "timezone"@);
    assert(v[3].0 == "search_mode"@);
    assert(v[4].0 == "filter_mode"@);
    assert(v[5].0 == "workspaces"@);
    assert(v[6].0 == "smart_sort"@);
    assert(v[7].0 == "search.recency_score_multiplier"@);
    assert(v[8].0 == "search.frequency_score_multiplier"@);
    assert(v[9].0 == "search.frecency_score_multiplier"@);
    assert(crate::defaults::default_filter_names() == seq![
        "global"@,
        "host"@,
        "session"@,
        "workspace"@,
        "directory"@,
        "session-preload"@,
    ]);
    assert(v[10].0 == "search.filters"@);
    assert(v[11].0 == "local_timeout"@);
}

/// What keys do where nothing else is said.
pub proof fn law_default_keys(
    windows: bool,
    data: Seq<char>,
    runtime: Seq<char>,
    logs: Seq<char>,
    motion: bool,
)
    ensures
        ({
            let table = default_table(windows, data, runtime, logs, motion);
            &&& has_row(table, "exit_mode"@, DefaultView::Text("return-original"@))
            &&& has_row(table, "word_jump_mode"@, DefaultView::Text("emacs"@))
            &&& has_row(table, "word_chars"@, DefaultView::Text("abcdefghijklmnopqrstuvwxyzABCDEFGHIJKLMNOPQRSTUVWXYZ0123456789"@))
            &&& has_row(table, "scroll_context_lines"@, DefaultView::Number(1))
            &&& has_row(table, "shell_up_key_binding"@, DefaultView::Flag(false))
            &&& has_row(table, "ctrl_n_shortcuts"@, DefaultView::Flag(false))
            &&& has_row(table, "enter_accept"@, DefaultView::Flag(false))
            &&& has_row(table, "command_chaining"@, DefaultView::Flag(false))
            &&& has_row(table, "keymap_mode"@, DefaultView::Text("emacs"@))
            &&& has_row(table, "keymap_mode_shell"@, DefaultView::Text("auto"@))
            &&& has_row(table, "keymap_cursor"@, DefaultView::EmptyTable)
        }),
{
    let table = default_table(windows, data, runtime, logs, motion);
    let v = key_defaults();
    assert forall|i: int| 0 <= i < v.len() implies has_row(table, (#[trigger] v[i]).0, v[i].1) by {
        lemma_table_rows(windows, data, runtime, logs, motion, v[i].0, v[i].1);
    }
    assert(v.len() == 11);
    assert(v[0].0 == "exit_mode"@);
    assert(v[1].0 == "word_jump_mode"@);
    assert(v[2].0 == "word_chars"@);
    assert(v[3].0 == "scroll_context_lines"@);
    assert(v[4].0 == "shell_up_key_binding"@);
    assert(v[5].0 == "ctrl_n_shortcuts"@);
    assert(v[6].0 == "enter_accept"@);
    assert(v[7].0 == "command_chaining"@);
    assert(v[8].0 == "keymap_mode"@);
    assert(v[9].0 == "keymap_mode_shell"@);
    assert(v[10].0 == "keymap_cursor"@);
}

/// How history is kept in step with a server where nothing else is said.
pub proof fn law_default_sync(
    windows: bool,
    data: Seq<char>,
    runtime: Seq<char>,
    logs: Seq<char>,
    motion: bool,
)
    ensures
        ({
            let table = default_table(windows, data, runtime, logs, motion);
            &&& has_row(table, "auto_sync"@, DefaultView::Flag(true))
            &&& has_row(table, "update_check"@, DefaultView::Flag(false))
            &&& has_row(table, "sync_address"@, DefaultView::Text("https://api.atuin.sh"@))
            &&& has_row(table, "sync_frequency"@, DefaultView::Text("5m"@))
            &&& has_row(table, "secrets_filter"@, DefaultView::Flag(true))
            &&& has_row(table, "network_connect_timeout"@, DefaultView::Number(5))
            &&& has_row(table, "network_timeout"@, DefaultView::Number(30))
            &&& has_row(table, "sync.records"@, DefaultView::Flag(true))
            &&& has_row(table, "store_failed"@, DefaultView::Flag(true))
        }),
{
    let table = default_table(windows, data, runtime, logs, motion);
    let v = sync_defaults();
    assert forall|i: int| 0 <= i < v.len() implies has_row(table, (#[trigger] v[i]).0, v[i].1) by {
        lemma_table_rows(windows, data, runtime, logs, motion, v[i].0, v[i].1);
    }
    assert(v.len() == 9);
    assert(v[0].0 == "auto_sync"@);
    assert(v[1].0 == "update_check"@);
    assert(v[2].0 == "sync_address"@);
    assert(v[3].0 == "sync_frequency"@);
    assert(v[4].0 == "secrets_filter"@);
    assert(v[5].0 == "network_connect_timeout"@);
    assert(v[6].0 == "network_timeout"@);
    assert(v[7].0 == "sync.records"@);
    assert(v[8].0 == "store_failed"@);
}

} // verus!
