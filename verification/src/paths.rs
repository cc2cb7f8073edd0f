//! Paths as text, and where things are kept.
use vstd::prelude::*;
use vstd::slice::slice_subrange;

use crate::text::{
    chars_of, first_at, is_char, lemma_first_where, find_char, split_at_char, text_of,
};

verus! {

/// `std::path::MAIN_SEPARATOR`: the character between the components of a path, a backslash on
/// Windows and a slash elsewhere.
#[verifier::external_body]
fn path_separator() -> (c: char)
    ensures
        c == '/' || c == '\\',
{
    std::path::MAIN_SEPARATOR
}

/// The system that the program runs on. There is no way to make one but `System::this`.
#[derive(Clone, Copy, Debug)]
pub struct System {
    separator: char,
}

impl System {
    /// Whether it is Windows, where paths have drives and other separators.
    pub closed spec fn windows(self) -> bool {
        self.separator == '\\'
    }

    /// Whether it is what the machine was asked for and gave: its separator is one that a call of
    /// `path_separator` gave.
    pub closed spec fn is_this_machine(self) -> bool {
        call_ensures(path_separator, (), self.separator)
    }

    /// The system that the program runs on. Which one that is, only the machine tells.
    pub fn this() -> (system: System)
        ensures
            system.is_this_machine(),
    {
        System { separator: path_separator() }
    }

    /// Whether it is Windows.
    pub fn is_windows(&self) -> (b: bool)
        ensures
            b == self.windows(),
    {
        self.separator == '\\'
    }
}

/// What `std::path::Path::join` makes of two paths on Windows.
pub uninterp spec fn windows_join(base: Seq<char>, path: Seq<char>) -> Seq<char>;

/// `std::path::Path::join` on Windows. What it makes of drives, shares and roots is left to the
/// standard library.
#[verifier::external_body]
fn join_on_windows(system: &System, base: &str, path: &str) -> (out: String)
    requires
        system.windows(),
    ensures
        out@ == windows_join(base@, path@),
{
    std::path::Path::new(base).join(path).to_string_lossy().into_owned()
}

/// The components of a path by `std::path::Path::components` on Windows, each as a text such that
/// two texts are equal where the components are.
pub uninterp spec fn windows_components(path: Seq<char>) -> Seq<Seq<char>>;

/// `std::path::Path::components` on Windows. A drive or share stands as the kind of prefix that
/// it is, however it is written, with a backslash after it, which no name has in it; everything
/// else stands as it is. Which components a path has is left to the standard library.
#[verifier::external_body]
fn components_on_windows(system: &System, path: &str) -> (out: Vec<String>)
    requires
        system.windows(),
    ensures
        string_views(out@) == windows_components(path@),
{
    std::path::Path::new(path).components().map(|c| match c {
        std::path::Component::Prefix(prefix) => format!("{:?}\\", prefix.kind()),
        other => other.as_os_str().to_string_lossy().into_owned(),
    }).collect()
}

/// What `std::path::Path::parent` makes of a path on Windows.
pub uninterp spec fn windows_parent(path: Seq<char>) -> Option<Seq<char>>;

/// `std::path::Path::parent` on Windows: the path without its final component, if there is one,
/// which is shorter. Which component is the final one is left to the standard library.
#[verifier::external_body]
fn parent_on_windows(system: &System, path: &str) -> (out: Option<String>)
    requires
        system.windows(),
    ensures
        out is Some == windows_parent(path@) is Some,
        out matches Some(parent) ==> windows_parent(path@) == Some(parent@) && parent@.len()
            < path@.len(),
{
    std::path::Path::new(path).parent().map(|p| p.to_string_lossy().into_owned())
}

/// Whether a path starts at the root, on a system other than Windows.
pub open spec fn is_absolute(path: Seq<char>) -> bool {
    path.len() > 0 && path[0] == '/'
}

/// A path seen from another: the path itself where it starts at the root, and else the two
/// with one slash between them. On Windows it is what the standard library makes of the two.
pub open spec fn path_from(windows: bool, base: Seq<char>, path: Seq<char>) -> Seq<char> {
    if windows {
        windows_join(base, path)
    } else if is_absolute(path) {
        path
    } else if base.len() == 0 || base.last() == '/' {
        base + path
    } else {
        base + seq!['/'] + path
    }
}

/// A path seen from another.
pub fn join_path(system: &System, base: &str, path: &str) -> (out: String)
    ensures
        out@ == path_from(system.windows(), base@, path@),
{
    if system.is_windows() {
        return join_on_windows(system, base, path);
    }
    let b = chars_of(base);
    let p = chars_of(path);
    if p.len() > 0 && p[0] == '/' {
        return text_of(p.as_slice());
    }
    let mut out: Vec<char> = b;
    let mut rest: Vec<char> = p;
    let ghost start = out@;
    if out.len() > 0 && out[out.len() - 1] != '/' {
        out.push('/');
    }
    out.append(&mut rest);
    assert(out@ =~= path_from(false, base@, path@));
    text_of(out.as_slice())
}

/// The directory for configuration: `atuin` in the one that the environment names, or in
/// `.config` of the home directory.
pub open spec fn config_dir_of(
    windows: bool,
    named: Option<Seq<char>>,
    home: Seq<char>,
) -> Seq<char> {
    path_from(
        windows,
        match named {
            Some(dir) => dir,
            None => path_from(windows, home, ".config"@),
        },
        "atuin"@,
    )
}

/// The text of a string slice, if there is one.
pub open spec fn option_view(s: Option<&str>) -> Option<Seq<char>> {
    match s {
        Some(s) => Some(s@),
        None => None,
    }
}

/// The directory for configuration, where `xdg_config_home` is what the environment names.
pub fn config_dir(system: &System, xdg_config_home: Option<&str>, home: &str) -> (dir: String)
    ensures
        dir@ == config_dir_of(system.windows(), option_view(xdg_config_home), home@),
{
    match xdg_config_home {
        Some(dir) => join_path(system, dir, "atuin"),
        None => {
            let base = join_path(system, home, ".config");
            join_path(system, base.as_str(), "atuin")
        },
    }
}

/// The directory for data: `atuin` in the one that the environment names, or in `.local/share`
/// of the home directory.
pub open spec fn data_dir_of(
    windows: bool,
    named: Option<Seq<char>>,
    home: Seq<char>,
) -> Seq<char> {
    path_from(
        windows,
        match named {
            Some(dir) => dir,
            None => path_from(windows, path_from(windows, home, ".local"@), "share"@),
        },
        "atuin"@,
    )
}

/// The directory for data, where `xdg_data_home` is what the environment names.
pub fn data_dir(system: &System, xdg_data_home: Option<&str>, home: &str) -> (dir: String)
    ensures
        dir@ == data_dir_of(system.windows(), option_view(xdg_data_home), home@),
{
    match xdg_data_home {
        Some(dir) => join_path(system, dir, "atuin"),
        None => {
            let local = join_path(system, home, ".local");
            let share = join_path(system, local.as_str(), "share");
            join_path(system, share.as_str(), "atuin")
        },
    }
}

/// The directory for sockets and the like: the one that the environment names, or that for
/// data.
pub fn runtime_dir(xdg_runtime_dir: Option<&str>, data_dir: &str) -> (dir: String)
    ensures
        dir@ == (match xdg_runtime_dir {
            Some(dir) => dir@,
            None => data_dir@,
        }),
{
    match xdg_runtime_dir {
        Some(dir) => dir.to_owned(),
        None => data_dir.to_owned(),
    }
}

/// The directory for logs: `.atuin/logs` in the home directory.
pub open spec fn logs_dir_of(windows: bool, home: Seq<char>) -> Seq<char> {
    path_from(windows, path_from(windows, home, ".atuin"@), "logs"@)
}

/// The directory for logs.
pub fn logs_dir(system: &System, home: &str) -> (dir: String)
    ensures
        dir@ == logs_dir_of(system.windows(), home@),
{
    let base = join_path(system, home, ".atuin");
    join_path(system, base.as_str(), "logs")
}

/// Whether a path is a link that leads nowhere, given whether it is a link and whether there
/// is something at its end.
pub fn broken_symlink(is_symlink: bool, exists: bool) -> (b: bool)
    ensures
        b == (is_symlink && !exists),
{
    is_symlink && !exists
}

/// Picks out the names that count as a component of a path: those that are not empty and not a
/// single dot.
pub open spec fn is_name() -> spec_fn(Seq<char>) -> bool {
    |part: Seq<char>| part.len() > 0 && part != seq!['.']
}

/// The components of a path: a slash first where it starts at the root, or a dot first where
/// it starts with one, and then the names between slashes other than empty ones and dots. On
/// Windows they are those that the standard library finds.
pub open spec fn components(windows: bool, path: Seq<char>) -> Seq<Seq<char>> {
    if windows {
        windows_components(path)
    } else {
        slash_components(path)
    }
}

/// The components of a path on a system other than Windows.
pub open spec fn slash_components(path: Seq<char>) -> Seq<Seq<char>> {
    let parts = split_at_char(path, '/');
    let names = parts.filter(is_name());
    if is_absolute(path) {
        seq![seq!['/']] + names
    } else if parts[0] == seq!['.'] {
        seq![seq!['.']] + names
    } else {
        names
    }
}

/// The length of the longest common start of two lists.
pub open spec fn common_len<T>(a: Seq<T>, b: Seq<T>) -> nat
    decreases a.len(),
{
    if a.len() == 0 || b.len() == 0 || a[0] != b[0] {
        0
    } else {
        1 + common_len(a.skip(1), b.skip(1))
    }
}

/// How many steps up and down lead from one list of components to another.
pub open spec fn steps_between<T>(a: Seq<T>, b: Seq<T>) -> int {
    a.len() + b.len() - 2 * common_len(a, b)
}

/// A list of slices as a list of texts.
pub open spec fn char_views(v: Seq<Vec<char>>) -> Seq<Seq<char>> {
    v.map_values(|c: Vec<char>| c@)
}

fn copy_chars(s: &[char]) -> (out: Vec<char>)
    ensures
        out@ == s@,
{
    let mut out: Vec<char> = Vec::with_capacity(s.len());
    let mut i: usize = 0;
    while i < s.len()
        invariant
            i <= s.len(),
            out@ == s@.take(i as int),
        decreases s.len() - i,
    {
        out.push(s[i]);
        i = i + 1;
        assert(s@.take(i as int) =~= s@.take(i - 1).push(s@[i - 1]));
    }
    assert(s@.take(i as int) =~= s@);
    out
}

/// The components of a path.
pub fn path_components(system: &System, path: &str) -> (out: Vec<Vec<char>>)
    ensures
        char_views(out@) == components(system.windows(), path@),
{
    if system.is_windows() {
        let parts = components_on_windows(system, path);
        let mut out: Vec<Vec<char>> = Vec::with_capacity(parts.len());
        let mut i: usize = 0;
        while i < parts.len()
            invariant
                i <= parts.len(),
                out.len() == i,
                forall|j: int| 0 <= j < i ==> (#[trigger] out@[j])@ == parts@[j]@,
            decreases parts.len() - i,
        {
            out.push(chars_of(parts[i].as_str()));
            i = i + 1;
        }
        assert(char_views(out@) =~= string_views(parts@));
        out
    } else {
        split_components(path)
    }
}

fn split_components(path: &str) -> (out: Vec<Vec<char>>)
    ensures
        char_views(out@) == slash_components(path@),
{
    let chars = chars_of(path);
    let mut out: Vec<Vec<char>> = Vec::new();
    let ghost all = split_at_char(path@, '/');
    let n: usize = chars.len();
    if n > 0 && chars[0] == '/' {
        let mut root: Vec<char> = Vec::new();
        root.push('/');
        assert(root@ =~= seq!['/']);
        out.push(root);
    } else if n > 0 && chars[0] == '.' && (n == 1 || chars[1] == '/') {
        let mut dot: Vec<char> = Vec::new();
        dot.push('.');
        assert(dot@ =~= seq!['.']);
        out.push(dot);
    }
    proof {
        lemma_first_part(path@);
    }
    let ghost lead = char_views(out@);
    assert(is_absolute(path@) ==> lead =~= seq![seq!['/']]);
    assert(!is_absolute(path@) && all[0] == seq!['.'] ==> lead =~= seq![seq!['.']]);
    assert(!is_absolute(path@) && all[0] != seq!['.'] ==> lead =~= Seq::empty());
    let mut rest = chars.as_slice();
    let mut more = true;
    proof {
        reveal(Seq::filter);
    }
    assert(lead + all.filter(is_name()) == lead + split_at_char(rest@, '/').filter(is_name()));
    let ghost target = lead + all.filter(is_name());
    assert(char_views(out@) + split_at_char(rest@, '/').filter(is_name()) =~= target);
    while more
        invariant
            more ==> char_views(out@) + split_at_char(rest@, '/').filter(is_name()) == target,
            !more ==> char_views(out@) == target,
        decreases
            rest@.len(),
            if more {
                1int
            } else {
                0int
            },
    {
        proof {
            lemma_first_where(rest@, is_char('/'));
        }
        let ghost before = char_views(out@);
        let ghost s = rest@;
        let n: usize = rest.len();
        let at: usize = match find_char(rest, '/') {
            Some(i) => i,
            None => n,
        };
        let part = slice_subrange(rest, 0, at);
        assert(part@ =~= s.take(at as int));
        let keep = part.len() > 0 && !(part.len() == 1 && part[0] == '.');
        assert(keep == is_name()(part@)) by {
            if part@.len() == 1 && part@[0] == '.' {
                assert(part@ =~= seq!['.']);
            }
        }
        if keep {
            let name = copy_chars(part);
            let ghost old_out = out@;
            out.push(name);
            assert(char_views(out@) =~= before.push(part@));
        }
        if at == n {
            more = false;
            proof {
                assert(part@ =~= s);
                lemma_filter_one(s, is_name());
                assert(char_views(out@) =~= before + split_at_char(s, '/').filter(is_name()));
            }
        } else {
            rest = slice_subrange(rest, at + 1, n);
            assert(rest@ =~= s.skip(at + 1));
            proof {
                let tail = split_at_char(rest@, '/');
                assert(split_at_char(s, '/') == seq![part@] + tail);
                Seq::filter_distributes_over_add(seq![part@], tail, is_name());
                lemma_filter_one(part@, is_name());
                assert(char_views(out@) + tail.filter(is_name()) =~= before + split_at_char(
                    s,
                    '/',
                ).filter(is_name()));
            }
        }
    }
    out
}

/// A list of one item keeps it under a filter, or loses it.
pub proof fn lemma_filter_one<T>(x: T, p: spec_fn(T) -> bool)
    ensures
        seq![x].filter(p) == (if p(x) {
            seq![x]
        } else {
            Seq::empty()
        }),
{
    reveal(Seq::filter);
    let s = seq![x];
    assert(s.drop_last() =~= Seq::empty());
    assert(s.drop_last().filter(p) =~= Seq::empty());
    assert(Seq::<T>::empty().push(x) =~= s);
}

/// The first part of a path is a dot where it starts with a dot alone before a slash or its
/// end.
proof fn lemma_first_part(path: Seq<char>)
    ensures
        split_at_char(path, '/').len() > 0,
        (split_at_char(path, '/')[0] == seq!['.']) == (path.len() > 0 && path[0] == '.' && (
        path.len() == 1 || path[1] == '/')),
{
    lemma_first_where(path, is_char('/'));
    let i = first_at(path, '/');
    let first = split_at_char(path, '/')[0];
    assert(first == path.take(i));
    if path.len() > 0 && path[0] == '.' && (path.len() == 1 || path[1] == '/') {
        crate::text::lemma_first_where_is(path, is_char('/'), 1);
        assert(first =~= seq!['.']);
    }
    if first == seq!['.'] {
        assert(i == 1);
        assert(path[0] == first[0]);
    }
}

/// How many steps up and down lead from one directory to another.
pub fn path_dist(system: &System, a: &str, b: &str) -> (n: u128)
    ensures
        n == steps_between(components(system.windows(), a@), components(system.windows(), b@)),
{
    let x = path_components(system, a);
    let y = path_components(system, b);
    let ghost cx = components(system.windows(), a@);
    let ghost cy = components(system.windows(), b@);
    let mut i: usize = 0;
    assert(cx.skip(0) =~= cx);
    assert(cy.skip(0) =~= cy);
    let mut same = true;
    while same && i < x.len() && i < y.len()
        invariant
            char_views(x@) == cx,
            char_views(y@) == cy,
            i <= x.len(),
            i <= y.len(),
            same ==> common_len(cx, cy) == i + common_len(cx.skip(i as int), cy.skip(i as int)),
            !same ==> common_len(cx, cy) == i,
        decreases
            x.len() - i,
            if same {
                1int
            } else {
                0int
            },
    {
        assert(cx[i as int] == x@[i as int]@);
        assert(cy[i as int] == y@[i as int]@);
        assert(cx.skip(i as int).skip(1) =~= cx.skip(i + 1));
        assert(cy.skip(i as int).skip(1) =~= cy.skip(i + 1));
        if crate::text::same_chars(x[i].as_slice(), y[i].as_slice()) {
            i = i + 1;
        } else {
            same = false;
        }
    }
    assert(cx.len() == x.len() && cy.len() == y.len());
    (x.len() - i) as u128 + (y.len() - i) as u128
}

/// A list has the whole of itself in common with itself.
proof fn lemma_common_self<T>(a: Seq<T>)
    ensures
        common_len(a, a) == a.len(),
    decreases a.len(),
{
    if a.len() > 0 {
        lemma_common_self(a.skip(1));
    }
}

proof fn lemma_common<T>(a: Seq<T>, b: Seq<T>)
    ensures
        common_len(a, b) <= a.len(),
        common_len(a, b) <= b.len(),
        common_len(a, b) == common_len(b, a),
    decreases a.len(),
{
    if a.len() > 0 && b.len() > 0 && a[0] == b[0] {
        lemma_common(a.skip(1), b.skip(1));
    }
}

proof fn lemma_common_whole<T>(a: Seq<T>, b: Seq<T>)
    requires
        common_len(a, b) == a.len(),
        common_len(a, b) == b.len(),
    ensures
        a == b,
    decreases a.len(),
{
    if a.len() > 0 {
        lemma_common_whole(a.skip(1), b.skip(1));
        assert(a =~= seq![a[0]] + a.skip(1));
        assert(b =~= seq![b[0]] + b.skip(1));
    } else {
        assert(a =~= b);
    }
}

proof fn lemma_common_three<T>(a: Seq<T>, b: Seq<T>, c: Seq<T>)
    ensures
        common_len(a, c) >= common_len(a, b) || common_len(a, c) >= common_len(b, c),
    decreases a.len(),
{
    if a.len() > 0 && b.len() > 0 && c.len() > 0 && a[0] == b[0] && b[0] == c[0] {
        lemma_common_three(a.skip(1), b.skip(1), c.skip(1));
    }
}

/// It takes no step to get from a directory to itself, and some step to any other.
pub proof fn law_distance_zero<T>(a: Seq<T>, b: Seq<T>)
    ensures
        steps_between(a, b) >= 0,
        steps_between(a, b) == 0 <==> a == b,
{
    lemma_common(a, b);
    lemma_common_self(a);
    if steps_between(a, b) == 0 {
        lemma_common_whole(a, b);
    }
}

/// It takes as many steps to go as to come back.
pub proof fn law_distance_symmetric<T>(a: Seq<T>, b: Seq<T>)
    ensures
        steps_between(a, b) == steps_between(b, a),
{
    lemma_common(a, b);
}

/// Going by way of a third directory takes no fewer steps.
pub proof fn law_distance_triangle<T>(a: Seq<T>, b: Seq<T>, c: Seq<T>)
    ensures
        steps_between(a, c) <= steps_between(a, b) + steps_between(b, c),
{
    lemma_common(a, b);
    lemma_common(b, c);
    lemma_common_three(a, b, c);
}

/// A path without the slashes, and the dots after a slash, at its end; the root stays.
pub open spec fn trimmed_path(s: Seq<char>) -> Seq<char>
    decreases s.len(),
{
    if s.len() > 1 && (s.last() == '/' || (s.last() == '.' && s[s.len() - 2] == '/')) {
        trimmed_path(s.drop_last())
    } else {
        s
    }
}

/// The position of the last slash, or -1 where there is none.
pub open spec fn last_slash(s: Seq<char>) -> int
    decreases s.len(),
{
    if s.len() == 0 {
        -1
    } else if s.last() == '/' {
        s.len() - 1
    } else {
        last_slash(s.drop_last())
    }
}

/// A path without its last component, if it has one. On Windows it is what the standard library
/// makes of the path.
pub open spec fn parent_of(windows: bool, path: Seq<char>) -> Option<Seq<char>> {
    if windows {
        windows_parent(path)
    } else {
        slash_parent(path)
    }
}

/// A path without its last component on a system other than Windows. The root and the empty path
/// have none to leave out.
pub open spec fn slash_parent(path: Seq<char>) -> Option<Seq<char>> {
    let s = trimmed_path(path);
    if s.len() == 0 || s == seq!['/'] {
        None
    } else {
        Some(trimmed_path(s.take(last_slash(s) + 1)))
    }
}

proof fn lemma_trimmed_path(s: Seq<char>)
    ensures
        trimmed_path(s).len() <= s.len(),
        trimmed_path(s) == s.take(trimmed_path(s).len() as int),
        s.len() > 0 ==> trimmed_path(s).len() > 0,
    decreases s.len(),
{
    if s.len() > 1 && (s.last() == '/' || (s.last() == '.' && s[s.len() - 2] == '/')) {
        lemma_trimmed_path(s.drop_last());
        let n = trimmed_path(s).len() as int;
        assert(s.drop_last().take(n) =~= s.take(n));
    } else {
        assert(s.take(s.len() as int) =~= s);
    }
}

proof fn lemma_last_slash(s: Seq<char>)
    ensures
        -1 <= last_slash(s) < s.len(),
        last_slash(s) >= 0 ==> s[last_slash(s)] == '/',
    decreases s.len(),
{
    if s.len() > 0 && s.last() != '/' {
        lemma_last_slash(s.drop_last());
    }
}

/// A trimmed path does not end with a slash, unless it is the root.
proof fn lemma_trimmed_end(s: Seq<char>)
    ensures
        trimmed_path(s).len() > 1 ==> trimmed_path(s).last() != '/',
    decreases s.len(),
{
    if s.len() > 1 && (s.last() == '/' || (s.last() == '.' && s[s.len() - 2] == '/')) {
        lemma_trimmed_end(s.drop_last());
    }
}

/// On a system other than Windows, what a path is without its last component is a start of it,
/// and shorter.
pub proof fn law_parent_shorter(path: Seq<char>)
    requires
        parent_of(false, path) is Some,
    ensures
        parent_of(false, path).unwrap().is_prefix_of(path),
        parent_of(false, path).unwrap().len() < path.len(),
{
    lemma_trimmed_path(path);
    lemma_trimmed_end(path);
    let s = trimmed_path(path);
    lemma_last_slash(s);
    let front = s.take(last_slash(s) + 1);
    lemma_trimmed_path(front);
    let parent = trimmed_path(front);
    if s.len() == 1 {
        if last_slash(s) == 0 {
            assert(s =~= seq!['/']);
        }
    } else if last_slash(s) == s.len() - 1 {
        assert(s.last() == '/');
    }
    assert(parent =~= path.take(parent.len() as int));
}

/// A path, what it is without its last component, and so on, as far as there is one to leave
/// out.
pub open spec fn upward(windows: bool, path: Seq<char>) -> Seq<Seq<char>>
    decreases path.len(),
{
    match parent_of(windows, path) {
        Some(parent) => if parent.len() < path.len() {
            seq![path] + upward(windows, parent)
        } else {
            seq![path]
        },
        None => Seq::empty(),
    }
}

/// A path without the slashes, and the dots after a slash, at its end.
fn trim_path(s: &[char]) -> (out: &[char])
    ensures
        out@ == trimmed_path(s@),
{
    let mut n: usize = s.len();
    assert(s@.take(n as int) =~= s@);
    while n > 1 && (s[n - 1] == '/' || (s[n - 1] == '.' && s[n - 2] == '/'))
        invariant
            n <= s.len(),
            trimmed_path(s@) == trimmed_path(s@.take(n as int)),
        decreases n,
    {
        assert(s@.take(n as int).drop_last() =~= s@.take(n - 1));
        n = n - 1;
    }
    let out = slice_subrange(s, 0, n);
    assert(out@ =~= s@.take(n as int));
    out
}

/// A path without its last component.
fn parent_path(path: &[char]) -> (out: Option<&[char]>)
    ensures
        out is Some == slash_parent(path@) is Some,
        out matches Some(parent) ==> slash_parent(path@) == Some(parent@),
{
    let s = trim_path(path);
    let mut n: usize = s.len();
    if n == 0 {
        return None;
    }
    if n == 1 && s[0] == '/' {
        assert(s@ =~= seq!['/']);
        return None;
    }
    assert(s@.take(n as int) =~= s@);
    while n > 0 && s[n - 1] != '/'
        invariant
            n <= s.len(),
            last_slash(s@) == last_slash(s@.take(n as int)),
        decreases n,
    {
        assert(s@.take(n as int).drop_last() =~= s@.take(n - 1));
        n = n - 1;
    }
    let front = slice_subrange(s, 0, n);
    assert(front@ =~= s@.take(last_slash(s@) + 1));
    Some(trim_path(front))
}

/// A list of strings as a list of texts.
pub open spec fn string_views(v: Seq<String>) -> Seq<Seq<char>> {
    v.map_values(|s: String| s@)
}

/// The directories in which to look for a repository that a path is in: the path, what it is
/// without its last component, and so on.
pub fn search_dirs(system: &System, path: &str) -> (dirs: Vec<String>)
    ensures
        string_views(dirs@) == upward(system.windows(), path@),
{
    if system.is_windows() {
        dirs_on_windows(system, path)
    } else {
        dirs_by_slashes(path)
    }
}

fn dirs_on_windows(system: &System, path: &str) -> (dirs: Vec<String>)
    requires
        system.windows(),
    ensures
        string_views(dirs@) == upward(true, path@),
{
    let mut dirs: Vec<String> = Vec::new();
    let mut dir = path.to_owned();
    let mut parent = parent_on_windows(system, dir.as_str());
    assert(string_views(dirs@) + upward(true, dir@) =~= upward(true, path@));
    loop
        invariant
            system.windows(),
            string_views(dirs@) + upward(true, dir@) == upward(true, path@),
            parent is Some == windows_parent(dir@) is Some,
            parent matches Some(p) ==> windows_parent(dir@) == Some(p@) && p@.len() < dir@.len(),
        decreases dir@.len(),
    {
        let ghost before = string_views(dirs@);
        let ghost here = dir@;
        match parent {
            Some(p) => {
                dirs.push(dir);
                assert(string_views(dirs@) =~= before.push(here));
                assert(upward(true, here) == seq![here] + upward(true, p@));
                assert(string_views(dirs@) + upward(true, p@) =~= before + upward(true, here));
                dir = p;
                parent = parent_on_windows(system, dir.as_str());
            },
            None => {
                assert(before + upward(true, here) =~= before);
                return dirs;
            },
        }
    }
}

fn dirs_by_slashes(path: &str) -> (dirs: Vec<String>)
    ensures
        string_views(dirs@) == upward(false, path@),
{
    let chars = chars_of(path);
    let mut dirs: Vec<String> = Vec::new();
    let mut dir = chars.as_slice();
    let mut more = true;
    assert(string_views(dirs@) + upward(false, dir@) =~= upward(false, path@));
    while more
        invariant
            more ==> string_views(dirs@) + upward(false, dir@) == upward(false, path@),
            !more ==> string_views(dirs@) == upward(false, path@),
        decreases
            dir@.len(),
            if more {
                1int
            } else {
                0int
            },
    {
        let ghost before = string_views(dirs@);
        let ghost here = dir@;
        match parent_path(dir) {
            Some(parent) => {
                proof {
                    law_parent_shorter(here);
                }
                dirs.push(text_of(dir));
                assert(string_views(dirs@) =~= before.push(here));
                assert(upward(false, here) == seq![here] + upward(false, parent@));
                assert(string_views(dirs@) + upward(false, parent@) =~= before + upward(
                    false,
                    here,
                ));
                dir = parent;
            },
            None => {
                more = false;
                assert(before + upward(false, here) =~= before);
            },
        }
    }
    dirs
}

/// What tells that a directory is the root of a repository: `.git` in it.
pub fn git_dir(system: &System, path: &str) -> (dir: String)
    ensures
        dir@ == path_from(system.windows(), path@, ".git"@),
{
    join_path(system, path, ".git")
}

/// The root of the repository that a path is in: the first of its search directories with a
/// `.git` in it. `has_git` tells that of each of them, as far as it has been looked.
pub fn in_git_repo(system: &System, path: &str, has_git: &Vec<bool>) -> (root: Option<String>)
    requires
        has_git.len() <= upward(system.windows(), path@).len(),
    ensures
        match root {
            Some(root) => exists|i: int|
                0 <= i < has_git.len() && #[trigger] has_git@[i] && root@ == upward(
                    system.windows(),
                    path@,
                )[i] && forall|j: int| 0 <= j < i ==> !#[trigger] has_git@[j],
            None => forall|j: int| 0 <= j < has_git.len() ==> !#[trigger] has_git@[j],
        },
{
    let dirs = search_dirs(system, path);
    assert(dirs.len() == upward(system.windows(), path@).len());
    let mut i: usize = 0;
    while i < has_git.len()
        invariant
            i <= has_git.len(),
            has_git.len() <= dirs.len(),
            string_views(dirs@) == upward(system.windows(), path@),
            forall|j: int| 0 <= j < i ==> !#[trigger] has_git@[j],
        decreases has_git.len() - i,
    {
        if has_git[i] {
            let root = dirs[i].clone();
            assert(root@ == string_views(dirs@)[i as int]);
            return Some(root);
        }
        i = i + 1;
    }
    None
}

/// The directories in which to look for a repository are the path itself and those in which to
/// look from the path without its last component on; a path that has none to leave out, such as
/// the root, is not looked in.
pub proof fn law_looked_in(path: Seq<char>)
    ensures
        parent_of(false, path) is None ==> upward(false, path).len() == 0,
        parent_of(false, path) matches Some(parent) ==> upward(false, path).len() == upward(
            false,
            parent,
        ).len() + 1 && upward(false, path)[0] == path && forall|i: int|
            0 <= i < upward(false, parent).len() ==> #[trigger] upward(false, parent)[i] == upward(
                false,
                path,
            )[i + 1],
{
    if parent_of(false, path) is Some {
        law_parent_shorter(path);
    }
}

} // verus!
