//! `satz run-actions` — the deployment steps that have no provider resource:
//! which actions a run selects and in what order, where an action's script is
//! looked for, what makes it runnable, the exact process it is spawned as, and
//! the command line that is printed for it. Paths are `/`-separated text and
//! are handled lexically: nothing here touches the filesystem.

use vstd::prelude::*;
use vstd::string::*;
use crate::bootstrap::eq_ignore_ascii_case;
use crate::text::{
    ascii_lower, find, from_chars, is_ascii_alnum, join, join_chars, push_chars, push_str_chars, replace_char,
    replace_char_exec, rfind, rfind_char, slice_chars, split_chars, split_on, str_eq, to_ascii_lower, to_chars, views,
};

verus! {

/// What a run does with the actions it selects.
#[derive(Debug, Clone, Copy, PartialEq, Eq)]
pub enum Mode {
    /// Resolve and print; spawn nothing.
    Plan,
    /// Spawn with `args` only: the action's own dry-run form.
    Check,
    /// Spawn with `args` + `execute_args`, the form that writes.
    Execute,
}

impl Mode {
    pub fn as_str(self) -> (r: &'static str)
        ensures
            r@ == (match self {
                Mode::Plan => "plan"@,
                Mode::Check => "check"@,
                Mode::Execute => "execute"@,
            }),
    {
        match self {
            Mode::Plan => "plan",
            Mode::Check => "check",
            Mode::Execute => "execute",
        }
    }
}

// ---------------------------------------------------------------------------
// Paths, lexically
// ---------------------------------------------------------------------------

/// A path component that names nothing: an empty piece between two `/`, or `.`.
pub open spec fn is_blank_piece(x: Seq<char>) -> bool {
    x.len() == 0 || x == "."@
}

/// The components of a path that name something, in order (`a//./b` → `a`, `b`).
pub open spec fn kept(ps: Seq<Seq<char>>) -> Seq<Seq<char>>
    decreases ps.len(),
{
    if ps.len() == 0 {
        seq![]
    } else if is_blank_piece(ps.last()) {
        kept(ps.drop_last())
    } else {
        kept(ps.drop_last()).push(ps.last())
    }
}

/// The components left once each `..` has taken away the ordinary component
/// before it; a `..` with none before it stays.
pub open spec fn folded(ps: Seq<Seq<char>>) -> Seq<Seq<char>>
    decreases ps.len(),
{
    if ps.len() == 0 {
        seq![]
    } else {
        let prev = folded(ps.drop_last());
        let x = ps.last();
        if is_blank_piece(x) {
            prev
        } else if x == ".."@ {
            if prev.len() > 0 && prev.last() != ".."@ {
                prev.drop_last()
            } else {
                prev.push(x)
            }
        } else {
            prev.push(x)
        }
    }
}

pub open spec fn is_rooted(p: Seq<char>) -> bool {
    p.len() > 0 && p[0] == '/'
}

/// The path a list of components spells: rooted or not, and `.` for none.
pub open spec fn spelled(rooted: bool, ps: Seq<Seq<char>>) -> Seq<char> {
    if rooted {
        "/"@ + join(ps, "/"@)
    } else if ps.len() == 0 {
        "."@
    } else {
        join(ps, "/"@)
    }
}

/// Lexical cleanup: `yaml/../scripts/x.sh` names the same file as
/// `scripts/x.sh`. Purely textual — no symlink is resolved, so what is printed
/// is what was written.
pub open spec fn normalized(p: Seq<char>) -> Seq<char> {
    spelled(is_rooted(p), folded(split_on(p, '/')))
}

fn fold_exec(pieces: &Vec<Vec<char>>) -> (r: Vec<Vec<char>>)
    ensures
        views(r@) == folded(views(pieces@)),
{
    let ghost ps = views(pieces@);
    let dot = to_chars(".");
    let dotdot = to_chars("..");
    let mut out: Vec<Vec<char>> = Vec::new();
    let mut i: usize = 0;
    while i < pieces.len()
        invariant
            i <= pieces.len(),
            ps == views(pieces@),
            dot@ == "."@,
            dotdot@ == ".."@,
            views(out@) == folded(ps.take(i as int)),
        decreases pieces.len() - i,
    {
        proof {
            assert(ps.take(i + 1).drop_last() =~= ps.take(i as int));
            assert(ps.take(i + 1).last() == pieces@[i as int]@);
        }
        let x = &pieces[i];
        if x.len() == 0 || crate::text::chars_eq(x, &dot) {
        } else if crate::text::chars_eq(x, &dotdot) {
            let n = out.len();
            if n > 0 && !crate::text::chars_eq(&out[n - 1], &dotdot) {
                let ghost before = views(out@);
                out.pop();
                assert(views(out@) =~= before.drop_last());
            } else {
                let ghost before = views(out@);
                out.push(dotdot.clone());
                assert(views(out@) =~= before.push(".."@));
            }
        } else {
            let ghost before = views(out@);
            out.push(x.clone());
            assert(views(out@) =~= before.push(x@));
        }
        i = i + 1;
    }
    assert(ps.take(pieces.len() as int) =~= ps);
    out
}

fn kept_exec(pieces: &Vec<Vec<char>>) -> (r: Vec<Vec<char>>)
    ensures
        views(r@) == kept(views(pieces@)),
{
    let ghost ps = views(pieces@);
    let dot = to_chars(".");
    let mut out: Vec<Vec<char>> = Vec::new();
    let mut i: usize = 0;
    while i < pieces.len()
        invariant
            i <= pieces.len(),
            ps == views(pieces@),
            dot@ == "."@,
            views(out@) == kept(ps.take(i as int)),
        decreases pieces.len() - i,
    {
        proof {
            assert(ps.take(i + 1).drop_last() =~= ps.take(i as int));
            assert(ps.take(i + 1).last() == pieces@[i as int]@);
        }
        let x = &pieces[i];
        if !(x.len() == 0 || crate::text::chars_eq(x, &dot)) {
            let ghost before = views(out@);
            out.push(x.clone());
            assert(views(out@) =~= before.push(x@));
        }
        i = i + 1;
    }
    assert(ps.take(pieces.len() as int) =~= ps);
    out
}

fn spell(rooted: bool, ps: &Vec<Vec<char>>) -> (r: Vec<char>)
    ensures
        r@ == spelled(rooted, views(ps@)),
{
    let slash = to_chars("/");
    let body = join_chars(ps, &slash);
    if rooted {
        let mut r = slash;
        push_chars(&mut r, &body);
        r
    } else if ps.len() == 0 {
        to_chars(".")
    } else {
        body
    }
}

/// Lexical cleanup of a path, for display and for spawning.
pub fn lexical_normalize(p: &str) -> (r: String)
    ensures
        r@ == normalized(p@),
{
    let pc = to_chars(p);
    let rooted = pc.len() > 0 && pc[0] == '/';
    let pieces = split_chars(&pc, '/');
    let f = fold_exec(&pieces);
    let r = spell(rooted, &f);
    from_chars(&r)
}

/// `Path::join`: a rooted `b` replaces `a`.
pub open spec fn joined(a: Seq<char>, b: Seq<char>) -> Seq<char> {
    if is_rooted(b) || a.len() == 0 {
        b
    } else {
        a + "/"@ + b
    }
}

/// A path made absolute against the working directory, without touching the
/// filesystem, and cleaned up lexically.
pub open spec fn absolutized(p: Seq<char>, cwd: Seq<char>) -> Seq<char> {
    normalized(joined(cwd, p))
}

fn join_path(a: &str, b: &str) -> (r: String)
    ensures
        r@ == joined(a@, b@),
{
    let bc = to_chars(b);
    if (bc.len() > 0 && bc[0] == '/') || a.unicode_len() == 0 {
        return String::from_str(b);
    }
    let mut r = String::from_str(a);
    r.append("/");
    r.append(b);
    r
}

/// Make a path absolute against `cwd`, the process's working directory.
pub fn absolutize(p: &str, cwd: &str) -> (r: String)
    ensures
        r@ == absolutized(p@, cwd@),
{
    let j = join_path(cwd, p);
    lexical_normalize(j.as_str())
}

/// `Path::strip_prefix`, component by component: the rest of `path` when
/// `base` is a leading run of its components.
pub open spec fn stripped(path: Seq<char>, base: Seq<char>) -> Option<Seq<char>> {
    let pp = kept(split_on(path, '/'));
    let bp = kept(split_on(base, '/'));
    if is_rooted(path) == is_rooted(base) && bp.len() <= pp.len() && pp.take(bp.len() as int) == bp {
        Some(join(pp.skip(bp.len() as int), "/"@))
    } else {
        None
    }
}

/// An executable's path for printing: relative to the estate root when it
/// sits under it, else as it is.
pub open spec fn shown_path(exe: Seq<char>, root: Seq<char>) -> Seq<char> {
    match stripped(exe, root) {
        Some(rel) => rel,
        None => exe,
    }
}

/// Shorten a path for printing when it sits under the (absolute) estate root.
/// The full path is still what gets executed.
pub fn display_path(exe: &str, root: &str) -> (r: String)
    ensures
        r@ == shown_path(exe@, root@),
{
    let ec = to_chars(exe);
    let rc = to_chars(root);
    let ep = kept_exec(&split_chars(&ec, '/'));
    let bp = kept_exec(&split_chars(&rc, '/'));
    let e_rooted = ec.len() > 0 && ec[0] == '/';
    let r_rooted = rc.len() > 0 && rc[0] == '/';
    if e_rooted != r_rooted || bp.len() > ep.len() {
        return String::from_str(exe);
    }
    let mut i: usize = 0;
    while i < bp.len()
        invariant
            i <= bp.len() <= ep.len(),
            views(ep@) == kept(split_on(exe@, '/')),
            views(bp@) == kept(split_on(root@, '/')),
            is_rooted(exe@) == is_rooted(root@),
            forall|j: int| 0 <= j < i ==> ep@[j]@ == bp@[j]@,
        decreases bp.len() - i,
    {
        if !crate::text::chars_eq(&ep[i], &bp[i]) {
            proof {
                assert(views(ep@).take(bp.len() as int)[i as int] != views(bp@)[i as int]);
            }
            return String::from_str(exe);
        }
        i = i + 1;
    }
    assert(views(ep@).take(bp.len() as int) =~= views(bp@));
    let mut rest: Vec<Vec<char>> = Vec::new();
    let mut k: usize = bp.len();
    while k < ep.len()
        invariant
            bp.len() <= k <= ep.len(),
            views(rest@) == views(ep@).subrange(bp.len() as int, k as int),
        decreases ep.len() - k,
    {
        let ghost before = views(rest@);
        rest.push(ep[k].clone());
        assert(views(rest@) =~= before.push(ep@[k as int]@));
        assert(views(ep@).subrange(bp.len() as int, k + 1) =~= views(ep@).subrange(bp.len() as int, k as int).push(ep@[k as int]@));
        k = k + 1;
    }
    assert(views(rest@) =~= views(ep@).skip(bp.len() as int));
    let slash = to_chars("/");
    let r = join_chars(&rest, &slash);
    from_chars(&r)
}

/// The last component of a path, when it is an ordinary one (`Path::file_name`).
pub open spec fn file_name(p: Seq<char>) -> Option<Seq<char>> {
    let ps = kept(split_on(p, '/'));
    if ps.len() > 0 && ps.last() != ".."@ {
        Some(ps.last())
    } else {
        None
    }
}

/// `Path::extension`: what follows the last `.` of the file name, unless
/// that `.` is the name's first character.
pub open spec fn extension(p: Seq<char>) -> Option<Seq<char>> {
    match file_name(p) {
        Some(n) => match rfind(n, '.') {
            Some(k) => if k > 0 {
                Some(n.skip(k + 1))
            } else {
                None
            },
            None => None,
        },
        None => None,
    }
}

fn extension_of(p: &str) -> (r: Option<Vec<char>>)
    ensures
        match r {
            Some(e) => extension(p@) == Some(e@),
            None => extension(p@) == None::<Seq<char>>,
        },
{
    let pc = to_chars(p);
    let ps = kept_exec(&split_chars(&pc, '/'));
    let dotdot = to_chars("..");
    let n = ps.len();
    if n == 0 || crate::text::chars_eq(&ps[n - 1], &dotdot) {
        return None;
    }
    let name = &ps[n - 1];
    assert(file_name(p@) == Some(name@));
    let nl: usize = name.len();
    match rfind_char(name, '.') {
        Some(k) => if k > 0 {
            let e = slice_chars(name, k + 1, nl);
            assert(e@ =~= name@.skip(k + 1));
            Some(e)
        } else {
            None
        },
        None => None,
    }
}

/// A `.py` action (any case) runs through `uv`.
pub open spec fn python_path(p: Seq<char>) -> bool {
    match extension(p) {
        Some(e) => eq_ignore_ascii_case(e, "py"@),
        None => false,
    }
}

fn eq_ignore_case_chars(a: &[char], b: &str) -> (r: bool)
    ensures
        r == eq_ignore_ascii_case(a@, b@),
{
    let bc = to_chars(b);
    if a.len() != bc.len() {
        return false;
    }
    let mut i: usize = 0;
    while i < a.len()
        invariant
            i <= a@.len() == bc@.len(),
            bc@ == b@,
            forall|j: int| 0 <= j < i ==> ascii_lower(#[trigger] a@[j]) == ascii_lower(bc@[j]),
        decreases a.len() - i,
    {
        if to_ascii_lower(a[i]) != to_ascii_lower(bc[i]) {
            assert(ascii_lower(a@[i as int]) != ascii_lower(bc@[i as int]));
            return false;
        }
        i = i + 1;
    }
    true
}

pub fn is_python(exe: &str) -> (b: bool)
    ensures
        b == python_path(exe@),
{
    match extension_of(exe) {
        Some(e) => eq_ignore_case_chars(&e, "py"),
        None => false,
    }
}

// ---------------------------------------------------------------------------
// What is spawned, and what is printed
// ---------------------------------------------------------------------------

pub open spec fn string_views(v: Seq<String>) -> Seq<Seq<char>> {
    v.map_values(|s: String| s@)
}

/// The program and argument vector an action is spawned with: a `.py` action
/// becomes `uv run --script <file> <args>`, anything else is spawned directly.
pub open spec fn spawn_of(exe: Seq<char>, args: Seq<Seq<char>>) -> (Seq<char>, Seq<Seq<char>>) {
    if python_path(exe) {
        ("uv"@, seq!["run"@, "--script"@, exe] + args)
    } else {
        (exe, args)
    }
}

fn clone_strings(v: &[String]) -> (r: Vec<String>)
    ensures
        string_views(r@) == string_views(v@),
{
    let mut r: Vec<String> = Vec::new();
    let mut i: usize = 0;
    while i < v.len()
        invariant
            i <= v.len(),
            string_views(r@) == string_views(v@).take(i as int),
        decreases v.len() - i,
    {
        let ghost before = string_views(r@);
        r.push(v[i].clone());
        assert(string_views(r@) =~= before.push(v@[i as int]@));
        assert(string_views(v@).take(i + 1) =~= string_views(v@).take(i as int).push(v@[i as int]@));
        i = i + 1;
    }
    assert(string_views(v@).take(v.len() as int) =~= string_views(v@));
    r
}

fn append_strings(r: &mut Vec<String>, v: &[String])
    ensures
        string_views(final(r)@) == string_views(old(r)@) + string_views(v@),
{
    let ghost r0 = string_views(r@);
    let mut i: usize = 0;
    while i < v.len()
        invariant
            i <= v.len(),
            string_views(r@) == r0 + string_views(v@).take(i as int),
        decreases v.len() - i,
    {
        let ghost before = string_views(r@);
        r.push(v[i].clone());
        assert(string_views(r@) =~= before.push(v@[i as int]@));
        assert(string_views(v@).take(i + 1) =~= string_views(v@).take(i as int).push(v@[i as int]@));
        i = i + 1;
    }
    assert(string_views(v@).take(v.len() as int) =~= string_views(v@));
}

/// The process satz spawns for one action. Built in one place so the command
/// line that is printed and the process that runs can never disagree.
pub fn spawn_command(exe: &str, args: &[String]) -> (r: (String, Vec<String>))
    ensures
        (r.0@, string_views(r.1@)) == spawn_of(exe@, string_views(args@)),
{
    if is_python(exe) {
        let mut argv: Vec<String> = Vec::new();
        argv.push(String::from_str("run"));
        argv.push(String::from_str("--script"));
        argv.push(String::from_str(exe));
        let ghost head = string_views(argv@);
        assert(head =~= seq!["run"@, "--script"@, exe@]);
        append_strings(&mut argv, args);
        return (String::from_str("uv"), argv);
    }
    (String::from_str(exe), clone_strings(args))
}

/// Why a Python action cannot run without `uv`, and what to do about it.
pub open spec fn no_uv_text(script: Seq<char>) -> Seq<char> {
    script + " is a Python action, and satz runs one with `uv`, which is not on PATH.\n      Install uv — `brew install uv`, `pipx install uv`, or the installer uv's own documentation names — and run this again.\n      satz does not fall back to `python` or `python3`: that is a different interpreter with different packages."@
}

/// `uv` is what runs a Python action, and there is no second way: a `python`
/// on PATH is a different interpreter with different packages.
pub fn check_uv(script: &str, uv_on_path: bool) -> (r: Result<(), String>)
    ensures
        match r {
            Ok(_) => uv_on_path,
            Err(e) => !uv_on_path && e@ == no_uv_text(script@),
        },
{
    if uv_on_path {
        return Ok(());
    }
    let mut e = String::from_str(script);
    e.append(" is a Python action, and satz runs one with `uv`, which is not on PATH.\n      Install uv — `brew install uv`, `pipx install uv`, or the installer uv's own documentation names — and run this again.\n      satz does not fall back to `python` or `python3`: that is a different interpreter with different packages.");
    Err(e)
}

/// What has to be true before an action can be spawned: a Python action
/// needs `uv` (its executable bit says nothing, uv reads the file); anything
/// else is spawned as a program and must pass the platform's executable check,
/// whose outcome is handed in.
pub fn runnable(path: &str, uv_on_path: bool, executable: Result<(), String>) -> (r: Result<(), String>)
    ensures
        python_path(path@) ==> match r {
            Ok(_) => uv_on_path,
            Err(e) => !uv_on_path && e@ == no_uv_text(path@),
        },
        !python_path(path@) ==> r == executable,
{
    if is_python(path) {
        return check_uv(path, uv_on_path);
    }
    executable
}

/// The extensions Windows runs as a program.
pub open spec fn windows_exe(p: Seq<char>) -> bool {
    match extension(p) {
        Some(e) => eq_ignore_ascii_case(e, "exe"@) || eq_ignore_ascii_case(e, "cmd"@) || eq_ignore_ascii_case(e, "bat"@)
            || eq_ignore_ascii_case(e, "com"@),
        None => false,
    }
}

pub open spec fn not_windows_text(p: Seq<char>) -> Seq<char> {
    p + " is not a Windows executable, and satz runs an action's `run` directly — run it in a shell that can, e.g. `bash "@
        + p + "` from Git Bash or WSL. A `.py` action runs through `uv` on every platform"@
}

/// Windows runs an executable, not a script: a `.sh` spawned directly fails
/// with an OS error that names neither, so it is refused before the spawn.
pub fn windows_runnable(path: &str) -> (r: Result<(), String>)
    ensures
        match r {
            Ok(_) => windows_exe(path@),
            Err(e) => !windows_exe(path@) && e@ == not_windows_text(path@),
        },
{
    let ok = match extension_of(path) {
        Some(e) => eq_ignore_case_chars(&e, "exe") || eq_ignore_case_chars(&e, "cmd") || eq_ignore_case_chars(&e, "bat")
            || eq_ignore_case_chars(&e, "com"),
        None => false,
    };
    if ok {
        return Ok(());
    }
    let mut e = String::from_str(path);
    e.append(" is not a Windows executable, and satz runs an action's `run` directly — run it in a shell that can, e.g. `bash ");
    e.append(path);
    e.append("` from Git Bash or WSL. A `.py` action runs through `uv` on every platform");
    Err(e)
}

/// A character a shell reads as itself.
pub open spec fn plain_char(c: char) -> bool {
    is_ascii_alnum(c) || c == '-' || c == '_' || c == '.' || c == '/' || c == ':' || c == '=' || c == '@' || c == ','
        || c == '+'
}

pub open spec fn all_plain(s: Seq<char>) -> bool {
    forall|i: int| 0 <= i < s.len() ==> plain_char(#[trigger] s[i])
}

/// One argument as a shell reads it back: plain text as it is, anything else
/// in single quotes with each `'` written `'\''`.
pub open spec fn quoted(s: Seq<char>) -> Seq<char> {
    if s.len() > 0 && all_plain(s) {
        s
    } else {
        "'"@ + replace_char(s, '\'', "'\\''"@) + "'"@
    }
}

fn quote_chars(s: &[char]) -> (r: Vec<char>)
    ensures
        r@ == quoted(s@),
{
    let mut plain = s.len() > 0;
    let mut i: usize = 0;
    while i < s.len()
        invariant
            i <= s.len(),
            plain == (s@.len() > 0 && forall|j: int| 0 <= j < i ==> plain_char(#[trigger] s@[j])),
        decreases s.len() - i,
    {
        let c = s[i];
        let ok = ('a' <= c && c <= 'z') || ('A' <= c && c <= 'Z') || ('0' <= c && c <= '9') || c == '-' || c == '_'
            || c == '.' || c == '/' || c == ':' || c == '=' || c == '@' || c == ',' || c == '+';
        assert(ok == plain_char(s@[i as int]));
        plain = plain && ok;
        i = i + 1;
    }
    if plain {
        let mut r: Vec<char> = Vec::new();
        push_chars(&mut r, s);
        return r;
    }
    let with = to_chars("'\\''");
    let inner = replace_char_exec(s, '\'', &with);
    let mut r: Vec<char> = Vec::new();
    r.push('\'');
    push_chars(&mut r, &inner);
    r.push('\'');
    proof {
        reveal_strlit("'");
    }
    assert(r@ =~= "'"@ + replace_char(s@, '\'', "'\\''"@) + "'"@);
    r
}

/// Render one argument for display so a printed command line can be pasted
/// back into a shell unchanged.
pub fn shell_quote(s: &str) -> (r: String)
    ensures
        r@ == quoted(s@),
{
    let sc = to_chars(s);
    let r = quote_chars(&sc);
    from_chars(&r)
}

/// Each argument after a space, quoted.
pub open spec fn quoted_args(argv: Seq<Seq<char>>) -> Seq<char>
    decreases argv.len(),
{
    if argv.len() == 0 {
        seq![]
    } else {
        quoted_args(argv.drop_last()) + " "@ + quoted(argv.last())
    }
}

/// The command line as the operator reads it: the program and arguments that
/// are spawned, with the script's path shortened under the estate root.
pub open spec fn command_text(exe: Seq<char>, args: Seq<Seq<char>>, root: Seq<char>) -> Seq<char> {
    let s = spawn_of(shown_path(exe, root), args);
    quoted(s.0) + quoted_args(s.1)
}

pub fn command_line(exe: &str, args: &[String], root: &str) -> (r: String)
    ensures
        r@ == command_text(exe@, string_views(args@), root@),
{
    let shown = display_path(exe, root);
    let (program, argv) = spawn_command(shown.as_str(), args);
    let ghost av = string_views(argv@);
    let mut out = quote_chars(&to_chars(program.as_str()));
    let ghost head = out@;
    let mut i: usize = 0;
    while i < argv.len()
        invariant
            i <= argv.len(),
            av == string_views(argv@),
            out@ == head + quoted_args(av.take(i as int)),
        decreases argv.len() - i,
    {
        proof {
            assert(av.take(i + 1).drop_last() =~= av.take(i as int));
            assert(av.take(i + 1).last() == argv@[i as int]@);
            reveal_strlit(" ");
        }
        out.push(' ');
        let q = quote_chars(&to_chars(argv[i].as_str()));
        push_chars(&mut out, &q);
        assert(out@ =~= head + quoted_args(av.take(i as int)) + " "@ + quoted(argv@[i as int]@));
        i = i + 1;
    }
    assert(av.take(argv.len() as int) =~= av);
    from_chars(&out)
}

/// Phase first, then declaration order: `before-apply` ranks ahead of every
/// other phase.
pub open spec fn rank_of(phase: Seq<char>) -> u8 {
    if phase == "before-apply"@ {
        0
    } else {
        1
    }
}

pub fn phase_rank(phase: &str) -> (r: u8)
    ensures
        r == rank_of(phase@),
{
    if str_eq(phase, "before-apply") {
        0
    } else {
        1
    }
}

// ---------------------------------------------------------------------------
// Which actions a run takes, in what order
// ---------------------------------------------------------------------------

/// An action as the front end resolved it: where it was declared, what it
/// runs, with which arguments, in which phase.
#[derive(Debug, Clone)]
pub struct ResolvedAction {
    pub file: String,
    pub name: String,
    pub reason: String,
    pub run: String,
    pub args: Vec<String>,
    pub execute_args: Vec<String>,
    pub phase: String,
    pub from_pack: bool,
    pub line: usize,
}

pub open spec fn opt_names(only: Option<&[String]>) -> Option<Seq<Seq<char>>> {
    match only {
        Some(o) => Some(string_views(o@)),
        None => None,
    }
}

pub open spec fn opt_text(o: Option<&str>) -> Option<Seq<char>> {
    match o {
        Some(s) => Some(s@),
        None => None,
    }
}

/// `--only` and `--phase` let the action through.
pub open spec fn passes(a: ResolvedAction, only: Option<Seq<Seq<char>>>, phase: Option<Seq<char>>) -> bool {
    &&& match only {
        Some(o) => o.contains(a.name@),
        None => true,
    }
    &&& match phase {
        Some(p) => a.phase@ == p,
        None => true,
    }
}

/// The run takes the action: not a pack's under `--no-pack-actions`, and
/// through the filters.
pub open spec fn takes(a: ResolvedAction, only: Option<Seq<Seq<char>>>, phase: Option<Seq<char>>, no_pack: bool) -> bool {
    !(no_pack && a.from_pack) && passes(a, only, phase)
}

/// The positions among the first `n` actions that the run takes and whose
/// phase has `rank`, in declaration order.
pub open spec fn taken_with_rank(acts: Seq<ResolvedAction>, only: Option<Seq<Seq<char>>>, phase: Option<Seq<char>>,
    no_pack: bool, rank: u8, n: int) -> Seq<usize>
    decreases n,
{
    if n <= 0 {
        seq![]
    } else {
        let prev = taken_with_rank(acts, only, phase, no_pack, rank, n - 1);
        let a = acts[n - 1];
        if takes(a, only, phase, no_pack) && rank_of(a.phase@) == rank {
            prev.push((n - 1) as usize)
        } else {
            prev
        }
    }
}

/// How many of the first `n` actions `--no-pack-actions` skips.
pub open spec fn pack_skips(acts: Seq<ResolvedAction>, no_pack: bool, n: int) -> nat
    decreases n,
{
    if n <= 0 {
        0
    } else {
        pack_skips(acts, no_pack, n - 1) + if no_pack && acts[n - 1].from_pack { 1nat } else { 0nat }
    }
}

/// How many of the first `n` actions the filters leave out.
pub open spec fn filter_skips(acts: Seq<ResolvedAction>, only: Option<Seq<Seq<char>>>, phase: Option<Seq<char>>,
    no_pack: bool, n: int) -> nat
    decreases n,
{
    if n <= 0 {
        0
    } else {
        filter_skips(acts, only, phase, no_pack, n - 1) + if !(no_pack && acts[n - 1].from_pack) && !passes(acts[n - 1], only, phase) {
            1nat
        } else {
            0nat
        }
    }
}

/// The actions a run takes, as positions into the declared ones: the
/// `before-apply` ones first, each phase in declaration order; and how many
/// were skipped as a pack's and how many the filters left out.
pub struct Selection {
    pub selected: Vec<usize>,
    pub skipped_pack: usize,
    pub skipped_filter: usize,
}

fn name_listed(only: &[String], name: &str) -> (b: bool)
    ensures
        b == string_views(only@).contains(name@),
{
    let mut i: usize = 0;
    while i < only.len()
        invariant
            i <= only.len(),
            forall|j: int| 0 <= j < i ==> string_views(only@)[j] != name@,
        decreases only.len() - i,
    {
        if str_eq(only[i].as_str(), name) {
            assert(string_views(only@)[i as int] == name@);
            return true;
        }
        i = i + 1;
    }
    false
}

fn action_passes(a: &ResolvedAction, only: Option<&[String]>, phase: Option<&str>) -> (b: bool)
    ensures
        b == passes(*a, opt_names(only), opt_text(phase)),
{
    let by_name = match only {
        Some(o) => name_listed(o, a.name.as_str()),
        None => true,
    };
    let by_phase = match phase {
        Some(p) => str_eq(a.phase.as_str(), p),
        None => true,
    };
    by_name && by_phase
}

/// Select the actions a run takes, in the order it takes them.
pub fn select(actions: &[ResolvedAction], only: Option<&[String]>, phase: Option<&str>, no_pack_actions: bool) -> (r: Selection)
    ensures
        r.selected@ == taken_with_rank(actions@, opt_names(only), opt_text(phase), no_pack_actions, 0, actions@.len() as int)
            + taken_with_rank(actions@, opt_names(only), opt_text(phase), no_pack_actions, 1, actions@.len() as int),
        r.skipped_pack as nat == pack_skips(actions@, no_pack_actions, actions@.len() as int),
        r.skipped_filter as nat == filter_skips(actions@, opt_names(only), opt_text(phase), no_pack_actions, actions@.len() as int),
{
    let ghost o = opt_names(only);
    let ghost ph = opt_text(phase);
    let mut first: Vec<usize> = Vec::new();
    let mut second: Vec<usize> = Vec::new();
    let mut skipped_pack: usize = 0;
    let mut skipped_filter: usize = 0;
    let mut i: usize = 0;
    while i < actions.len()
        invariant
            i <= actions@.len(),
            o == opt_names(only),
            ph == opt_text(phase),
            first@ == taken_with_rank(actions@, o, ph, no_pack_actions, 0, i as int),
            second@ == taken_with_rank(actions@, o, ph, no_pack_actions, 1, i as int),
            skipped_pack as nat == pack_skips(actions@, no_pack_actions, i as int),
            skipped_filter as nat == filter_skips(actions@, o, ph, no_pack_actions, i as int),
            skipped_pack + skipped_filter <= i,
        decreases actions.len() - i,
    {
        let a = &actions[i];
        if no_pack_actions && a.from_pack {
            skipped_pack = skipped_pack + 1;
        } else if !action_passes(a, only, phase) {
            skipped_filter = skipped_filter + 1;
        } else if phase_rank(a.phase.as_str()) == 0 {
            first.push(i);
        } else {
            second.push(i);
        }
        i = i + 1;
    }
    let mut selected = first;
    let ghost f = selected@;
    let mut k: usize = 0;
    while k < second.len()
        invariant
            k <= second@.len(),
            selected@ == f + second@.take(k as int),
        decreases second.len() - k,
    {
        selected.push(second[k]);
        assert(second@.take(k + 1) =~= second@.take(k as int).push(second@[k as int]));
        k = k + 1;
    }
    assert(second@.take(second.len() as int) =~= second@);
    Selection { selected, skipped_pack, skipped_filter }
}

/// The first `--only` name no declared action has, when there is one.
pub open spec fn unknown_only(acts: Seq<ResolvedAction>, only: Seq<Seq<char>>) -> Option<int> {
    if exists|i: int| 0 <= i < only.len() && !declared_name(acts, #[trigger] only[i]) {
        Some(choose|i: int| 0 <= i < only.len() && !declared_name(acts, #[trigger] only[i])
            && forall|j: int| 0 <= j < i ==> declared_name(acts, #[trigger] only[j]))
    } else {
        None
    }
}

pub open spec fn declared_name(acts: Seq<ResolvedAction>, n: Seq<char>) -> bool {
    exists|k: int| 0 <= k < acts.len() && (#[trigger] acts[k]).name@ == n
}

pub open spec fn names_of(acts: Seq<ResolvedAction>) -> Seq<Seq<char>> {
    acts.map_values(|a: ResolvedAction| a.name@)
}

/// The refusal of an `--only` name no action has: it names every declared action.
pub open spec fn unknown_only_text(n: Seq<char>, acts: Seq<ResolvedAction>) -> Seq<char> {
    "--only \""@ + n + "\": no action by that name. Declared: "@ + join(names_of(acts), ", "@)
}

fn is_declared(actions: &[ResolvedAction], n: &str) -> (b: bool)
    ensures
        b == declared_name(actions@, n@),
{
    let mut k: usize = 0;
    while k < actions.len()
        invariant
            k <= actions.len(),
            forall|j: int| 0 <= j < k ==> (#[trigger] actions@[j]).name@ != n@,
        decreases actions.len() - k,
    {
        if str_eq(actions[k].name.as_str(), n) {
            return true;
        }
        k = k + 1;
    }
    false
}

/// Every `--only` name must be an action's: the first that is not is refused.
pub fn check_only(actions: &[ResolvedAction], only: &[String]) -> (r: Result<(), String>)
    ensures
        match r {
            Ok(_) => unknown_only(actions@, string_views(only@)) is None,
            Err(e) => exists|i: int| unknown_only(actions@, string_views(only@)) == Some(i) && e@ == unknown_only_text(only@[i]@, actions@),
        },
{
    let ghost ov = string_views(only@);
    let mut i: usize = 0;
    while i < only.len()
        invariant
            i <= only.len(),
            ov == string_views(only@),
            forall|j: int| 0 <= j < i ==> declared_name(actions@, #[trigger] ov[j]),
        decreases only.len() - i,
    {
        if !is_declared(actions, only[i].as_str()) {
            assert(!declared_name(actions@, ov[i as int]));
            let ghost w = choose|w: int| 0 <= w < ov.len() && !declared_name(actions@, #[trigger] ov[w])
                && forall|j: int| 0 <= j < w ==> declared_name(actions@, #[trigger] ov[j]);
            proof {
                assert(0 <= i < ov.len() && !declared_name(actions@, ov[i as int])
                    && forall|j: int| 0 <= j < i ==> declared_name(actions@, #[trigger] ov[j]));
                if w < i {
                    assert(declared_name(actions@, ov[w]));
                } else if w > i {
                    assert(declared_name(actions@, ov[i as int]));
                }
                assert(w == i);
            }
            let mut names: Vec<Vec<char>> = Vec::new();
            let mut k: usize = 0;
            while k < actions.len()
                invariant
                    k <= actions.len(),
                    views(names@) == names_of(actions@).take(k as int),
                decreases actions.len() - k,
            {
                let ghost before = views(names@);
                names.push(to_chars(actions[k].name.as_str()));
                assert(views(names@) =~= before.push(actions@[k as int].name@));
                assert(names_of(actions@).take(k + 1) =~= names_of(actions@).take(k as int).push(actions@[k as int].name@));
                k = k + 1;
            }
            assert(names_of(actions@).take(actions.len() as int) =~= names_of(actions@));
            let sep = to_chars(", ");
            let listed = join_chars(&names, &sep);
            let mut e: Vec<char> = Vec::new();
            push_str_chars(&mut e, "--only \"");
            push_str_chars(&mut e, only[i].as_str());
            push_str_chars(&mut e, "\": no action by that name. Declared: ");
            push_chars(&mut e, &listed);
            return Err(from_chars(&e));
        }
        i = i + 1;
    }
    Ok(())
}

/// The arguments an action is spawned with in a mode: `args`, and under
/// `--execute` its `execute_args` after them.
pub fn action_args(a: &ResolvedAction, mode: Mode) -> (r: Vec<String>)
    ensures
        string_views(r@) == if mode == Mode::Execute {
            string_views(a.args@) + string_views(a.execute_args@)
        } else {
            string_views(a.args@)
        },
{
    let mut r = clone_strings(&a.args);
    match mode {
        Mode::Execute => append_strings(&mut r, &a.execute_args),
        _ => {},
    }
    r
}

// ---------------------------------------------------------------------------
// Where an action's executable is looked for
// ---------------------------------------------------------------------------

/// The directory part of a file's path: the text before its last `/` (`/`
/// itself for a file at the root), none for a bare name.
pub open spec fn dir_of(file: Seq<char>) -> Seq<char> {
    match rfind(file, '/') {
        Some(k) => if k == 0 {
            "/"@
        } else {
            file.take(k)
        },
        None => seq![],
    }
}

/// Where to look for an action's executable: one rooted path to check, or
/// the candidates to try in order — the estate root, then each include dir,
/// each joined with the path relative to the declaring file.
#[derive(Debug, Clone, PartialEq, Eq)]
pub enum Lookup {
    /// `run` is absolute.
    Absolute(String),
    /// `run` joined onto the declaring file's directory is absolute.
    Resolved(String),
    Search(Vec<String>),
}

pub open spec fn relative_run(file: Seq<char>, run: Seq<char>) -> Seq<char> {
    joined(dir_of(file), run)
}

pub open spec fn lookup_ok(file: Seq<char>, run: Seq<char>, root: Seq<char>, includes: Seq<Seq<char>>, r: Lookup) -> bool {
    let rel = relative_run(file, run);
    if is_rooted(run) {
        r matches Lookup::Absolute(p) && p@ == run
    } else if is_rooted(rel) {
        r matches Lookup::Resolved(p) && p@ == rel
    } else {
        r matches Lookup::Search(c) && string_views(c@) == seq![joined(root, rel)] + includes.map_values(|d: Seq<char>| joined(d, rel))
    }
}

fn dir_of_exec(file: &str) -> (r: String)
    ensures
        r@ == dir_of(file@),
{
    let fc = to_chars(file);
    match rfind_char(&fc, '/') {
        Some(k) => if k == 0 {
            String::from_str("/")
        } else {
            let d = slice_chars(&fc, 0, k);
            assert(d@ =~= file@.take(k as int));
            from_chars(&d)
        },
        None => String::new(),
    }
}

/// Where an action's executable is looked for.
pub fn lookup(file: &str, run: &str, estate_root: &str, include_dirs: &[String]) -> (r: Lookup)
    ensures
        lookup_ok(file@, run@, estate_root@, string_views(include_dirs@), r),
{
    let rc = to_chars(run);
    if rc.len() > 0 && rc[0] == '/' {
        return Lookup::Absolute(String::from_str(run));
    }
    let dir = dir_of_exec(file);
    let rel = join_path(dir.as_str(), run);
    let relc = to_chars(rel.as_str());
    if relc.len() > 0 && relc[0] == '/' {
        return Lookup::Resolved(rel);
    }
    let ghost incl = string_views(include_dirs@);
    let mut c: Vec<String> = Vec::new();
    c.push(join_path(estate_root, rel.as_str()));
    let mut i: usize = 0;
    while i < include_dirs.len()
        invariant
            i <= include_dirs.len(),
            incl == string_views(include_dirs@),
            string_views(c@) == seq![joined(estate_root@, rel@)] + incl.take(i as int).map_values(|d: Seq<char>| joined(d, rel@)),
        decreases include_dirs.len() - i,
    {
        let ghost before = string_views(c@);
        c.push(join_path(include_dirs[i].as_str(), rel.as_str()));
        assert(string_views(c@) =~= before.push(joined(incl[i as int], rel@)));
        assert(incl.take(i + 1).map_values(|d: Seq<char>| joined(d, rel@)) =~= incl.take(i as int).map_values(|d: Seq<char>| joined(d, rel@)).push(joined(incl[i as int], rel@)));
        i = i + 1;
    }
    assert(incl.take(include_dirs.len() as int) =~= incl);
    Lookup::Search(c)
}

/// The places a failed search names, each once: the candidates cleaned up
/// lexically, in order, a repeat left out (the estate root is usually also an
/// include dir).
pub open spec fn tried(cands: Seq<Seq<char>>) -> Seq<Seq<char>>
    decreases cands.len(),
{
    if cands.len() == 0 {
        seq![]
    } else {
        let prev = tried(cands.drop_last());
        let shown = normalized(cands.last());
        if prev.contains(shown) {
            prev
        } else {
            prev.push(shown)
        }
    }
}

pub open spec fn not_found_text(run: Seq<char>, cands: Seq<Seq<char>>) -> Seq<char> {
    "run = \""@ + run + "\" not found. Looked in:\n      "@ + join(tried(cands), "\n      "@)
}

/// The refusal of an action whose executable is in none of the places looked in.
pub fn not_found(run: &str, candidates: &[String]) -> (r: String)
    ensures
        r@ == not_found_text(run@, string_views(candidates@)),
{
    let ghost cv = string_views(candidates@);
    let mut shown: Vec<Vec<char>> = Vec::new();
    let mut i: usize = 0;
    while i < candidates.len()
        invariant
            i <= candidates.len(),
            cv == string_views(candidates@),
            views(shown@) == tried(cv.take(i as int)),
        decreases candidates.len() - i,
    {
        proof {
            assert(cv.take(i + 1).drop_last() =~= cv.take(i as int));
            assert(cv.take(i + 1).last() == candidates@[i as int]@);
        }
        let s = to_chars(lexical_normalize(candidates[i].as_str()).as_str());
        let mut seen = false;
        let mut k: usize = 0;
        while k < shown.len()
            invariant
                k <= shown.len(),
                seen == exists|j: int| 0 <= j < k && shown@[j]@ == s@,
            decreases shown.len() - k,
        {
            if crate::text::chars_eq(&shown[k], &s) {
                seen = true;
            }
            k = k + 1;
        }
        proof {
            if seen {
                let j = choose|j: int| 0 <= j < shown@.len() && shown@[j]@ == s@;
                assert(views(shown@)[j] == s@);
            } else {
                assert forall|j: int| 0 <= j < views(shown@).len() implies views(shown@)[j] != s@ by {
                    assert(views(shown@)[j] == shown@[j]@);
                }
            }
        }
        if !seen {
            let ghost before = views(shown@);
            shown.push(s);
            assert(views(shown@) =~= before.push(s@));
        }
        i = i + 1;
    }
    assert(cv.take(candidates.len() as int) =~= cv);
    let sep = to_chars("\n      ");
    let listed = join_chars(&shown, &sep);
    let mut e: Vec<char> = Vec::new();
    push_str_chars(&mut e, "run = \"");
    push_str_chars(&mut e, run);
    push_str_chars(&mut e, "\" not found. Looked in:\n      ");
    push_chars(&mut e, &listed);
    from_chars(&e)
}

/// An absolute `run` that is not there.
pub fn missing_absolute(run: &str) -> (r: String)
    ensures
        r@ == "run = \""@ + run@ + "\" does not exist"@,
{
    let mut e = String::from_str("run = \"");
    e.append(run);
    e.append("\" does not exist");
    e
}

/// A `run` that resolves to an absolute path that is not there.
pub fn missing_resolved(run: &str, resolved: &str) -> (r: String)
    ensures
        r@ == "run = \""@ + run@ + "\" resolves to "@ + resolved@ + ", which does not exist"@,
{
    let mut e = String::from_str("run = \"");
    e.append(run);
    e.append("\" resolves to ");
    e.append(resolved);
    e.append(", which does not exist");
    e
}

/// An action's refusal, naming the action and where it was declared.
pub fn action_error(a: &ResolvedAction, e: &str) -> (r: String)
    ensures
        r@ == "action \""@ + a.name@ + "\" ("@ + a.file@ + ":"@ + crate::text::dec(a.line as nat) + "): "@ + e@,
{
    let mut out: Vec<char> = Vec::new();
    push_str_chars(&mut out, "action \"");
    push_str_chars(&mut out, a.name.as_str());
    push_str_chars(&mut out, "\" (");
    push_str_chars(&mut out, a.file.as_str());
    push_str_chars(&mut out, ":");
    let n = crate::text::dec_chars(a.line as u64);
    push_chars(&mut out, &n);
    push_str_chars(&mut out, "): ");
    push_str_chars(&mut out, e);
    from_chars(&out)
}

} // verus!
