//! Delta import: what the live scope has that the estate does not declare,
//! written as packs the estate `use`s. Identity is the live id, never the
//! label; the estate itself is never rewritten beyond its `use` lines.

use vstd::prelude::*;
use vstd::string::*;
use crate::yaml::{
    clone_entries, clone_seq, clone_yaml, find_yaml, get_str, lemma_entries_view, lemma_find_key, lemma_seq_view, seq_view, set_at, swap_remove_at,
    insert_at_key, as_str,
    lemma_size_entries_prefix, lemma_size_entries_step, lemma_size_seq_prefix, size, size_entries, size_seq,
    entries_view, find_key, get, insert_key, set_key, skey, str_of, swap_remove_key, yaml_view, Yaml, YamlV,
};
use crate::text::{
    dec, dec_chars, ends_with_str, find, from_chars, has_prefix, has_suffix, is_ascii_alnum, join, join_chars,
    leading_whitespace, leading_ws, lemma_find, lines, lines_of, push_chars, push_str_chars, starts_with_str,
    to_chars, str_eq, trim, trim_end, trim_end_chars, trimmed, views, chars_eq, slice_chars, strip_cr,
};

verus! {

// ---------------------------------------------------------------------------
// Keys of a discovered document
// ---------------------------------------------------------------------------

/// The keys under which a discovered document nests folders and projects.
pub open spec fn container_key(k: Seq<char>) -> bool {
    k == "folder"@ || k == "project"@ || k == "google_folder"@ || k == "google_project"@
}

pub fn is_container_key(k: &str) -> (b: bool)
    ensures
        b == container_key(k@),
{
    let kc = to_chars(k);
    let a = to_chars("folder");
    let b = to_chars("project");
    let c = to_chars("google_folder");
    let d = to_chars("google_project");
    chars_eq(&kc, &a) || chars_eq(&kc, &b) || chars_eq(&kc, &c) || chars_eq(&kc, &d)
}

/// A grant map: `*_iam_member`, except the bucket grant, which is pinned per bucket.
pub open spec fn grant_map_key(k: Seq<char>) -> bool {
    has_suffix(k, "_iam_member"@) && k != "google_storage_bucket_iam_member"@ && k != "storage_bucket_iam_member"@
}

pub fn is_grant_map_key(k: &str) -> (b: bool)
    ensures
        b == grant_map_key(k@),
{
    let kc = to_chars(k);
    let a = to_chars("google_storage_bucket_iam_member");
    let b = to_chars("storage_bucket_iam_member");
    ends_with_str(&kc, "_iam_member") && !chars_eq(&kc, &a) && !chars_eq(&kc, &b)
}

// ---------------------------------------------------------------------------
// Pack names
// ---------------------------------------------------------------------------

/// A scope as a file-name slug: every character that is not an ASCII letter
/// or digit becomes `-`.
pub open spec fn slug(s: Seq<char>) -> Seq<char> {
    Seq::new(s.len(), |i: int| if is_ascii_alnum(s[i]) { s[i] } else { '-' })
}

/// A container address in a file name: `.` and `-` become `_`.
pub open spec fn underscored(s: Seq<char>) -> Seq<char> {
    Seq::new(s.len(), |i: int| if s[i] == '.' || s[i] == '-' { '_' } else { s[i] })
}

/// `imported-<slug>.satz` for the top level, `imported-<slug>-<container>.satz`
/// for a declared container.
pub open spec fn pack_name_of(scope: Seq<char>, container: Option<Seq<char>>) -> Seq<char> {
    match container {
        Some(c) => "imported-"@ + slug(scope) + "-"@ + underscored(c) + ".satz"@,
        None => "imported-"@ + slug(scope) + ".satz"@,
    }
}

fn map_chars_slug(s: &[char]) -> (r: Vec<char>)
    ensures
        r@ == slug(s@),
{
    let mut r: Vec<char> = Vec::new();
    let mut i: usize = 0;
    while i < s.len()
        invariant
            i <= s.len(),
            r@ == slug(s@.take(i as int)),
        decreases s.len() - i,
    {
        let c = s[i];
        let alnum = ('0' <= c && c <= '9') || ('a' <= c && c <= 'z') || ('A' <= c && c <= 'Z');
        r.push(if alnum { c } else { '-' });
        assert(slug(s@.take(i + 1)) =~= slug(s@.take(i as int)).push(if is_ascii_alnum(c) { c } else { '-' }));
        i = i + 1;
    }
    assert(s@.take(s.len() as int) =~= s@);
    r
}

fn map_chars_underscored(s: &[char]) -> (r: Vec<char>)
    ensures
        r@ == underscored(s@),
{
    let mut r: Vec<char> = Vec::new();
    let mut i: usize = 0;
    while i < s.len()
        invariant
            i <= s.len(),
            r@ == underscored(s@.take(i as int)),
        decreases s.len() - i,
    {
        let c = s[i];
        r.push(if c == '.' || c == '-' { '_' } else { c });
        assert(underscored(s@.take(i + 1)) =~= underscored(s@.take(i as int)).push(if c == '.' || c == '-' { '_' } else { c }));
        i = i + 1;
    }
    assert(s@.take(s.len() as int) =~= s@);
    r
}

/// The pack file name for a scope: `imported-organizations-123.satz`,
/// `imported-folders-456-google_folder_infra.satz`.
pub fn pack_name(scope: &str, container: Option<&str>) -> (r: String)
    ensures
        r@ == pack_name_of(scope@, match container { Some(c) => Some(c@), None => None }),
{
    let mut out: Vec<char> = Vec::new();
    push_str_chars(&mut out, "imported-");
    let sc = to_chars(scope);
    let sl = map_chars_slug(&sc);
    push_chars(&mut out, &sl);
    match container {
        Some(c) => {
            push_str_chars(&mut out, "-");
            let cc = to_chars(c);
            let u = map_chars_underscored(&cc);
            push_chars(&mut out, &u);
        },
        None => {},
    }
    push_str_chars(&mut out, ".satz");
    from_chars(&out)
}

// ---------------------------------------------------------------------------
// `use` lines
// ---------------------------------------------------------------------------

pub open spec fn use_line(pack: Seq<char>) -> Seq<char> {
    "use \""@ + pack + "\""@
}

/// Some line of `ls` reads `line` once trimmed.
pub open spec fn has_line(ls: Seq<Seq<char>>, line: Seq<char>) -> bool {
    exists|i: int| 0 <= i < ls.len() && trim(#[trigger] ls[i]) == line
}

/// The lines with the top-level `use` appended, after a blank line unless the
/// text already ends in one (or is empty).
pub open spec fn with_top_use(ls: Seq<Seq<char>>, line: Seq<char>) -> Seq<Seq<char>> {
    spaced(ls).push(line)
}

/// The lines with a blank line after them, unless they already end in one (or are none).
pub open spec fn spaced(ls: Seq<Seq<char>>) -> Seq<Seq<char>> {
    if ls.len() > 0 && trim(ls.last()).len() > 0 {
        ls.push(seq![])
    } else {
        ls
    }
}

/// The text of the lines: joined by `\n`, with a final `\n`.
pub open spec fn text_of(ls: Seq<Seq<char>>) -> Seq<char> {
    join(ls, "\n"@) + "\n"@
}

/// `add_use`'s answer: `Ok(None)` when the `use` line is already there;
/// `Ok(Some(text))` with the line added at the end (top level) or right after
/// the container's `label {` line, indented two more than it; an error when
/// that line does not exist or does not open a block.
pub open spec fn add_use_result(text: Seq<char>, pack: Seq<char>, after: Option<u32>) -> Result<Option<Seq<char>>, Seq<char>> {
    let ls = lines(text);
    let u = use_line(pack);
    if has_line(ls, u) {
        Ok(None)
    } else {
        match after {
            None => Ok(Some(text_of(with_top_use(ls, u)))),
            Some(n) => {
                let idx = n - 1;
                if idx >= ls.len() {
                    Err("line "@ + dec(n as nat) + " is past the end of the estate"@)
                } else if !has_suffix(trim_end(ls[idx]), "{"@) {
                    Err("line "@ + dec(n as nat) + " does not open a block: "@ + trim(ls[idx]))
                } else {
                    Ok(Some(text_of(ls.insert(idx + 1, leading_ws(ls[idx]) + "  "@ + u))))
                }
            },
        }
    }
}

fn make_use_line(pack: &str) -> (r: Vec<char>)
    ensures
        r@ == use_line(pack@),
{
    let mut r: Vec<char> = Vec::new();
    push_str_chars(&mut r, "use \"");
    push_str_chars(&mut r, pack);
    push_str_chars(&mut r, "\"");
    r
}

fn find_line(ls: &Vec<Vec<char>>, line: &[char]) -> (r: bool)
    ensures
        r == has_line(views(ls@), line@),
{
    let mut i: usize = 0;
    while i < ls.len()
        invariant
            i <= ls.len(),
            forall|j: int| 0 <= j < i ==> trim(#[trigger] views(ls@)[j]) != line@,
        decreases ls.len() - i,
    {
        let t = trimmed(&ls[i]);
        assert(views(ls@)[i as int] == ls@[i as int]@);
        if chars_eq(&t, line) {
            return true;
        }
        i = i + 1;
    }
    false
}

fn finish(ls: &Vec<Vec<char>>) -> (r: String)
    ensures
        r@ == text_of(views(ls@)),
{
    let nl = to_chars("\n");
    let mut out = join_chars(ls, &nl);
    out.push('\n');
    proof {
        reveal_strlit("\n");
    }
    assert(out@ =~= join(views(ls@), "\n"@) + "\n"@);
    from_chars(&out)
}

pub open spec fn view_result(r: Result<Option<String>, String>) -> Result<Option<Seq<char>>, Seq<char>> {
    match r {
        Ok(Some(s)) => Ok(Some(s@)),
        Ok(None) => Ok(None),
        Err(e) => Err(e@),
    }
}

/// Add `use "<pack>"` to the estate: at the end of the file for the
/// top-level pack, right after the container's `label {` line for a
/// container pack. Idempotent — a line already present is left alone.
pub fn add_use(estate_text: &str, pack: &str, after_line: Option<u32>) -> (r: Result<Option<String>, String>)
    requires
        after_line != Some(0u32),
    ensures
        view_result(r) == add_use_result(estate_text@, pack@, after_line),
{
    let u = make_use_line(pack);
    let tc = to_chars(estate_text);
    let mut ls = lines_of(&tc);
    if find_line(&ls, &u) {
        return Ok(None);
    }
    let ghost l0 = views(ls@);
    match after_line {
        None => {
            if ls.len() > 0 {
                let last = trimmed(&ls[ls.len() - 1]);
                if last.len() > 0 {
                    ls.push(Vec::new());
                }
            }
            ls.push(u);
            proof {
                assert(views(ls@) =~= with_top_use(l0, use_line(pack@)));
            }
        },
        Some(n) => {
            let idx: usize = (n - 1) as usize;
            if idx >= ls.len() {
                let mut e: Vec<char> = Vec::new();
                push_str_chars(&mut e, "line ");
                let d = dec_chars(n as u64);
                push_chars(&mut e, &d);
                push_str_chars(&mut e, " is past the end of the estate");
                return Err(from_chars(&e));
            }
            let decl = ls[idx].clone();
            assert(decl@ == l0[idx as int]);
            let te = trim_end_chars(&decl);
            if !ends_with_str(&te, "{") {
                let mut e: Vec<char> = Vec::new();
                push_str_chars(&mut e, "line ");
                let d = dec_chars(n as u64);
                push_chars(&mut e, &d);
                push_str_chars(&mut e, " does not open a block: ");
                let t = trimmed(&decl);
                push_chars(&mut e, &t);
                return Err(from_chars(&e));
            }
            let mut line = leading_whitespace(&decl);
            push_str_chars(&mut line, "  ");
            push_chars(&mut line, &u);
            ls.insert(idx + 1, line);
            proof {
                assert(views(ls@) =~= l0.insert(idx + 1, leading_ws(l0[idx as int]) + "  "@ + use_line(pack@)));
            }
        },
    }
    Ok(Some(finish(&ls)))
}

/// The lines whose trimmed text is not `line`, in order.
pub open spec fn without_line(ls: Seq<Seq<char>>, line: Seq<char>) -> Seq<Seq<char>>
    decreases ls.len(),
{
    if ls.len() == 0 {
        seq![]
    } else {
        let rest = without_line(ls.drop_last(), line);
        if trim(ls.last()) == line {
            rest
        } else {
            rest.push(ls.last())
        }
    }
}

/// `remove_use`'s answer: `None` when no line is the `use` line, else the text
/// without every such line.
pub open spec fn remove_use_result(text: Seq<char>, pack: Seq<char>) -> Option<Seq<char>> {
    let ls = lines(text);
    let u = use_line(pack);
    if !has_line(ls, u) {
        None
    } else {
        Some(text_of(without_line(ls, u)))
    }
}

/// Drop the `use "<pack>"` line from the estate, wherever it sits.
pub fn remove_use(estate_text: &str, pack: &str) -> (r: Option<String>)
    ensures
        match r {
            Some(s) => remove_use_result(estate_text@, pack@) == Some(s@),
            None => remove_use_result(estate_text@, pack@) == None::<Seq<char>>,
        },
{
    let u = make_use_line(pack);
    let tc = to_chars(estate_text);
    let ls = lines_of(&tc);
    if !find_line(&ls, &u) {
        return None;
    }
    let mut kept: Vec<Vec<char>> = Vec::new();
    let mut i: usize = 0;
    while i < ls.len()
        invariant
            i <= ls.len(),
            views(kept@) == without_line(views(ls@).take(i as int), u@),
        decreases ls.len() - i,
    {
        let t = trimmed(&ls[i]);
        proof {
            let p = views(ls@).take(i + 1);
            assert(p.drop_last() =~= views(ls@).take(i as int));
            assert(p.last() == ls@[i as int]@);
        }
        if !chars_eq(&t, &u) {
            kept.push(ls[i].clone());
            proof {
                assert(views(kept@) =~= without_line(views(ls@).take(i as int), u@).push(ls@[i as int]@));
            }
        }
        i = i + 1;
    }
    assert(views(ls@).take(ls.len() as int) =~= views(ls@));
    Some(finish(&kept))
}

// ---------------------------------------------------------------------------
// What adding and removing a `use` line promise together
// ---------------------------------------------------------------------------

/// A text whose lines read back unchanged once written out again: none of
/// them ends in a carriage return that `str::lines` left on it (as one ending
/// in `\r\r\n` does).
pub open spec fn plain_lines(text: Seq<char>) -> bool {
    forall|i: int| 0 <= i < lines(text).len() ==> strip_cr(#[trigger] lines(text)[i]) == lines(text)[i]
}

/// Lines that written out and read back are themselves.
pub open spec fn writable(ls: Seq<Seq<char>>) -> bool {
    forall|i: int| 0 <= i < ls.len() ==> !(#[trigger] ls[i]).contains('\n') && strip_cr(ls[i]) == ls[i]
}

proof fn lemma_text_of_reads_back(ls: Seq<Seq<char>>)
    requires
        ls.len() >= 1,
        writable(ls),
    ensures
        lines(text_of(ls)) == ls,
{
    reveal_strlit("\n");
    assert("\n"@ =~= seq!['\n']);
    crate::text::lemma_lines_of_joined(ls);
}

proof fn lemma_lines_writable(text: Seq<char>)
    requires
        plain_lines(text),
    ensures
        writable(lines(text)),
{
    crate::text::lemma_lines_no_newline(text);
}

proof fn lemma_use_line_shape(pack: Seq<char>)
    ensures
        use_line(pack).len() > 0,
        use_line(pack)[0] == 'u',
        use_line(pack).last() == '"',
        !crate::text::is_ws(use_line(pack)[0]),
        !crate::text::is_ws(use_line(pack).last()),
        trim(use_line(pack)) == use_line(pack),
        !pack.contains('\n') ==> !use_line(pack).contains('\n'),
        strip_cr(use_line(pack)) == use_line(pack),
{
    reveal_strlit("use \"");
    reveal_strlit("\"");
    let u = use_line(pack);
    assert(u[0] == 'u');
    assert(u.last() == '"');
    crate::text::lemma_trim_ws_prefix(seq![], u);
    assert(Seq::<char>::empty() + u =~= u);
    if !pack.contains('\n') {
        assert forall|j: int| 0 <= j < u.len() implies u[j] != '\n' by {
            if 5 <= j < 5 + pack.len() {
                assert(u[j] == pack[j - 5]);
            }
        }
    }
}

proof fn lemma_without_line_concat(a: Seq<Seq<char>>, b: Seq<Seq<char>>, u: Seq<char>)
    ensures
        without_line(a + b, u) == without_line(a, u) + without_line(b, u),
    decreases b.len(),
{
    if b.len() == 0 {
        assert(a + b =~= a);
        assert(without_line(a, u) + without_line(b, u) =~= without_line(a, u));
    } else {
        assert((a + b).drop_last() =~= a + b.drop_last());
        assert((a + b).last() == b.last());
        lemma_without_line_concat(a, b.drop_last(), u);
        if trim(b.last()) == u {
        } else {
            assert(without_line(a, u) + without_line(b.drop_last(), u).push(b.last())
                =~= (without_line(a, u) + without_line(b.drop_last(), u)).push(b.last()));
        }
    }
}

proof fn lemma_without_line_absent(a: Seq<Seq<char>>, u: Seq<char>)
    requires
        !has_line(a, u),
    ensures
        without_line(a, u) == a,
    decreases a.len(),
{
    if a.len() > 0 {
        assert(!has_line(a.drop_last(), u)) by {
            if has_line(a.drop_last(), u) {
                let i = choose|i: int| 0 <= i < a.drop_last().len() && trim(#[trigger] a.drop_last()[i]) == u;
                assert(a[i] == a.drop_last()[i]);
            }
        }
        lemma_without_line_absent(a.drop_last(), u);
        assert(trim(a[a.len() - 1]) != u);
        assert(a.drop_last().push(a.last()) =~= a);
    }
}

proof fn lemma_without_line_subset(a: Seq<Seq<char>>, u: Seq<char>)
    ensures
        !has_line(without_line(a, u), u),
        forall|i: int| 0 <= i < without_line(a, u).len() ==> exists|j: int| 0 <= j < a.len() && #[trigger] without_line(a, u)[i] == a[j],
    decreases a.len(),
{
    if a.len() > 0 {
        lemma_without_line_subset(a.drop_last(), u);
        let w = without_line(a, u);
        let w0 = without_line(a.drop_last(), u);
        assert forall|i: int| 0 <= i < w.len() implies exists|j: int| 0 <= j < a.len() && #[trigger] w[i] == a[j] by {
            if i < w0.len() {
                assert(w[i] == w0[i]);
                let j = choose|j: int| 0 <= j < a.drop_last().len() && w0[i] == a.drop_last()[j];
                assert(w[i] == a[j]);
            } else {
                assert(w[i] == a[a.len() - 1]);
            }
        }
        if has_line(w, u) {
            let i = choose|i: int| 0 <= i < w.len() && trim(#[trigger] w[i]) == u;
            if i < w0.len() {
                assert(w[i] == w0[i]);
            }
        }
    }
}

/// What an added `use` line comes on: the estate's lines, each readable back.
proof fn lemma_added_lines(text: Seq<char>, pack: Seq<char>, after: Option<u32>, t2: Seq<char>)
    requires
        add_use_result(text, pack, after) == Ok::<Option<Seq<char>>, Seq<char>>(Some(t2)),
        !pack.contains('\n'),
        plain_lines(text),
        after != Some(0u32),
    ensures
        ({
            let ls = lines(text);
            let u = use_line(pack);
            let ls2 = match after {
                None => with_top_use(ls, u),
                Some(n) => ls.insert(n - 1 + 1, leading_ws(ls[n - 1]) + "  "@ + u),
            };
            &&& t2 == text_of(ls2)
            &&& lines(t2) == ls2
            &&& !has_line(ls, u)
            &&& has_line(ls2, u)
            &&& without_line(ls2, u) == match after {
                None => spaced(ls),
                Some(_) => ls,
            }
        }),
{
    let ls = lines(text);
    let u = use_line(pack);
    lemma_lines_writable(text);
    lemma_use_line_shape(pack);
    reveal_strlit("  ");
    match after {
        None => {
            let sp = spaced(ls);
            let ls2 = sp.push(u);
            reveal_strlit("");
            assert(strip_cr(Seq::<char>::empty()) == Seq::<char>::empty());
            assert(writable(sp)) by {
                assert forall|i: int| 0 <= i < sp.len() implies !(#[trigger] sp[i]).contains('\n') && strip_cr(sp[i]) == sp[i] by {
                    if i < ls.len() {
                        assert(sp[i] == ls[i]);
                    } else {
                        assert(sp[i] == Seq::<char>::empty());
                    }
                }
            }
            assert(writable(ls2)) by {
                assert forall|i: int| 0 <= i < ls2.len() implies !(#[trigger] ls2[i]).contains('\n') && strip_cr(ls2[i]) == ls2[i] by {
                    if i < sp.len() {
                        assert(ls2[i] == sp[i]);
                    }
                }
            }
            lemma_text_of_reads_back(ls2);
            assert(trim(ls2[ls2.len() - 1]) == u);
            lemma_without_line_concat(sp, seq![u], u);
            assert(sp + seq![u] =~= ls2);
            assert(without_line(seq![u], u) =~= Seq::<Seq<char>>::empty()) by {
                assert(seq![u].drop_last() =~= Seq::<Seq<char>>::empty());
                assert(seq![u].last() == u);
                assert(without_line(Seq::<Seq<char>>::empty(), u) == Seq::<Seq<char>>::empty());
            }
            assert(!has_line(sp, u)) by {
                if has_line(sp, u) {
                    let i = choose|i: int| 0 <= i < sp.len() && trim(#[trigger] sp[i]) == u;
                    if i < ls.len() {
                        assert(sp[i] == ls[i]);
                    } else {
                        assert(trim(Seq::<char>::empty()) == Seq::<char>::empty());
                    }
                }
            }
            lemma_without_line_absent(sp, u);
            assert(without_line(sp, u) + Seq::<Seq<char>>::empty() =~= sp);
        },
        Some(n) => {
            let idx = n - 1;
            let lw = leading_ws(ls[idx]);
            let x = lw + "  "@ + u;
            let ls2 = ls.insert(idx + 1, x);
            crate::text::lemma_leading_ws_is_ws(ls[idx]);
            assert(!x.contains('\n')) by {
                assert forall|j: int| 0 <= j < x.len() implies x[j] != '\n' by {
                    if j < lw.len() {
                        assert(x[j] == ls[idx][j]);
                    } else if j < lw.len() + 2 {
                        assert(x[j] == ' ');
                    } else {
                        assert(x[j] == u[j - lw.len() - 2]);
                    }
                }
            }
            assert(x.last() == u.last());
            assert(strip_cr(x) == x);
            assert(writable(ls2)) by {
                assert forall|i: int| 0 <= i < ls2.len() implies !(#[trigger] ls2[i]).contains('\n') && strip_cr(ls2[i]) == ls2[i] by {
                    if i < idx + 1 {
                        assert(ls2[i] == ls[i]);
                    } else if i > idx + 1 {
                        assert(ls2[i] == ls[i - 1]);
                    }
                }
            }
            lemma_text_of_reads_back(ls2);
            let w = lw + "  "@;
            assert forall|i: int| 0 <= i < w.len() implies crate::text::is_ws(#[trigger] w[i]) by {
                if i >= lw.len() {
                    assert(w[i] == ' ');
                }
            }
            assert(x =~= w + u);
            crate::text::lemma_trim_ws_prefix(w, u);
            assert(trim(ls2[idx + 1]) == u);
            assert(ls2 =~= ls.take(idx + 1) + seq![x] + ls.skip(idx + 1));
            lemma_without_line_concat(ls.take(idx + 1) + seq![x], ls.skip(idx + 1), u);
            lemma_without_line_concat(ls.take(idx + 1), seq![x], u);
            assert(trim(x) == u);
            assert(without_line(seq![x], u) =~= Seq::<Seq<char>>::empty()) by {
                assert(seq![x].drop_last() =~= Seq::<Seq<char>>::empty());
                assert(seq![x].last() == x);
                assert(without_line(Seq::<Seq<char>>::empty(), u) == Seq::<Seq<char>>::empty());
            }
            lemma_without_line_concat(ls.take(idx + 1), ls.skip(idx + 1), u);
            assert(ls.take(idx + 1) + ls.skip(idx + 1) =~= ls);
            lemma_without_line_absent(ls, u);
            assert(without_line(ls.take(idx + 1), u) + Seq::<Seq<char>>::empty() =~= without_line(ls.take(idx + 1), u));
        },
    }
}

/// Adding a `use` line twice adds it once: the text an addition returns
/// already holds the line, so adding it again — at the top or in any
/// container — leaves it alone.
pub proof fn law_add_use_is_idempotent(text: Seq<char>, pack: Seq<char>, after: Option<u32>, t2: Seq<char>, again: Option<u32>)
    requires
        add_use_result(text, pack, after) == Ok::<Option<Seq<char>>, Seq<char>>(Some(t2)),
        after != Some(0u32),
        !pack.contains('\n'),
        plain_lines(text),
    ensures
        add_use_result(t2, pack, again) == Ok::<Option<Seq<char>>, Seq<char>>(None),
{
    lemma_added_lines(text, pack, after, t2);
}

/// A `use` line added comes out again: removing it from what the addition
/// returned gives back the estate's own lines — with, at the top level, the
/// blank line that was put before it.
pub proof fn law_remove_use_undoes_add_use(text: Seq<char>, pack: Seq<char>, after: Option<u32>, t2: Seq<char>)
    requires
        add_use_result(text, pack, after) == Ok::<Option<Seq<char>>, Seq<char>>(Some(t2)),
        after != Some(0u32),
        !pack.contains('\n'),
        plain_lines(text),
    ensures
        remove_use_result(t2, pack) == Some(text_of(match after {
            None => spaced(lines(text)),
            Some(_) => lines(text),
        })),
{
    lemma_added_lines(text, pack, after, t2);
}

/// Removing a `use` line twice removes it once: what a removal returns holds
/// no such line.
pub proof fn law_remove_use_is_idempotent(text: Seq<char>, pack: Seq<char>, t2: Seq<char>)
    requires
        remove_use_result(text, pack) == Some(t2),
        plain_lines(text),
    ensures
        remove_use_result(t2, pack) is None,
{
    let ls = lines(text);
    let u = use_line(pack);
    let w = without_line(ls, u);
    lemma_use_line_shape(pack);
    lemma_without_line_subset(ls, u);
    lemma_lines_writable(text);
    if w.len() == 0 {
        reveal_strlit("\n");
        assert(text_of(w) =~= seq!['\n']);
        crate::text::lemma_lines_cons(seq![], seq![]);
        assert(seq![] + seq!['\n'] + Seq::<char>::empty() =~= seq!['\n']);
        assert(lines(Seq::<char>::empty()) =~= Seq::<Seq<char>>::empty());
        let l = lines(text_of(w));
        assert(l =~= seq![Seq::<char>::empty()]);
        if has_line(l, u) {
            assert(trim(l[0]) == Seq::<char>::empty());
        }
    } else {
        assert(writable(w)) by {
            assert forall|i: int| 0 <= i < w.len() implies !(#[trigger] w[i]).contains('\n') && strip_cr(w[i]) == w[i] by {
                let j = choose|j: int| 0 <= j < ls.len() && w[i] == ls[j];
            }
        }
        lemma_text_of_reads_back(w);
    }
}

// ---------------------------------------------------------------------------
// Packs the delta import wrote
// ---------------------------------------------------------------------------

/// The path's components as `Path::components` yields its normal ones:
/// split on `/`, with empty and `.` segments dropped.
pub open spec fn segments(p: Seq<char>) -> Seq<Seq<char>>
    decreases p.len(),
{
    if p.len() == 0 {
        seq![]
    } else {
        match find(p, '/') {
            Some(i) => {
                if 0 <= i < p.len() {
                    let head = p.take(i);
                    let rest = segments(p.skip(i + 1));
                    if head.len() == 0 || head == "."@ {
                        rest
                    } else {
                        seq![head] + rest
                    }
                } else {
                    seq![]
                }
            },
            None => {
                if p == "."@ {
                    seq![]
                } else {
                    seq![p]
                }
            },
        }
    }
}

/// `Path::file_name` on a `/`-separated path: the last component, unless the
/// path has none or ends in `..`.
pub open spec fn file_name(p: Seq<char>) -> Option<Seq<char>> {
    let s = segments(p);
    if s.len() == 0 || s.last() == ".."@ {
        None
    } else {
        Some(s.last())
    }
}

/// The last component of the path from `from` on, when it has one.
fn last_segment_from(p: &[char], from: usize) -> (r: Option<Vec<char>>)
    requires
        from <= p.len(),
    ensures
        match r {
            Some(v) => segments(p@.skip(from as int)).len() > 0 && v@ == segments(p@.skip(from as int)).last(),
            None => segments(p@.skip(from as int)).len() == 0,
        },
    decreases p.len() - from,
{
    let ghost t = p@.skip(from as int);
    if from == p.len() {
        return None;
    }
    let mut i: usize = from;
    while i < p.len() && p[i] != '/'
        invariant
            from <= i <= p.len(),
            forall|j: int| from <= j < i ==> p@[j] != '/',
        decreases p.len() - i,
    {
        i = i + 1;
    }
    let head = slice_chars(p, from, i);
    let dot = to_chars(".");
    let skip_head = head.len() == 0 || chars_eq(&head, &dot);
    if i == p.len() {
        proof {
            crate::text::lemma_find_none(t, '/');
            assert(head@ =~= t);
        }
        if skip_head {
            return None;
        }
        return Some(head);
    }
    proof {
        crate::text::lemma_find_is(t, '/', i - from);
        assert(head@ =~= t.take(i - from));
        assert(p@.skip(i + 1) =~= t.skip(i - from + 1));
    }
    let rest = last_segment_from(p, i + 1);
    match rest {
        Some(v) => {
            proof {
                let s = segments(t);
                if !(head@.len() == 0 || head@ == "."@) {
                    assert(s == seq![head@] + segments(t.skip(i - from + 1)));
                    assert(s.last() == segments(t.skip(i - from + 1)).last());
                }
            }
            Some(v)
        },
        None => {
            if skip_head {
                None
            } else {
                proof {
                    assert(segments(t) =~= seq![head@]);
                }
                Some(head)
            }
        },
    }
}

pub fn path_file_name(p: &[char]) -> (r: Option<Vec<char>>)
    ensures
        match r {
            Some(v) => file_name(p@) == Some(v@),
            None => file_name(p@) == None::<Seq<char>>,
        },
{
    let last = last_segment_from(p, 0);
    assert(p@.skip(0) =~= p@);
    match last {
        Some(v) => {
            let dd = to_chars("..");
            if chars_eq(&v, &dd) {
                None
            } else {
                Some(v)
            }
        },
        None => None,
    }
}

/// Whether the declaring file is a pack a delta import wrote: its file name
/// starts with `imported-`.
pub open spec fn imported_pack(origin: Option<(Seq<char>, u32)>) -> bool {
    match origin {
        Some((f, _)) => match file_name(f) {
            Some(n) => has_prefix(n, "imported-"@),
            None => false,
        },
        None => false,
    }
}

/// Is this resolution's declaring file one of the packs a delta import wrote?
/// Those are re-derived on every run, so their content never counts as declared.
pub fn from_imported_pack(origin: &Option<(String, u32)>) -> (b: bool)
    ensures
        b == imported_pack(match origin { Some((f, l)) => Some((f@, *l)), None => None }),
{
    match origin {
        Some((f, _)) => {
            let fc = to_chars(f.as_str());
            match path_file_name(&fc) {
                Some(n) => starts_with_str(&n, "imported-"),
                None => false,
            }
        },
        None => false,
    }
}

// ---------------------------------------------------------------------------
// Subtraction
// ---------------------------------------------------------------------------

/// What the estate already covers, by live id.
pub struct Declared {
    /// live id → declared address; of two entries for one id the later counts
    pub ids: Vec<(String, String)>,
    /// live id → (address, declaring `label {` line) for folders and projects
    pub containers: Vec<(String, (String, Option<(String, u32)>))>,
    /// declared, looked up live, provably absent — `apply` will create these
    pub not_live: Vec<String>,
}

/// The address declared for live id `k`: the last entry for it.
pub open spec fn address_of(kv: Seq<(String, String)>, k: Seq<char>) -> Option<Seq<char>>
    decreases kv.len(),
{
    if kv.len() == 0 {
        None
    } else if kv.last().0@ == k {
        Some(kv.last().1@)
    } else {
        address_of(kv.drop_last(), k)
    }
}

/// The address of the declared container with live id `k`: the last entry for it.
pub open spec fn container_of(cs: Seq<(String, (String, Option<(String, u32)>))>, k: Seq<char>) -> Option<Seq<char>>
    decreases cs.len(),
{
    if cs.len() == 0 {
        None
    } else if cs.last().0@ == k {
        Some(cs.last().1.0@)
    } else {
        container_of(cs.drop_last(), k)
    }
}

/// What a subtraction notes as it goes: children for a declared container's
/// pack, the (live id, address) pairs it subtracted, and how many resources
/// it kept.
pub struct LogV {
    pub under: Seq<(Seq<char>, Seq<(YamlV, YamlV)>)>,
    pub already: Seq<(Seq<char>, Seq<char>)>,
    pub new: nat,
}

pub open spec fn log_empty() -> LogV {
    LogV { under: seq![], already: seq![], new: 0 }
}

pub open spec fn log_cat(a: LogV, b: LogV) -> LogV {
    LogV { under: a.under + b.under, already: a.already + b.already, new: a.new + b.new }
}

pub open spec fn log_already(id: Seq<char>, address: Seq<char>) -> LogV {
    LogV { under: seq![], already: seq![(id, address)], new: 0 }
}

pub open spec fn log_new() -> LogV {
    LogV { under: seq![], already: seq![], new: 1 }
}

pub open spec fn log_under(address: Seq<char>, children: Seq<(YamlV, YamlV)>) -> LogV {
    LogV { under: seq![(address, children)], already: seq![], new: 0 }
}

/// What becomes of one entry of a mapping.
pub enum EntryOp {
    Keep,
    Replace(YamlV),
    Remove,
}

pub open spec fn apply_op(cur: Seq<(YamlV, YamlV)>, k: YamlV, op: EntryOp) -> Seq<(YamlV, YamlV)> {
    match op {
        EntryOp::Keep => cur,
        EntryOp::Replace(v) => set_key(cur, k, v),
        EntryOp::Remove => swap_remove_key(cur, k),
    }
}

/// `"import-id"` of a mapping, when it is a string.
pub open spec fn import_id_v(v: YamlV) -> Option<Seq<char>> {
    match v {
        YamlV::Mapping(m) => match get(m, skey("import-id"@)) {
            Some(x) => str_of(x),
            None => None,
        },
        _ => None,
    }
}

/// A service entry's name: the string itself, or its `service`.
pub open spec fn service_of(s: YamlV) -> Option<Seq<char>> {
    match s {
        YamlV::Str(t) => Some(t),
        YamlV::Mapping(m) => match get(m, skey("service"@)) {
            Some(x) => str_of(x),
            None => None,
        },
        _ => None,
    }
}

/// The live id and its declared address, when the estate declares it.
pub open spec fn declared_id(id: Option<Seq<char>>, d: &Declared) -> Option<(Seq<char>, Seq<char>)> {
    match id {
        Some(i) => match address_of(d.ids@, i) {
            Some(a) => Some((i, a)),
            None => None,
        },
        None => None,
    }
}

pub open spec fn declared_container(id: Option<Seq<char>>, d: &Declared) -> Option<(Seq<char>, Seq<char>)> {
    match id {
        Some(i) => match container_of(d.containers@, i) {
            Some(a) => Some((i, a)),
            None => None,
        },
        None => None,
    }
}

/// The grants of one member: those the estate declares go, the rest stay.
pub open spec fn retain_roles(roles: Seq<YamlV>, d: &Declared) -> (Seq<YamlV>, LogV)
    decreases roles.len(),
{
    if roles.len() == 0 {
        (seq![], log_empty())
    } else {
        let (kept, log) = retain_roles(roles.drop_last(), d);
        let r = roles.last();
        match declared_id(import_id_v(r), d) {
            Some((id, a)) => (kept, log_cat(log, log_already(id, a))),
            None => (kept.push(r), log_cat(log, log_new())),
        }
    }
}

/// A grant map's members, the first `n` processed.
pub open spec fn members_upto(ms: Seq<(YamlV, YamlV)>, n: nat, d: &Declared) -> (Seq<(YamlV, YamlV)>, LogV)
    decreases n,
{
    if n == 0 || n > ms.len() {
        (ms, log_empty())
    } else {
        let (cur, log) = members_upto(ms, (n - 1) as nat, d);
        let mk = ms[n - 1].0;
        match ms[n - 1].1 {
            YamlV::Sequence(roles) => {
                let (kept, l) = retain_roles(roles, d);
                let cur2 = if kept.len() == 0 { swap_remove_key(cur, mk) } else { set_key(cur, mk, YamlV::Sequence(kept)) };
                (cur2, log_cat(log, l))
            },
            _ => (cur, log),
        }
    }
}

/// A `project_service` list: services whose `<project>/<service>` id the
/// estate declares go; without a project or a name a service stays uncounted.
pub open spec fn retain_services(svcs: Seq<YamlV>, ctx: Option<Seq<char>>, d: &Declared) -> (Seq<YamlV>, LogV)
    decreases svcs.len(),
{
    if svcs.len() == 0 {
        (seq![], log_empty())
    } else {
        let (kept, log) = retain_services(svcs.drop_last(), ctx, d);
        let s = svcs.last();
        match (ctx, service_of(s)) {
            (Some(p), Some(svc)) => {
                let id = p + "/"@ + svc;
                match address_of(d.ids@, id) {
                    Some(a) => (kept, log_cat(log, log_already(id, a))),
                    None => (kept.push(s), log_cat(log, log_new())),
                }
            },
            _ => (kept.push(s), log),
        }
    }
}

/// A resource-type map: some entry carries an `"import-id"`.
pub open spec fn looks_like_type(es: Seq<(YamlV, YamlV)>) -> bool {
    exists|i: int| 0 <= i < es.len() && (#[trigger] import_id_v(es[i].1)) is Some
}

/// A resource-type map's entries, the first `n` processed.
pub open spec fn type_upto(es: Seq<(YamlV, YamlV)>, n: nat, d: &Declared) -> (Seq<(YamlV, YamlV)>, LogV)
    decreases n,
{
    if n == 0 || n > es.len() {
        (es, log_empty())
    } else {
        let (cur, log) = type_upto(es, (n - 1) as nat, d);
        match declared_id(import_id_v(es[n - 1].1), d) {
            Some((id, a)) => (swap_remove_key(cur, es[n - 1].0), log_cat(log, log_already(id, a))),
            None => (cur, log_cat(log, log_new())),
        }
    }
}

/// A child of a declared container goes to its pack: a block (mapping or
/// list), except `labels`, `tags`, `lifecycle` and the `"import-id"`.
pub open spec fn child_kept(k: YamlV, v: YamlV) -> bool {
    let ks = match str_of(k) {
        Some(s) => s,
        None => seq![],
    };
    let is_attr = !(v is Mapping || v is Sequence) || ks == "labels"@ || ks == "tags"@ || ks == "lifecycle"@;
    !is_attr && ks != "import-id"@
}

pub open spec fn children_of(node: Seq<(YamlV, YamlV)>) -> Seq<(YamlV, YamlV)>
    decreases node.len(),
{
    if node.len() == 0 {
        seq![]
    } else {
        let c = children_of(node.drop_last());
        if child_kept(node.last().0, node.last().1) {
            insert_key(c, node.last().0, node.last().1)
        } else {
            c
        }
    }
}

/// A service as a `google_project_service` entry of project `pid`.
pub open spec fn service_entry(pid: Seq<char>, svc: Seq<char>) -> YamlV {
    YamlV::Mapping(seq![(skey("import-id"@), YamlV::Str(pid + "/"@ + svc)), (skey("service"@), YamlV::Str(svc))])
}

pub open spec fn service_entries(svcs: Seq<YamlV>, pid: Seq<char>) -> Seq<(YamlV, YamlV)>
    decreases svcs.len(),
{
    if svcs.len() == 0 {
        seq![]
    } else {
        let m = service_entries(svcs.drop_last(), pid);
        match service_of(svcs.last()) {
            Some(svc) => insert_key(m, skey(crate::text::replace_char(svc, '.', "_"@)), service_entry(pid, svc)),
            None => m,
        }
    }
}

/// What a declared container's pack receives: its undeclared blocks, and its
/// services as `google_project_service` resources with their ids.
pub open spec fn container_children(pnode: Seq<(YamlV, YamlV)>, project_id: Option<Seq<char>>) -> Seq<(YamlV, YamlV)> {
    let ch = children_of(pnode);
    let removed = get(ch, skey("project_service"@));
    let ch2 = swap_remove_key(ch, skey("project_service"@));
    match (removed, project_id) {
        (Some(YamlV::Sequence(svcs)), Some(pid)) => {
            let m = service_entries(svcs, pid);
            if m.len() > 0 {
                insert_key(ch2, skey("google_project_service"@), YamlV::Mapping(m))
            } else {
                ch2
            }
        },
        _ => ch2,
    }
}

pub open spec fn project_id_of(node: Seq<(YamlV, YamlV)>) -> Option<Seq<char>> {
    match get(node, skey("project_id"@)) {
        Some(x) => str_of(x),
        None => None,
    }
}

/// The folders or projects under a container key, the first `n` processed:
/// a declared one leaves (its undeclared children go to its pack), an
/// undeclared one stays, pruned.
pub open spec fn nodes_upto(nodes: Seq<(YamlV, YamlV)>, n: nat, k: Seq<char>, d: &Declared, ctx: Option<Seq<char>>) -> (Seq<(YamlV, YamlV)>, LogV)
    decreases nodes, n,
{
    if n == 0 || n > nodes.len() {
        (nodes, log_empty())
    } else {
        let (cur, log) = nodes_upto(nodes, (n - 1) as nat, k, d, ctx);
        let label = nodes[n - 1].0;
        match nodes[n - 1].1 {
            YamlV::Mapping(node) => {
                let project_id = project_id_of(node);
                let ctx2 = if crate::text::contains_seq(k, "project"@) { project_id } else { ctx };
                let (pnode, l1) = prune_upto(node, node.len(), d, ctx2);
                match declared_container(import_id_v(nodes[n - 1].1), d) {
                    Some((id, address)) => {
                        let ch = container_children(pnode, project_id);
                        let l2 = if ch.len() > 0 { log_under(address, ch) } else { log_empty() };
                        (swap_remove_key(cur, label), log_cat(log_cat(log_cat(log, l1), l2), log_already(id, address)))
                    },
                    None => (set_key(cur, label, YamlV::Mapping(pnode)), log_cat(log_cat(log, l1), log_new())),
                }
            },
            _ => (cur, log),
        }
    }
}

/// What becomes of the entry under string key `k`.
pub open spec fn entry_op(k: Seq<char>, v: YamlV, d: &Declared, ctx: Option<Seq<char>>) -> (EntryOp, LogV)
    decreases v, 0int,
{
    if container_key(k) {
        match v {
            YamlV::Mapping(nodes) => {
                let (ns, l) = nodes_upto(nodes, nodes.len(), k, d, ctx);
                (if ns.len() == 0 { EntryOp::Remove } else { EntryOp::Replace(YamlV::Mapping(ns)) }, l)
            },
            _ => (EntryOp::Keep, log_empty()),
        }
    } else if grant_map_key(k) {
        match v {
            YamlV::Mapping(ms) => {
                let (ms2, l) = members_upto(ms, ms.len(), d);
                (if ms2.len() == 0 { EntryOp::Remove } else { EntryOp::Replace(YamlV::Mapping(ms2)) }, l)
            },
            _ => (EntryOp::Keep, log_empty()),
        }
    } else if k == "project_service"@ {
        match v {
            YamlV::Sequence(svcs) => {
                let (kept, l) = retain_services(svcs, ctx, d);
                (if kept.len() == 0 { EntryOp::Remove } else { EntryOp::Replace(YamlV::Sequence(kept)) }, l)
            },
            _ => (EntryOp::Keep, log_empty()),
        }
    } else {
        match v {
            YamlV::Mapping(es) => if looks_like_type(es) {
                let (es2, l) = type_upto(es, es.len(), d);
                (if es2.len() == 0 { EntryOp::Remove } else { EntryOp::Replace(YamlV::Mapping(es2)) }, l)
            } else {
                (EntryOp::Keep, log_empty())
            },
            _ => (EntryOp::Keep, log_empty()),
        }
    }
}

/// A body, its first `n` entries processed: each string-keyed entry as
/// `entry_op` says, in their order.
pub open spec fn prune_upto(m: Seq<(YamlV, YamlV)>, n: nat, d: &Declared, ctx: Option<Seq<char>>) -> (Seq<(YamlV, YamlV)>, LogV)
    decreases m, n,
{
    if n == 0 || n > m.len() {
        (m, log_empty())
    } else {
        let (cur, log) = prune_upto(m, (n - 1) as nat, d, ctx);
        match str_of(m[n - 1].0) {
            Some(k) => {
                let (op, l) = entry_op(k, m[n - 1].1, d, ctx);
                (apply_op(cur, m[n - 1].0, op), log_cat(log, l))
            },
            None => (cur, log),
        }
    }
}

/// A whole body pruned.
pub open spec fn pruned(m: Seq<(YamlV, YamlV)>, d: &Declared, ctx: Option<Seq<char>>) -> (Seq<(YamlV, YamlV)>, LogV) {
    prune_upto(m, m.len(), d, ctx)
}

// ---------------------------------------------------------------------------
// What a subtraction can count
// ---------------------------------------------------------------------------

proof fn lemma_retain_roles_bound(roles: Seq<YamlV>, d: &Declared)
    ensures
        retain_roles(roles, d).1.new <= roles.len(),
    decreases roles.len(),
{
    if roles.len() > 0 {
        lemma_retain_roles_bound(roles.drop_last(), d);
    }
}

proof fn lemma_retain_services_bound(svcs: Seq<YamlV>, ctx: Option<Seq<char>>, d: &Declared)
    ensures
        retain_services(svcs, ctx, d).1.new <= svcs.len(),
    decreases svcs.len(),
{
    if svcs.len() > 0 {
        lemma_retain_services_bound(svcs.drop_last(), ctx, d);
    }
}

proof fn lemma_seq_whole(s: Seq<YamlV>)
    ensures
        size_seq(s) >= s.len(),
{
    lemma_size_seq_prefix(s, s.len() as int);
    assert(s.subrange(0, s.len() as int) =~= s);
}

proof fn lemma_entries_whole(m: Seq<(YamlV, YamlV)>)
    ensures
        size_entries(m) >= 2 * m.len(),
{
    lemma_size_entries_prefix(m, m.len() as int);
    assert(m.subrange(0, m.len() as int) =~= m);
}

proof fn lemma_members_bound(ms: Seq<(YamlV, YamlV)>, n: nat, d: &Declared)
    requires
        n <= ms.len(),
    ensures
        members_upto(ms, n, d).1.new <= size_entries(ms.subrange(0, n as int)),
    decreases n,
{
    if n > 0 {
        lemma_members_bound(ms, (n - 1) as nat, d);
        lemma_size_entries_step(ms, n - 1);
        match ms[n - 1].1 {
            YamlV::Sequence(roles) => {
                lemma_retain_roles_bound(roles, d);
                lemma_seq_whole(roles);
            },
            _ => {},
        }
    }
}

proof fn lemma_type_bound(es: Seq<(YamlV, YamlV)>, n: nat, d: &Declared)
    requires
        n <= es.len(),
    ensures
        type_upto(es, n, d).1.new <= n,
    decreases n,
{
    if n > 0 {
        lemma_type_bound(es, (n - 1) as nat, d);
    }
}

proof fn lemma_prune_bound(m: Seq<(YamlV, YamlV)>, n: nat, d: &Declared, ctx: Option<Seq<char>>)
    requires
        n <= m.len(),
    ensures
        prune_upto(m, n, d, ctx).1.new <= size_entries(m.subrange(0, n as int)),
    decreases m, n,
{
    if n > 0 {
        lemma_prune_bound(m, (n - 1) as nat, d, ctx);
        lemma_size_entries_step(m, n - 1);
        match str_of(m[n - 1].0) {
            Some(k) => {
                lemma_entry_bound(k, m[n - 1].1, d, ctx);
            },
            None => {},
        }
    }
}

proof fn lemma_entry_bound(k: Seq<char>, v: YamlV, d: &Declared, ctx: Option<Seq<char>>)
    ensures
        entry_op(k, v, d, ctx).1.new <= size(v),
    decreases v, 0int,
{
    if container_key(k) {
        match v {
            YamlV::Mapping(nodes) => {
                lemma_nodes_bound(nodes, nodes.len(), k, d, ctx);
                assert(nodes.subrange(0, nodes.len() as int) =~= nodes);
            },
            _ => {},
        }
    } else if grant_map_key(k) {
        match v {
            YamlV::Mapping(ms) => {
                lemma_members_bound(ms, ms.len(), d);
                assert(ms.subrange(0, ms.len() as int) =~= ms);
            },
            _ => {},
        }
    } else if k == "project_service"@ {
        match v {
            YamlV::Sequence(svcs) => {
                lemma_retain_services_bound(svcs, ctx, d);
                lemma_seq_whole(svcs);
            },
            _ => {},
        }
    } else {
        match v {
            YamlV::Mapping(es) => {
                lemma_type_bound(es, es.len(), d);
                lemma_entries_whole(es);
            },
            _ => {},
        }
    }
}

proof fn lemma_nodes_bound(nodes: Seq<(YamlV, YamlV)>, n: nat, k: Seq<char>, d: &Declared, ctx: Option<Seq<char>>)
    requires
        n <= nodes.len(),
    ensures
        nodes_upto(nodes, n, k, d, ctx).1.new <= size_entries(nodes.subrange(0, n as int)),
    decreases nodes, n,
{
    if n > 0 {
        lemma_nodes_bound(nodes, (n - 1) as nat, k, d, ctx);
        lemma_size_entries_step(nodes, n - 1);
        match nodes[n - 1].1 {
            YamlV::Mapping(node) => {
                let project_id = project_id_of(node);
                let ctx2 = if crate::text::contains_seq(k, "project"@) { project_id } else { ctx };
                lemma_prune_bound(node, node.len(), d, ctx2);
                assert(node.subrange(0, node.len() as int) =~= node);
            },
            _ => {},
        }
    }
}

// ---------------------------------------------------------------------------
// Subtraction, executed
// ---------------------------------------------------------------------------

/// What a subtraction notes as it goes, in order.
pub struct Log {
    pub under: Vec<(String, Vec<(Yaml, Yaml)>)>,
    pub already: Vec<(String, String)>,
    pub new: usize,
}

pub open spec fn under_views(v: Seq<(String, Vec<(Yaml, Yaml)>)>) -> Seq<(Seq<char>, Seq<(YamlV, YamlV)>)> {
    v.map_values(|p: (String, Vec<(Yaml, Yaml)>)| (p.0@, entries_view(p.1@)))
}

pub open spec fn pairs_view(v: Seq<(String, String)>) -> Seq<(Seq<char>, Seq<char>)> {
    v.map_values(|p: (String, String)| (p.0@, p.1@))
}

pub open spec fn log_view(l: Log) -> LogV {
    LogV { under: under_views(l.under@), already: pairs_view(l.already@), new: l.new as nat }
}

pub open spec fn ctx_view(c: Option<&str>) -> Option<Seq<char>> {
    match c {
        Some(s) => Some(s@),
        None => None,
    }
}

fn note_already(log: &mut Log, id: &str, address: &str)
    ensures
        log_view(*final(log)) == log_cat(log_view(*old(log)), log_already(id@, address@)),
{
    let ghost before = log.already@;
    log.already.push((String::from_str(id), String::from_str(address)));
    assert(pairs_view(log.already@) =~= pairs_view(before) + seq![(id@, address@)]);
    assert(under_views(log.under@) =~= under_views(log.under@) + Seq::<(Seq<char>, Seq<(YamlV, YamlV)>)>::empty());
}

fn note_new(log: &mut Log)
    requires
        old(log).new < usize::MAX,
    ensures
        log_view(*final(log)) == log_cat(log_view(*old(log)), log_new()),
{
    log.new = log.new + 1;
    assert(under_views(log.under@) =~= under_views(log.under@) + Seq::<(Seq<char>, Seq<(YamlV, YamlV)>)>::empty());
    assert(pairs_view(log.already@) =~= pairs_view(log.already@) + Seq::<(Seq<char>, Seq<char>)>::empty());
}

fn note_under(log: &mut Log, address: &str, children: Vec<(Yaml, Yaml)>)
    ensures
        log_view(*final(log)) == log_cat(log_view(*old(log)), log_under(address@, entries_view(children@))),
{
    let ghost before = log.under@;
    let ghost cv = entries_view(children@);
    log.under.push((String::from_str(address), children));
    assert(under_views(log.under@) =~= under_views(before) + seq![(address@, cv)]);
    assert(pairs_view(log.already@) =~= pairs_view(log.already@) + Seq::<(Seq<char>, Seq<char>)>::empty());
}

proof fn lemma_log_cat_empty(a: LogV)
    ensures
        log_cat(a, log_empty()) == a,
{
    assert(log_cat(a, log_empty()).under =~= a.under);
    assert(log_cat(a, log_empty()).already =~= a.already);
}

proof fn lemma_log_cat_assoc(a: LogV, b: LogV, c: LogV)
    ensures
        log_cat(log_cat(a, b), c) == log_cat(a, log_cat(b, c)),
{
    assert(log_cat(log_cat(a, b), c).under =~= log_cat(a, log_cat(b, c)).under);
    assert(log_cat(log_cat(a, b), c).already =~= log_cat(a, log_cat(b, c)).already);
}

fn address_lookup<'a>(ids: &'a Vec<(String, String)>, id: &str) -> (r: Option<&'a String>)
    ensures
        match r {
            Some(a) => address_of(ids@, id@) == Some(a@),
            None => address_of(ids@, id@) is None,
        },
{
    let mut i: usize = ids.len();
    assert(ids@.take(i as int) =~= ids@);
    while i > 0
        invariant
            i <= ids@.len(),
            address_of(ids@, id@) == address_of(ids@.take(i as int), id@),
        decreases i,
    {
        proof {
            assert(ids@.take(i as int).drop_last() =~= ids@.take(i - 1));
            assert(ids@.take(i as int).last() == ids@[i - 1]);
        }
        if str_eq(ids[i - 1].0.as_str(), id) {
            return Some(&ids[i - 1].1);
        }
        i = i - 1;
    }
    None
}

fn container_lookup<'a>(cs: &'a Vec<(String, (String, Option<(String, u32)>))>, id: &str) -> (r: Option<&'a String>)
    ensures
        match r {
            Some(a) => container_of(cs@, id@) == Some(a@),
            None => container_of(cs@, id@) is None,
        },
{
    let mut i: usize = cs.len();
    assert(cs@.take(i as int) =~= cs@);
    while i > 0
        invariant
            i <= cs@.len(),
            container_of(cs@, id@) == container_of(cs@.take(i as int), id@),
        decreases i,
    {
        proof {
            assert(cs@.take(i as int).drop_last() =~= cs@.take(i - 1));
            assert(cs@.take(i as int).last() == cs@[i - 1]);
        }
        if str_eq(cs[i - 1].0.as_str(), id) {
            return Some(&cs[i - 1].1.0);
        }
        i = i - 1;
    }
    None
}

/// `"import-id"` of a mapping, when it is a string.
fn import_id_exec(v: &Yaml) -> (r: Option<&String>)
    ensures
        match r {
            Some(s) => import_id_v(yaml_view(*v)) == Some(s@),
            None => import_id_v(yaml_view(*v)) is None,
        },
{
    match v {
        Yaml::Mapping(m) => match get_str(m, "import-id") {
            Some(x) => as_str(x),
            None => None,
        },
        _ => None,
    }
}

fn service_exec(s: &Yaml) -> (r: Option<&String>)
    ensures
        match r {
            Some(t) => service_of(yaml_view(*s)) == Some(t@),
            None => service_of(yaml_view(*s)) is None,
        },
{
    match s {
        Yaml::Str(t) => Some(t),
        Yaml::Mapping(m) => match get_str(m, "service") {
            Some(x) => as_str(x),
            None => None,
        },
        _ => None,
    }
}

fn declared_id_exec<'a>(v: &Yaml, d: &'a Declared) -> (r: Option<(String, &'a String)>)
    ensures
        match r {
            Some((i, a)) => declared_id(import_id_v(yaml_view(*v)), d) == Some((i@, a@)),
            None => declared_id(import_id_v(yaml_view(*v)), d) is None,
        },
{
    match import_id_exec(v) {
        Some(id) => match address_lookup(&d.ids, id.as_str()) {
            Some(a) => Some((id.clone(), a)),
            None => None,
        },
        None => None,
    }
}

fn retain_roles_exec(roles: &Vec<Yaml>, d: &Declared, log: &mut Log) -> (r: Vec<Yaml>)
    requires
        old(log).new + roles@.len() <= usize::MAX,
    ensures
        seq_view(r@) == retain_roles(seq_view(roles@), d).0,
        log_view(*final(log)) == log_cat(log_view(*old(log)), retain_roles(seq_view(roles@), d).1),
{
    let ghost sv = seq_view(roles@);
    let ghost base = log_view(*log);
    proof {
        lemma_seq_view(roles@);
        lemma_log_cat_empty(base);
    }
    let mut kept: Vec<Yaml> = Vec::new();
    let mut i: usize = 0;
    while i < roles.len()
        invariant
            i <= roles@.len(),
            sv == seq_view(roles@),
            sv.len() == roles@.len(),
            forall|j: int| 0 <= j < roles@.len() ==> #[trigger] sv[j] == yaml_view(roles@[j]),
            seq_view(kept@) == retain_roles(sv.take(i as int), d).0,
            log_view(*log) == log_cat(base, retain_roles(sv.take(i as int), d).1),
            retain_roles(sv.take(i as int), d).1.new <= i,
            base.new + roles@.len() <= usize::MAX,
        decreases roles.len() - i,
    {
        proof {
            assert(sv.take(i + 1).drop_last() =~= sv.take(i as int));
            assert(sv.take(i + 1).last() == yaml_view(roles@[i as int]));
            lemma_retain_roles_bound(sv.take(i as int), d);
        }
        let ghost prev = retain_roles(sv.take(i as int), d);
        match declared_id_exec(&roles[i], d) {
            Some((id, a)) => {
                note_already(log, id.as_str(), a.as_str());
                proof {
                    lemma_log_cat_assoc(base, prev.1, log_already(id@, a@));
                }
            },
            None => {
                note_new(log);
                let c = clone_yaml(&roles[i]);
                let ghost before = kept@;
                kept.push(c);
                proof {
                    assert(kept@.subrange(0, kept@.len() - 1) =~= before);
                    lemma_log_cat_assoc(base, prev.1, log_new());
                }
            },
        }
        i = i + 1;
    }
    assert(sv.take(roles.len() as int) =~= sv);
    kept
}

fn members_exec(ms: &Vec<(Yaml, Yaml)>, d: &Declared, log: &mut Log) -> (r: Vec<(Yaml, Yaml)>)
    requires
        old(log).new + size_entries(entries_view(ms@)) <= usize::MAX,
    ensures
        entries_view(r@) == members_upto(entries_view(ms@), ms@.len() as nat, d).0,
        log_view(*final(log)) == log_cat(log_view(*old(log)), members_upto(entries_view(ms@), ms@.len() as nat, d).1),
{
    let ghost mv = entries_view(ms@);
    let ghost base = log_view(*log);
    proof {
        lemma_entries_view(ms@);
        lemma_log_cat_empty(base);
    }
    let mut cur = clone_entries(ms);
    let mut i: usize = 0;
    while i < ms.len()
        invariant
            i <= ms@.len(),
            mv == entries_view(ms@),
            mv.len() == ms@.len(),
            forall|j: int| 0 <= j < ms@.len() ==> #[trigger] mv[j] == (yaml_view(ms@[j].0), yaml_view(ms@[j].1)),
            entries_view(cur@) == members_upto(mv, i as nat, d).0,
            log_view(*log) == log_cat(base, members_upto(mv, i as nat, d).1),
            members_upto(mv, i as nat, d).1.new <= size_entries(mv.subrange(0, i as int)),
            base.new + size_entries(mv) <= usize::MAX,
        decreases ms.len() - i,
    {
        proof {
            lemma_members_bound(mv, i as nat, d);
            lemma_size_entries_step(mv, i as int);
            lemma_size_entries_prefix(mv, i + 1);
            lemma_entries_view(cur@);
            lemma_find_key(entries_view(cur@), mv[i as int].0);
        }
        let ghost prev = members_upto(mv, i as nat, d);
        match &ms[i].1 {
            Yaml::Sequence(roles) => {
                proof {
                    lemma_seq_whole(seq_view(roles@));
                    lemma_seq_view(roles@);
                }
                let kept = retain_roles_exec(roles, d, log);
                proof {
                    lemma_log_cat_assoc(base, prev.1, retain_roles(seq_view(roles@), d).1);
                }
                match find_yaml(&cur, &ms[i].0) {
                    Some(j) => {
                        if kept.len() == 0 {
                            swap_remove_at(&mut cur, j);
                        } else {
                            set_at(&mut cur, j, Yaml::Sequence(kept));
                        }
                    },
                    None => {},
                }
            },
            _ => {},
        }
        proof {
            lemma_members_bound(mv, (i + 1) as nat, d);
        }
        i = i + 1;
    }
    cur
}

fn retain_services_exec(svcs: &Vec<Yaml>, ctx: Option<&str>, d: &Declared, log: &mut Log) -> (r: Vec<Yaml>)
    requires
        old(log).new + svcs@.len() <= usize::MAX,
    ensures
        seq_view(r@) == retain_services(seq_view(svcs@), ctx_view(ctx), d).0,
        log_view(*final(log)) == log_cat(log_view(*old(log)), retain_services(seq_view(svcs@), ctx_view(ctx), d).1),
{
    let ghost sv = seq_view(svcs@);
    let ghost base = log_view(*log);
    proof {
        lemma_seq_view(svcs@);
        lemma_log_cat_empty(base);
    }
    let mut kept: Vec<Yaml> = Vec::new();
    let mut i: usize = 0;
    while i < svcs.len()
        invariant
            i <= svcs@.len(),
            sv == seq_view(svcs@),
            sv.len() == svcs@.len(),
            forall|j: int| 0 <= j < svcs@.len() ==> #[trigger] sv[j] == yaml_view(svcs@[j]),
            seq_view(kept@) == retain_services(sv.take(i as int), ctx_view(ctx), d).0,
            log_view(*log) == log_cat(base, retain_services(sv.take(i as int), ctx_view(ctx), d).1),
            retain_services(sv.take(i as int), ctx_view(ctx), d).1.new <= i,
            base.new + svcs@.len() <= usize::MAX,
        decreases svcs.len() - i,
    {
        proof {
            assert(sv.take(i + 1).drop_last() =~= sv.take(i as int));
            assert(sv.take(i + 1).last() == yaml_view(svcs@[i as int]));
            lemma_retain_services_bound(sv.take(i as int), ctx_view(ctx), d);
        }
        let ghost prev = retain_services(sv.take(i as int), ctx_view(ctx), d);
        let keep = match (ctx, service_exec(&svcs[i])) {
            (Some(p), Some(svc)) => {
                let mut idc = to_chars(p);
                idc.push('/');
                push_str_chars(&mut idc, svc.as_str());
                let id = from_chars(&idc);
                proof {
                    reveal_strlit("/");
                    assert(id@ =~= p@ + "/"@ + svc@);
                }
                match address_lookup(&d.ids, id.as_str()) {
                    Some(a) => {
                        note_already(log, id.as_str(), a.as_str());
                        proof {
                            lemma_log_cat_assoc(base, prev.1, log_already(id@, a@));
                        }
                        false
                    },
                    None => {
                        note_new(log);
                        proof {
                            lemma_log_cat_assoc(base, prev.1, log_new());
                        }
                        true
                    },
                }
            },
            _ => {
                proof {
                    lemma_log_cat_empty(log_cat(base, prev.1));
                }
                true
            },
        };
        if keep {
            let c = clone_yaml(&svcs[i]);
            let ghost before = kept@;
            kept.push(c);
            proof {
                assert(kept@.subrange(0, kept@.len() - 1) =~= before);
            }
        }
        i = i + 1;
    }
    assert(sv.take(svcs.len() as int) =~= sv);
    kept
}

fn looks_like_type_exec(es: &Vec<(Yaml, Yaml)>) -> (b: bool)
    ensures
        b == looks_like_type(entries_view(es@)),
{
    let ghost ev = entries_view(es@);
    proof {
        lemma_entries_view(es@);
    }
    let mut i: usize = 0;
    while i < es.len()
        invariant
            i <= es@.len(),
            ev == entries_view(es@),
            ev.len() == es@.len(),
            forall|j: int| 0 <= j < es@.len() ==> #[trigger] ev[j] == (yaml_view(es@[j].0), yaml_view(es@[j].1)),
            forall|j: int| 0 <= j < i ==> (#[trigger] import_id_v(ev[j].1)) is None,
        decreases es.len() - i,
    {
        if import_id_exec(&es[i].1).is_some() {
            assert(import_id_v(ev[i as int].1) is Some);
            return true;
        }
        assert(import_id_v(ev[i as int].1) is None);
        i = i + 1;
    }
    false
}

fn type_exec(es: &Vec<(Yaml, Yaml)>, d: &Declared, log: &mut Log) -> (r: Vec<(Yaml, Yaml)>)
    requires
        old(log).new + es@.len() <= usize::MAX,
    ensures
        entries_view(r@) == type_upto(entries_view(es@), es@.len() as nat, d).0,
        log_view(*final(log)) == log_cat(log_view(*old(log)), type_upto(entries_view(es@), es@.len() as nat, d).1),
{
    let ghost ev = entries_view(es@);
    let ghost base = log_view(*log);
    proof {
        lemma_entries_view(es@);
        lemma_log_cat_empty(base);
    }
    let mut cur = clone_entries(es);
    let mut i: usize = 0;
    while i < es.len()
        invariant
            i <= es@.len(),
            ev == entries_view(es@),
            ev.len() == es@.len(),
            forall|j: int| 0 <= j < es@.len() ==> #[trigger] ev[j] == (yaml_view(es@[j].0), yaml_view(es@[j].1)),
            entries_view(cur@) == type_upto(ev, i as nat, d).0,
            log_view(*log) == log_cat(base, type_upto(ev, i as nat, d).1),
            type_upto(ev, i as nat, d).1.new <= i,
            base.new + es@.len() <= usize::MAX,
        decreases es.len() - i,
    {
        proof {
            lemma_type_bound(ev, i as nat, d);
            lemma_entries_view(cur@);
            lemma_find_key(entries_view(cur@), ev[i as int].0);
        }
        let ghost prev = type_upto(ev, i as nat, d);
        match declared_id_exec(&es[i].1, d) {
            Some((id, a)) => {
                note_already(log, id.as_str(), a.as_str());
                proof {
                    lemma_log_cat_assoc(base, prev.1, log_already(id@, a@));
                }
                match find_yaml(&cur, &es[i].0) {
                    Some(j) => {
                        swap_remove_at(&mut cur, j);
                    },
                    None => {},
                }
            },
            None => {
                note_new(log);
                proof {
                    lemma_log_cat_assoc(base, prev.1, log_new());
                }
            },
        }
        i = i + 1;
    }
    cur
}

fn child_kept_exec(k: &Yaml, v: &Yaml) -> (b: bool)
    ensures
        b == child_kept(yaml_view(*k), yaml_view(*v)),
{
    let ks: &str = match as_str(k) {
        Some(s) => s.as_str(),
        None => "",
    };
    proof {
        reveal_strlit("");
    }
    let block = match v {
        Yaml::Mapping(_) => true,
        Yaml::Sequence(_) => true,
        _ => false,
    };
    let ghost want = match str_of(yaml_view(*k)) {
        Some(s) => s,
        None => seq![],
    };
    assert(ks@ == want);
    assert(block == (yaml_view(*v) is Mapping || yaml_view(*v) is Sequence));
    let is_attr = !block || str_eq(ks, "labels") || str_eq(ks, "tags") || str_eq(ks, "lifecycle");
    !is_attr && !str_eq(ks, "import-id")
}

fn children_exec(pnode: &Vec<(Yaml, Yaml)>) -> (r: Vec<(Yaml, Yaml)>)
    ensures
        entries_view(r@) == children_of(entries_view(pnode@)),
{
    let ghost pv = entries_view(pnode@);
    proof {
        lemma_entries_view(pnode@);
    }
    let mut ch: Vec<(Yaml, Yaml)> = Vec::new();
    let mut i: usize = 0;
    while i < pnode.len()
        invariant
            i <= pnode@.len(),
            pv == entries_view(pnode@),
            pv.len() == pnode@.len(),
            forall|j: int| 0 <= j < pnode@.len() ==> #[trigger] pv[j] == (yaml_view(pnode@[j].0), yaml_view(pnode@[j].1)),
            entries_view(ch@) == children_of(pv.take(i as int)),
        decreases pnode.len() - i,
    {
        proof {
            assert(pv.take(i + 1).drop_last() =~= pv.take(i as int));
            assert(pv.take(i + 1).last() == pv[i as int]);
        }
        if child_kept_exec(&pnode[i].0, &pnode[i].1) {
            let k = clone_yaml(&pnode[i].0);
            let v = clone_yaml(&pnode[i].1);
            insert_at_key(&mut ch, k, v);
        }
        i = i + 1;
    }
    assert(pv.take(pnode.len() as int) =~= pv);
    ch
}

fn string_yaml(s: &str) -> (y: Yaml)
    ensures
        yaml_view(y) == YamlV::Str(s@),
{
    Yaml::Str(String::from_str(s))
}

fn service_entries_exec(svcs: &Vec<Yaml>, pid: &str) -> (r: Vec<(Yaml, Yaml)>)
    ensures
        entries_view(r@) == service_entries(seq_view(svcs@), pid@),
{
    let ghost sv = seq_view(svcs@);
    proof {
        lemma_seq_view(svcs@);
    }
    let mut m: Vec<(Yaml, Yaml)> = Vec::new();
    let mut i: usize = 0;
    while i < svcs.len()
        invariant
            i <= svcs@.len(),
            sv == seq_view(svcs@),
            sv.len() == svcs@.len(),
            forall|j: int| 0 <= j < svcs@.len() ==> #[trigger] sv[j] == yaml_view(svcs@[j]),
            entries_view(m@) == service_entries(sv.take(i as int), pid@),
        decreases svcs.len() - i,
    {
        proof {
            assert(sv.take(i + 1).drop_last() =~= sv.take(i as int));
            assert(sv.take(i + 1).last() == yaml_view(svcs@[i as int]));
        }
        match service_exec(&svcs[i]) {
            Some(svc) => {
                let mut idc = to_chars(pid);
                idc.push('/');
                push_str_chars(&mut idc, svc.as_str());
                proof {
                    reveal_strlit("/");
                    assert(idc@ =~= pid@ + "/"@ + svc@);
                }
                let mut body: Vec<(Yaml, Yaml)> = Vec::new();
                body.push((string_yaml("import-id"), Yaml::Str(from_chars(&idc))));
                body.push((string_yaml("service"), Yaml::Str(svc.clone())));
                proof {
                    lemma_entries_view(body@);
                    assert(entries_view(body@) =~= seq![(skey("import-id"@), YamlV::Str(pid@ + "/"@ + svc@)), (skey("service"@), YamlV::Str(svc@))]);
                }
                let label = crate::text::replace_char_exec(&to_chars(svc.as_str()), '.', &to_chars("_"));
                insert_at_key(&mut m, Yaml::Str(from_chars(&label)), Yaml::Mapping(body));
            },
            None => {},
        }
        i = i + 1;
    }
    assert(sv.take(svcs.len() as int) =~= sv);
    m
}

fn container_children_exec(pnode: &Vec<(Yaml, Yaml)>, project_id: Option<&String>) -> (r: Vec<(Yaml, Yaml)>)
    ensures
        entries_view(r@) == container_children(entries_view(pnode@), match project_id {
            Some(p) => Some(p@),
            None => None,
        }),
{
    let mut ch = children_exec(pnode);
    proof {
        lemma_entries_view(ch@);
        lemma_find_key(entries_view(ch@), skey("project_service"@));
    }
    let removed: Option<Yaml> = match crate::yaml::find_str(&ch, "project_service") {
        Some(j) => {
            let v = clone_yaml(&ch[j].1);
            swap_remove_at(&mut ch, j);
            Some(v)
        },
        None => None,
    };
    match (removed, project_id) {
        (Some(Yaml::Sequence(svcs)), Some(pid)) => {
            let m = service_entries_exec(&svcs, pid.as_str());
            if m.len() > 0 {
                insert_at_key(&mut ch, string_yaml("google_project_service"), Yaml::Mapping(m));
            }
            ch
        },
        _ => ch,
    }
}

/// What becomes of one entry, as executed.
pub enum OpExec {
    Keep,
    Replace(Yaml),
    Remove,
}

pub open spec fn op_view(o: OpExec) -> EntryOp {
    match o {
        OpExec::Keep => EntryOp::Keep,
        OpExec::Replace(v) => EntryOp::Replace(yaml_view(v)),
        OpExec::Remove => EntryOp::Remove,
    }
}

fn project_id_exec(node: &Vec<(Yaml, Yaml)>) -> (r: Option<&String>)
    ensures
        match r {
            Some(p) => project_id_of(entries_view(node@)) == Some(p@),
            None => project_id_of(entries_view(node@)) is None,
        },
{
    match get_str(node, "project_id") {
        Some(x) => as_str(x),
        None => None,
    }
}

fn nodes_exec(nodes: &Vec<(Yaml, Yaml)>, k: &str, d: &Declared, ctx: Option<&str>, log: &mut Log) -> (r: Vec<(Yaml, Yaml)>)
    requires
        old(log).new + size_entries(entries_view(nodes@)) <= usize::MAX,
    ensures
        entries_view(r@) == nodes_upto(entries_view(nodes@), nodes@.len() as nat, k@, d, ctx_view(ctx)).0,
        log_view(*final(log)) == log_cat(log_view(*old(log)), nodes_upto(entries_view(nodes@), nodes@.len() as nat, k@, d, ctx_view(ctx)).1),
    decreases entries_view(nodes@),
{
    let ghost nv = entries_view(nodes@);
    let ghost base = log_view(*log);
    proof {
        lemma_entries_view(nodes@);
        lemma_log_cat_empty(base);
    }
    let is_project = crate::text::contains_str(&to_chars(k), "project");
    let mut cur = clone_entries(nodes);
    let mut i: usize = 0;
    while i < nodes.len()
        invariant
            i <= nodes@.len(),
            nv == entries_view(nodes@),
            nv.len() == nodes@.len(),
            forall|j: int| 0 <= j < nodes@.len() ==> #[trigger] nv[j] == (yaml_view(nodes@[j].0), yaml_view(nodes@[j].1)),
            is_project == crate::text::contains_seq(k@, "project"@),
            entries_view(cur@) == nodes_upto(nv, i as nat, k@, d, ctx_view(ctx)).0,
            log_view(*log) == log_cat(base, nodes_upto(nv, i as nat, k@, d, ctx_view(ctx)).1),
            base.new + size_entries(nv) <= usize::MAX,
        decreases nodes.len() - i,
    {
        proof {
            lemma_nodes_bound(nv, i as nat, k@, d, ctx_view(ctx));
            lemma_size_entries_step(nv, i as int);
            lemma_size_entries_prefix(nv, i + 1);
            lemma_entries_view(cur@);
            lemma_find_key(entries_view(cur@), nv[i as int].0);
        }
        let ghost prev = nodes_upto(nv, i as nat, k@, d, ctx_view(ctx));
        match &nodes[i].1 {
            Yaml::Mapping(node) => {
                let ghost node_v = entries_view(node@);
                let project_id = project_id_exec(node);
                let ctx2: Option<&str> = if is_project {
                    match project_id {
                        Some(p) => Some(p.as_str()),
                        None => None,
                    }
                } else {
                    ctx
                };
                proof {
                    assert(nv[i as int].1 == YamlV::Mapping(node_v));
                    assert(decreases_to!(nv => nv[i as int]));
                    assert(decreases_to!(nv[i as int] => nv[i as int].1));
                    assert(decreases_to!(nv[i as int].1 => (nv[i as int].1)->Mapping_0));
                    lemma_prune_bound(node_v, node_v.len(), d, ctx_view(ctx2));
                    assert(node_v.subrange(0, node_v.len() as int) =~= node_v);
                }
                let pnode = prune_exec(node, d, ctx2, log);
                let ghost l1 = pruned(node_v, d, ctx_view(ctx2)).1;
                proof {
                    lemma_log_cat_assoc(base, prev.1, l1);
                }
                let container = match import_id_exec(&nodes[i].1) {
                    Some(id) => match container_lookup(&d.containers, id.as_str()) {
                        Some(a) => Some((id, a)),
                        None => None,
                    },
                    None => None,
                };
                match container {
                    Some((id, address)) => {
                        let ch = container_children_exec(&pnode, project_id);
                        let ghost chv = entries_view(ch@);
                        let ghost l2 = if chv.len() > 0 { log_under(address@, chv) } else { log_empty() };
                        proof {
                            lemma_entries_view(ch@);
                        }
                        if ch.len() > 0 {
                            note_under(log, address.as_str(), ch);
                        } else {
                            proof {
                                lemma_log_cat_empty(log_view(*log));
                            }
                        }
                        proof {
                            lemma_log_cat_assoc(base, log_cat(prev.1, l1), l2);
                        }
                        note_already(log, id.as_str(), address.as_str());
                        proof {
                            lemma_log_cat_assoc(base, log_cat(log_cat(prev.1, l1), l2), log_already(id@, address@));
                        }
                        match find_yaml(&cur, &nodes[i].0) {
                            Some(j) => {
                                swap_remove_at(&mut cur, j);
                            },
                            None => {},
                        }
                    },
                    None => {
                        note_new(log);
                        proof {
                            lemma_log_cat_assoc(base, log_cat(prev.1, l1), log_new());
                        }
                        match find_yaml(&cur, &nodes[i].0) {
                            Some(j) => {
                                set_at(&mut cur, j, Yaml::Mapping(pnode));
                            },
                            None => {},
                        }
                    },
                }
            },
            _ => {},
        }
        i = i + 1;
    }
    cur
}

fn entry_exec(k: &str, v: &Yaml, d: &Declared, ctx: Option<&str>, log: &mut Log) -> (r: OpExec)
    requires
        old(log).new + size(yaml_view(*v)) <= usize::MAX,
    ensures
        op_view(r) == entry_op(k@, yaml_view(*v), d, ctx_view(ctx)).0,
        log_view(*final(log)) == log_cat(log_view(*old(log)), entry_op(k@, yaml_view(*v), d, ctx_view(ctx)).1),
    decreases yaml_view(*v),
{
    proof {
        lemma_log_cat_empty(log_view(*log));
    }
    if is_container_key(k) {
        match v {
            Yaml::Mapping(nodes) => {
                proof {
                    assert(decreases_to!(yaml_view(*v) => (yaml_view(*v))->Mapping_0));
                }
                proof {
                    lemma_entries_view(nodes@);
                }
                let ns = nodes_exec(nodes, k, d, ctx, log);
                proof {
                    lemma_entries_view(ns@);
                }
                if ns.len() == 0 {
                    OpExec::Remove
                } else {
                    OpExec::Replace(Yaml::Mapping(ns))
                }
            },
            _ => OpExec::Keep,
        }
    } else if is_grant_map_key(k) {
        match v {
            Yaml::Mapping(ms) => {
                proof {
                    lemma_entries_view(ms@);
                }
                let ms2 = members_exec(ms, d, log);
                proof {
                    lemma_entries_view(ms2@);
                }
                if ms2.len() == 0 {
                    OpExec::Remove
                } else {
                    OpExec::Replace(Yaml::Mapping(ms2))
                }
            },
            _ => OpExec::Keep,
        }
    } else if str_eq(k, "project_service") {
        match v {
            Yaml::Sequence(svcs) => {
                proof {
                    lemma_seq_whole(seq_view(svcs@));
                    lemma_seq_view(svcs@);
                }
                let kept = retain_services_exec(svcs, ctx, d, log);
                proof {
                    lemma_seq_view(kept@);
                }
                if kept.len() == 0 {
                    OpExec::Remove
                } else {
                    OpExec::Replace(Yaml::Sequence(kept))
                }
            },
            _ => OpExec::Keep,
        }
    } else {
        match v {
            Yaml::Mapping(es) => {
                if looks_like_type_exec(es) {
                    proof {
                        lemma_entries_whole(entries_view(es@));
                        lemma_entries_view(es@);
                    }
                    let es2 = type_exec(es, d, log);
                    proof {
                        lemma_entries_view(es2@);
                    }
                    if es2.len() == 0 {
                        OpExec::Remove
                    } else {
                        OpExec::Replace(Yaml::Mapping(es2))
                    }
                } else {
                    OpExec::Keep
                }
            },
            _ => OpExec::Keep,
        }
    }
}

fn prune_exec(m: &Vec<(Yaml, Yaml)>, d: &Declared, ctx: Option<&str>, log: &mut Log) -> (r: Vec<(Yaml, Yaml)>)
    requires
        old(log).new + size_entries(entries_view(m@)) <= usize::MAX,
    ensures
        entries_view(r@) == pruned(entries_view(m@), d, ctx_view(ctx)).0,
        log_view(*final(log)) == log_cat(log_view(*old(log)), pruned(entries_view(m@), d, ctx_view(ctx)).1),
    decreases entries_view(m@),
{
    let ghost mv = entries_view(m@);
    let ghost base = log_view(*log);
    proof {
        lemma_entries_view(m@);
        lemma_log_cat_empty(base);
    }
    let mut cur = clone_entries(m);
    let mut i: usize = 0;
    while i < m.len()
        invariant
            i <= m@.len(),
            mv == entries_view(m@),
            mv.len() == m@.len(),
            forall|j: int| 0 <= j < m@.len() ==> #[trigger] mv[j] == (yaml_view(m@[j].0), yaml_view(m@[j].1)),
            entries_view(cur@) == prune_upto(mv, i as nat, d, ctx_view(ctx)).0,
            log_view(*log) == log_cat(base, prune_upto(mv, i as nat, d, ctx_view(ctx)).1),
            base.new + size_entries(mv) <= usize::MAX,
        decreases m.len() - i,
    {
        proof {
            lemma_prune_bound(mv, i as nat, d, ctx_view(ctx));
            lemma_size_entries_step(mv, i as int);
            lemma_size_entries_prefix(mv, i + 1);
            lemma_entries_view(cur@);
            lemma_find_key(entries_view(cur@), mv[i as int].0);
        }
        let ghost prev = prune_upto(mv, i as nat, d, ctx_view(ctx));
        match as_str(&m[i].0) {
            Some(k) => {
                proof {
                    assert(decreases_to!(mv => mv[i as int]));
                    assert(decreases_to!(mv[i as int] => mv[i as int].1));
                }
                let op = entry_exec(k.as_str(), &m[i].1, d, ctx, log);
                proof {
                    lemma_log_cat_assoc(base, prev.1, entry_op(k@, mv[i as int].1, d, ctx_view(ctx)).1);
                }
                match op {
                    OpExec::Keep => {},
                    OpExec::Replace(v) => {
                        match find_yaml(&cur, &m[i].0) {
                            Some(j) => {
                                set_at(&mut cur, j, v);
                            },
                            None => {},
                        }
                    },
                    OpExec::Remove => {
                        match find_yaml(&cur, &m[i].0) {
                            Some(j) => {
                                swap_remove_at(&mut cur, j);
                            },
                            None => {},
                        }
                    },
                }
            },
            None => {},
        }
        i = i + 1;
    }
    cur
}

// ---------------------------------------------------------------------------
// The remainder of a sweep
// ---------------------------------------------------------------------------

/// A pack's children extended by more, as a mapping extends: a present key
/// keeps its place and takes the new value.
pub open spec fn extend(base: Seq<(YamlV, YamlV)>, ch: Seq<(YamlV, YamlV)>) -> Seq<(YamlV, YamlV)>
    decreases ch.len(),
{
    if ch.len() == 0 {
        base
    } else {
        insert_key(extend(base, ch.drop_last()), ch.last().0, ch.last().1)
    }
}

/// Where address `a` is.
pub open spec fn find_address(u: Seq<(Seq<char>, Seq<(YamlV, YamlV)>)>, a: Seq<char>) -> Option<int>
    decreases u.len(),
{
    if u.len() == 0 {
        None
    } else {
        match find_address(u.drop_last(), a) {
            Some(i) => Some(i),
            None => if u.last().0 == a { Some(u.len() - 1) } else { None },
        }
    }
}

/// Where a new address goes: before the first address that does not sort before it.
pub open spec fn position_for(u: Seq<(Seq<char>, Seq<(YamlV, YamlV)>)>, a: Seq<char>) -> int
    decreases u.len(),
{
    if u.len() == 0 {
        0
    } else if !crate::order::lex_lt(u[0].0, a) {
        0
    } else {
        1 + position_for(u.drop_first(), a)
    }
}

/// The children of each declared container, by address in address order,
/// after one more batch.
pub open spec fn under_step(u: Seq<(Seq<char>, Seq<(YamlV, YamlV)>)>, op: (Seq<char>, Seq<(YamlV, YamlV)>)) -> Seq<(Seq<char>, Seq<(YamlV, YamlV)>)> {
    match find_address(u, op.0) {
        Some(j) => u.update(j, (op.0, extend(u[j].1, op.1))),
        None => u.insert(position_for(u, op.0), (op.0, extend(seq![], op.1))),
    }
}

pub open spec fn under_fold(ops: Seq<(Seq<char>, Seq<(YamlV, YamlV)>)>) -> Seq<(Seq<char>, Seq<(YamlV, YamlV)>)>
    decreases ops.len(),
{
    if ops.len() == 0 {
        seq![]
    } else {
        under_step(under_fold(ops.drop_last()), ops.last())
    }
}

proof fn lemma_find_address(u: Seq<(Seq<char>, Seq<(YamlV, YamlV)>)>, a: Seq<char>)
    ensures
        match find_address(u, a) {
            Some(i) => 0 <= i < u.len() && u[i].0 == a && forall|j: int| 0 <= j < i ==> (#[trigger] u[j]).0 != a,
            None => forall|j: int| 0 <= j < u.len() ==> (#[trigger] u[j]).0 != a,
        },
    decreases u.len(),
{
    if u.len() > 0 {
        lemma_find_address(u.drop_last(), a);
        assert forall|j: int| 0 <= j < u.len() - 1 implies #[trigger] u[j] == u.drop_last()[j] by {}
    }
}

proof fn lemma_find_address_is(u: Seq<(Seq<char>, Seq<(YamlV, YamlV)>)>, a: Seq<char>, i: int)
    requires
        0 <= i < u.len(),
        u[i].0 == a,
        forall|j: int| 0 <= j < i ==> (#[trigger] u[j]).0 != a,
    ensures
        find_address(u, a) == Some(i),
{
    lemma_find_address(u, a);
    match find_address(u, a) {
        Some(x) => {
            if x < i {
            } else if x > i {
                assert(u[i].0 != a);
            }
        },
        None => {
            assert(u[i].0 != a);
        },
    }
}

proof fn lemma_position_for(u: Seq<(Seq<char>, Seq<(YamlV, YamlV)>)>, a: Seq<char>)
    ensures
        0 <= position_for(u, a) <= u.len(),
    decreases u.len(),
{
    if u.len() > 0 && crate::order::lex_lt(u[0].0, a) {
        lemma_position_for(u.drop_first(), a);
    }
}

fn extend_exec(base: &mut Vec<(Yaml, Yaml)>, ch: &Vec<(Yaml, Yaml)>)
    ensures
        entries_view(final(base)@) == extend(entries_view(old(base)@), entries_view(ch@)),
{
    let ghost b0 = entries_view(base@);
    let ghost cv = entries_view(ch@);
    proof {
        lemma_entries_view(ch@);
    }
    let mut i: usize = 0;
    while i < ch.len()
        invariant
            i <= ch@.len(),
            cv == entries_view(ch@),
            cv.len() == ch@.len(),
            forall|j: int| 0 <= j < ch@.len() ==> #[trigger] cv[j] == (yaml_view(ch@[j].0), yaml_view(ch@[j].1)),
            entries_view(base@) == extend(b0, cv.take(i as int)),
        decreases ch.len() - i,
    {
        proof {
            assert(cv.take(i + 1).drop_last() =~= cv.take(i as int));
            assert(cv.take(i + 1).last() == cv[i as int]);
        }
        let k = clone_yaml(&ch[i].0);
        let v = clone_yaml(&ch[i].1);
        insert_at_key(base, k, v);
        i = i + 1;
    }
    assert(cv.take(ch.len() as int) =~= cv);
}

fn merge_under(u: &mut Vec<(String, Vec<(Yaml, Yaml)>)>, a: &str, ch: &Vec<(Yaml, Yaml)>)
    ensures
        under_views(final(u)@) == under_step(under_views(old(u)@), (a@, entries_view(ch@))),
{
    let ghost uv = under_views(u@);
    proof {
        lemma_find_address(uv, a@);
        lemma_position_for(uv, a@);
    }
    let mut i: usize = 0;
    while i < u.len()
        invariant
            i <= u@.len(),
            uv == under_views(u@),
            uv == under_views(old(u)@),
            forall|j: int| 0 <= j < i ==> (#[trigger] uv[j]).0 != a@,
        decreases u.len() - i,
    {
        assert(uv[i as int] == (u@[i as int].0@, entries_view(u@[i as int].1@)));
        if str_eq(u[i].0.as_str(), a) {
            proof {
                lemma_find_address_is(uv, a@, i as int);
            }
            let mut merged = clone_entries(&u[i].1);
            extend_exec(&mut merged, ch);
            u.set(i, (String::from_str(a), merged));
            assert(under_views(u@) =~= uv.update(i as int, (a@, extend(uv[i as int].1, entries_view(ch@)))));
            return;
        }
        i = i + 1;
    }
    let mut p: usize = 0;
    assert(uv.skip(0) =~= uv);
    while p < u.len() && crate::order::compare_str(u[p].0.as_str(), a) == -1
        invariant
            p <= u@.len(),
            uv == under_views(u@),
            position_for(uv, a@) == p + position_for(uv.skip(p as int), a@),
        decreases u.len() - p,
    {
        proof {
            assert(uv.skip(p as int)[0] == uv[p as int]);
            assert(uv.skip(p as int).drop_first() =~= uv.skip(p + 1));
        }
        p = p + 1;
    }
    proof {
        if p < u.len() {
            assert(uv.skip(p as int)[0] == uv[p as int]);
        } else {
            assert(uv.skip(p as int).len() == 0);
        }
    }
    let mut fresh: Vec<(Yaml, Yaml)> = Vec::new();
    proof {
        lemma_entries_view(fresh@);
    }
    extend_exec(&mut fresh, ch);
    let ghost fv = entries_view(fresh@);
    u.insert(p, (String::from_str(a), fresh));
    assert(under_views(u@) =~= uv.insert(p as int, (a@, fv)));
}

/// The remainder of a sweep after subtraction.
pub struct Delta {
    /// residue at the top level of the scope
    pub top: Vec<(Yaml, Yaml)>,
    /// residue under a declared container: declared address → children, in address order
    pub under: Vec<(String, Vec<(Yaml, Yaml)>)>,
    /// (live id, declared address) of everything subtracted
    pub already: Vec<(String, String)>,
    /// resources kept
    pub new: usize,
}

/// Subtract the declared ids from a discovered document: declared resources
/// go, a declared container's undeclared children move under its address,
/// everything kept is counted.
pub fn subtract(top: Vec<(Yaml, Yaml)>, declared: &Declared) -> (r: Delta)
    requires
        size_entries(entries_view(top@)) <= usize::MAX,
    ensures
        entries_view(r.top@) == pruned(entries_view(top@), declared, None).0,
        under_views(r.under@) == under_fold(pruned(entries_view(top@), declared, None).1.under),
        pairs_view(r.already@) == pruned(entries_view(top@), declared, None).1.already,
        r.new == pruned(entries_view(top@), declared, None).1.new,
{
    let mut log = Log { under: Vec::new(), already: Vec::new(), new: 0 };
    assert(log_view(log) == log_empty()) by {
        assert(under_views(log.under@) =~= Seq::<(Seq<char>, Seq<(YamlV, YamlV)>)>::empty());
        assert(pairs_view(log.already@) =~= Seq::<(Seq<char>, Seq<char>)>::empty());
    }
    let pruned_top = prune_exec(&top, declared, None, &mut log);
    proof {
        let l = pruned(entries_view(top@), declared, None).1;
        assert(log_cat(log_empty(), l).under =~= l.under);
        assert(log_cat(log_empty(), l).already =~= l.already);
    }
    let ghost ops = under_views(log.under@);
    let mut under: Vec<(String, Vec<(Yaml, Yaml)>)> = Vec::new();
    let mut i: usize = 0;
    assert(under_views(under@) =~= under_fold(ops.take(0)));
    while i < log.under.len()
        invariant
            i <= log.under@.len(),
            ops == under_views(log.under@),
            under_views(under@) == under_fold(ops.take(i as int)),
        decreases log.under.len() - i,
    {
        proof {
            assert(ops.take(i + 1).drop_last() =~= ops.take(i as int));
            assert(ops.take(i + 1).last() == ops[i as int]);
        }
        merge_under(&mut under, log.under[i].0.as_str(), &log.under[i].1);
        i = i + 1;
    }
    assert(ops.take(log.under.len() as int) =~= ops);
    Delta { top: pruned_top, under, already: log.already, new: log.new }
}

impl Delta {
    /// The children that go under the declared container at `address`.
    pub fn under_at(&self, address: &str) -> (r: Option<&Vec<(Yaml, Yaml)>>)
        ensures
            match r {
                Some(c) => match find_address(under_views(self.under@), address@) {
                    Some(j) => under_views(self.under@)[j].1 == entries_view(c@),
                    None => false,
                },
                None => find_address(under_views(self.under@), address@) is None,
            },
    {
        let ghost uv = under_views(self.under@);
        proof {
            lemma_find_address(uv, address@);
        }
        let mut i: usize = 0;
        while i < self.under.len()
            invariant
                i <= self.under@.len(),
                uv == under_views(self.under@),
                forall|j: int| 0 <= j < i ==> (#[trigger] uv[j]).0 != address@,
            decreases self.under.len() - i,
        {
            assert(uv[i as int] == (self.under@[i as int].0@, entries_view(self.under@[i as int].1@)));
            if str_eq(self.under[i].0.as_str(), address) {
                proof {
                    lemma_find_address_is(uv, address@, i as int);
                }
                return Some(&self.under[i].1);
            }
            i = i + 1;
        }
        None
    }
}

// ---------------------------------------------------------------------------
// What the estate declares, by live id
// ---------------------------------------------------------------------------

/// The live id an adopt outcome names, when it names one.
pub open spec fn outcome_live_id(o: crate::adopt::Outcome) -> Option<Seq<char>> {
    match o {
        crate::adopt::Outcome::AlreadyAdopted(id) => Some(id@),
        crate::adopt::Outcome::Resolved { id, .. } => Some(id@),
        crate::adopt::Outcome::NeedsActivation { id, .. } => Some(id@),
        _ => None,
    }
}

pub open spec fn origin_view(o: Option<(String, u32)>) -> Option<(Seq<char>, u32)> {
    match o {
        Some((f, l)) => Some((f@, l)),
        None => None,
    }
}

pub open spec fn is_container_type(t: Seq<char>) -> bool {
    t == "google_folder"@ || t == "google_project"@
}

/// (live id, address) of every resolution with a live id, in order.
pub open spec fn declared_ids(rs: Seq<crate::adopt::Resolution>) -> Seq<(Seq<char>, Seq<char>)>
    decreases rs.len(),
{
    if rs.len() == 0 {
        seq![]
    } else {
        let prev = declared_ids(rs.drop_last());
        match outcome_live_id(rs.last().outcome) {
            Some(id) => prev.push((id, rs.last().address@)),
            None => prev,
        }
    }
}

/// (live id, (address, origin)) of every folder and project with a live id, in order.
pub open spec fn declared_containers(rs: Seq<crate::adopt::Resolution>) -> Seq<(Seq<char>, (Seq<char>, Option<(Seq<char>, u32)>))>
    decreases rs.len(),
{
    if rs.len() == 0 {
        seq![]
    } else {
        let prev = declared_containers(rs.drop_last());
        let r = rs.last();
        match outcome_live_id(r.outcome) {
            Some(id) => if is_container_type(r.tf_type@) { prev.push((id, (r.address@, origin_view(r.origin)))) } else { prev },
            None => prev,
        }
    }
}

/// The addresses looked up live and found absent.
pub open spec fn declared_not_live(rs: Seq<crate::adopt::Resolution>) -> Seq<Seq<char>>
    decreases rs.len(),
{
    if rs.len() == 0 {
        seq![]
    } else {
        let prev = declared_not_live(rs.drop_last());
        if rs.last().outcome is OnApply { prev.push(rs.last().address@) } else { prev }
    }
}

pub open spec fn containers_view(v: Seq<(String, (String, Option<(String, u32)>))>) -> Seq<(Seq<char>, (Seq<char>, Option<(Seq<char>, u32)>))> {
    v.map_values(|c: (String, (String, Option<(String, u32)>))| (c.0@, (c.1.0@, origin_view(c.1.1))))
}

fn clone_origin(o: &Option<(String, u32)>) -> (r: Option<(String, u32)>)
    ensures
        origin_view(r) == origin_view(*o),
{
    match o {
        Some((f, l)) => Some((f.clone(), *l)),
        None => None,
    }
}

/// What the estate already covers, from its resolutions: each live id with
/// the address that declares it, folders and projects apart, and what is
/// declared but provably not live.
pub fn declared_from(resolutions: &[crate::adopt::Resolution]) -> (d: Declared)
    ensures
        pairs_view(d.ids@) == declared_ids(resolutions@),
        containers_view(d.containers@) == declared_containers(resolutions@),
        crate::order::string_views(d.not_live@) == declared_not_live(resolutions@),
{
    let mut d = Declared { ids: Vec::new(), containers: Vec::new(), not_live: Vec::new() };
    let ghost rs = resolutions@;
    let mut i: usize = 0;
    assert(pairs_view(d.ids@) =~= declared_ids(rs.take(0)));
    assert(containers_view(d.containers@) =~= declared_containers(rs.take(0)));
    assert(crate::order::string_views(d.not_live@) =~= declared_not_live(rs.take(0)));
    while i < resolutions.len()
        invariant
            i <= rs.len(),
            rs == resolutions@,
            pairs_view(d.ids@) == declared_ids(rs.take(i as int)),
            containers_view(d.containers@) == declared_containers(rs.take(i as int)),
            crate::order::string_views(d.not_live@) == declared_not_live(rs.take(i as int)),
        decreases resolutions.len() - i,
    {
        proof {
            assert(rs.take(i + 1).drop_last() =~= rs.take(i as int));
            assert(rs.take(i + 1).last() == rs[i as int]);
        }
        let r = &resolutions[i];
        let id: Option<&String> = match &r.outcome {
            crate::adopt::Outcome::AlreadyAdopted(id) => Some(id),
            crate::adopt::Outcome::Resolved { id, .. } => Some(id),
            crate::adopt::Outcome::NeedsActivation { id, .. } => Some(id),
            _ => None,
        };
        match id {
            Some(id) => {
                if str_eq(r.tf_type.as_str(), "google_folder") || str_eq(r.tf_type.as_str(), "google_project") {
                    let ghost before = containers_view(d.containers@);
                    d.containers.push((id.clone(), (r.address.clone(), clone_origin(&r.origin))));
                    assert(containers_view(d.containers@) =~= before.push((id@, (r.address@, origin_view(r.origin)))));
                }
                let ghost before = pairs_view(d.ids@);
                d.ids.push((id.clone(), r.address.clone()));
                assert(pairs_view(d.ids@) =~= before.push((id@, r.address@)));
            },
            None => {
                if matches!(r.outcome, crate::adopt::Outcome::OnApply) {
                    let ghost before = crate::order::string_views(d.not_live@);
                    d.not_live.push(r.address.clone());
                    assert(crate::order::string_views(d.not_live@) =~= before.push(r.address@));
                }
            },
        }
        i = i + 1;
    }
    assert(rs.take(resolutions.len() as int) =~= rs);
    d
}

// ---------------------------------------------------------------------------
// Everything a sweep found, by live id
// ---------------------------------------------------------------------------

/// The `"import-id"`s of a value, mappings before what they hold, in order.
pub open spec fn ids_in(v: YamlV) -> Seq<Seq<char>>
    decreases v,
{
    match v {
        YamlV::Mapping(m) => (match get(m, skey("import-id"@)) {
            Some(YamlV::Str(id)) => seq![id],
            _ => seq![],
        }) + ids_in_values(m),
        YamlV::Sequence(s) => ids_in_seq(s),
        _ => seq![],
    }
}

pub open spec fn ids_in_values(m: Seq<(YamlV, YamlV)>) -> Seq<Seq<char>>
    decreases m,
{
    if m.len() == 0 {
        seq![]
    } else {
        ids_in_values(m.subrange(0, m.len() - 1)) + ids_in(m[m.len() - 1].1)
    }
}

pub open spec fn ids_in_seq(s: Seq<YamlV>) -> Seq<Seq<char>>
    decreases s,
{
    if s.len() == 0 {
        seq![]
    } else {
        ids_in_seq(s.subrange(0, s.len() - 1)) + ids_in(s[s.len() - 1])
    }
}

fn collect_ids(v: &Yaml, out: &mut Vec<String>)
    ensures
        crate::order::string_views(final(out)@) == crate::order::string_views(old(out)@) + ids_in(yaml_view(*v)),
    decreases yaml_view(*v),
{
    match v {
        Yaml::Mapping(m) => {
            let ghost mv = entries_view(m@);
            let ghost base = crate::order::string_views(out@);
            proof {
                lemma_entries_view(m@);
            }
            match get_str(m, "import-id") {
                Some(Yaml::Str(id)) => {
                    out.push(id.clone());
                },
                _ => {},
            }
            let ghost head = crate::order::string_views(out@);
            assert(head =~= base + (match get(mv, skey("import-id"@)) {
                Some(YamlV::Str(id)) => seq![id],
                _ => Seq::<Seq<char>>::empty(),
            }));
            let mut i: usize = 0;
            assert(mv.subrange(0, 0) =~= Seq::<(YamlV, YamlV)>::empty());
            assert(head =~= head + ids_in_values(mv.subrange(0, 0)));
            while i < m.len()
                invariant
                    i <= m@.len(),
                    *v == Yaml::Mapping(*m),
                    mv == entries_view(m@),
                    mv.len() == m@.len(),
                    forall|j: int| 0 <= j < m@.len() ==> #[trigger] mv[j] == (yaml_view(m@[j].0), yaml_view(m@[j].1)),
                    crate::order::string_views(out@) == head + ids_in_values(mv.subrange(0, i as int)),
                decreases m.len() - i,
            {
                proof {
                    assert(mv.subrange(0, i + 1).subrange(0, i as int) =~= mv.subrange(0, i as int));
                    assert(decreases_to!(yaml_view(*v) => (yaml_view(*v))->Mapping_0));
                    assert(decreases_to!(mv => mv[i as int]));
                    assert(decreases_to!(mv[i as int] => mv[i as int].1));
                }
                collect_ids(&m[i].1, out);
                i = i + 1;
            }
            assert(mv.subrange(0, m.len() as int) =~= mv);
        },
        Yaml::Sequence(s) => {
            let ghost sv = seq_view(s@);
            let ghost base = crate::order::string_views(out@);
            proof {
                lemma_seq_view(s@);
            }
            let mut i: usize = 0;
            assert(sv.subrange(0, 0) =~= Seq::<YamlV>::empty());
            assert(base =~= base + ids_in_seq(sv.subrange(0, 0)));
            while i < s.len()
                invariant
                    i <= s@.len(),
                    *v == Yaml::Sequence(*s),
                    sv == seq_view(s@),
                    sv.len() == s@.len(),
                    forall|j: int| 0 <= j < s@.len() ==> #[trigger] sv[j] == yaml_view(s@[j]),
                    crate::order::string_views(out@) == base + ids_in_seq(sv.subrange(0, i as int)),
                decreases s.len() - i,
            {
                proof {
                    assert(sv.subrange(0, i + 1).subrange(0, i as int) =~= sv.subrange(0, i as int));
                    assert(decreases_to!(yaml_view(*v) => (yaml_view(*v))->Sequence_0));
                    assert(decreases_to!(sv => sv[i as int]));
                }
                collect_ids(&s[i], out);
                i = i + 1;
            }
            assert(sv.subrange(0, s.len() as int) =~= sv);
        },
        _ => {
            assert(crate::order::string_views(out@) =~= crate::order::string_views(out@) + Seq::<Seq<char>>::empty());
        },
    }
}

/// Everything the sweep found, by live id: each `"import-id"` once, in order.
pub fn live_ids(top: &Vec<(Yaml, Yaml)>) -> (r: Vec<String>)
    ensures
        crate::order::sorted_set_of(crate::order::string_views(r@), ids_in(YamlV::Mapping(entries_view(top@)))),
{
    let doc = Yaml::Mapping(crate::delta::clone_entries(top));
    let mut all: Vec<String> = Vec::new();
    collect_ids(&doc, &mut all);
    assert(crate::order::string_views(all@) =~= Seq::<Seq<char>>::empty() + ids_in(yaml_view(doc)));
    crate::order::sorted_dedup(&all)
}

// ---------------------------------------------------------------------------
// What a declared container's pack receives
// ---------------------------------------------------------------------------

/// An entry a pack may receive: a block (mapping or list) under a key other
/// than `labels`, `tags`, `lifecycle` and `"import-id"`.
pub open spec fn pack_child(k: YamlV, v: YamlV) -> bool {
    &&& (v is Mapping || v is Sequence)
    &&& k != YamlV::Str("labels"@)
    &&& k != YamlV::Str("tags"@)
    &&& k != YamlV::Str("lifecycle"@)
    &&& k != YamlV::Str("import-id"@)
}

pub open spec fn pack_children(m: Seq<(YamlV, YamlV)>) -> bool {
    forall|i: int| 0 <= i < m.len() ==> pack_child((#[trigger] m[i]).0, m[i].1)
}

pub open spec fn under_ok(u: Seq<(Seq<char>, Seq<(YamlV, YamlV)>)>) -> bool {
    forall|i: int| 0 <= i < u.len() ==> pack_children((#[trigger] u[i]).1)
}

proof fn lemma_pack_insert(m: Seq<(YamlV, YamlV)>, k: YamlV, v: YamlV)
    requires
        pack_children(m),
        pack_child(k, v),
    ensures
        pack_children(insert_key(m, k, v)),
{
    crate::yaml::lemma_find_key(m, k);
    let r = insert_key(m, k, v);
    assert forall|i: int| 0 <= i < r.len() implies pack_child((#[trigger] r[i]).0, r[i].1) by {
        match find_key(m, k) {
            Some(j) => {
                if i != j {
                    assert(r[i] == m[i]);
                }
            },
            None => {
                if i < m.len() {
                    assert(r[i] == m[i]);
                }
            },
        }
    }
}

proof fn lemma_pack_remove(m: Seq<(YamlV, YamlV)>, k: YamlV)
    requires
        pack_children(m),
    ensures
        pack_children(swap_remove_key(m, k)),
{
    crate::yaml::lemma_find_key(m, k);
    let r = swap_remove_key(m, k);
    match find_key(m, k) {
        Some(j) => {
            assert forall|i: int| 0 <= i < r.len() implies pack_child((#[trigger] r[i]).0, r[i].1) by {
                if i == j {
                    assert(r[i] == m[m.len() - 1]);
                } else {
                    assert(r[i] == m[i]);
                }
            }
        },
        None => {},
    }
}

proof fn lemma_children_of_pack(node: Seq<(YamlV, YamlV)>)
    ensures
        pack_children(children_of(node)),
    decreases node.len(),
{
    if node.len() > 0 {
        lemma_children_of_pack(node.drop_last());
        let k = node.last().0;
        let v = node.last().1;
        if child_kept(k, v) {
            reveal_strlit("labels");
            reveal_strlit("tags");
            reveal_strlit("lifecycle");
            reveal_strlit("import-id");
            match k {
                YamlV::Str(s) => {
                    assert(s != "labels"@ && s != "tags"@ && s != "lifecycle"@ && s != "import-id"@);
                },
                _ => {},
            }
            lemma_pack_insert(children_of(node.drop_last()), k, v);
        }
    }
}

proof fn lemma_container_children_pack(pnode: Seq<(YamlV, YamlV)>, project_id: Option<Seq<char>>)
    ensures
        pack_children(container_children(pnode, project_id)),
{
    let ch = children_of(pnode);
    lemma_children_of_pack(pnode);
    lemma_pack_remove(ch, skey("project_service"@));
    let ch2 = swap_remove_key(ch, skey("project_service"@));
    reveal_strlit("google_project_service");
    reveal_strlit("labels");
    reveal_strlit("tags");
    reveal_strlit("lifecycle");
    reveal_strlit("import-id");
    assert("google_project_service"@ != "labels"@ && "google_project_service"@ != "tags"@
        && "google_project_service"@ != "lifecycle"@ && "google_project_service"@ != "import-id"@) by {
        assert("google_project_service"@.len() != "labels"@.len());
        assert("google_project_service"@.len() != "tags"@.len());
        assert("google_project_service"@.len() != "lifecycle"@.len());
        assert("google_project_service"@.len() != "import-id"@.len());
    }
    match (get(ch, skey("project_service"@)), project_id) {
        (Some(YamlV::Sequence(svcs)), Some(pid)) => {
            let m = service_entries(svcs, pid);
            lemma_pack_insert(ch2, skey("google_project_service"@), YamlV::Mapping(m));
        },
        _ => {},
    }
}

proof fn lemma_extend_pack(base: Seq<(YamlV, YamlV)>, ch: Seq<(YamlV, YamlV)>)
    requires
        pack_children(base),
        pack_children(ch),
    ensures
        pack_children(extend(base, ch)),
    decreases ch.len(),
{
    if ch.len() > 0 {
        assert(pack_children(ch.drop_last())) by {
            assert forall|i: int| 0 <= i < ch.len() - 1 implies pack_child((#[trigger] ch.drop_last()[i]).0, ch.drop_last()[i].1) by {
                assert(ch.drop_last()[i] == ch[i]);
            }
        }
        lemma_extend_pack(base, ch.drop_last());
        assert(ch.last() == ch[ch.len() - 1]);
        lemma_pack_insert(extend(base, ch.drop_last()), ch.last().0, ch.last().1);
    }
}

proof fn lemma_under_fold_pack(ops: Seq<(Seq<char>, Seq<(YamlV, YamlV)>)>)
    requires
        under_ok(ops),
    ensures
        under_ok(under_fold(ops)),
    decreases ops.len(),
{
    if ops.len() > 0 {
        assert(under_ok(ops.drop_last())) by {
            assert forall|i: int| 0 <= i < ops.len() - 1 implies pack_children((#[trigger] ops.drop_last()[i]).1) by {
                assert(ops.drop_last()[i] == ops[i]);
            }
        }
        lemma_under_fold_pack(ops.drop_last());
        let u = under_fold(ops.drop_last());
        let op = ops.last();
        assert(op == ops[ops.len() - 1]);
        assert(pack_children(seq![]));
        match find_address(u, op.0) {
            Some(j) => {
                lemma_find_address(u, op.0);
                lemma_extend_pack(u[j].1, op.1);
                let r = u.update(j, (op.0, extend(u[j].1, op.1)));
                assert forall|i: int| 0 <= i < r.len() implies pack_children((#[trigger] r[i]).1) by {
                    if i != j {
                        assert(r[i] == u[i]);
                    }
                }
            },
            None => {
                lemma_extend_pack(seq![], op.1);
                let p = position_for(u, op.0);
                lemma_position_for(u, op.0);
                let r = u.insert(p, (op.0, extend(seq![], op.1)));
                assert forall|i: int| 0 <= i < r.len() implies pack_children((#[trigger] r[i]).1) by {
                    if i < p {
                        assert(r[i] == u[i]);
                    } else if i > p {
                        assert(r[i] == u[i - 1]);
                    }
                }
            },
        }
    }
}

proof fn lemma_under_cat(a: Seq<(Seq<char>, Seq<(YamlV, YamlV)>)>, b: Seq<(Seq<char>, Seq<(YamlV, YamlV)>)>)
    requires
        under_ok(a),
        under_ok(b),
    ensures
        under_ok(a + b),
{
    assert forall|i: int| 0 <= i < (a + b).len() implies pack_children((#[trigger] (a + b)[i]).1) by {
        if i < a.len() {
            assert((a + b)[i] == a[i]);
        } else {
            assert((a + b)[i] == b[i - a.len()]);
        }
    }
}

proof fn lemma_retain_roles_under(roles: Seq<YamlV>, d: &Declared)
    ensures
        retain_roles(roles, d).1.under.len() == 0,
    decreases roles.len(),
{
    if roles.len() > 0 {
        lemma_retain_roles_under(roles.drop_last(), d);
    }
}

proof fn lemma_retain_services_under(svcs: Seq<YamlV>, ctx: Option<Seq<char>>, d: &Declared)
    ensures
        retain_services(svcs, ctx, d).1.under.len() == 0,
    decreases svcs.len(),
{
    if svcs.len() > 0 {
        lemma_retain_services_under(svcs.drop_last(), ctx, d);
    }
}

proof fn lemma_members_under(ms: Seq<(YamlV, YamlV)>, n: nat, d: &Declared)
    ensures
        members_upto(ms, n, d).1.under.len() == 0,
    decreases n,
{
    if n > 0 && n <= ms.len() {
        lemma_members_under(ms, (n - 1) as nat, d);
        match ms[n - 1].1 {
            YamlV::Sequence(roles) => lemma_retain_roles_under(roles, d),
            _ => {},
        }
    }
}

proof fn lemma_type_under(es: Seq<(YamlV, YamlV)>, n: nat, d: &Declared)
    ensures
        type_upto(es, n, d).1.under.len() == 0,
    decreases n,
{
    if n > 0 && n <= es.len() {
        lemma_type_under(es, (n - 1) as nat, d);
    }
}

proof fn lemma_prune_under(m: Seq<(YamlV, YamlV)>, n: nat, d: &Declared, ctx: Option<Seq<char>>)
    ensures
        under_ok(prune_upto(m, n, d, ctx).1.under),
    decreases m, n,
{
    if n > 0 && n <= m.len() {
        lemma_prune_under(m, (n - 1) as nat, d, ctx);
        match str_of(m[n - 1].0) {
            Some(k) => {
                lemma_entry_under(k, m[n - 1].1, d, ctx);
                lemma_under_cat(prune_upto(m, (n - 1) as nat, d, ctx).1.under, entry_op(k, m[n - 1].1, d, ctx).1.under);
            },
            None => {},
        }
    }
}

proof fn lemma_entry_under(k: Seq<char>, v: YamlV, d: &Declared, ctx: Option<Seq<char>>)
    ensures
        under_ok(entry_op(k, v, d, ctx).1.under),
    decreases v, 0int,
{
    if container_key(k) {
        match v {
            YamlV::Mapping(nodes) => {
                lemma_nodes_under(nodes, nodes.len(), k, d, ctx);
            },
            _ => {},
        }
    } else if grant_map_key(k) {
        match v {
            YamlV::Mapping(ms) => {
                lemma_members_under(ms, ms.len(), d);
            },
            _ => {},
        }
    } else if k == "project_service"@ {
        match v {
            YamlV::Sequence(svcs) => {
                lemma_retain_services_under(svcs, ctx, d);
            },
            _ => {},
        }
    } else {
        match v {
            YamlV::Mapping(es) => {
                lemma_type_under(es, es.len(), d);
            },
            _ => {},
        }
    }
}

proof fn lemma_nodes_under(nodes: Seq<(YamlV, YamlV)>, n: nat, k: Seq<char>, d: &Declared, ctx: Option<Seq<char>>)
    ensures
        under_ok(nodes_upto(nodes, n, k, d, ctx).1.under),
    decreases nodes, n,
{
    if n > 0 && n <= nodes.len() {
        lemma_nodes_under(nodes, (n - 1) as nat, k, d, ctx);
        let (cur, log) = nodes_upto(nodes, (n - 1) as nat, k, d, ctx);
        match nodes[n - 1].1 {
            YamlV::Mapping(node) => {
                let project_id = project_id_of(node);
                let ctx2 = if crate::text::contains_seq(k, "project"@) { project_id } else { ctx };
                lemma_prune_under(node, node.len(), d, ctx2);
                let (pnode, l1) = prune_upto(node, node.len(), d, ctx2);
                lemma_under_cat(log.under, l1.under);
                match declared_container(import_id_v(nodes[n - 1].1), d) {
                    Some((id, address)) => {
                        let ch = container_children(pnode, project_id);
                        lemma_container_children_pack(pnode, project_id);
                        let l2 = if ch.len() > 0 { log_under(address, ch) } else { log_empty() };
                        assert(under_ok(l2.under));
                        lemma_under_cat(log.under + l1.under, l2.under);
                        assert(under_ok(log_already(id, address).under));
                        lemma_under_cat(log.under + l1.under + l2.under, log_already(id, address).under);
                    },
                    None => {
                        assert(under_ok(log_new().under));
                        lemma_under_cat(log.under + l1.under, log_new().under);
                    },
                }
            },
            _ => {},
        }
    }
}

/// What a subtraction places under a declared container is only blocks: never
/// an entry under `labels`, `tags`, `lifecycle` or `"import-id"`, never a
/// scalar — those are attributes of the declared container itself.
pub proof fn law_a_pack_receives_only_blocks(top: Seq<(YamlV, YamlV)>, d: &Declared)
    ensures
        forall|i: int, j: int| 0 <= i < under_fold(pruned(top, d, None).1.under).len()
            && 0 <= j < under_fold(pruned(top, d, None).1.under)[i].1.len() ==> {
            let e = #[trigger] under_fold(pruned(top, d, None).1.under)[i].1[j];
            &&& (e.1 is Mapping || e.1 is Sequence)
            &&& e.0 != YamlV::Str("labels"@)
            &&& e.0 != YamlV::Str("tags"@)
            &&& e.0 != YamlV::Str("lifecycle"@)
            &&& e.0 != YamlV::Str("import-id"@)
        },
{
    lemma_prune_under(top, top.len(), d, None);
    lemma_under_fold_pack(pruned(top, d, None).1.under);
    let u = under_fold(pruned(top, d, None).1.under);
    assert forall|i: int, j: int| 0 <= i < u.len() && 0 <= j < u[i].1.len() implies {
        let e = #[trigger] u[i].1[j];
        &&& (e.1 is Mapping || e.1 is Sequence)
        &&& e.0 != YamlV::Str("labels"@)
        &&& e.0 != YamlV::Str("tags"@)
        &&& e.0 != YamlV::Str("lifecycle"@)
        &&& e.0 != YamlV::Str("import-id"@)
    } by {
        assert(pack_children(u[i].1));
        assert(pack_child(u[i].1[j].0, u[i].1[j].1));
    }
}

} // verus!
