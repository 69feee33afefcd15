//! Names shared by the emitter and the adopter: the Terraform label and
//! address of a Cloud Identity group and of a membership, the bare email of a
//! member, and the escaping a quoted HCL template needs. Keeping the
//! derivation in one place is what stops the adopter from computing an address
//! the generated HCL does not use.

use std::hash::{Hash, Hasher};
use vstd::prelude::*;
use vstd::string::*;
use crate::text::{find, find_char, from_chars, push_chars, push_str_chars, replace_char, replace_char_exec, to_chars};

verus! {

/// Terraform label for a group's YAML key: `-` is not legal in an identifier.
pub open spec fn group_label_of(yaml_key: Seq<char>) -> Seq<char> {
    replace_char(yaml_key, '-', "_"@)
}

pub fn group_resource_label(yaml_key: &str) -> (r: String)
    ensures
        r@ == group_label_of(yaml_key@),
{
    let k = to_chars(yaml_key);
    let u = to_chars("_");
    let r = replace_char_exec(&k, '-', &u);
    from_chars(&r)
}

/// Full Terraform address of the `google_cloud_identity_group` emitted for `yaml_key`.
pub fn group_resource_address(yaml_key: &str) -> (r: String)
    ensures
        r@ == "google_cloud_identity_group."@ + group_label_of(yaml_key@),
{
    let mut r = String::from_str("google_cloud_identity_group.");
    let l = group_resource_label(yaml_key);
    r.append(l.as_str());
    r
}

/// The bare email of a member: what follows its first `:` (`user:`,
/// `group:`, `serviceAccount:`), or the whole text when it has none.
pub open spec fn member_email_of(member_raw: Seq<char>) -> Seq<char> {
    match find(member_raw, ':') {
        Some(i) => member_raw.skip(i + 1),
        None => member_raw,
    }
}

pub fn member_email(member_raw: &str) -> (r: &str)
    ensures
        r@ == member_email_of(member_raw@),
{
    let c = to_chars(member_raw);
    proof {
        crate::text::lemma_find(c@, ':');
    }
    match find_char(&c, ':') {
        Some(i) => {
            let n = member_raw.unicode_len();
            let r = member_raw.substring_char(i + 1, n);
            assert(r@ =~= member_raw@.skip(i + 1));
            r
        },
        None => member_raw,
    }
}

/// What `DefaultHasher::new()` finishes at after hashing two texts, one after
/// the other.
pub uninterp spec fn std_hash_pair(a: Seq<char>, b: Seq<char>) -> u64;

/// `std::collections::hash_map::DefaultHasher`: a new hasher, `a` then `b`
/// hashed into it (`Hash for str`), finished. Claimed of it: the result is
/// the same for the same two texts. `DefaultHasher::new()` is unseeded — every
/// hasher it makes is the same — so this holds across runs of one build;
/// which number comes out is left unsaid.
#[verifier::external_body]
fn hash_pair(a: &str, b: &str) -> (h: u64)
    ensures
        h == std_hash_pair(a@, b@),
{
    let mut hasher = std::collections::hash_map::DefaultHasher::new();
    a.hash(&mut hasher);
    b.hash(&mut hasher);
    hasher.finish()
}

pub open spec fn hex_digit(d: nat) -> char {
    if d % 16 < 10 {
        ((d % 16) + 48) as char
    } else {
        ((d % 16) + 87) as char
    }
}

/// `{:x}`: lower-case hexadecimal, no leading zeros.
pub open spec fn hex(n: nat) -> Seq<char>
    decreases n,
{
    if n < 16 {
        seq![hex_digit(n)]
    } else {
        hex(n / 16).push(hex_digit(n % 16))
    }
}

fn hex_digit_exec(d: u64) -> (c: char)
    requires
        d < 16,
    ensures
        c == hex_digit(d as nat),
{
    let n: u8 = if d < 10 { (d as u8) + 48 } else { (d as u8) + 87 };
    let c: char = n as char;
    c
}

pub fn hex_chars(n: u64) -> (r: Vec<char>)
    ensures
        r@ == hex(n as nat),
    decreases n,
{
    if n < 16 {
        let mut r: Vec<char> = Vec::new();
        r.push(hex_digit_exec(n));
        r
    } else {
        let mut r = hex_chars(n / 16);
        r.push(hex_digit_exec(n % 16));
        r
    }
}

/// Terraform label for a membership: hashed, because a member email is not a
/// legal identifier.
pub open spec fn membership_label_of(group_yaml_key: Seq<char>, member_raw: Seq<char>) -> Seq<char> {
    "membership_"@ + group_label_of(group_yaml_key) + "_"@ + hex(std_hash_pair(group_yaml_key, member_raw) as nat)
}

pub fn membership_resource_label(group_yaml_key: &str, member_raw: &str) -> (r: String)
    ensures
        r@ == membership_label_of(group_yaml_key@, member_raw@),
{
    let h = hash_pair(group_yaml_key, member_raw);
    let mut out: Vec<char> = Vec::new();
    push_str_chars(&mut out, "membership_");
    let l = group_resource_label(group_yaml_key);
    push_str_chars(&mut out, l.as_str());
    push_str_chars(&mut out, "_");
    let x = hex_chars(h);
    push_chars(&mut out, &x);
    from_chars(&out)
}

/// Full Terraform address of the membership emitted for `member_raw` in `group_yaml_key`.
pub fn membership_resource_address(group_yaml_key: &str, member_raw: &str) -> (r: String)
    ensures
        r@ == "google_cloud_identity_group_membership."@ + membership_label_of(group_yaml_key@, member_raw@),
{
    let mut r = String::from_str("google_cloud_identity_group_membership.");
    let l = membership_resource_label(group_yaml_key, member_raw);
    r.append(l.as_str());
    r
}

/// The escaping of a quoted HCL template, byte by byte from position `i` at
/// interpolation depth `depth`: outside `${…}`/`%{…}` a `"` or `\` gets a
/// backslash and `$${`/`%%{` pass as the literal escapes they are; inside, the
/// text is expression source and passes as it is. Each byte is read as the
/// character of that code.
pub open spec fn escaped_from(b: Seq<u8>, i: int, depth: nat) -> Seq<char>
    decreases b.len() - i,
{
    if i < 0 || i >= b.len() {
        seq![]
    } else {
        let c = b[i] as char;
        let opener = c == '$' || c == '%';
        if depth == 0 && opener && i + 2 < b.len() && b[i + 1] == b[i] && b[i + 2] == 123 {
            seq![c, c, '{'] + escaped_from(b, i + 3, depth)
        } else if opener && i + 1 < b.len() && b[i + 1] == 123 {
            seq![c, '{'] + escaped_from(b, i + 2, depth + 1)
        } else if c == '}' && depth > 0 {
            seq!['}'] + escaped_from(b, i + 1, (depth - 1) as nat)
        } else if depth == 0 && (c == '"' || c == '\\') {
            seq!['\\', c] + escaped_from(b, i + 1, depth)
        } else {
            seq![c] + escaped_from(b, i + 1, depth)
        }
    }
}

/// Escape a string for use as HCL quoted-template source, which is emitted
/// between quotes verbatim.
pub fn escape_template_literals(s: &str) -> (r: String)
    ensures
        r@ == escaped_from(vstd::utf8::encode_utf8(s@), 0, 0),
{
    let b: &[u8] = s.as_bytes();
    let ghost bs = b@;
    let n: usize = b.len();
    let mut out: Vec<char> = Vec::new();
    let mut depth: usize = 0;
    let mut i: usize = 0;
    while i < n
        invariant
            n == bs.len(),
            bs == b@,
            i <= n,
            depth <= i,
            out@ + escaped_from(bs, i as int, depth as nat) == escaped_from(bs, 0, 0),
        decreases n - i,
    {
        let ghost o0 = out@;
        let c: char = b[i] as char;
        let opener = c == '$' || c == '%';
        if depth == 0 && opener && n - i > 2 && b[i + 1] == b[i] && b[i + 2] == 123u8 {
            out.push(c);
            out.push(c);
            out.push('{');
            assert(out@ =~= o0 + seq![c, c, '{']);
            assert(o0 + (seq![c, c, '{'] + escaped_from(bs, i + 3, depth as nat)) =~= out@ + escaped_from(bs, i + 3, depth as nat));
            i = i + 3;
            continue;
        }
        if opener && n - i > 1 && b[i + 1] == 123u8 {
            out.push(c);
            out.push('{');
            assert(out@ =~= o0 + seq![c, '{']);
            assert(o0 + (seq![c, '{'] + escaped_from(bs, i + 2, (depth + 1) as nat)) =~= out@ + escaped_from(bs, i + 2, (depth + 1) as nat));
            depth = depth + 1;
            i = i + 2;
            continue;
        }
        if c == '}' && depth > 0 {
            out.push('}');
            assert(o0 + (seq!['}'] + escaped_from(bs, i + 1, (depth - 1) as nat)) =~= out@ + escaped_from(bs, i + 1, (depth - 1) as nat));
            depth = depth - 1;
            i = i + 1;
            continue;
        }
        if depth == 0 && (c == '"' || c == '\\') {
            out.push('\\');
            out.push(c);
            assert(o0 + (seq!['\\', c] + escaped_from(bs, i + 1, depth as nat)) =~= out@ + escaped_from(bs, i + 1, depth as nat));
        } else {
            out.push(c);
            assert(o0 + (seq![c] + escaped_from(bs, i + 1, depth as nat)) =~= out@ + escaped_from(bs, i + 1, depth as nat));
        }
        i = i + 1;
    }
    assert(out@ + Seq::<char>::empty() =~= out@);
    from_chars(&out)
}

} // verus!
