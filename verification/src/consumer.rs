//! What a project consuming a central estate's interface compares its own
//! values against: an interface file carries each managed value hashed, so a
//! project learns that a value it writes collides, and nothing else.

use vstd::prelude::*;
use vstd::string::*;
use crate::dossier::{hash_of_json, hex_of, sha256_of};
use crate::text::{concat, has_prefix, starts_with_str, str_eq, to_chars};

verus! {

/// A value as an interface file carries it: `sha256:` and the hexadecimal
/// SHA-256 of its UTF-8 bytes.
pub open spec fn hashed_of(v: Seq<char>) -> Seq<char> {
    "sha256:"@ + hex_of(sha256_of(vstd::utf8::encode_utf8(v)))
}

/// `value` as an interface file carries it.
pub fn hashed(value: &str) -> (r: String)
    ensures
        r@ == hashed_of(value@),
{
    let h = hash_of_json(value);
    concat("sha256:", h.as_str())
}

/// Whether `mine`, as a project writes it, is what a fact holds: the text,
/// when the facts come from the compiled central estate, or its hash, when
/// they come from an interface file.
pub open spec fn same_of(fact: Seq<char>, mine: Seq<char>) -> bool {
    if has_prefix(fact, "sha256:"@) {
        hashed_of(mine) == fact
    } else {
        fact == mine
    }
}

pub fn same(fact: &str, mine: &str) -> (b: bool)
    ensures
        b == same_of(fact@, mine@),
{
    if starts_with_str(&to_chars(fact), "sha256:") {
        str_eq(hashed(mine).as_str(), fact)
    } else {
        str_eq(fact, mine)
    }
}

/// A project that writes a managed value is told it collides, whether the
/// facts hold the value as text (a value that itself begins with `sha256:`
/// aside) or hashed.
pub proof fn law_a_value_is_the_same_as_its_hash(mine: Seq<char>)
    ensures
        !has_prefix(mine, "sha256:"@) ==> same_of(mine, mine),
        same_of(hashed_of(mine), mine),
{
    reveal_strlit("sha256:");
    assert(hashed_of(mine).take(7) =~= "sha256:"@);
}

} // verus!
