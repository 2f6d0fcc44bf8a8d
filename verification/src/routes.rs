//! What a route makes of a request before the pipeline runs: the class that
//! the request is counted under, and the key that its payload is cached under.

use vstd::prelude::*;
use vstd::string::StringExecFns;
use crate::rate_limit::RouteClass;

verus! {

/// `text` begins with `prefix`.
pub open spec fn begins_with(text: Seq<char>, prefix: Seq<char>) -> bool {
    prefix.len() <= text.len() && text.subrange(0, prefix.len() as int) == prefix
}

/// `id` without its hyphens: the form in which an identity is sent on and keyed.
pub open spec fn normalized(id: Seq<char>) -> Seq<char> {
    id.filter(|c: char| c != '-')
}

/// The mark that tells the payloads of one class from those of the other.
pub open spec fn class_mark(class: RouteClass) -> Seq<char> {
    match class {
        RouteClass::Profile => " by P"@,
        RouteClass::Secrets => " by S"@,
    }
}

/// The cache key of the payload that a route of `class` serves for `id`.
pub open spec fn key_of(id: Seq<char>, class: RouteClass) -> Seq<char> {
    normalized(id) + class_mark(class)
}

/// Calls `str::starts_with`: whether `text` begins with `prefix`.
#[verifier::external_body]
fn str_starts_with(text: &str, prefix: &str) -> (found: bool)
    ensures
        found == begins_with(text@, prefix@),
{
    text.starts_with(prefix)
}

/// Calls `str::replace` with a character and the empty string: `text` without
/// the occurrences of `unwanted`.
#[verifier::external_body]
fn str_without(text: &str, unwanted: char) -> (rest: String)
    ensures
        rest@ == text@.filter(|c: char| c != unwanted),
{
    text.replace(unwanted, "")
}

impl RouteClass {
    /// The class of the route at `path`: `Secrets` under `/secrets/`, `Profile`
    /// everywhere else.
    pub fn of_path(path: &str) -> (class: RouteClass)
        ensures
            class == if begins_with(path@, "/secrets/"@) {
                RouteClass::Secrets
            } else {
                RouteClass::Profile
            },
    {
        if str_starts_with(path, "/secrets/") {
            RouteClass::Secrets
        } else {
            RouteClass::Profile
        }
    }
}

/// `id` without its hyphens.
pub fn normalize_id(id: &str) -> (plain: String)
    ensures
        plain@ == normalized(id@),
{
    str_without(id, '-')
}

/// The cache key of the payload that a route of `class` serves for `id`.
pub fn cache_key(id: &str, class: RouteClass) -> (key: String)
    ensures
        key@ == key_of(id@, class),
{
    let plain = normalize_id(id);
    match class {
        RouteClass::Profile => plain.concat(" by P"),
        RouteClass::Secrets => plain.concat(" by S"),
    }
}

/// Keys: two requests are cached under one key exactly when they are for one
/// identity, hyphens aside, and for routes of one class.
pub proof fn lemma_keys_agree_exactly(id: Seq<char>, class: RouteClass, other_id: Seq<char>, other_class: RouteClass)
    ensures
        key_of(id, class) == key_of(other_id, other_class) <==> normalized(id) == normalized(
            other_id,
        ) && class == other_class,
{
    reveal_strlit(" by P");
    reveal_strlit(" by S");
    let a = normalized(id);
    let b = normalized(other_id);
    let m = class_mark(class);
    let n = class_mark(other_class);
    assert(m.len() == 5 && n.len() == 5);
    if key_of(id, class) == key_of(other_id, other_class) {
        assert((a + m).len() == (b + n).len());
        assert(a =~= (a + m).subrange(0, a.len() as int));
        assert(b =~= (b + n).subrange(0, b.len() as int));
        assert((a + m)[a.len() as int + 4] == m[4]);
        assert((b + n)[b.len() as int + 4] == n[4]);
    }
}

} // verus!
