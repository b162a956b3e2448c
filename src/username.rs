use vstd::prelude::*;
use crate::path::{chars_of, string_of};

verus! {

/// The characters that a user name may not hold: `/ \ @ : ; ' " ``.
pub open spec fn is_reserved(c: char) -> bool {
    c == '/' || c == '\\' || c == '@' || c == ':' || c == ';' || c == '\'' || c == '"' || c == '`'
}

/// Every reserved character of `s` replaced by a space.
pub open spec fn reserved_blanked(s: Seq<char>) -> Seq<char> {
    s.map_values(|c: char| if is_reserved(c) { ' ' } else { c })
}

/// Relies on `regex::Regex::new` with the class of reserved characters and
/// `Regex::replace_all` with a space: each reserved character becomes a space.
#[verifier::external_body]
fn blank_reserved(s: &str) -> (r: String)
    ensures
        r@ == reserved_blanked(s@),
{
    regex::Regex::new(r#"[/\\@:;'"`]"#).unwrap().replace_all(s, " ").into_owned()
}

/// `s` without the white space at its two ends.
pub uninterp spec fn trimmed(s: Seq<char>) -> Seq<char>;

/// Relies on `str::trim`: the string without leading and trailing white space,
/// which depends on the string alone.
#[verifier::external_body]
fn trim_text(s: &str) -> (r: String)
    ensures
        r@ == trimmed(s@),
{
    s.trim().to_string()
}

/// `s` is not empty and consists of Unicode letters and numbers only.
pub uninterp spec fn letters_and_numbers(s: Seq<char>) -> bool;

/// Relies on `regex::Regex::new(r"^[\p{L}\p{N}]+$")` and `Regex::is_match`: whether
/// the string is a non-empty run of letters and numbers, which depends on it alone.
#[verifier::external_body]
fn match_letters_and_numbers(s: &str) -> (r: bool)
    ensures
        r == letters_and_numbers(s@),
{
    regex::Regex::new(r"^[\p{L}\p{N}]+$").unwrap().is_match(s)
}

/// The first `n` characters of `s`, or all of them.
pub open spec fn take_chars(s: Seq<char>, n: int) -> Seq<char> {
    if s.len() <= n {
        s
    } else {
        s.subrange(0, n)
    }
}

/// A user name with its reserved characters blanked, cut to 32 characters and
/// trimmed.
pub open spec fn sanitized_username(s: Seq<char>) -> Seq<char> {
    trimmed(take_chars(reserved_blanked(s), 32))
}

pub fn sanitize_username(username: &str) -> (r: String)
    ensures
        r@ == sanitized_username(username@),
{
    let blanked = chars_of(blank_reserved(username).as_str());
    let n: usize = if blanked.len() < 32 { blanked.len() } else { 32 };
    let cut = crate::path::copy_range(&blanked, 0, n);
    proof {
        if blanked@.len() <= 32 {
            assert(blanked@.subrange(0, n as int) =~= blanked@);
        }
    }
    trim_text(string_of(&cut).as_str())
}

pub fn is_valid_username(username: &str) -> (r: bool)
    ensures
        r == letters_and_numbers(username@),
{
    match_letters_and_numbers(username)
}

/// The stored form of a user name: `<sanitized name>@<owner>`.
pub open spec fn formatted_username(name: Seq<char>, owner: Seq<char>) -> Seq<char> {
    sanitized_username(name) + seq!['@'] + owner
}

pub fn format_username(name: &str, owner: &str) -> (r: String)
    ensures
        r@ == formatted_username(name@, owner@),
{
    let mut v = chars_of(sanitize_username(name).as_str());
    v.push('@');
    crate::path::append_chars(&mut v, &chars_of(owner));
    proof {
        assert(v@ =~= formatted_username(name@, owner@));
    }
    string_of(&v)
}

} // verus!
