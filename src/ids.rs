use vstd::prelude::*;
use crate::path::{append_chars, chars_of, string_of};
use crate::types::CallContext;

verus! {

pub open spec fn digit(d: nat) -> char {
    seq!['0', '1', '2', '3', '4', '5', '6', '7', '8', '9'][d as int]
}

/// The decimal numeral of `n`, without leading zeros.
pub open spec fn decimal(n: nat) -> Seq<char>
    decreases n,
{
    if n < 10 {
        seq![digit(n)]
    } else {
        decimal(n / 10).push(digit(n % 10))
    }
}

fn digit_char(d: u64) -> (c: char)
    requires
        d < 10,
    ensures
        c == digit(d as nat),
{
    match d {
        0 => '0',
        1 => '1',
        2 => '2',
        3 => '3',
        4 => '4',
        5 => '5',
        6 => '6',
        7 => '7',
        8 => '8',
        _ => '9',
    }
}

/// The decimal numeral of `n`.
pub fn decimal_chars(n: u64) -> (r: Vec<char>)
    ensures
        r@ == decimal(n as nat),
    decreases n,
{
    if n < 10 {
        let mut v: Vec<char> = Vec::new();
        v.push(digit_char(n));
        proof {
            assert(v@ =~= seq![digit(n as nat)]);
        }
        v
    } else {
        let mut v = decimal_chars(n / 10);
        v.push(digit_char(n % 10));
        v
    }
}

/// The text that is hashed into an identifier:
/// `<instance>-<time>-<caller>-<counter>`.
pub open spec fn id_input(canister: Seq<char>, time: u64, caller: Seq<char>, counter: u64) -> Seq<char> {
    canister + seq!['-'] + decimal(time as nat) + seq!['-'] + caller + seq!['-'] + decimal(
        counter as nat,
    )
}

/// The lowercase hexadecimal SHA-256 digest of the UTF-8 encoding of `input`.
pub uninterp spec fn sha256_hex(input: Seq<char>) -> Seq<char>;

/// Relies on `sha2::Sha256::digest` rendered with `{:x}`: the lowercase hex digest
/// of the string's bytes, which depends on the string alone; the 32 bytes of the
/// digest give 64 hex digits.
#[verifier::external_body]
fn hash_hex(input: &str) -> (r: String)
    ensures
        r@ == sha256_hex(input@),
        r@.len() == 64,
{
    format!("{:x}", <sha2::Sha256 as sha2::Digest>::digest(input.as_bytes()))
}

/// The identifier that the given context and counter value produce.
pub fn make_id(ctx: &CallContext, counter: u64) -> (r: String)
    ensures
        r@ == sha256_hex(id_input(ctx.canister_id@, ctx.time_ns, ctx.caller@, counter)),
        r@.len() == 64,
{
    let mut v = chars_of(ctx.canister_id.as_str());
    v.push('-');
    append_chars(&mut v, &decimal_chars(ctx.time_ns));
    v.push('-');
    append_chars(&mut v, &chars_of(ctx.caller.as_str()));
    v.push('-');
    append_chars(&mut v, &decimal_chars(counter));
    proof {
        assert(v@ =~= id_input(ctx.canister_id@, ctx.time_ns, ctx.caller@, counter));
    }
    hash_hex(string_of(&v).as_str())
}

pub proof fn lemma_decimal_len(n: nat)
    ensures
        decimal(n).len() >= 1,
        n >= 10 ==> decimal(n).len() >= 2,
    decreases n,
{
    if n >= 10 {
        lemma_decimal_len(n / 10);
    }
}

/// Distinct numbers have distinct numerals.
pub proof fn lemma_decimal_injective(a: nat, b: nat)
    requires
        decimal(a) == decimal(b),
    ensures
        a == b,
    decreases a,
{
    lemma_decimal_len(a);
    lemma_decimal_len(b);
    let ds = seq!['0', '1', '2', '3', '4', '5', '6', '7', '8', '9'];
    if a < 10 && b < 10 {
        assert(decimal(a)[0] == ds[a as int]);
        assert(decimal(b)[0] == ds[b as int]);
    } else if a >= 10 && b >= 10 {
        assert(decimal(a).last() == ds[(a % 10) as int]);
        assert(decimal(b).last() == ds[(b % 10) as int]);
        assert(decimal(a / 10) =~= decimal(a).drop_last());
        assert(decimal(b / 10) =~= decimal(b).drop_last());
        lemma_decimal_injective(a / 10, b / 10);
    }
}

/// Two identifiers made in the same instance, at the same time and for the same
/// caller, but with different counter values, are hashed from different texts.
pub proof fn lemma_id_inputs_differ(
    canister: Seq<char>,
    time: u64,
    caller: Seq<char>,
    c1: u64,
    c2: u64,
)
    requires
        c1 != c2,
    ensures
        id_input(canister, time, caller, c1) != id_input(canister, time, caller, c2),
{
    let p = canister + seq!['-'] + decimal(time as nat) + seq!['-'] + caller + seq!['-'];
    let s1 = id_input(canister, time, caller, c1);
    let s2 = id_input(canister, time, caller, c2);
    assert(s1 == p + decimal(c1 as nat));
    assert(s2 == p + decimal(c2 as nat));
    if s1 == s2 {
        assert(s1.subrange(p.len() as int, s1.len() as int) =~= decimal(c1 as nat));
        assert(s2.subrange(p.len() as int, s2.len() as int) =~= decimal(c2 as nat));
        lemma_decimal_injective(c1 as nat, c2 as nat);
    }
}

} // verus!
