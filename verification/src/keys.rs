//! The keys under which entries are kept in a credential store.
//!
//! A profile owns one primary entry, `<profile>:token`, and, where its token is kept in chunks,
//! the entries `<profile>:token:<index>`. The names of all profiles are kept in `profile-index`.

use crate::text;
use crate::text::decimal_text;
use vstd::prelude::*;
use vstd::string::*;

verus! {

/// The service under which the entries are kept in an operating system's keyring.
pub const SERVICE_NAME: &'static str = "teams-cli";

/// The key of the entry that lists the profiles.
pub open spec fn profile_index_key() -> Seq<char> {
    "profile-index"@
}

/// The key of the primary entry of a profile.
pub open spec fn entry_key_of(profile: Seq<char>) -> Seq<char> {
    profile + ":token"@
}

/// The key of one chunk of a profile's token.
pub open spec fn chunk_key_of(profile: Seq<char>, index: nat) -> Seq<char> {
    profile + ":token:"@ + text::decimal(index)
}

/// The key of the entry that lists the profiles.
pub fn index_key() -> (key: String)
    ensures
        key@ == profile_index_key(),
{
    "profile-index".to_owned()
}

/// The key of the primary entry of `profile`.
pub fn entry_key(profile: &str) -> (key: String)
    ensures
        key@ == entry_key_of(profile@),
{
    let mut key: String = profile.to_owned();
    key.append(":token");
    key
}

/// The key of chunk `index` of the token of `profile`.
pub fn chunk_key(profile: &str, index: usize) -> (key: String)
    ensures
        key@ == chunk_key_of(profile@, index as nat),
{
    let mut key: String = profile.to_owned();
    key.append(":token:");
    key.append(decimal_text(index as u128).as_str());
    key
}

/// Whether `c` is a digit.
pub open spec fn is_digit(c: char) -> bool {
    '0' <= c <= '9'
}

/// A decimal number is not empty and all digits.
pub proof fn lemma_decimal_digits(n: nat)
    ensures
        text::decimal(n).len() > 0,
        forall|i: int| 0 <= i < text::decimal(n).len() ==> is_digit(#[trigger] text::decimal(n)[i]),
    decreases n,
{
    if n >= 10 {
        lemma_decimal_digits(n / 10);
    }
}

/// Two numbers with the same decimal form are the same.
pub proof fn lemma_decimal_injective(a: nat, b: nat)
    requires
        text::decimal(a) == text::decimal(b),
    ensures
        a == b,
    decreases a,
{
    lemma_decimal_digits(a / 10);
    lemma_decimal_digits(b / 10);
    assert(text::decimal(a).last() == text::digit(a % 10));
    assert(text::decimal(b).last() == text::digit(b % 10));
    assert(a % 10 == b % 10);
    if a >= 10 {
        assert(text::decimal(a).drop_last() =~= text::decimal(a / 10));
        assert(text::decimal(a).len() > 1);
        assert(b >= 10);
        assert(text::decimal(b).drop_last() =~= text::decimal(b / 10));
        lemma_decimal_injective(a / 10, b / 10);
    } else if b >= 10 {
        assert(text::decimal(b).len() > 1);
    }
}

/// What a chunk key ends with: the digits of the index, after a colon.
proof fn lemma_chunk_key_shape(profile: Seq<char>, index: nat)
    ensures
        ({
            let key = chunk_key_of(profile, index);
            let digits = text::decimal(index).len() as int;
            &&& digits > 0
            &&& key.len() == profile.len() + 7 + digits
            &&& key[key.len() - digits - 1] == ':'
            &&& forall|i: int|
                key.len() - digits <= i < key.len() ==> is_digit(#[trigger] key[i])
            &&& key.take(profile.len() as int) == profile
            &&& key.skip(key.len() - digits) == text::decimal(index)
        }),
{
    reveal_strlit(":token:");
    lemma_decimal_digits(index);
    let key = chunk_key_of(profile, index);
    let digits = text::decimal(index).len() as int;
    assert forall|i: int| key.len() - digits <= i < key.len() implies is_digit(
        #[trigger] key[i],
    ) by {
        assert(key[i] == text::decimal(index)[i - (key.len() - digits)]);
    }
    assert(key.take(profile.len() as int) =~= profile);
    assert(key.skip(key.len() - digits) =~= text::decimal(index));
}

/// A chunk key belongs to one profile and one index.
pub proof fn law_chunk_keys_are_distinct(p: Seq<char>, i: nat, q: Seq<char>, j: nat)
    requires
        chunk_key_of(p, i) == chunk_key_of(q, j),
    ensures
        p == q,
        i == j,
{
    lemma_chunk_key_shape(p, i);
    lemma_chunk_key_shape(q, j);
    let key = chunk_key_of(p, i);
    let a = text::decimal(i).len() as int;
    let b = text::decimal(j).len() as int;
    if a < b {
        assert(is_digit(key[key.len() - a - 1]));
    } else if b < a {
        assert(is_digit(key[key.len() - b - 1]));
    }
    lemma_decimal_injective(i, j);
}

/// A primary key belongs to one profile.
pub proof fn law_entry_keys_are_distinct(p: Seq<char>, q: Seq<char>)
    requires
        entry_key_of(p) == entry_key_of(q),
    ensures
        p == q,
{
    reveal_strlit(":token");
    assert(entry_key_of(p).len() == p.len() + 6);
    assert(entry_key_of(q).len() == q.len() + 6);
    assert(entry_key_of(p).take(p.len() as int) =~= p);
    assert(entry_key_of(q).take(q.len() as int) =~= q);
}

/// No chunk key is a primary key, of the same profile or of another.
pub proof fn law_chunk_key_is_no_entry_key(p: Seq<char>, i: nat, q: Seq<char>)
    ensures
        chunk_key_of(p, i) != entry_key_of(q),
{
    reveal_strlit(":token");
    lemma_chunk_key_shape(p, i);
    let c = chunk_key_of(p, i);
    let e = entry_key_of(q);
    assert(is_digit(c[c.len() - 1]));
    assert(e[e.len() - 1] == 'n');
}

/// No profile's entry is the entry that lists the profiles.
pub proof fn law_profile_index_key_is_apart(p: Seq<char>, i: nat)
    ensures
        entry_key_of(p) != profile_index_key(),
        chunk_key_of(p, i) != profile_index_key(),
{
    reveal_strlit(":token");
    reveal_strlit("profile-index");
    lemma_chunk_key_shape(p, i);
    let c = chunk_key_of(p, i);
    let e = entry_key_of(p);
    assert(is_digit(c[c.len() - 1]));
    assert(e[e.len() - 1] == 'n');
    assert(profile_index_key()[12] == 'x');
    assert(profile_index_key().len() == 13);
}

/// How the keys are spelt: a profile's primary key is its name with `:token` behind it, the key of a
/// chunk has `:token:` and the index behind it, and the key of the index is `profile-index`.
pub proof fn law_keys_are_spelt(profile: Seq<char>, index: nat)
    ensures
        entry_key_of(profile).take(profile.len() as int) == profile,
        entry_key_of(profile).skip(profile.len() as int) == seq![':', 't', 'o', 'k', 'e', 'n'],
        chunk_key_of(profile, index).take(profile.len() as int) == profile,
        chunk_key_of(profile, index).skip(profile.len() as int) == seq![
            ':', 't', 'o', 'k', 'e', 'n', ':',
        ] + text::decimal(index),
        profile_index_key() == seq![
            'p', 'r', 'o', 'f', 'i', 'l', 'e', '-', 'i', 'n', 'd', 'e', 'x',
        ],
{
    reveal_strlit(":token");
    reveal_strlit(":token:");
    reveal_strlit("profile-index");
    let n = profile.len() as int;
    assert(entry_key_of(profile).take(n) =~= profile);
    assert(entry_key_of(profile).skip(n) =~= seq![':', 't', 'o', 'k', 'e', 'n']);
    assert(chunk_key_of(profile, index).take(n) =~= profile);
    assert(chunk_key_of(profile, index).skip(n) =~= seq![':', 't', 'o', 'k', 'e', 'n', ':']
        + text::decimal(index));
    assert(profile_index_key() =~= seq![
        'p', 'r', 'o', 'f', 'i', 'l', 'e', '-', 'i', 'n', 'd', 'e', 'x',
    ]);
}

/// How the service is named.
pub proof fn law_service_is_named()
    ensures
        SERVICE_NAME@ == "teams-cli"@,
{
}

} // verus!
