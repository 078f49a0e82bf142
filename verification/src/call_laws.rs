//! What each operation on a token asks of a store, call by call, and what it makes of the replies,
//! whatever those are.

use crate::chunks;
use crate::error::ErrorView;
use crate::header;
use crate::keys;
use crate::laws;
use crate::model;
use crate::secret_store::Exchange;
use crate::text;
use crate::tokens;
use vstd::prelude::*;
use vstd::utf8;

verus! {

/// The count recorded in a primary entry is the one that its header claims, and zero where it is no
/// header or there is none.
pub proof fn law_recorded_count(primary: Seq<char>)
    ensures
        tokens::recorded_chunks(None) == 0,
        header::header_chunks(primary) is None ==> tokens::recorded_chunks(Some(primary)) == 0,
        header::header_chunks(primary) is Some ==> Some(tokens::recorded_chunks(Some(primary)))
            == header::header_chunks(primary),
{
}

/// A sweep asks to delete one chunk after the other from `start` on. It goes past a chunk only where
/// the call succeeded and found the chunk or the recorded count covers it. It ends at an error of
/// the store, which it returns, or successfully at a chunk that is missing and not covered, or at
/// the largest index.
pub proof fn law_sweep_call_by_call(
    profile: Seq<char>,
    start: nat,
    recorded: nat,
    calls: Seq<Exchange>,
    result: Result<(), ErrorView>,
)
    requires
        start <= usize::MAX,
        tokens::delete_chunks_run(profile, start, recorded, calls, result),
    ensures
        calls.len() > 0,
        start + calls.len() - 1 <= usize::MAX,
        forall|k: int|
            0 <= k < calls.len() ==> (#[trigger] calls[k]) is Delete && calls[k]->Delete_key == profile
                + ":token:"@ + text::decimal((start + k) as nat),
        forall|k: int|
            0 <= k < calls.len() - 1 ==> (#[trigger] calls[k])->Delete_reply is Ok && (
            calls[k]->Delete_reply->Ok_0 || start + k < recorded),
        calls.last()->Delete_reply is Err ==> result == Err::<(), ErrorView>(
            calls.last()->Delete_reply->Err_0,
        ),
        calls.last()->Delete_reply is Ok ==> result is Ok && (start + calls.len() - 1 == usize::MAX
            || (!calls.last()->Delete_reply->Ok_0 && recorded <= start + calls.len() - 1)),
{
    let n = calls.len() as int;
    assert(calls.last() == calls[n - 1]);
    if n > 1 {
        assert(tokens::sweep_goes_on(calls[n - 2], (start + (n - 2)) as nat, recorded));
    }
}

/// The recorded count comes from one look at the primary entry, and an error of the store is
/// returned.
pub proof fn law_count_call_by_call(
    profile: Seq<char>,
    calls: Seq<Exchange>,
    result: Result<usize, ErrorView>,
)
    requires
        tokens::stored_chunk_count_run(profile, calls, result),
    ensures
        calls.len() == 1,
        calls[0] is GetPassword,
        calls[0]->GetPassword_key == profile + ":token"@,
        calls[0]->GetPassword_reply is Err ==> result == Err::<usize, ErrorView>(
            calls[0]->GetPassword_reply->Err_0,
        ),
        calls[0]->GetPassword_reply is Ok ==> result == Ok::<usize, ErrorView>(
            tokens::recorded_chunks(calls[0]->GetPassword_reply->Ok_0),
        ),
{
}

/// Storing bytes in `n` chunks looks at the primary entry, writes the chunks in order, each with its
/// part of the bytes, then the header that counts them, and then sweeps from the new count on, to
/// the count that was recorded at least. The first error of the store ends it and is returned, and
/// it ends before the sweep for no other reason.
pub proof fn law_chunked_write_call_by_call(
    profile: Seq<char>,
    bytes: Seq<u8>,
    size: nat,
    n: nat,
    calls: Seq<Exchange>,
    result: Result<(), ErrorView>,
)
    requires
        size > 0,
        bytes.len() <= usize::MAX,
        bytes.len() <= n * size,
        n > 0 ==> (n - 1) * size < bytes.len(),
        tokens::store_chunked_run(profile, bytes, size, calls, result),
    ensures
        calls.len() > 0,
        calls[0] is GetPassword,
        calls[0]->GetPassword_key == profile + ":token"@,
        forall|k: int|
            1 <= k <= n && k < calls.len() ==> (#[trigger] calls[k]) is SetSecret
                && calls[k]->SetSecret_key == profile + ":token:"@ + text::decimal((k - 1) as nat)
                && calls[k]->SetSecret_value == bytes.subrange(
                (k - 1) * size,
                if k * size < bytes.len() {
                    k * size
                } else {
                    bytes.len() as int
                },
            ),
        n + 1 < calls.len() ==> calls[n as int + 1] is SetPassword && calls[n as int
            + 1]->SetPassword_key == profile + ":token"@ && calls[n as int + 1]->SetPassword_value
            == "{\"chunks\":"@ + text::decimal(n) + "}"@,
        forall|k: int|
            0 <= k <= n + 1 && k < calls.len() - 1 ==> (#[trigger] calls[k]).failure() is None,
        calls.len() <= n + 2 ==> calls.last().failure() is Some && result == Err::<(), ErrorView>(
            calls.last().failure()->Some_0,
        ),
        calls.len() > n + 2 ==> tokens::delete_chunks_run(
            profile,
            n,
            tokens::recorded_chunks(calls[0]->GetPassword_reply->Ok_0) as nat,
            calls.skip(n as int + 2),
            result,
        ),
{
    let pieces = chunks::split(bytes, size);
    lemma_number_of_pieces(bytes, size, n);
    laws::lemma_no_more_pieces_than_bytes(bytes, size);
    let m = n as int;
    let rest = calls.skip(1);
    let writes = if rest.len() <= m + 1 {
        rest
    } else {
        rest.take(m + 1)
    };
    assert(calls.last() == calls[calls.len() - 1]);
    if rest.len() > 0 {
        assert(rest.last() == calls.last());
    }
    if rest.len() > m + 1 {
        assert(rest.skip(m + 1) =~= calls.skip(m + 2));
    }
    assert forall|k: int| 1 <= k <= n && k < calls.len() implies (#[trigger] calls[k]) is SetSecret
        && calls[k]->SetSecret_key == profile + ":token:"@ + text::decimal((k - 1) as nat)
        && calls[k]->SetSecret_value == bytes.subrange(
        (k - 1) * size,
        if k * size < bytes.len() {
            k * size
        } else {
            bytes.len() as int
        },
    ) by {
        assert(writes[k - 1] == calls[k]);
        chunks::law_pieces_are_consecutive(bytes, size, k - 1);
        assert((k - 1 + 1) * size == k * size) by (nonlinear_arith);
    }
    assert forall|k: int| 0 <= k <= n + 1 && k < calls.len() - 1 implies (
    #[trigger] calls[k]).failure() is None by {
        if k > 0 {
            assert(rest[k - 1] == calls[k]);
            assert(writes[k - 1] == calls[k]);
        }
    }
    if m + 1 < calls.len() {
        assert(writes[m] == calls[m + 1]);
        header::law_headers_are_spelt(n as u64);
        reveal_strlit("{\"chunks\":");
        reveal_strlit("}");
        assert("{\"chunks\":"@ =~= seq!['{', '"', 'c', 'h', 'u', 'n', 'k', 's', '"', ':']);
        assert("}"@ =~= seq!['}']);
    }
}

/// There are `n` pieces where `n` of them are enough and fewer are not.
proof fn lemma_number_of_pieces(bytes: Seq<u8>, size: nat, n: nat)
    requires
        size > 0,
        bytes.len() <= n * size,
        n > 0 ==> (n - 1) * size < bytes.len(),
    ensures
        chunks::split(bytes, size).len() == n,
{
    chunks::law_split_cuts_at_multiples_of_the_size(bytes, size, n as int);
    if n > 0 {
        chunks::law_split_cuts_at_multiples_of_the_size(bytes, size, n - 1);
    }
}

/// Storing a token whole is one write of the primary entry with the token as it is, and what the
/// store replies is returned. Storing it in chunks is storing the bytes that encode it.
pub proof fn law_store_call_by_call(
    profile: Seq<char>,
    token: Seq<char>,
    size: usize,
    calls: Seq<Exchange>,
    result: Result<(), ErrorView>,
)
    ensures
        tokens::store_token_run(profile, token, None, calls, result) ==> calls.len() == 1
            && calls[0] is SetPassword && calls[0]->SetPassword_key == profile + ":token"@
            && calls[0]->SetPassword_value == token && calls[0]->SetPassword_reply == result,
        tokens::store_token_run(profile, token, Some(size), calls, result)
            ==> tokens::store_chunked_run(
            profile,
            utf8::encode_utf8(token),
            size as nat,
            calls,
            result,
        ),
{
}

/// Bytes that encode a text are decoded to it; any others are an error that says so.
pub proof fn law_decoding_undoes_encoding(token: Seq<char>, bytes: Seq<u8>)
    ensures
        tokens::decoded(utf8::encode_utf8(token)) == Ok::<Seq<char>, ErrorView>(token),
        utf8::valid_utf8(bytes) ==> tokens::decoded(bytes) is Ok && utf8::encode_utf8(
            tokens::decoded(bytes)->Ok_0,
        ) == bytes,
        !utf8::valid_utf8(bytes) ==> tokens::decoded(bytes) == Err::<Seq<char>, ErrorView>(
            ErrorView::KeyringError(
                "Stored token is not valid UTF-8: "@ + chunks::utf8_error_text(bytes),
            ),
        ),
{
    utf8::encode_utf8_valid_utf8(token);
    utf8::encode_utf8_decode_utf8(token);
    if utf8::valid_utf8(bytes) {
        utf8::decode_utf8_encode_utf8(bytes);
    }
}

/// How the errors for a token that is missing or incomplete are spelt.
pub proof fn law_missing_tokens_are_spelt(profile: Seq<char>, index: nat, count: nat)
    ensures
        tokens::no_token_error(profile) == ErrorView::KeyringError(
            "Failed to retrieve token: no stored token for profile `"@ + profile + seq!['`'],
        ),
        tokens::incomplete_error(index, count) == ErrorView::KeyringError(
            "Stored token is incomplete (chunk "@ + text::decimal(index) + seq![' ', 'o', 'f', ' ']
                + text::decimal(count) + " is missing). Run `teams auth login` again."@,
        ),
{
    reveal_strlit("`");
    reveal_strlit(" of ");
    assert("`"@ =~= seq!['`']);
    assert(" of "@ =~= seq![' ', 'o', 'f', ' ']);
}

/// Reading `count` chunks asks for one after the other. Each but the last was found; where the last
/// was found too all were asked for, and what they hold together is decoded. An error of the store
/// is returned, and a chunk that is not there is named.
pub proof fn law_read_call_by_call(
    profile: Seq<char>,
    count: nat,
    calls: Seq<Exchange>,
    found: Seq<Seq<u8>>,
    result: Result<Seq<char>, ErrorView>,
)
    requires
        tokens::read_chunks_run(profile, count, calls, result),
        found.len() == calls.len(),
        forall|k: int|
            0 <= k < calls.len() && calls[k] is GetSecret && calls[k]->GetSecret_reply is Ok
                && calls[k]->GetSecret_reply->Ok_0 is Some ==> (#[trigger] found[k])
                == calls[k]->GetSecret_reply->Ok_0->Some_0,
    ensures
        calls.len() <= count,
        forall|k: int|
            0 <= k < calls.len() ==> (#[trigger] calls[k]) is GetSecret && calls[k]->GetSecret_key
                == profile + ":token:"@ + text::decimal(k as nat),
        forall|k: int|
            0 <= k < calls.len() - 1 ==> (#[trigger] calls[k])->GetSecret_reply is Ok
                && calls[k]->GetSecret_reply->Ok_0 is Some,
        calls.len() > 0 && calls.last()->GetSecret_reply is Err ==> result == Err::<
            Seq<char>,
            ErrorView,
        >(calls.last()->GetSecret_reply->Err_0),
        calls.len() > 0 && calls.last()->GetSecret_reply == Ok::<Option<Seq<u8>>, ErrorView>(None)
            ==> result == Err::<Seq<char>, ErrorView>(
            tokens::incomplete_error((calls.len() - 1) as nat, count),
        ),
        calls.len() == 0 || (calls.last()->GetSecret_reply is Ok
            && calls.last()->GetSecret_reply->Ok_0 is Some) ==> calls.len() == count && result
            == tokens::decoded(chunks::concat(found)),
{
    let n = calls.len() as int;
    if n > 0 {
        assert(calls.last() == calls[n - 1]);
    }
    assert forall|k: int| 0 <= k < n - 1 implies (#[trigger] calls[k])->GetSecret_reply is Ok
        && calls[k]->GetSecret_reply->Ok_0 is Some by {
        assert(tokens::found_secret(calls[k]) is Some);
    }
    if n == 0 || (calls.last()->GetSecret_reply is Ok && calls.last()->GetSecret_reply->Ok_0
        is Some) {
        assert forall|k: int| 0 <= k < n implies tokens::found_secrets(calls)[k] == #[trigger] found[k] by {
            if k < n - 1 {
                assert(tokens::found_secret(calls[k]) is Some);
            }
        }
        assert(tokens::found_secrets(calls) =~= found);
    }
}

/// Loading a token looks at the primary entry. An error of the store is returned, and a missing
/// entry is one that names the profile. An entry that is no header is the token as it stands; for a
/// header as many chunks are read as it claims.
pub proof fn law_load_call_by_call(
    profile: Seq<char>,
    calls: Seq<Exchange>,
    result: Result<Seq<char>, ErrorView>,
)
    requires
        tokens::get_token_run(profile, calls, result),
    ensures
        calls.len() > 0,
        calls[0] is GetPassword,
        calls[0]->GetPassword_key == profile + ":token"@,
        calls[0]->GetPassword_reply is Err ==> calls.len() == 1 && result == Err::<
            Seq<char>,
            ErrorView,
        >(calls[0]->GetPassword_reply->Err_0),
        calls[0]->GetPassword_reply == Ok::<Option<Seq<char>>, ErrorView>(None) ==> calls.len() == 1
            && result == Err::<Seq<char>, ErrorView>(tokens::no_token_error(profile)),
        calls[0]->GetPassword_reply is Ok && calls[0]->GetPassword_reply->Ok_0 is Some ==> ({
            let primary = calls[0]->GetPassword_reply->Ok_0->Some_0;
            &&& header::header_chunks(primary) is None ==> calls.len() == 1 && result == Ok::<
                Seq<char>,
                ErrorView,
            >(primary)
            &&& header::header_chunks(primary) is Some ==> tokens::read_chunks_run(
                profile,
                header::header_chunks(primary)->Some_0 as nat,
                calls.skip(1),
                result,
            )
        }),
{
}

/// Deleting a token where none is kept in chunks is one call that deletes the primary entry. Where
/// they may be, the primary entry is looked at, the chunks are swept from the first on, to the count
/// recorded at least, and then the primary entry is deleted. Whether the entry was there makes no
/// difference. The first error of the store ends it and is returned.
pub proof fn law_delete_call_by_call(
    profile: Seq<char>,
    calls: Seq<Exchange>,
    result: Result<(), ErrorView>,
)
    ensures
        tokens::delete_token_run(profile, false, calls, result) ==> calls.len() == 1
            && calls[0] is Delete && calls[0]->Delete_key == profile + ":token"@ && (
            calls[0]->Delete_reply is Ok ==> result is Ok) && (calls[0]->Delete_reply is Err ==> result
                == Err::<(), ErrorView>(calls[0]->Delete_reply->Err_0)),
        tokens::delete_token_run(profile, true, calls, result) ==> ({
            &&& calls.len() > 0
            &&& calls[0] is GetPassword
            &&& calls[0]->GetPassword_key == profile + ":token"@
            &&& calls[0]->GetPassword_reply is Err ==> calls.len() == 1 && result == Err::<
                (),
                ErrorView,
            >(calls[0]->GetPassword_reply->Err_0)
            &&& calls[0]->GetPassword_reply is Ok ==> ({
                let recorded = tokens::recorded_chunks(calls[0]->GetPassword_reply->Ok_0) as nat;
                let rest = calls.skip(1);
                ||| result is Err && tokens::delete_chunks_run(profile, 0, recorded, rest, result)
                ||| rest.len() > 0 && tokens::delete_chunks_run(
                    profile,
                    0,
                    recorded,
                    rest.drop_last(),
                    Ok(()),
                ) && rest.last() is Delete && rest.last()->Delete_key == profile + ":token"@ && (
                rest.last()->Delete_reply is Ok ==> result is Ok) && (rest.last()->Delete_reply is Err ==> result
                    == Err::<(), ErrorView>(rest.last()->Delete_reply->Err_0))
            })
        }),
{
    if calls.len() > 1 {
        assert(calls.skip(1).last() == calls.last());
    }
}

/// A header in the primary entry of a faithful store, however it is written, is followed: where as
/// many chunks are there as it claims, what they hold together is decoded.
pub proof fn law_headers_are_followed(
    entries: Map<Seq<char>, model::Entry>,
    profile: Seq<char>,
    primary: Seq<char>,
    pieces: Seq<Seq<u8>>,
    calls: Seq<Exchange>,
    result: Result<Seq<char>, ErrorView>,
)
    requires
        entries.contains_key(profile + ":token"@),
        entries[profile + ":token"@] == model::Entry::Password(primary),
        header::header_chunks(primary) is Some,
        header::header_chunks(primary)->Some_0 == pieces.len(),
        forall|i: nat|
            i < pieces.len() ==> entries.contains_key(#[trigger] keys::chunk_key_of(profile, i))
                && entries[keys::chunk_key_of(profile, i)] == model::Entry::Secret(
                pieces[i as int],
            ),
        tokens::get_token_run(profile, calls, result),
        model::faithful(entries, calls),
    ensures
        result == tokens::decoded(chunks::concat(pieces)),
        utf8::valid_utf8(chunks::concat(pieces)) ==> result is Ok && utf8::encode_utf8(
            result->Ok_0,
        ) == chunks::concat(pieces),
{
    laws::lemma_first_look(entries, calls);
    laws::law_chunks_are_joined(entries, profile, pieces, calls.skip(1), result);
    law_decoding_undoes_encoding(primary, chunks::concat(pieces));
}

/// What a faithful store replies: it gives back what was written under a key, as what it was written
/// as; it tells of nothing where nothing was written; it accepts every write; and it tells whether
/// there was anything to delete.
pub proof fn law_faithful_replies(
    entries: Map<Seq<char>, model::Entry>,
    key: Seq<char>,
    text: Seq<char>,
    bytes: Seq<u8>,
)
    ensures
        model::answers(entries, Exchange::SetPassword { key, value: text, reply: Ok(()) }),
        model::answers(entries, Exchange::SetSecret { key, value: bytes, reply: Ok(()) }),
        model::answers(entries, Exchange::Delete { key, reply: Ok(entries.contains_key(key)) }),
        !entries.contains_key(key) ==> model::answers(
            entries,
            Exchange::GetPassword { key, reply: Ok(None) },
        ) && model::answers(entries, Exchange::GetSecret { key, reply: Ok(None) }),
        model::answers(
            entries.insert(key, model::Entry::Password(text)),
            Exchange::GetPassword { key, reply: Ok(Some(text)) },
        ),
        model::answers(
            entries.insert(key, model::Entry::Secret(bytes)),
            Exchange::GetSecret { key, reply: Ok(Some(bytes)) },
        ),
        model::replay(
            entries,
            seq![Exchange::SetPassword { key, value: text, reply: Ok(()) }],
        ) == entries.insert(key, model::Entry::Password(text)),
        model::replay(
            entries,
            seq![Exchange::SetSecret { key, value: bytes, reply: Ok(()) }],
        ) == entries.insert(key, model::Entry::Secret(bytes)),
        model::replay(entries, seq![Exchange::Delete { key, reply: Ok(true) }]) == entries.remove(
            key,
        ),
{
    reveal_with_fuel(model::replay, 2);
    let a = seq![Exchange::SetPassword { key, value: text, reply: Ok(()) }];
    let b = seq![Exchange::SetSecret { key, value: bytes, reply: Ok(()) }];
    let c = seq![Exchange::Delete { key, reply: Ok(true) }];
    assert(a.drop_last() =~= Seq::empty());
    assert(b.drop_last() =~= Seq::empty());
    assert(c.drop_last() =~= Seq::empty());
}

/// Calls one after the other have the effect of the first ones and then that of the others.
pub proof fn law_calls_take_effect_in_order(
    entries: Map<Seq<char>, model::Entry>,
    first: Seq<Exchange>,
    rest: Seq<Exchange>,
)
    ensures
        model::replay(entries, first + rest) == model::replay(model::replay(entries, first), rest),
{
    let all = first + rest;
    model::lemma_replay_split(entries, all, first.len() as int);
    assert(all.take(first.len() as int) =~= first);
    assert(all.skip(first.len() as int) =~= rest);
}

} // verus!
