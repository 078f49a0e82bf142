//! Keeping a token in a credential store, in one entry or in chunks.
//!
//! A token is handled as the JSON text that it is serialized to. What each operation asks of the
//! store, and what it makes of the replies, is stated by the `.._run` predicates over the calls
//! that the operation adds to the store's record.

use crate::chunks;
use crate::chunks::{split_bytes, text_from_utf8};
use crate::error;
use crate::error::{ErrorView, TeamsError};
use crate::header;
use crate::header::ChunkHeader;
use crate::keys;
use crate::keys::{chunk_key, entry_key};
use crate::secret_store;
use crate::secret_store::{Exchange, SecretStore};
use crate::text;
use crate::text::{decimal_text, joined};
use vstd::prelude::*;
use vstd::string::*;
use vstd::utf8;

verus! {

/// Whether a sweep that reached `index` with this call goes on to the next index: the call
/// succeeded, and it found an entry or the index is one that a header claimed. Past the largest
/// index there is none to go on to.
pub open spec fn sweep_goes_on(call: Exchange, index: nat, recorded: nat) -> bool {
    &&& call matches Exchange::Delete { reply: Ok(existed), .. }
    &&& existed || index < recorded
    &&& index < usize::MAX
}

/// A sweep of the chunks of a profile from `start` upwards: it asks to delete one chunk after the
/// other for as long as the sweep goes on. An error of the store ends it and is returned.
pub open spec fn delete_chunks_run(
    profile: Seq<char>,
    start: nat,
    recorded: nat,
    calls: Seq<Exchange>,
    result: Result<(), ErrorView>,
) -> bool {
    &&& calls.len() > 0
    &&& forall|k: int|
        0 <= k < calls.len() ==> (#[trigger] calls[k] matches Exchange::Delete { key, .. } && key
            == keys::chunk_key_of(profile, (start + k) as nat))
    &&& forall|k: int|
        0 <= k < calls.len() - 1 ==> sweep_goes_on(
            #[trigger] calls[k],
            (start + k) as nat,
            recorded,
        )
    &&& !sweep_goes_on(calls.last(), (start + calls.len() - 1) as nat, recorded)
    &&& result == match calls.last().failure() {
        Some(e) => Err::<(), ErrorView>(e),
        None => Ok::<(), ErrorView>(()),
    }
}

/// Deletes chunk entries from `start` upwards. Every index below `recorded` (the count a header
/// claimed) is attempted whether or not it exists, so a gap left by an earlier partial failure
/// cannot hide later chunks; beyond that the sweep continues until the first index that does not
/// exist, which also catches chunks no header ever described.
pub fn delete_chunks<S: SecretStore>(
    store: &mut S,
    profile: &str,
    start: usize,
    recorded: usize,
) -> (result: Result<(), TeamsError>)
    ensures
        secret_store::continues(old(store).history(), final(store).history()),
        delete_chunks_run(
            profile@,
            start as nat,
            recorded as nat,
            secret_store::since(old(store).history(), final(store).history()),
            error::outcome(result),
        ),
{
    let ghost before = store.history();
    let mut index: usize = start;
    loop
        invariant
            start <= index,
            secret_store::continues(before, store.history()),
            before == old(store).history(),
            secret_store::since(before, store.history()).len() == index - start,
            forall|k: int|
                0 <= k < index - start ==> (#[trigger] secret_store::since(
                    before,
                    store.history(),
                )[k] matches Exchange::Delete { key, .. } && key == keys::chunk_key_of(
                    profile@,
                    (start + k) as nat,
                )),
            forall|k: int|
                0 <= k < index - start ==> sweep_goes_on(
                    #[trigger] secret_store::since(before, store.history())[k],
                    (start + k) as nat,
                    recorded as nat,
                ),
        decreases usize::MAX - index,
    {
        let ghost mid = store.history();
        let key: String = chunk_key(profile, index);
        let deleted: Result<bool, TeamsError> = store.delete(key.as_str());
        proof {
            let ghost call = store.history().last();
            assert(secret_store::since(before, store.history()) =~= secret_store::since(
                before,
                mid,
            ).push(call));
        }
        match deleted {
            Ok(existed) => {
                if (!existed && index >= recorded) || index == usize::MAX {
                    return Ok(());
                }
            },
            Err(e) => {
                return Err(e);
            },
        }
        index += 1;
    }
}

/// The chunk count recorded in a primary entry, or zero when there is no entry or it holds a
/// single-entry token.
pub open spec fn recorded_chunks(primary: Option<Seq<char>>) -> usize {
    match primary {
        Some(text) => match header::header_chunks(text) {
            Some(chunks) => chunks,
            None => 0,
        },
        None => 0,
    }
}

/// One look at the primary entry of a profile, for the count recorded there.
pub open spec fn stored_chunk_count_run(
    profile: Seq<char>,
    calls: Seq<Exchange>,
    result: Result<usize, ErrorView>,
) -> bool {
    &&& calls.len() == 1
    &&& calls[0] matches Exchange::GetPassword { key, reply } && {
        &&& key == keys::entry_key_of(profile)
        &&& result == match reply {
            Ok(primary) => Ok::<usize, ErrorView>(recorded_chunks(primary)),
            Err(e) => Err::<usize, ErrorView>(e),
        }
    }
}

/// The chunk count recorded in the primary entry, or zero when there is no entry or it holds a
/// legacy single-entry token.
pub fn stored_chunk_count<S: SecretStore>(store: &mut S, profile: &str) -> (result: Result<
    usize,
    TeamsError,
>)
    ensures
        secret_store::continues(old(store).history(), final(store).history()),
        stored_chunk_count_run(
            profile@,
            secret_store::since(old(store).history(), final(store).history()),
            error::outcome(result),
        ),
{
    let key: String = entry_key(profile);
    match store.get_password(key.as_str()) {
        Ok(Some(primary)) => match ChunkHeader::parse(primary.as_str()) {
            Some(header) => Ok(header.chunks),
            None => Ok(0),
        },
        Ok(None) => Ok(0),
        Err(e) => Err(e),
    }
}

/// Writing the chunks of a token and then the header that counts them, and that reads as that
/// count, in this order. The first error of the store ends it.
pub open spec fn writes_in_order(
    profile: Seq<char>,
    pieces: Seq<Seq<u8>>,
    calls: Seq<Exchange>,
) -> bool {
    &&& calls.len() <= pieces.len() + 1
    &&& forall|i: int|
        0 <= i < pieces.len() && i < calls.len() ==> (#[trigger] calls[i] matches Exchange::SetSecret {
            key,
            value,
            ..
        } && key == keys::chunk_key_of(profile, i as nat) && value == pieces[i])
    &&& calls.len() == pieces.len() + 1 ==> (calls[pieces.len() as int] matches Exchange::SetPassword {
        key,
        value,
        ..
    } && key == keys::entry_key_of(profile) && value == header::header_text(pieces.len() as u64)
        && header::header_chunks(value) == Some(pieces.len() as usize))
    &&& forall|i: int| 0 <= i < calls.len() - 1 ==> (#[trigger] calls[i]).failure() is None
}

/// Storing a token in chunks: the count recorded so far is read, the chunks are written, the
/// header is published, and the chunks above the new count are swept. The first error of the
/// store ends it and is returned.
pub open spec fn store_chunked_run(
    profile: Seq<char>,
    bytes: Seq<u8>,
    size: nat,
    calls: Seq<Exchange>,
    result: Result<(), ErrorView>,
) -> bool {
    let pieces = chunks::split(bytes, size);
    &&& calls.len() > 0
    &&& calls[0] matches Exchange::GetPassword { key, reply } && {
        &&& key == keys::entry_key_of(profile)
        &&& match reply {
            Err(e) => calls.len() == 1 && result == Err::<(), ErrorView>(e),
            Ok(primary) => {
                let rest = calls.skip(1);
                if rest.len() <= pieces.len() + 1 {
                    &&& rest.len() > 0
                    &&& writes_in_order(profile, pieces, rest)
                    &&& rest.last().failure() matches Some(e) && result == Err::<(), ErrorView>(e)
                } else {
                    &&& writes_in_order(profile, pieces, rest.take(pieces.len() as int + 1))
                    &&& rest[pieces.len() as int].failure() is None
                    &&& delete_chunks_run(
                        profile,
                        pieces.len(),
                        recorded_chunks(primary) as nat,
                        rest.skip(pieces.len() as int + 1),
                        result,
                    )
                }
            },
        }
    }
}

/// Writes the new chunks, publishes the header, then removes chunks left over from a previous,
/// larger token.
///
/// A credential manager offers no transactions, so a write interrupted part-way (or two processes
/// refreshing at once) can leave the header describing a mixture of old and new chunks. That
/// state either fails to parse or yields a spliced token that the service rejects; in both cases
/// the next refresh or login rewrites every entry consistently. The scheme is self-healing rather
/// than atomic.
pub fn store_chunked<S: SecretStore>(
    store: &mut S,
    profile: &str,
    bytes: &[u8],
    size: usize,
) -> (result: Result<(), TeamsError>)
    requires
        size > 0,
    ensures
        secret_store::continues(old(store).history(), final(store).history()),
        store_chunked_run(
            profile@,
            bytes@,
            size as nat,
            secret_store::since(old(store).history(), final(store).history()),
            error::outcome(result),
        ),
{
    let ghost before = store.history();
    let ghost pieces = chunks::split(bytes@, size as nat);
    let previous: usize = match stored_chunk_count(store, profile) {
        Ok(count) => count,
        Err(e) => {
            return Err(e);
        },
    };
    let ghost asked = store.history();
    let ghost look = secret_store::since(before, asked)[0];
    assert(asked =~= before.push(look));
    let list: Vec<&[u8]> = split_bytes(bytes, size);
    assert(list@.len() == pieces.len());
    let mut index: usize = 0;
    while index < list.len()
        invariant
            index <= list@.len(),
            list@.len() == pieces.len(),
            chunks::pieces(list@) == pieces,
            pieces == chunks::split(bytes@, size as nat),
            before == old(store).history(),
            asked == before.push(look),
            stored_chunk_count_run(profile@, seq![look], Ok(previous)),
            secret_store::continues(asked, store.history()),
            secret_store::since(asked, store.history()).len() == index,
            writes_in_order(profile@, pieces, secret_store::since(asked, store.history())),
            forall|i: int|
                0 <= i < index ==> (#[trigger] secret_store::since(
                    asked,
                    store.history(),
                )[i]).failure() is None,
        decreases list@.len() - index,
    {
        let ghost mid = store.history();
        let key: String = chunk_key(profile, index);
        assert(pieces[index as int] == list@[index as int]@);
        let written: Result<(), TeamsError> = store.set_secret(key.as_str(), list[index]);
        proof {
            assert(secret_store::since(asked, store.history()) =~= secret_store::since(
                asked,
                mid,
            ).push(store.history().last()));
            assert(secret_store::since(before, store.history()).skip(1) =~= secret_store::since(
                asked,
                store.history(),
            ));
            assert(secret_store::since(before, store.history())[0] == look);
        }
        match written {
            Ok(()) => {},
            Err(e) => {
                return Err(e);
            },
        }
        index += 1;
    }
    let ghost written = store.history();
    let header: String = match (ChunkHeader { chunks: list.len() }).to_json() {
        Ok(text) => text,
        Err(e) => {
            return Err(e);
        },
    };
    let key: String = entry_key(profile);
    let published: Result<(), TeamsError> = store.set_password(key.as_str(), header.as_str());
    let ghost through = store.history();
    proof {
        assert(secret_store::since(asked, through) =~= secret_store::since(asked, written).push(
            through.last(),
        ));
        assert(secret_store::since(before, through).skip(1) =~= secret_store::since(
            asked,
            through,
        ));
        assert(secret_store::since(before, through)[0] == look);
        assert(writes_in_order(profile@, pieces, secret_store::since(asked, through)));
    }
    match published {
        Ok(()) => {},
        Err(e) => {
            return Err(e);
        },
    }
    let swept: Result<(), TeamsError> = delete_chunks(store, profile, list.len(), previous);
    proof {
        let calls = secret_store::since(before, store.history());
        assert(calls[0] == look);
        assert(calls.skip(1).skip(pieces.len() as int + 1) =~= secret_store::since(
            through,
            store.history(),
        ));
        assert(calls.skip(1).take(pieces.len() as int + 1) =~= secret_store::since(asked, through));
        assert(calls.skip(1)[pieces.len() as int] == secret_store::since(
            asked,
            through,
        )[pieces.len() as int]);
    }
    swept
}

/// Storing a token: in one entry where `chunk_bytes` is `None`, else in chunks of that size.
pub open spec fn store_token_run(
    profile: Seq<char>,
    token: Seq<char>,
    chunk_bytes: Option<usize>,
    calls: Seq<Exchange>,
    result: Result<(), ErrorView>,
) -> bool {
    match chunk_bytes {
        None => {
            &&& calls.len() == 1
            &&& calls[0] == (Exchange::SetPassword {
                key: keys::entry_key_of(profile),
                value: token,
                reply: result,
            })
        },
        Some(size) => store_chunked_run(
            profile,
            utf8::encode_utf8(token),
            size as nat,
            calls,
            result,
        ),
    }
}

/// Stores a serialized token under `profile`.
pub fn store_token_in<S: SecretStore>(
    store: &mut S,
    profile: &str,
    token: &str,
    chunk_bytes: Option<usize>,
) -> (result: Result<(), TeamsError>)
    requires
        chunk_bytes != Some(0usize),
    ensures
        secret_store::continues(old(store).history(), final(store).history()),
        store_token_run(
            profile@,
            token@,
            chunk_bytes,
            secret_store::since(old(store).history(), final(store).history()),
            error::outcome(result),
        ),
{
    match chunk_bytes {
        None => {
            let key: String = entry_key(profile);
            store.set_password(key.as_str(), token)
        },
        Some(size) => store_chunked(store, profile, token.as_bytes(), size),
    }
}

/// The error for a profile without a token.
pub open spec fn no_token_error(profile: Seq<char>) -> ErrorView {
    ErrorView::KeyringError(
        "Failed to retrieve token: no stored token for profile `"@ + profile + "`"@,
    )
}

/// The error for a token of which a chunk is gone.
pub open spec fn incomplete_error(index: nat, count: nat) -> ErrorView {
    ErrorView::KeyringError(
        "Stored token is incomplete (chunk "@ + text::decimal(index) + " of "@ + text::decimal(
            count,
        ) + " is missing). Run `teams auth login` again."@,
    )
}

/// The text that bytes encode, or the error for bytes that are not valid UTF-8.
pub open spec fn decoded(bytes: Seq<u8>) -> Result<Seq<char>, ErrorView> {
    if utf8::valid_utf8(bytes) {
        Ok(utf8::decode_utf8(bytes))
    } else {
        Err(
            ErrorView::KeyringError(
                "Stored token is not valid UTF-8: "@ + chunks::utf8_error_text(bytes),
            ),
        )
    }
}

/// The secret that a call came back with.
pub open spec fn found_secret(call: Exchange) -> Option<Seq<u8>> {
    match call {
        Exchange::GetSecret { reply: Ok(secret), .. } => secret,
        _ => None,
    }
}

/// The secrets that calls came back with, in order.
pub open spec fn found_secrets(calls: Seq<Exchange>) -> Seq<Seq<u8>> {
    calls.map_values(|call: Exchange| found_secret(call)->Some_0)
}

/// Reading the chunks of a token: one after the other up to `count`, put together and decoded.
/// The first chunk that is missing, or the first error of the store, ends it.
pub open spec fn read_chunks_run(
    profile: Seq<char>,
    count: nat,
    calls: Seq<Exchange>,
    result: Result<Seq<char>, ErrorView>,
) -> bool {
    &&& calls.len() <= count
    &&& forall|i: int|
        0 <= i < calls.len() ==> (#[trigger] calls[i] matches Exchange::GetSecret { key, .. } && key
            == keys::chunk_key_of(profile, i as nat))
    &&& forall|i: int| 0 <= i < calls.len() - 1 ==> found_secret(#[trigger] calls[i]) is Some
    &&& if calls.len() > 0 && found_secret(calls.last()) is None {
        result == match calls.last().failure() {
            Some(e) => Err::<Seq<char>, ErrorView>(e),
            None => Err::<Seq<char>, ErrorView>(
                incomplete_error((calls.len() - 1) as nat, count),
            ),
        }
    } else {
        calls.len() == count && result == decoded(chunks::concat(found_secrets(calls)))
    }
}

/// The error for a token of which a chunk is gone.
fn incomplete(index: usize, count: usize) -> (e: TeamsError)
    ensures
        e@ == incomplete_error(index as nat, count as nat),
{
    let mut message: String = "Stored token is incomplete (chunk ".to_owned();
    message.append(decimal_text(index as u128).as_str());
    message.append(" of ");
    message.append(decimal_text(count as u128).as_str());
    message.append(" is missing). Run `teams auth login` again.");
    TeamsError::KeyringError(message)
}

/// Reads `count` chunks and puts them together.
pub fn read_chunks<S: SecretStore>(store: &mut S, profile: &str, count: usize) -> (result: Result<
    String,
    TeamsError,
>)
    ensures
        secret_store::continues(old(store).history(), final(store).history()),
        read_chunks_run(
            profile@,
            count as nat,
            secret_store::since(old(store).history(), final(store).history()),
            error::text_outcome(result),
        ),
{
    let ghost before = store.history();
    let mut bytes: Vec<u8> = Vec::new();
    let mut index: usize = 0;
    while index < count
        invariant
            index <= count,
            before == old(store).history(),
            secret_store::continues(before, store.history()),
            secret_store::since(before, store.history()).len() == index,
            forall|i: int|
                0 <= i < index ==> (#[trigger] secret_store::since(
                    before,
                    store.history(),
                )[i] matches Exchange::GetSecret { key, .. } && key == keys::chunk_key_of(
                    profile@,
                    i as nat,
                )),
            forall|i: int|
                0 <= i < index ==> found_secret(
                    #[trigger] secret_store::since(before, store.history())[i],
                ) is Some,
            bytes@ == chunks::concat(found_secrets(secret_store::since(before, store.history()))),
        decreases count - index,
    {
        let ghost mid = store.history();
        let key: String = chunk_key(profile, index);
        let read: Result<Option<Vec<u8>>, TeamsError> = store.get_secret(key.as_str());
        let ghost calls = secret_store::since(before, store.history());
        assert(calls =~= secret_store::since(before, mid).push(store.history().last()));
        match read {
            Ok(Some(chunk)) => {
                bytes.extend_from_slice(chunk.as_slice());
                proof {
                    let found = found_secrets(calls);
                    assert(found.drop_last() =~= found_secrets(secret_store::since(before, mid)));
                    assert(found.last() == chunk@);
                    assert(bytes@ =~= chunks::concat(found));
                }
            },
            Ok(None) => {
                return Err(incomplete(index, count));
            },
            Err(e) => {
                return Err(e);
            },
        }
        index += 1;
    }
    match text_from_utf8(bytes) {
        Ok(text) => {
            proof {
                utf8::encode_utf8_decode_utf8(text@);
            }
            Ok(text)
        },
        Err(e) => Err(
            TeamsError::KeyringError(joined("Stored token is not valid UTF-8: ", e.as_str())),
        ),
    }
}

/// Loading a token: the primary entry holds it, or a header that says how many chunks do.
pub open spec fn get_token_run(
    profile: Seq<char>,
    calls: Seq<Exchange>,
    result: Result<Seq<char>, ErrorView>,
) -> bool {
    &&& calls.len() > 0
    &&& calls[0] matches Exchange::GetPassword { key, reply } && {
        &&& key == keys::entry_key_of(profile)
        &&& match reply {
            Err(e) => calls.len() == 1 && result == Err::<Seq<char>, ErrorView>(e),
            Ok(None) => calls.len() == 1 && result == Err::<Seq<char>, ErrorView>(
                no_token_error(profile),
            ),
            Ok(Some(primary)) => match header::header_chunks(primary) {
                None => calls.len() == 1 && result == Ok::<Seq<char>, ErrorView>(primary),
                Some(count) => read_chunks_run(profile, count as nat, calls.skip(1), result),
            },
        }
    }
}

/// Loads the serialized token stored under `profile`.
pub fn get_token_from<S: SecretStore>(store: &mut S, profile: &str) -> (result: Result<
    String,
    TeamsError,
>)
    ensures
        secret_store::continues(old(store).history(), final(store).history()),
        get_token_run(
            profile@,
            secret_store::since(old(store).history(), final(store).history()),
            error::text_outcome(result),
        ),
{
    let ghost before = store.history();
    let key: String = entry_key(profile);
    let primary: String = match store.get_password(key.as_str()) {
        Ok(Some(primary)) => primary,
        Ok(None) => {
            let mut message: String =
                "Failed to retrieve token: no stored token for profile `".to_owned();
            message.append(profile);
            message.append("`");
            return Err(TeamsError::KeyringError(message));
        },
        Err(e) => {
            return Err(e);
        },
    };
    let ghost asked = store.history();
    match ChunkHeader::parse(primary.as_str()) {
        Some(header) => {
            let result: Result<String, TeamsError> = read_chunks(store, profile, header.chunks);
            assert(secret_store::since(before, store.history()).skip(1) =~= secret_store::since(
                asked,
                store.history(),
            ));
            result
        },
        None => Ok(primary),
    }
}

/// Deleting a token: where tokens are kept in chunks, the chunks are swept first, so that a sweep
/// cut short can still learn from the header how many there are; then the primary entry goes. The
/// first error of the store ends it and is returned.
pub open spec fn delete_token_run(
    profile: Seq<char>,
    chunked: bool,
    calls: Seq<Exchange>,
    result: Result<(), ErrorView>,
) -> bool {
    if !chunked {
        calls.len() == 1 && deletes_entry(profile, calls[0], result)
    } else {
        &&& calls.len() > 0
        &&& calls[0] matches Exchange::GetPassword { key, reply } && {
            &&& key == keys::entry_key_of(profile)
            &&& match reply {
                Err(e) => calls.len() == 1 && result == Err::<(), ErrorView>(e),
                Ok(primary) => {
                    let recorded = recorded_chunks(primary) as nat;
                    ||| {
                        &&& result is Err
                        &&& delete_chunks_run(profile, 0, recorded, calls.skip(1), result)
                    }
                    ||| {
                        &&& calls.len() > 1
                        &&& delete_chunks_run(
                            profile,
                            0,
                            recorded,
                            calls.skip(1).drop_last(),
                            Ok(()),
                        )
                        &&& deletes_entry(profile, calls.last(), result)
                    }
                },
            }
        }
    }
}

/// One call that deletes the primary entry of a profile, whether or not it exists.
pub open spec fn deletes_entry(
    profile: Seq<char>,
    call: Exchange,
    result: Result<(), ErrorView>,
) -> bool {
    &&& call matches Exchange::Delete { key, reply } && {
        &&& key == keys::entry_key_of(profile)
        &&& result == match reply {
            Ok(_) => Ok::<(), ErrorView>(()),
            Err(e) => Err::<(), ErrorView>(e),
        }
    }
}

/// Deletes the token stored under `profile`; `chunked` says whether tokens may be kept in chunks.
pub fn delete_token_from<S: SecretStore>(store: &mut S, profile: &str, chunked: bool) -> (result:
    Result<(), TeamsError>)
    ensures
        secret_store::continues(old(store).history(), final(store).history()),
        delete_token_run(
            profile@,
            chunked,
            secret_store::since(old(store).history(), final(store).history()),
            error::outcome(result),
        ),
{
    let ghost before = store.history();
    if chunked {
        // Remove the chunks before the header, so that a sweep cut short by an error can still
        // learn how many chunks to expect when it is retried.
        let recorded: usize = match stored_chunk_count(store, profile) {
            Ok(count) => count,
            Err(e) => {
                return Err(e);
            },
        };
        let ghost asked = store.history();
        let swept: Result<(), TeamsError> = delete_chunks(store, profile, 0, recorded);
        assert(secret_store::since(before, store.history()).skip(1) =~= secret_store::since(
            asked,
            store.history(),
        ));
        assert(secret_store::since(before, store.history())[0] == secret_store::since(
            before,
            asked,
        )[0]);
        match swept {
            Ok(()) => {},
            Err(e) => {
                return Err(e);
            },
        }
    }
    let ghost mid = store.history();
    let key: String = entry_key(profile);
    let deleted: Result<bool, TeamsError> = store.delete(key.as_str());
    proof {
        let calls = secret_store::since(before, store.history());
        assert(calls =~= secret_store::since(before, mid).push(store.history().last()));
        if chunked {
            assert(calls.skip(1).drop_last() =~= secret_store::since(before, mid).skip(1));
        }
    }
    match deleted {
        Ok(_) => Ok(()),
        Err(e) => Err(e),
    }
}

} // verus!
