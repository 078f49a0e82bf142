//! What the operations amount to on a faithful store.

use crate::chunks;
use crate::error::ErrorView;
use crate::header;
use crate::keys;
use crate::model;
use crate::model::Entry;
use crate::profiles;
use crate::secret_store::Exchange;
use crate::tokens;
use vstd::prelude::*;
use vstd::utf8;

verus! {

/// Whether a key belongs to a profile: its primary entry, or one of its chunks.
pub open spec fn belongs_to(profile: Seq<char>, key: Seq<char>) -> bool {
    key == keys::entry_key_of(profile) || is_chunk_of(profile, key)
}

/// Whether a key is that of a chunk of a profile.
pub open spec fn is_chunk_of(profile: Seq<char>, key: Seq<char>) -> bool {
    exists|i: nat| key == #[trigger] keys::chunk_key_of(profile, i)
}

/// Whether the primary entry of a profile, if there is one, was written as a password.
pub open spec fn readable(entries: Map<Seq<char>, Entry>, profile: Seq<char>) -> bool {
    let key = keys::entry_key_of(profile);
    entries.contains_key(key) ==> entries[key] is Password
}

/// The chunk count that the primary entry of a profile records.
pub open spec fn recorded_in(entries: Map<Seq<char>, Entry>, profile: Seq<char>) -> nat {
    let key = keys::entry_key_of(profile);
    if entries.contains_key(key) {
        match entries[key] {
            Entry::Password(value) => tokens::recorded_chunks(Some(value)) as nat,
            Entry::Secret(_) => 0,
        }
    } else {
        0
    }
}

/// Whether a sweep from `start` reaches chunk `i`: the count recorded covers it, or the chunks
/// from there on lead up to it without a gap.
pub open spec fn in_sweep(
    entries: Map<Seq<char>, Entry>,
    profile: Seq<char>,
    start: nat,
    recorded: nat,
    i: nat,
) -> bool {
    &&& start <= i <= usize::MAX
    &&& i < recorded || forall|j: nat|
        start <= j <= i && recorded <= j ==> entries.contains_key(
            #[trigger] keys::chunk_key_of(profile, j),
        )
}

/// The entries part of the way through a sweep: the chunks swept so far are gone, all else is as
/// it was.
proof fn lemma_sweep_prefix(
    entries: Map<Seq<char>, Entry>,
    profile: Seq<char>,
    start: nat,
    recorded: nat,
    calls: Seq<Exchange>,
    result: Result<(), ErrorView>,
    k: int,
)
    requires
        tokens::delete_chunks_run(profile, start, recorded, calls, result),
        0 <= k <= calls.len(),
    ensures
        forall|i: nat|
            start <= i < start + k ==> !model::replay(entries, calls.take(k)).contains_key(
                #[trigger] keys::chunk_key_of(profile, i),
            ),
        forall|key: Seq<char>|
            (forall|i: nat| start <= i < start + k ==> key != keys::chunk_key_of(profile, i))
                ==> #[trigger] model::same_at(
                model::replay(entries, calls.take(k)),
                entries,
                key,
            ),
    decreases k,
{
    if k > 0 {
        lemma_sweep_prefix(entries, profile, start, recorded, calls, result, k - 1);
        model::lemma_replay_step(entries, calls, k - 1);
        let last = keys::chunk_key_of(profile, (start + k - 1) as nat);
        let before = model::replay(entries, calls.take(k - 1));
        assert(model::replay(entries, calls.take(k)) == before.remove(last));
        assert forall|key: Seq<char>|
            (forall|i: nat| start <= i < start + k ==> key != keys::chunk_key_of(
                profile,
                i,
            )) implies #[trigger] model::same_at(
            model::replay(entries, calls.take(k)),
            entries,
            key,
        ) by {
            assert(model::same_at(before, entries, key));
        }
    } else {
        assert(calls.take(0) =~= Seq::empty());
    }
}

/// A sweep of a faithful store succeeds. Of the chunks from `start` on it removes those within its
/// reach, that is every one that the recorded count covers, whatever gaps there are, and those that
/// follow up to the first gap; all others stay. It touches nothing but chunks of the profile from
/// `start` on.
pub proof fn law_sweep(
    entries: Map<Seq<char>, Entry>,
    profile: Seq<char>,
    start: nat,
    recorded: nat,
    calls: Seq<Exchange>,
    result: Result<(), ErrorView>,
)
    requires
        start <= usize::MAX,
        tokens::delete_chunks_run(profile, start, recorded, calls, result),
        model::faithful(entries, calls),
    ensures
        result is Ok,
        forall|i: nat|
            in_sweep(entries, profile, start, recorded, i) ==> !model::replay(
                entries,
                calls,
            ).contains_key(#[trigger] keys::chunk_key_of(profile, i)),
        forall|i: nat|
            !in_sweep(entries, profile, start, recorded, i) ==> model::same_at(
                model::replay(entries, calls),
                entries,
                #[trigger] keys::chunk_key_of(profile, i),
            ),
        forall|key: Seq<char>|
            (forall|i: nat| start <= i ==> key != keys::chunk_key_of(profile, i))
                ==> #[trigger] model::same_at(model::replay(entries, calls), entries, key),
{
    let now = model::replay(entries, calls);
    let n = calls.len() as int;
    let top = (start + n - 1) as nat;
    assert(calls.take(n) =~= calls);
    lemma_sweep_prefix(entries, profile, start, recorded, calls, result, n);
    lemma_sweep_finds(entries, profile, start, recorded, calls, result, n - 1);
    assert(calls.last() == calls[n - 1]);
    assert(top <= usize::MAX) by {
        if n > 1 {
            assert(tokens::sweep_goes_on(calls[n - 2], (start + (n - 2)) as nat, recorded));
        }
    }
    assert forall|i: nat| in_sweep(entries, profile, start, recorded, i) implies !now.contains_key(
        #[trigger] keys::chunk_key_of(profile, i),
    ) by {
        if i > top {
            assert(!entries.contains_key(keys::chunk_key_of(profile, top)));
            assert(recorded <= top);
            assert(false);
        }
    }
    assert forall|i: nat| !in_sweep(entries, profile, start, recorded, i) implies model::same_at(
        now,
        entries,
        #[trigger] keys::chunk_key_of(profile, i),
    ) by {
        let key = keys::chunk_key_of(profile, i);
        if start <= i <= top {
            let j = choose|j: nat|
                start <= j <= i && recorded <= j && !entries.contains_key(
                    #[trigger] keys::chunk_key_of(profile, j),
                );
            lemma_sweep_finds(entries, profile, start, recorded, calls, result, j - start);
            if j < top {
                assert(tokens::sweep_goes_on(
                    calls[j - start],
                    (start + (j - start)) as nat,
                    recorded,
                ));
            }
            assert(j == i);
        } else {
            assert forall|j: nat| start <= j < start + n implies key != keys::chunk_key_of(
                profile,
                j,
            ) by {
                if key == keys::chunk_key_of(profile, j) {
                    keys::law_chunk_keys_are_distinct(profile, i, profile, j);
                }
            }
        }
    }
}

/// What a sweep of a faithful store finds at one index: what was there before the sweep.
proof fn lemma_sweep_finds(
    entries: Map<Seq<char>, Entry>,
    profile: Seq<char>,
    start: nat,
    recorded: nat,
    calls: Seq<Exchange>,
    result: Result<(), ErrorView>,
    k: int,
)
    requires
        tokens::delete_chunks_run(profile, start, recorded, calls, result),
        model::faithful(entries, calls),
        0 <= k < calls.len(),
    ensures
        calls[k] matches Exchange::Delete { reply: Ok(existed), .. } && existed
            == entries.contains_key(keys::chunk_key_of(profile, (start + k) as nat)),
{
    let index = (start + k) as nat;
    let key = keys::chunk_key_of(profile, index);
    let before = model::replay(entries, calls.take(k));
    lemma_sweep_prefix(entries, profile, start, recorded, calls, result, k);
    assert(model::answers(before, calls[k]));
    assert forall|i: nat| start <= i < start + k implies key != keys::chunk_key_of(profile, i) by {
        if key == keys::chunk_key_of(profile, i) {
            keys::law_chunk_keys_are_distinct(profile, index, profile, i);
        }
    }
    assert(model::same_at(before, entries, key));
}

/// A sweep of a faithful store ends at `stop`, the first missing chunk that neither `start` nor the
/// recorded count is past, or the largest index if there is no such chunk before it. It asks for
/// each chunk from `start` to there once, and the chunks above stay.
pub proof fn law_sweep_ends_at_the_first_gap(
    entries: Map<Seq<char>, Entry>,
    profile: Seq<char>,
    start: nat,
    recorded: nat,
    stop: nat,
    calls: Seq<Exchange>,
    result: Result<(), ErrorView>,
)
    requires
        start <= stop <= usize::MAX,
        recorded <= stop,
        stop == usize::MAX || !entries.contains_key(keys::chunk_key_of(profile, stop)),
        forall|i: nat|
            start <= i < stop && recorded <= i ==> entries.contains_key(
                #[trigger] keys::chunk_key_of(profile, i),
            ),
        tokens::delete_chunks_run(profile, start, recorded, calls, result),
        model::faithful(entries, calls),
    ensures
        result is Ok,
        calls.len() == stop - start + 1,
        forall|i: nat|
            start <= i <= stop ==> !model::replay(entries, calls).contains_key(
                #[trigger] keys::chunk_key_of(profile, i),
            ),
        forall|i: nat|
            i < start || stop < i ==> model::same_at(
                model::replay(entries, calls),
                entries,
                #[trigger] keys::chunk_key_of(profile, i),
            ),
{
    let n = calls.len() as int;
    law_sweep(entries, profile, start, recorded, calls, result);
    if n - 1 < stop - start {
        lemma_sweep_finds(entries, profile, start, recorded, calls, result, n - 1);
        assert(calls.last() == calls[n - 1]);
        assert(tokens::sweep_goes_on(calls.last(), (start + n - 1) as nat, recorded));
    }
    if n - 1 > stop - start {
        let k = stop - start;
        lemma_sweep_finds(entries, profile, start, recorded, calls, result, k);
        assert(tokens::sweep_goes_on(calls[k], (start + k) as nat, recorded));
    }
    assert(calls.take(n) =~= calls);
    lemma_sweep_prefix(entries, profile, start, recorded, calls, result, n);
    assert forall|i: nat| i < start || stop < i implies model::same_at(
        model::replay(entries, calls),
        entries,
        #[trigger] keys::chunk_key_of(profile, i),
    ) by {
        let key = keys::chunk_key_of(profile, i);
        assert forall|j: nat| start <= j < start + n implies key != keys::chunk_key_of(
            profile,
            j,
        ) by {
            if key == keys::chunk_key_of(profile, j) {
                keys::law_chunk_keys_are_distinct(profile, i, profile, j);
            }
        }
    }
}

/// The entries part of the way through writing the chunks: those written so far are there, all
/// else is as it was.
proof fn lemma_writes_prefix(
    entries: Map<Seq<char>, Entry>,
    profile: Seq<char>,
    pieces: Seq<Seq<u8>>,
    calls: Seq<Exchange>,
    k: int,
)
    requires
        tokens::writes_in_order(profile, pieces, calls),
        0 <= k <= calls.len(),
        k <= pieces.len(),
    ensures
        forall|i: nat|
            i < k ==> model::replay(entries, calls.take(k)).contains_key(
                #[trigger] keys::chunk_key_of(profile, i),
            ) && model::replay(entries, calls.take(k))[keys::chunk_key_of(profile, i)]
                == Entry::Secret(pieces[i as int]),
        forall|key: Seq<char>|
            (forall|i: nat| i < k ==> key != keys::chunk_key_of(profile, i))
                ==> #[trigger] model::same_at(
                model::replay(entries, calls.take(k)),
                entries,
                key,
            ),
    decreases k,
{
    let now = model::replay(entries, calls.take(k));
    if k > 0 {
        lemma_writes_prefix(entries, profile, pieces, calls, k - 1);
        model::lemma_replay_step(entries, calls, k - 1);
        let last = keys::chunk_key_of(profile, (k - 1) as nat);
        let before = model::replay(entries, calls.take(k - 1));
        assert(now == before.insert(last, Entry::Secret(pieces[k - 1])));
        assert forall|i: nat| i < k implies now.contains_key(
            #[trigger] keys::chunk_key_of(profile, i),
        ) && now[keys::chunk_key_of(profile, i)] == Entry::Secret(pieces[i as int]) by {
            if i < k - 1 && keys::chunk_key_of(profile, i) == last {
                keys::law_chunk_keys_are_distinct(profile, i, profile, (k - 1) as nat);
            }
        }
        assert forall|key: Seq<char>|
            (forall|i: nat| i < k ==> key != keys::chunk_key_of(
                profile,
                i,
            )) implies #[trigger] model::same_at(now, entries, key) by {
            assert(key != keys::chunk_key_of(profile, (k - 1) as nat));
            assert(model::same_at(before, entries, key));
        }
    } else {
        assert(calls.take(0) =~= Seq::empty());
    }
}

/// There are no more pieces than bytes.
pub proof fn lemma_no_more_pieces_than_bytes(bytes: Seq<u8>, size: nat)
    ensures
        chunks::split(bytes, size).len() <= bytes.len(),
    decreases bytes.len(),
{
    if bytes.len() > size && size > 0 {
        lemma_no_more_pieces_than_bytes(bytes.skip(size as int), size);
    }
}

/// What storing bytes in chunks leaves in a faithful store, whatever was there before: the chunks,
/// consecutive bytes each under its own key; a header that reads as their number; of the older
/// chunks above them, those alone that are not within the reach of the sweep; and all keys that are
/// not of the profile as they were. It succeeds unless the primary entry was written as a secret.
pub proof fn law_store_chunked(
    entries: Map<Seq<char>, Entry>,
    profile: Seq<char>,
    bytes: Seq<u8>,
    size: nat,
    calls: Seq<Exchange>,
    result: Result<(), ErrorView>,
)
    requires
        size > 0,
        bytes.len() <= usize::MAX,
        tokens::store_chunked_run(profile, bytes, size, calls, result),
        model::faithful(entries, calls),
    ensures
        readable(entries, profile) ==> result is Ok,
        result is Ok ==> ({
            let now = model::replay(entries, calls);
            let count = chunks::split(bytes, size).len();
            let primary = keys::entry_key_of(profile);
            &&& now.contains_key(primary)
            &&& now[primary] == Entry::Password(header::header_text(count as u64))
            &&& header::header_chunks(header::header_text(count as u64)) == Some(count as usize)
            &&& forall|i: nat|
                i < count ==> now.contains_key(#[trigger] keys::chunk_key_of(profile, i))
                    && now[keys::chunk_key_of(profile, i)] == Entry::Secret(
                    chunks::piece_at(bytes, size as int, i as int),
                )
            &&& readable(entries, profile) ==> forall|i: nat|
                count <= i ==> if in_sweep(
                    entries,
                    profile,
                    count,
                    recorded_in(entries, profile),
                    i,
                ) {
                    !now.contains_key(#[trigger] keys::chunk_key_of(profile, i))
                } else {
                    model::same_at(now, entries, keys::chunk_key_of(profile, i))
                }
            &&& forall|key: Seq<char>|
                !belongs_to(profile, key) ==> #[trigger] model::same_at(now, entries, key)
        }),
{
    let pieces = chunks::split(bytes, size);
    let n = pieces.len() as int;
    let primary = keys::entry_key_of(profile);
    let now = model::replay(entries, calls);
    let rest = calls.skip(1);
    lemma_first_look(entries, calls);
    lemma_no_more_pieces_than_bytes(bytes, size);
    assert(calls[0].failure() is Some ==> !readable(entries, profile));
    if calls[0].failure() is None {
        if rest.len() <= n + 1 {
            let e = rest.len() - 1;
            assert(model::answers(model::replay(entries, rest.take(e)), rest[e]));
            assert(rest.last() == rest[e]);
            assert(false);
        }
        let writes = rest.take(n + 1);
        let sweep = rest.skip(n + 1);
        model::lemma_replay_split(entries, rest, n + 1);
        let written = model::replay(entries, writes);
        lemma_writes_prefix(entries, profile, pieces, writes, n);
        model::lemma_replay_step(entries, writes, n);
        assert(writes.take(n + 1) =~= writes);
        let filled = model::replay(entries, writes.take(n));
        assert(written == filled.insert(
            primary,
            Entry::Password(header::header_text(pieces.len() as u64)),
        ));
        let recorded = tokens::recorded_chunks(calls[0]->GetPassword_reply->Ok_0) as nat;
        law_sweep(written, profile, pieces.len(), recorded, sweep, result);
        assert(now == model::replay(written, sweep));
        assert forall|i: nat| keys::chunk_key_of(profile, i) != primary by {
            keys::law_chunk_key_is_no_entry_key(profile, i, profile);
        }
        assert(model::same_at(now, written, primary));
        assert forall|i: nat| i < pieces.len() implies now.contains_key(
            #[trigger] keys::chunk_key_of(profile, i),
        ) && now[keys::chunk_key_of(profile, i)] == Entry::Secret(
            chunks::piece_at(bytes, size as int, i as int),
        ) by {
            assert(!in_sweep(written, profile, pieces.len(), recorded, i));
            assert(model::same_at(now, written, keys::chunk_key_of(profile, i)));
            chunks::law_pieces_are_consecutive(bytes, size, i as int);
        }
        assert forall|i: nat| pieces.len() <= i implies model::same_at(
            written,
            entries,
            #[trigger] keys::chunk_key_of(profile, i),
        ) by {
            let key = keys::chunk_key_of(profile, i);
            assert forall|j: nat| j < n implies key != keys::chunk_key_of(profile, j) by {
                if key == keys::chunk_key_of(profile, j) {
                    keys::law_chunk_keys_are_distinct(profile, i, profile, j);
                }
            }
            assert(model::same_at(filled, entries, key));
        }
        if readable(entries, profile) {
            assert(recorded == recorded_in(entries, profile));
            assert forall|i: nat| pieces.len() <= i implies if in_sweep(
                entries,
                profile,
                pieces.len(),
                recorded,
                i,
            ) {
                !now.contains_key(#[trigger] keys::chunk_key_of(profile, i))
            } else {
                model::same_at(now, entries, keys::chunk_key_of(profile, i))
            } by {
                lemma_same_reach(written, entries, profile, pieces.len(), recorded, i);
                assert(model::same_at(written, entries, keys::chunk_key_of(profile, i)));
            }
        }
        assert forall|key: Seq<char>| !belongs_to(profile, key) implies #[trigger] model::same_at(
            now,
            entries,
            key,
        ) by {
            assert forall|i: nat| key != keys::chunk_key_of(profile, i) by {
                if key == keys::chunk_key_of(profile, i) {
                    assert(is_chunk_of(profile, key));
                }
            }
            assert(model::same_at(filled, entries, key));
            assert(model::same_at(now, written, key));
        }
    }
}

/// The reach of a sweep depends on the chunks from its start on alone.
proof fn lemma_same_reach(
    a: Map<Seq<char>, Entry>,
    b: Map<Seq<char>, Entry>,
    profile: Seq<char>,
    start: nat,
    recorded: nat,
    i: nat,
)
    requires
        forall|j: nat|
            start <= j ==> model::same_at(a, b, #[trigger] keys::chunk_key_of(profile, j)),
    ensures
        in_sweep(a, profile, start, recorded, i) == in_sweep(b, profile, start, recorded, i),
{
    if in_sweep(a, profile, start, recorded, i) {
        assert forall|j: nat| start <= j <= i && recorded <= j && recorded <= i implies b.contains_key(
            #[trigger] keys::chunk_key_of(profile, j),
        ) by {
            assert(model::same_at(a, b, keys::chunk_key_of(profile, j)));
        }
    }
    if in_sweep(b, profile, start, recorded, i) {
        assert forall|j: nat| start <= j <= i && recorded <= j && recorded <= i implies a.contains_key(
            #[trigger] keys::chunk_key_of(profile, j),
        ) by {
            assert(model::same_at(a, b, keys::chunk_key_of(profile, j)));
        }
    }
}

/// Reading the chunks of a token from a faithful store that holds them all gives the text that they
/// encode together, wherever the cuts fall in its characters, or the error for bytes that encode
/// none. Chunks beyond the count make no difference.
pub proof fn law_chunks_are_joined(
    entries: Map<Seq<char>, Entry>,
    profile: Seq<char>,
    pieces: Seq<Seq<u8>>,
    calls: Seq<Exchange>,
    result: Result<Seq<char>, ErrorView>,
)
    requires
        tokens::read_chunks_run(profile, pieces.len(), calls, result),
        model::faithful(entries, calls),
        forall|i: nat|
            i < pieces.len() ==> entries.contains_key(#[trigger] keys::chunk_key_of(profile, i))
                && entries[keys::chunk_key_of(profile, i)] == Entry::Secret(pieces[i as int]),
    ensures
        result == tokens::decoded(chunks::concat(pieces)),
{
    assert forall|k: int| 0 <= k < calls.len() implies tokens::found_secret(#[trigger] calls[k])
        == Some(pieces[k]) by {
        lemma_reads_change_nothing(entries, profile, pieces.len(), calls, result, k);
        assert(model::answers(model::replay(entries, calls.take(k)), calls[k]));
        assert(entries.contains_key(keys::chunk_key_of(profile, k as nat)));
    }
    if calls.len() > 0 {
        assert(calls.last() == calls[calls.len() - 1]);
    }
    assert(tokens::found_secrets(calls) =~= pieces);
}

/// Reading the chunks of a token from a faithful store where one is missing is an error that names
/// the least missing index and the count.
pub proof fn law_first_missing_chunk_is_named(
    entries: Map<Seq<char>, Entry>,
    profile: Seq<char>,
    count: nat,
    missing: nat,
    calls: Seq<Exchange>,
    result: Result<Seq<char>, ErrorView>,
)
    requires
        missing < count,
        !entries.contains_key(keys::chunk_key_of(profile, missing)),
        forall|i: nat|
            i < missing ==> entries.contains_key(#[trigger] keys::chunk_key_of(profile, i)),
        tokens::read_chunks_run(profile, count, calls, result),
        model::faithful(entries, calls),
    ensures
        result == Err::<Seq<char>, ErrorView>(tokens::incomplete_error(missing, count)),
{
    let n = calls.len() as int;
    if n > missing + 1 {
        lemma_read_finds(entries, profile, count, calls, result, missing as int);
        assert(tokens::found_secret(calls[missing as int]) is Some);
    }
    if n > 0 {
        lemma_read_finds(entries, profile, count, calls, result, n - 1);
        assert(calls.last() == calls[n - 1]);
    }
    assert(n - 1 == missing);
}

/// Loading a token leaves a store as it is.
pub proof fn law_loading_changes_nothing(
    entries: Map<Seq<char>, Entry>,
    profile: Seq<char>,
    calls: Seq<Exchange>,
    result: Result<Seq<char>, ErrorView>,
)
    requires
        tokens::get_token_run(profile, calls, result),
    ensures
        model::replay(entries, calls) == entries,
{
    lemma_replay_after_look(entries, calls);
    let rest = calls.skip(1);
    if rest.len() > 0 {
        let primary = calls[0]->GetPassword_reply->Ok_0->Some_0;
        let count = header::header_chunks(primary)->Some_0 as nat;
        lemma_reads_change_nothing(entries, profile, count, rest, result, rest.len() as int);
        assert(rest.take(rest.len() as int) =~= rest);
    }
}

/// Reading the chunks of a token leaves a store as it is.
proof fn lemma_reads_change_nothing(
    entries: Map<Seq<char>, Entry>,
    profile: Seq<char>,
    count: nat,
    calls: Seq<Exchange>,
    result: Result<Seq<char>, ErrorView>,
    k: int,
)
    requires
        tokens::read_chunks_run(profile, count, calls, result),
        0 <= k <= calls.len(),
    ensures
        model::replay(entries, calls.take(k)) == entries,
    decreases k,
{
    if k > 0 {
        lemma_reads_change_nothing(entries, profile, count, calls, result, k - 1);
        model::lemma_replay_step(entries, calls, k - 1);
    } else {
        assert(calls.take(0) =~= Seq::empty());
    }
}

/// A token stored in chunks comes back unchanged, whatever was in the store before, whatever the
/// size of the chunks, and wherever the cuts fall in its characters. Since the store may be in
/// any state at first, a completed write also repairs what an interrupted one left behind.
pub proof fn law_chunked_token_round_trips(
    entries: Map<Seq<char>, Entry>,
    profile: Seq<char>,
    token: Seq<char>,
    size: usize,
    write: Seq<Exchange>,
    stored: Result<(), ErrorView>,
    read: Seq<Exchange>,
    loaded: Result<Seq<char>, ErrorView>,
)
    requires
        size > 0,
        utf8::encode_utf8(token).len() <= usize::MAX,
        tokens::store_token_run(profile, token, Some(size), write, stored),
        model::faithful(entries, write),
        tokens::get_token_run(profile, read, loaded),
        model::faithful(model::replay(entries, write), read),
    ensures
        readable(entries, profile) ==> stored is Ok,
        stored is Ok ==> loaded == Ok::<Seq<char>, ErrorView>(token),
{
    law_store_chunked(entries, profile, utf8::encode_utf8(token), size as nat, write, stored);
    if stored is Ok {
        let bytes = utf8::encode_utf8(token);
        let pieces = chunks::split(bytes, size as nat);
        let now = model::replay(entries, write);
        lemma_no_more_pieces_than_bytes(bytes, size as nat);
        lemma_first_look(now, read);
        assert forall|i: nat| i < pieces.len() implies now.contains_key(
            #[trigger] keys::chunk_key_of(profile, i),
        ) && now[keys::chunk_key_of(profile, i)] == Entry::Secret(pieces[i as int]) by {
            chunks::law_pieces_are_consecutive(bytes, size as nat, i as int);
        }
        law_chunks_are_joined(now, profile, pieces, read.skip(1), loaded);
        chunks::law_split_then_concat(bytes, size as nat);
        utf8::encode_utf8_valid_utf8(token);
        utf8::encode_utf8_decode_utf8(token);
    }
}

/// The first call of an operation finds the store as it is, and a look at a password leaves it so.
pub proof fn lemma_first_look(entries: Map<Seq<char>, Entry>, calls: Seq<Exchange>)
    requires
        calls.len() > 0,
        calls[0] is GetPassword,
        model::faithful(entries, calls),
    ensures
        model::answers(entries, calls[0]),
        model::replay(entries, calls) == model::replay(entries, calls.skip(1)),
        model::faithful(entries, calls.skip(1)),
{
    model::lemma_replay_split(entries, calls, 1);
    model::lemma_replay_step(entries, calls, 0);
    assert(calls.take(0) =~= Seq::empty());
}

/// A token that stands in the primary entry itself is loaded as it stands, however it got there,
/// unless it reads as a header; no text with several colons does, and so none of an object with
/// several fields.
pub proof fn law_single_entry_is_readable(
    entries: Map<Seq<char>, Entry>,
    profile: Seq<char>,
    token: Seq<char>,
    read: Seq<Exchange>,
    loaded: Result<Seq<char>, ErrorView>,
)
    requires
        entries.contains_key(keys::entry_key_of(profile)),
        entries[keys::entry_key_of(profile)] == Entry::Password(token),
        tokens::get_token_run(profile, read, loaded),
        model::faithful(entries, read),
    ensures
        header::header_chunks(token) is None ==> loaded == Ok::<Seq<char>, ErrorView>(token),
        header::occurs_again(token, ':') ==> loaded == Ok::<Seq<char>, ErrorView>(token),
{
    lemma_first_look(entries, read);
    if header::occurs_again(token, ':') {
        header::law_several_colons_are_no_header(token);
    }
}

/// A token stored in one entry comes back unchanged, unless it reads as a header; no text with
/// several colons does, and so none of an object with several fields. Nothing else in the store
/// changes.
pub proof fn law_single_entry_round_trips(
    entries: Map<Seq<char>, Entry>,
    profile: Seq<char>,
    token: Seq<char>,
    write: Seq<Exchange>,
    stored: Result<(), ErrorView>,
    read: Seq<Exchange>,
    loaded: Result<Seq<char>, ErrorView>,
)
    requires
        tokens::store_token_run(profile, token, None, write, stored),
        model::faithful(entries, write),
        tokens::get_token_run(profile, read, loaded),
        model::faithful(model::replay(entries, write), read),
    ensures
        stored is Ok,
        model::replay(entries, write) == entries.insert(
            keys::entry_key_of(profile),
            Entry::Password(token),
        ),
        header::header_chunks(token) is None ==> loaded == Ok::<Seq<char>, ErrorView>(token),
        header::occurs_again(token, ':') ==> loaded == Ok::<Seq<char>, ErrorView>(token),
{
    assert(write.take(0) =~= Seq::empty());
    assert(write.drop_last() =~= Seq::empty());
    assert(write.last() == write[0]);
    assert(model::answers(model::replay(entries, write.take(0)), write[0]));
    law_single_entry_is_readable(
        model::replay(entries, write),
        profile,
        token,
        read,
        loaded,
    );
}

/// A profile without a primary entry has no token: loading it is an error that names the profile.
pub proof fn law_no_primary_entry_no_token(
    entries: Map<Seq<char>, Entry>,
    profile: Seq<char>,
    read: Seq<Exchange>,
    loaded: Result<Seq<char>, ErrorView>,
)
    requires
        !entries.contains_key(keys::entry_key_of(profile)),
        tokens::get_token_run(profile, read, loaded),
        model::faithful(entries, read),
    ensures
        loaded == Err::<Seq<char>, ErrorView>(tokens::no_token_error(profile)),
{
    lemma_first_look(entries, read);
}

/// A token of which a chunk is missing is reported as incomplete, with the first chunk that is
/// missing and the count that the header claims.
pub proof fn law_missing_chunk_is_reported(
    entries: Map<Seq<char>, Entry>,
    profile: Seq<char>,
    primary: Seq<char>,
    missing: nat,
    read: Seq<Exchange>,
    loaded: Result<Seq<char>, ErrorView>,
)
    requires
        entries.contains_key(keys::entry_key_of(profile)),
        entries[keys::entry_key_of(profile)] == Entry::Password(primary),
        !entries.contains_key(keys::chunk_key_of(profile, missing)),
        forall|i: nat|
            i < missing ==> entries.contains_key(#[trigger] keys::chunk_key_of(profile, i)),
        tokens::get_token_run(profile, read, loaded),
        model::faithful(entries, read),
    ensures
        header::header_chunks(primary) matches Some(count) ==> missing < count ==> loaded == Err::<
            Seq<char>,
            ErrorView,
        >(tokens::incomplete_error(missing, count as nat)),
{
    lemma_first_look(entries, read);
    if let Some(count) = header::header_chunks(primary) {
        if missing < count {
            law_first_missing_chunk_is_named(
                entries,
                profile,
                count as nat,
                missing,
                read.skip(1),
                loaded,
            );
        }
    }
}

/// What one read of a chunk finds in a faithful store: what is there.
proof fn lemma_read_finds(
    entries: Map<Seq<char>, Entry>,
    profile: Seq<char>,
    count: nat,
    calls: Seq<Exchange>,
    result: Result<Seq<char>, ErrorView>,
    k: int,
)
    requires
        tokens::read_chunks_run(profile, count, calls, result),
        model::faithful(entries, calls),
        0 <= k < calls.len(),
    ensures
        tokens::found_secret(calls[k]) is Some <==> entries.contains_key(
            keys::chunk_key_of(profile, k as nat),
        ),
        calls[k].failure() is None,
{
    lemma_reads_change_nothing(entries, profile, count, calls, result, k);
    assert(model::answers(model::replay(entries, calls.take(k)), calls[k]));
}

/// Deleting a token of a faithful store that may hold chunks: the primary entry goes, and every
/// chunk that its header counts, whatever gaps there are, and those that follow up to the first
/// gap, also where there is no header. Chunks above that gap stay, and no key that is not of the
/// profile changes. It succeeds unless the primary entry was written as a secret.
pub proof fn law_delete_removes_token_and_chunks(
    entries: Map<Seq<char>, Entry>,
    profile: Seq<char>,
    calls: Seq<Exchange>,
    result: Result<(), ErrorView>,
)
    requires
        tokens::delete_token_run(profile, true, calls, result),
        model::faithful(entries, calls),
    ensures
        readable(entries, profile) ==> result is Ok,
        result is Ok ==> ({
            let now = model::replay(entries, calls);
            &&& !now.contains_key(keys::entry_key_of(profile))
            &&& readable(entries, profile) ==> forall|i: nat|
                if in_sweep(entries, profile, 0, recorded_in(entries, profile), i) {
                    !now.contains_key(#[trigger] keys::chunk_key_of(profile, i))
                } else {
                    model::same_at(now, entries, keys::chunk_key_of(profile, i))
                }
            &&& forall|key: Seq<char>| #[trigger]
                now.contains_key(key) ==> model::same_at(now, entries, key)
            &&& forall|key: Seq<char>|
                !belongs_to(profile, key) ==> #[trigger] model::same_at(now, entries, key)
        }),
{
    let primary = keys::entry_key_of(profile);
    let now = model::replay(entries, calls);
    lemma_first_look(entries, calls);
    let rest = calls.skip(1);
    if calls[0].failure() is None {
        let recorded = tokens::recorded_chunks(calls[0]->GetPassword_reply->Ok_0) as nat;
        if result is Err && tokens::delete_chunks_run(profile, 0, recorded, rest, result) {
            law_sweep(entries, profile, 0, recorded, rest, result);
            assert(false);
        }
        let n = rest.len() - 1;
        let sweep = rest.take(n);
        assert(rest.drop_last() =~= sweep);
        assert(rest.last() == calls.last());
        model::lemma_replay_split(entries, rest, n);
        law_sweep(entries, profile, 0, recorded, sweep, Ok(()));
        let swept = model::replay(entries, sweep);
        assert(model::answers(swept, rest[n]));
        assert(now == swept.remove(primary));
        if readable(entries, profile) {
            assert(recorded == recorded_in(entries, profile));
            assert forall|i: nat|
                if in_sweep(entries, profile, 0, recorded, i) {
                    !now.contains_key(#[trigger] keys::chunk_key_of(profile, i))
                } else {
                    model::same_at(now, entries, keys::chunk_key_of(profile, i))
                } by {
                keys::law_chunk_key_is_no_entry_key(profile, i, profile);
            }
        }
        assert forall|key: Seq<char>|
            #[trigger] now.contains_key(key) implies model::same_at(now, entries, key) by {
            assert(swept.contains_key(key));
            assert(model::same_at(swept, entries, key));
        }
        assert forall|key: Seq<char>| !belongs_to(profile, key) implies #[trigger] model::same_at(
            now,
            entries,
            key,
        ) by {
            assert forall|i: nat| 0 <= i implies key != keys::chunk_key_of(profile, i) by {
                if key == keys::chunk_key_of(profile, i) {
                    assert(is_chunk_of(profile, key));
                }
            }
            assert(model::same_at(swept, entries, key));
        }
    }
}

/// Where tokens are not kept in chunks, deleting one touches only the primary entry.
pub proof fn law_delete_without_chunks_touches_only_the_primary_entry(
    entries: Map<Seq<char>, Entry>,
    profile: Seq<char>,
    calls: Seq<Exchange>,
    result: Result<(), ErrorView>,
)
    requires
        tokens::delete_token_run(profile, false, calls, result),
        model::faithful(entries, calls),
    ensures
        result is Ok,
        model::replay(entries, calls) == entries.remove(keys::entry_key_of(profile)),
{
    assert(calls.take(0) =~= Seq::empty());
    assert(calls.drop_last() =~= Seq::empty());
    assert(calls.last() == calls[0]);
    assert(model::answers(model::replay(entries, calls.take(0)), calls[0]));
}

/// A deleted token cannot be loaded any more.
pub proof fn law_deleted_token_is_gone(
    entries: Map<Seq<char>, Entry>,
    profile: Seq<char>,
    chunked: bool,
    calls: Seq<Exchange>,
    result: Result<(), ErrorView>,
    read: Seq<Exchange>,
    loaded: Result<Seq<char>, ErrorView>,
)
    requires
        tokens::delete_token_run(profile, chunked, calls, result),
        model::faithful(entries, calls),
        tokens::get_token_run(profile, read, loaded),
        model::faithful(model::replay(entries, calls), read),
    ensures
        result is Ok ==> loaded == Err::<Seq<char>, ErrorView>(tokens::no_token_error(profile)),
{
    if chunked {
        law_delete_removes_token_and_chunks(entries, profile, calls, result);
    } else {
        law_delete_without_chunks_touches_only_the_primary_entry(entries, profile, calls, result);
    }
    if result is Ok {
        law_no_primary_entry_no_token(model::replay(entries, calls), profile, read, loaded);
    }
}

/// The entries of a profile as complete operations leave them: no chunk beyond the count that the
/// primary entry records.
pub open spec fn tidy(entries: Map<Seq<char>, Entry>, profile: Seq<char>) -> bool {
    &&& readable(entries, profile)
    &&& forall|i: nat| #[trigger]
        entries.contains_key(keys::chunk_key_of(profile, i)) ==> i < recorded_in(entries, profile)
}

/// The entries of a profile where every chunk, recorded or not, is within the reach of a sweep
/// from the first one on.
pub open spec fn sweepable(entries: Map<Seq<char>, Entry>, profile: Seq<char>) -> bool {
    &&& readable(entries, profile)
    &&& forall|i: nat| #[trigger]
        entries.contains_key(keys::chunk_key_of(profile, i)) ==> in_sweep(
            entries,
            profile,
            0,
            recorded_in(entries, profile),
            i,
        )
}

/// Tidy entries are within the reach of a sweep.
pub proof fn law_tidy_entries_are_sweepable(entries: Map<Seq<char>, Entry>, profile: Seq<char>)
    requires
        tidy(entries, profile),
    ensures
        sweepable(entries, profile),
{
}

/// Rewriting a token leaves no chunk of an older, larger one, recorded or not: the profile is left
/// with exactly its header and as many chunks as the header says, and so is tidy. Gaps among the
/// older chunks that the header counted make no difference.
pub proof fn law_rewrite_leaves_no_stale_chunks(
    entries: Map<Seq<char>, Entry>,
    profile: Seq<char>,
    token: Seq<char>,
    size: usize,
    calls: Seq<Exchange>,
    result: Result<(), ErrorView>,
)
    requires
        size > 0,
        utf8::encode_utf8(token).len() <= usize::MAX,
        sweepable(entries, profile),
        tokens::store_token_run(profile, token, Some(size), calls, result),
        model::faithful(entries, calls),
    ensures
        result is Ok,
        forall|i: nat|
            model::replay(entries, calls).contains_key(#[trigger] keys::chunk_key_of(profile, i))
                <==> i < chunks::split(utf8::encode_utf8(token), size as nat).len(),
        tidy(model::replay(entries, calls), profile),
{
    let bytes = utf8::encode_utf8(token);
    let pieces = chunks::split(bytes, size as nat);
    let now = model::replay(entries, calls);
    law_store_chunked(entries, profile, bytes, size as nat, calls, result);
    lemma_no_more_pieces_than_bytes(bytes, size as nat);
    assert forall|i: nat| now.contains_key(#[trigger] keys::chunk_key_of(profile, i)) <==> i
        < pieces.len() by {
        if pieces.len() <= i && now.contains_key(keys::chunk_key_of(profile, i)) {
            assert(entries.contains_key(keys::chunk_key_of(profile, i)));
            assert(in_sweep(entries, profile, pieces.len(), recorded_in(entries, profile), i));
        }
    }
    assert(recorded_in(now, profile) == pieces.len());
}

/// Deleting a token leaves nothing of the profile, recorded or not, where a sweep can reach it.
pub proof fn law_delete_leaves_nothing(
    entries: Map<Seq<char>, Entry>,
    profile: Seq<char>,
    calls: Seq<Exchange>,
    result: Result<(), ErrorView>,
)
    requires
        sweepable(entries, profile),
        tokens::delete_token_run(profile, true, calls, result),
        model::faithful(entries, calls),
    ensures
        result is Ok,
        forall|key: Seq<char>|
            belongs_to(profile, key) ==> !(#[trigger] model::replay(entries, calls).contains_key(
                key,
            )),
{
    let now = model::replay(entries, calls);
    law_delete_removes_token_and_chunks(entries, profile, calls, result);
    assert forall|key: Seq<char>| belongs_to(profile, key) implies !(#[trigger] now.contains_key(
        key,
    )) by {
        if key != keys::entry_key_of(profile) && now.contains_key(key) {
            let i = choose|i: nat| key == #[trigger] keys::chunk_key_of(profile, i);
            assert(model::same_at(now, entries, key));
            assert(entries.contains_key(keys::chunk_key_of(profile, i)));
        }
    }
}

/// The header is published once every chunk is written, and not before: a write that is cut short
/// leaves the older header in place.
pub proof fn law_header_follows_the_chunks(
    profile: Seq<char>,
    token: Seq<char>,
    size: usize,
    calls: Seq<Exchange>,
    result: Result<(), ErrorView>,
    k: int,
)
    requires
        tokens::store_token_run(profile, token, Some(size), calls, result),
        0 <= k < calls.len(),
        calls[k] is SetPassword,
    ensures
        ({
            let pieces = chunks::split(utf8::encode_utf8(token), size as nat);
            &&& k == pieces.len() + 1
            &&& forall|i: int|
                1 <= i <= pieces.len() ==> (#[trigger] calls[i] matches Exchange::SetSecret {
                    key,
                    value,
                    reply: Ok(_),
                } && key == keys::chunk_key_of(profile, (i - 1) as nat) && value == pieces[i - 1])
        }),
{
    let pieces = chunks::split(utf8::encode_utf8(token), size as nat);
    let n = pieces.len() as int;
    let rest = calls.skip(1);
    assert(k > 0);
    assert(rest[k - 1] == calls[k]);
    if rest.len() > n + 1 {
        let writes = rest.take(n + 1);
        let sweep = rest.skip(n + 1);
        if k - 1 > n {
            assert(sweep[k - 1 - (n + 1)] == calls[k]);
        } else {
            assert(writes[k - 1] == calls[k]);
        }
        assert forall|i: int| 1 <= i <= n implies (#[trigger] calls[i] matches Exchange::SetSecret {
            key,
            value,
            reply: Ok(_),
        } && key == keys::chunk_key_of(profile, (i - 1) as nat) && value == pieces[i - 1]) by {
            assert(writes[i - 1] == calls[i]);
            assert(writes[i - 1].failure() is None);
        }
    } else {
        assert forall|i: int| 1 <= i <= n implies (#[trigger] calls[i] matches Exchange::SetSecret {
            key,
            value,
            reply: Ok(_),
        } && key == keys::chunk_key_of(profile, (i - 1) as nat) && value == pieces[i - 1]) by {
            assert(rest[i - 1] == calls[i]);
            assert(rest[i - 1].failure() is None);
        }
    }
}

/// A write that is cut short before the header is published leaves every chunk within the reach of
/// a sweep, so that the next write or delete that completes leaves none behind. The call that
/// failed is taken to have changed nothing.
pub proof fn law_cut_short_write_can_be_repaired(
    entries: Map<Seq<char>, Entry>,
    profile: Seq<char>,
    token: Seq<char>,
    size: usize,
    calls: Seq<Exchange>,
    result: Result<(), ErrorView>,
)
    requires
        size > 0,
        utf8::encode_utf8(token).len() <= usize::MAX,
        sweepable(entries, profile),
        tokens::store_token_run(profile, token, Some(size), calls, result),
        calls.last().failure() is Some,
        calls.len() <= chunks::split(utf8::encode_utf8(token), size as nat).len() + 2,
    ensures
        sweepable(model::replay(entries, calls.drop_last()), profile),
        model::same_at(
            model::replay(entries, calls.drop_last()),
            entries,
            keys::entry_key_of(profile),
        ),
{
    let bytes = utf8::encode_utf8(token);
    let pieces = chunks::split(bytes, size as nat);
    let primary = keys::entry_key_of(profile);
    let recorded = recorded_in(entries, profile);
    let done = calls.drop_last();
    let left = model::replay(entries, done);
    lemma_no_more_pieces_than_bytes(bytes, size as nat);
    if calls.len() == 1 {
        assert(done =~= Seq::empty());
    } else {
        let rest = calls.skip(1);
        let m = rest.len() - 1;
        lemma_replay_after_look(entries, done);
        assert(done.skip(1) =~= rest.take(m));
        lemma_writes_prefix(entries, profile, pieces, rest, m);
        assert forall|i: nat| keys::chunk_key_of(profile, i) != primary by {
            keys::law_chunk_key_is_no_entry_key(profile, i, profile);
        }
        assert(model::same_at(left, entries, primary));
        assert forall|i: nat| m <= i implies model::same_at(
            left,
            entries,
            #[trigger] keys::chunk_key_of(profile, i),
        ) by {
            let key = keys::chunk_key_of(profile, i);
            assert forall|j: nat| j < m implies key != keys::chunk_key_of(profile, j) by {
                if key == keys::chunk_key_of(profile, j) {
                    keys::law_chunk_keys_are_distinct(profile, i, profile, j);
                }
            }
        }
        assert forall|i: nat| #[trigger]
            left.contains_key(keys::chunk_key_of(profile, i)) implies in_sweep(
            left,
            profile,
            0,
            recorded,
            i,
        ) by {
            if m <= i {
                assert(model::same_at(left, entries, keys::chunk_key_of(profile, i)));
                assert(entries.contains_key(keys::chunk_key_of(profile, i)));
            }
            if recorded <= i {
                assert forall|j: nat| recorded <= j <= i implies left.contains_key(
                    #[trigger] keys::chunk_key_of(profile, j),
                ) by {
                    if m <= j {
                        assert(model::same_at(left, entries, keys::chunk_key_of(profile, j)));
                    }
                }
            }
        }
    }
}

/// The primary entry is the last to go, and only after the sweep of the chunks succeeded.
pub proof fn law_header_is_deleted_last(
    profile: Seq<char>,
    calls: Seq<Exchange>,
    result: Result<(), ErrorView>,
    k: int,
)
    requires
        tokens::delete_token_run(profile, true, calls, result),
        0 <= k < calls.len(),
        calls[k] is Delete,
        calls[k]->Delete_key == keys::entry_key_of(profile),
    ensures
        k == calls.len() - 1,
        forall|j: int| 0 <= j < k ==> (#[trigger] calls[j]).failure() is None,
{
    let rest = calls.skip(1);
    assert forall|i: nat| keys::chunk_key_of(profile, i) != keys::entry_key_of(profile) by {
        keys::law_chunk_key_is_no_entry_key(profile, i, profile);
    }
    assert(rest[k - 1] == calls[k]);
    let sweep = rest.drop_last();
    if k < calls.len() - 1 {
        assert(sweep[k - 1] == calls[k]);
    }
    assert forall|j: int| 0 <= j < k implies (#[trigger] calls[j]).failure() is None by {
        if j > 0 {
            assert(sweep[j - 1] == calls[j]);
            if calls[j].failure() is Some {
                let recorded = tokens::recorded_chunks(calls[0]->GetPassword_reply->Ok_0) as nat;
                lemma_failure_ends_sweep(profile, 0, recorded, sweep, Ok(()), j - 1);
            }
        }
    }
}

/// What a delete that is cut short leaves: the primary entry as it was, and no chunk that was not
/// there before, so that tidy entries stay tidy. The call that failed is taken to have changed
/// nothing.
proof fn lemma_cut_short_delete(
    entries: Map<Seq<char>, Entry>,
    profile: Seq<char>,
    calls: Seq<Exchange>,
    result: Result<(), ErrorView>,
)
    requires
        tokens::delete_token_run(profile, true, calls, result),
        calls.last().failure() is Some,
    ensures
        model::same_at(
            model::replay(entries, calls.drop_last()),
            entries,
            keys::entry_key_of(profile),
        ),
        forall|i: nat| #[trigger]
            model::replay(entries, calls.drop_last()).contains_key(keys::chunk_key_of(profile, i))
                ==> entries.contains_key(keys::chunk_key_of(profile, i)),
{
    let primary = keys::entry_key_of(profile);
    let done = calls.drop_last();
    let left = model::replay(entries, done);
    if calls.len() == 1 {
        assert(done =~= Seq::empty());
    } else {
        let rest = calls.skip(1);
        let m = rest.len() - 1;
        let recorded = tokens::recorded_chunks(calls[0]->GetPassword_reply->Ok_0) as nat;
        lemma_replay_after_look(entries, done);
        assert(done.skip(1) =~= rest.take(m));
        assert(rest.drop_last() =~= rest.take(m));
        assert(rest.take(m).take(m) =~= rest.take(m));
        if result is Err && tokens::delete_chunks_run(profile, 0, recorded, rest, result) {
            lemma_sweep_prefix(entries, profile, 0, recorded, rest, result, m);
        } else {
            lemma_sweep_prefix(entries, profile, 0, recorded, rest.take(m), Ok(()), m);
        }
        assert forall|i: nat| keys::chunk_key_of(profile, i) != primary by {
            keys::law_chunk_key_is_no_entry_key(profile, i, profile);
        }
        assert(model::same_at(left, entries, primary));
        assert forall|i: nat| #[trigger]
            left.contains_key(keys::chunk_key_of(profile, i)) implies entries.contains_key(
            keys::chunk_key_of(profile, i),
        ) by {
            let key = keys::chunk_key_of(profile, i);
            assert forall|j: nat| 0 <= j < m implies key != keys::chunk_key_of(profile, j) by {
                if key == keys::chunk_key_of(profile, j) {
                    assert(!left.contains_key(keys::chunk_key_of(profile, j)));
                }
            }
            assert(model::same_at(left, entries, key));
        }
    }
}

/// A delete that is cut short can be retried, whatever entries there are: the header stays, so that
/// the retry still learns how many chunks to expect, and it leaves neither the header nor any chunk
/// that the header counted. Where there was no chunk beyond those, the retry leaves nothing of the
/// profile. The call that failed is taken to have changed nothing.
pub proof fn law_cut_short_delete_can_be_retried(
    entries: Map<Seq<char>, Entry>,
    profile: Seq<char>,
    calls: Seq<Exchange>,
    result: Result<(), ErrorView>,
    retry: Seq<Exchange>,
    retried: Result<(), ErrorView>,
)
    requires
        tokens::delete_token_run(profile, true, calls, result),
        calls.last().failure() is Some,
        tokens::delete_token_run(profile, true, retry, retried),
        model::faithful(model::replay(entries, calls.drop_last()), retry),
    ensures
        model::same_at(
            model::replay(entries, calls.drop_last()),
            entries,
            keys::entry_key_of(profile),
        ),
        readable(entries, profile) ==> retried is Ok,
        retried is Ok ==> ({
            let now = model::replay(model::replay(entries, calls.drop_last()), retry);
            &&& !now.contains_key(keys::entry_key_of(profile))
            &&& forall|i: nat|
                i < recorded_in(entries, profile) ==> !now.contains_key(
                    #[trigger] keys::chunk_key_of(profile, i),
                )
            &&& tidy(entries, profile) ==> forall|key: Seq<char>|
                belongs_to(profile, key) ==> !(#[trigger] now.contains_key(key))
        }),
{
    let left = model::replay(entries, calls.drop_last());
    lemma_cut_short_delete(entries, profile, calls, result);
    law_delete_removes_token_and_chunks(left, profile, retry, retried);
    if retried is Ok {
        let now = model::replay(left, retry);
        assert forall|i: nat| i < recorded_in(entries, profile) implies !now.contains_key(
            #[trigger] keys::chunk_key_of(profile, i),
        ) by {
            assert(in_sweep(left, profile, 0, recorded_in(left, profile), i));
        }
        if tidy(entries, profile) {
            assert(tidy(left, profile));
            law_delete_leaves_nothing(left, profile, retry, retried);
        }
    }
}

/// A look at a password changes nothing, whatever the reply.
proof fn lemma_replay_after_look(entries: Map<Seq<char>, Entry>, calls: Seq<Exchange>)
    requires
        calls.len() > 0,
        calls[0] is GetPassword,
    ensures
        model::replay(entries, calls) == model::replay(entries, calls.skip(1)),
{
    model::lemma_replay_split(entries, calls, 1);
    model::lemma_replay_step(entries, calls, 0);
    assert(calls.take(0) =~= Seq::empty());
}

/// What is kept for one profile is not touched by what is done for another: their keys differ,
/// and both differ from the key of the profile index.
pub proof fn law_profiles_are_kept_apart(p: Seq<char>, q: Seq<char>, key: Seq<char>)
    requires
        belongs_to(p, key),
    ensures
        p != q ==> !belongs_to(q, key),
        key != keys::profile_index_key(),
{
    keys::law_profile_index_key_is_apart(p, 0);
    if key == keys::entry_key_of(p) {
        if key == keys::entry_key_of(q) {
            keys::law_entry_keys_are_distinct(p, q);
        }
        if is_chunk_of(q, key) {
            let j = choose|j: nat| key == #[trigger] keys::chunk_key_of(q, j);
            keys::law_chunk_key_is_no_entry_key(q, j, p);
        }
    } else {
        let i = choose|i: nat| key == #[trigger] keys::chunk_key_of(p, i);
        keys::law_profile_index_key_is_apart(p, i);
        keys::law_chunk_key_is_no_entry_key(p, i, q);
        if is_chunk_of(q, key) {
            let j = choose|j: nat| key == #[trigger] keys::chunk_key_of(q, j);
            keys::law_chunk_keys_are_distinct(p, i, q, j);
        }
    }
}

/// Whether calls are about keys of a profile alone.
pub open spec fn stays_with(profile: Seq<char>, calls: Seq<Exchange>) -> bool {
    forall|k: int| 0 <= k < calls.len() ==> belongs_to(profile, (#[trigger] calls[k]).key())
}

/// Storing a token asks for keys of its profile alone, and leaves every other key as it was, whatever
/// the store replies and whatever is returned.
pub proof fn law_store_touches_its_profile_alone(
    entries: Map<Seq<char>, Entry>,
    profile: Seq<char>,
    token: Seq<char>,
    chunk_bytes: Option<usize>,
    calls: Seq<Exchange>,
    result: Result<(), ErrorView>,
)
    requires
        tokens::store_token_run(profile, token, chunk_bytes, calls, result),
    ensures
        stays_with(profile, calls),
        forall|key: Seq<char>|
            !belongs_to(profile, key) ==> #[trigger] model::same_at(
                model::replay(entries, calls),
                entries,
                key,
            ),
{
    if let Some(size) = chunk_bytes {
        lemma_chunked_write_stays(profile, utf8::encode_utf8(token), size as nat, calls, result);
    }
    lemma_untouched(entries, profile, calls);
}

/// Storing bytes in chunks asks for keys of its profile alone, and leaves every other key as it was,
/// whatever the store replies and whatever is returned.
pub proof fn law_store_chunked_touches_its_profile_alone(
    entries: Map<Seq<char>, Entry>,
    profile: Seq<char>,
    bytes: Seq<u8>,
    size: nat,
    calls: Seq<Exchange>,
    result: Result<(), ErrorView>,
)
    requires
        tokens::store_chunked_run(profile, bytes, size, calls, result),
    ensures
        stays_with(profile, calls),
        forall|key: Seq<char>|
            !belongs_to(profile, key) ==> #[trigger] model::same_at(
                model::replay(entries, calls),
                entries,
                key,
            ),
{
    lemma_chunked_write_stays(profile, bytes, size, calls, result);
    lemma_untouched(entries, profile, calls);
}

/// Deleting a token asks for keys of its profile alone, and leaves every other key as it was,
/// whatever the store replies and whatever is returned.
pub proof fn law_delete_touches_its_profile_alone(
    entries: Map<Seq<char>, Entry>,
    profile: Seq<char>,
    chunked: bool,
    calls: Seq<Exchange>,
    result: Result<(), ErrorView>,
)
    requires
        tokens::delete_token_run(profile, chunked, calls, result),
    ensures
        stays_with(profile, calls),
        forall|key: Seq<char>|
            !belongs_to(profile, key) ==> #[trigger] model::same_at(
                model::replay(entries, calls),
                entries,
                key,
            ),
{
    lemma_delete_stays(profile, chunked, calls, result);
    lemma_untouched(entries, profile, calls);
}

/// Calls about keys of a profile leave every other key as it was.
proof fn lemma_untouched(
    entries: Map<Seq<char>, Entry>,
    profile: Seq<char>,
    calls: Seq<Exchange>,
)
    requires
        stays_with(profile, calls),
    ensures
        forall|key: Seq<char>|
            !belongs_to(profile, key) ==> #[trigger] model::same_at(
                model::replay(entries, calls),
                entries,
                key,
            ),
    decreases calls.len(),
{
    if calls.len() > 0 {
        let fewer = calls.drop_last();
        assert forall|k: int| 0 <= k < fewer.len() implies belongs_to(
            profile,
            (#[trigger] fewer[k]).key(),
        ) by {
            assert(fewer[k] == calls[k]);
        }
        lemma_untouched(entries, profile, fewer);
        assert forall|key: Seq<char>| !belongs_to(profile, key) implies #[trigger] model::same_at(
            model::replay(entries, calls),
            entries,
            key,
        ) by {
            assert(model::same_at(model::replay(entries, fewer), entries, key));
            assert(belongs_to(profile, calls[calls.len() - 1].key()));
        }
    }
}

/// A sweep asks for chunks of its profile alone.
proof fn lemma_sweep_stays(
    profile: Seq<char>,
    start: nat,
    recorded: nat,
    calls: Seq<Exchange>,
    result: Result<(), ErrorView>,
)
    requires
        tokens::delete_chunks_run(profile, start, recorded, calls, result),
    ensures
        stays_with(profile, calls),
{
    assert forall|k: int| 0 <= k < calls.len() implies belongs_to(
        profile,
        (#[trigger] calls[k]).key(),
    ) by {
        assert(is_chunk_of(profile, calls[k].key()));
    }
}

/// Storing bytes in chunks asks for keys of its profile alone.
proof fn lemma_chunked_write_stays(
    profile: Seq<char>,
    bytes: Seq<u8>,
    size: nat,
    calls: Seq<Exchange>,
    result: Result<(), ErrorView>,
)
    requires
        tokens::store_chunked_run(profile, bytes, size, calls, result),
    ensures
        stays_with(profile, calls),
{
    let pieces = chunks::split(bytes, size);
    let n = pieces.len() as int;
    let rest = calls.skip(1);
    let writes = if rest.len() <= n + 1 {
        rest
    } else {
        rest.take(n + 1)
    };
    let sweep = rest.skip(n + 1);
    if calls[0].failure() is None && rest.len() > n + 1 {
        let recorded = tokens::recorded_chunks(calls[0]->GetPassword_reply->Ok_0) as nat;
        lemma_sweep_stays(profile, pieces.len(), recorded, sweep, result);
    }
    assert forall|k: int| 0 <= k < calls.len() implies belongs_to(
        profile,
        (#[trigger] calls[k]).key(),
    ) by {
        if k > 0 {
            assert(rest[k - 1] == calls[k]);
            if k - 1 < n {
                assert(writes[k - 1] == calls[k]);
                assert(is_chunk_of(profile, calls[k].key()));
            } else if k - 1 == n {
                assert(writes[n] == calls[k]);
            } else {
                assert(sweep[k - 1 - (n + 1)] == calls[k]);
            }
        }
    }
}

/// Deleting a token asks for keys of its profile alone.
proof fn lemma_delete_stays(
    profile: Seq<char>,
    chunked: bool,
    calls: Seq<Exchange>,
    result: Result<(), ErrorView>,
)
    requires
        tokens::delete_token_run(profile, chunked, calls, result),
    ensures
        stays_with(profile, calls),
{
    if chunked && calls[0].failure() is None {
        let recorded = tokens::recorded_chunks(calls[0]->GetPassword_reply->Ok_0) as nat;
        let rest = calls.skip(1);
        let sweep = rest.drop_last();
        let cut = result is Err && tokens::delete_chunks_run(profile, 0, recorded, rest, result);
        if cut {
            lemma_sweep_stays(profile, 0, recorded, rest, result);
        } else {
            lemma_sweep_stays(profile, 0, recorded, sweep, Ok(()));
        }
        assert forall|k: int| 0 <= k < calls.len() implies belongs_to(
            profile,
            (#[trigger] calls[k]).key(),
        ) by {
            if k > 0 {
                assert(rest[k - 1] == calls[k]);
                if !cut && k < calls.len() - 1 {
                    assert(sweep[k - 1] == calls[k]);
                }
            }
        }
    }
}

/// An error of the store ends every operation on a token, and is returned as it came. No call is
/// made after it.
pub proof fn law_first_failure_ends_the_operation(
    profile: Seq<char>,
    token: Seq<char>,
    chunk_bytes: Option<usize>,
    chunked: bool,
    calls: Seq<Exchange>,
    done: Result<(), ErrorView>,
    loaded: Result<Seq<char>, ErrorView>,
    k: int,
    e: ErrorView,
)
    requires
        0 <= k < calls.len(),
        calls[k].failure() == Some(e),
    ensures
        tokens::store_token_run(profile, token, chunk_bytes, calls, done) ==> k == calls.len() - 1
            && done == Err::<(), ErrorView>(e),
        tokens::delete_token_run(profile, chunked, calls, done) ==> k == calls.len() - 1 && done
            == Err::<(), ErrorView>(e),
        tokens::get_token_run(profile, calls, loaded) ==> k == calls.len() - 1 && loaded == Err::<
            Seq<char>,
            ErrorView,
        >(e),
{
    let rest = calls.skip(1);
    assert(calls.last() == calls[calls.len() - 1]);
    if k > 0 {
        assert(rest[k - 1] == calls[k]);
        assert(rest.last() == rest[rest.len() - 1]);
    }
    if tokens::store_token_run(profile, token, chunk_bytes, calls, done) {
        if let Some(size) = chunk_bytes {
            let pieces = chunks::split(utf8::encode_utf8(token), size as nat);
            let n = pieces.len() as int;
            if k > 0 && rest.len() > n + 1 {
                let writes = rest.take(n + 1);
                let sweep = rest.skip(n + 1);
                if k - 1 <= n {
                    assert(writes[k - 1] == rest[k - 1]);
                    assert(false);
                } else {
                    lemma_failure_ends_sweep(
                        profile,
                        pieces.len(),
                        tokens::recorded_chunks(calls[0]->GetPassword_reply->Ok_0) as nat,
                        sweep,
                        done,
                        k - 1 - (n + 1),
                    );
                }
            }
        }
    }
    if tokens::delete_token_run(profile, chunked, calls, done) && chunked && k > 0 {
        let recorded = tokens::recorded_chunks(calls[0]->GetPassword_reply->Ok_0) as nat;
        if done is Err && tokens::delete_chunks_run(profile, 0, recorded, rest, done) {
            lemma_failure_ends_sweep(profile, 0, recorded, rest, done, k - 1);
        } else if k < calls.len() - 1 {
            assert(rest.drop_last()[k - 1] == calls[k]);
            lemma_failure_ends_sweep(profile, 0, recorded, rest.drop_last(), Ok(()), k - 1);
        }
    }
    if tokens::get_token_run(profile, calls, loaded) && k > 0 {
        assert(tokens::found_secret(rest[k - 1]) is None);
    }
}

/// An error of the store ends a sweep.
proof fn lemma_failure_ends_sweep(
    profile: Seq<char>,
    start: nat,
    recorded: nat,
    calls: Seq<Exchange>,
    result: Result<(), ErrorView>,
    k: int,
)
    requires
        tokens::delete_chunks_run(profile, start, recorded, calls, result),
        0 <= k < calls.len(),
        calls[k].failure() is Some,
    ensures
        k == calls.len() - 1,
        result == Err::<(), ErrorView>(calls[k].failure()->Some_0),
{
    if k < calls.len() - 1 {
        assert(tokens::sweep_goes_on(calls[k], (start + k) as nat, recorded));
    }
}

/// A profile that was added is listed, after those that were listed before; and adding it leaves
/// every token as it was.
pub proof fn law_added_profile_is_listed(
    entries: Map<Seq<char>, Entry>,
    profile: Seq<char>,
    before: Seq<Exchange>,
    listed: Seq<Seq<char>>,
    calls: Seq<Exchange>,
    result: Result<(), ErrorView>,
    after: Seq<Exchange>,
    relisted: Seq<Seq<char>>,
)
    requires
        profiles::list_run(before, listed),
        model::faithful(entries, before),
        profiles::add_run(profile, calls, result),
        model::faithful(entries, calls),
        profiles::list_run(after, relisted),
        model::faithful(model::replay(entries, calls), after),
        index_readable(entries),
    ensures
        result is Ok,
        relisted == profiles::with_profile(listed, profile),
        relisted.contains(profile),
        forall|key: Seq<char>|
            key != keys::profile_index_key() ==> #[trigger] model::same_at(
                model::replay(entries, calls),
                entries,
                key,
            ),
{
    lemma_first_look(entries, before);
    lemma_first_look(entries, calls);
    lemma_lone_write(entries, calls.skip(1));
    lemma_first_look(model::replay(entries, calls), after);
    profiles::law_adding_twice_is_adding_once(listed, profile);
}

/// A profile that was removed is listed no more, and all others still are; removing it from the
/// index leaves every token as it was.
pub proof fn law_removed_profile_is_not_listed(
    entries: Map<Seq<char>, Entry>,
    profile: Seq<char>,
    before: Seq<Exchange>,
    listed: Seq<Seq<char>>,
    calls: Seq<Exchange>,
    result: Result<(), ErrorView>,
    after: Seq<Exchange>,
    relisted: Seq<Seq<char>>,
)
    requires
        profiles::list_run(before, listed),
        model::faithful(entries, before),
        profiles::remove_run(profile, calls, result),
        model::faithful(entries, calls),
        profiles::list_run(after, relisted),
        model::faithful(model::replay(entries, calls), after),
        index_readable(entries),
    ensures
        result is Ok,
        relisted == profiles::without_profile(listed, profile),
        !relisted.contains(profile),
        forall|key: Seq<char>|
            key != keys::profile_index_key() ==> #[trigger] model::same_at(
                model::replay(entries, calls),
                entries,
                key,
            ),
{
    lemma_first_look(entries, before);
    lemma_first_look(entries, calls);
    lemma_lone_write(entries, calls.skip(1));
    lemma_first_look(model::replay(entries, calls), after);
    profiles::law_removing_removes_it_alone(listed, profile);
}

/// Whether the profile index, if there is one, was written as a password.
pub open spec fn index_readable(entries: Map<Seq<char>, Entry>) -> bool {
    let key = keys::profile_index_key();
    entries.contains_key(key) ==> entries[key] is Password
}

/// One write of a password.
proof fn lemma_lone_write(entries: Map<Seq<char>, Entry>, calls: Seq<Exchange>)
    requires
        calls.len() == 1,
        calls[0] is SetPassword,
        model::faithful(entries, calls),
    ensures
        calls[0].failure() is None,
        model::replay(entries, calls) == entries.insert(
            calls[0]->SetPassword_key,
            Entry::Password(calls[0]->SetPassword_value),
        ),
{
    assert(calls.take(0) =~= Seq::empty());
    assert(calls.drop_last() =~= Seq::empty());
    assert(calls.last() == calls[0]);
    assert(model::answers(model::replay(entries, calls.take(0)), calls[0]));
}

} // verus!
