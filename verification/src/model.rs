//! A faithful store: one that replies with what was written to it.
//!
//! A store is not bound to be faithful, so the operations are stated over any replies. What they
//! amount to on a faithful store is stated by laws over this model.

use crate::secret_store::Exchange;
use vstd::prelude::*;

verus! {

/// What is kept under a key. A store may keep passwords and secrets in different forms, so an
/// entry comes back only as what it was written as.
pub enum Entry {
    Password(Seq<char>),
    Secret(Seq<u8>),
}

/// Whether a faithful store with these entries may reply like this: no call fails, except the
/// read of a secret as a password, and a read gives back what is there.
pub open spec fn answers(entries: Map<Seq<char>, Entry>, call: Exchange) -> bool {
    match call {
        Exchange::GetPassword { key, reply } => if !entries.contains_key(key) {
            reply == Ok::<Option<Seq<char>>, crate::error::ErrorView>(None)
        } else {
            match entries[key] {
                Entry::Password(value) => reply == Ok::<Option<Seq<char>>, crate::error::ErrorView>(
                    Some(value),
                ),
                Entry::Secret(_) => !(reply matches Ok(None)),
            }
        },
        Exchange::GetSecret { key, reply } => if !entries.contains_key(key) {
            reply == Ok::<Option<Seq<u8>>, crate::error::ErrorView>(None)
        } else {
            match entries[key] {
                Entry::Secret(value) => reply == Ok::<Option<Seq<u8>>, crate::error::ErrorView>(
                    Some(value),
                ),
                Entry::Password(_) => reply matches Ok(Some(_)),
            }
        },
        Exchange::SetPassword { reply, .. } => reply is Ok,
        Exchange::SetSecret { reply, .. } => reply is Ok,
        Exchange::Delete { key, reply } => reply == Ok::<bool, crate::error::ErrorView>(
            entries.contains_key(key),
        ),
    }
}

/// The entries after a call.
pub open spec fn after(entries: Map<Seq<char>, Entry>, call: Exchange) -> Map<Seq<char>, Entry> {
    match call {
        Exchange::SetPassword { key, value, .. } => entries.insert(key, Entry::Password(value)),
        Exchange::SetSecret { key, value, .. } => entries.insert(key, Entry::Secret(value)),
        Exchange::Delete { key, .. } => entries.remove(key),
        _ => entries,
    }
}

/// The entries after several calls.
pub open spec fn replay(entries: Map<Seq<char>, Entry>, calls: Seq<Exchange>) -> Map<
    Seq<char>,
    Entry,
>
    decreases calls.len(),
{
    if calls.len() == 0 {
        entries
    } else {
        after(replay(entries, calls.drop_last()), calls.last())
    }
}

/// Whether a faithful store that starts with these entries may reply like this, call by call.
pub open spec fn faithful(entries: Map<Seq<char>, Entry>, calls: Seq<Exchange>) -> bool {
    forall|k: int|
        0 <= k < calls.len() ==> answers(replay(entries, #[trigger] calls.take(k)), calls[k])
}

/// Whether a key holds the same in both, or nothing in both.
pub open spec fn same_at(
    a: Map<Seq<char>, Entry>,
    b: Map<Seq<char>, Entry>,
    key: Seq<char>,
) -> bool {
    &&& a.contains_key(key) == b.contains_key(key)
    &&& a.contains_key(key) ==> a[key] == b[key]
}

/// One call more.
pub proof fn lemma_replay_step(entries: Map<Seq<char>, Entry>, calls: Seq<Exchange>, k: int)
    requires
        0 <= k < calls.len(),
    ensures
        replay(entries, calls.take(k + 1)) == after(replay(entries, calls.take(k)), calls[k]),
{
    assert(calls.take(k + 1).drop_last() =~= calls.take(k));
    assert(calls.take(k + 1).last() == calls[k]);
}

/// Calls after calls.
pub proof fn lemma_replay_split(entries: Map<Seq<char>, Entry>, calls: Seq<Exchange>, n: int)
    requires
        0 <= n <= calls.len(),
    ensures
        replay(entries, calls) == replay(replay(entries, calls.take(n)), calls.skip(n)),
        faithful(entries, calls) ==> faithful(entries, calls.take(n)) && faithful(
            replay(entries, calls.take(n)),
            calls.skip(n),
        ),
{
    let first = calls.take(n);
    let rest = calls.skip(n);
    assert forall|k: int| 0 <= k <= rest.len() implies replay(entries, calls.take(n + k)) == replay(
        replay(entries, first),
        #[trigger] rest.take(k),
    ) by {
        lemma_replay_prefix(entries, calls, n, k);
    }
    assert(calls.take(n + rest.len()) =~= calls);
    assert(rest.take(rest.len() as int) =~= rest);
    assert(replay(entries, calls.take(n + rest.len())) == replay(
        replay(entries, first),
        rest.take(rest.len() as int),
    ));
    if faithful(entries, calls) {
        assert forall|k: int| 0 <= k < first.len() implies answers(
            replay(entries, first.take(k)),
            #[trigger] first[k],
        ) by {
            assert(first.take(k) =~= calls.take(k));
            assert(first[k] == calls[k]);
        }
        assert forall|k: int| 0 <= k < rest.len() implies answers(
            replay(replay(entries, first), rest.take(k)),
            #[trigger] rest[k],
        ) by {
            assert(rest[k] == calls[n + k]);
            assert(replay(entries, calls.take(n + k)) == replay(
                replay(entries, first),
                rest.take(k),
            ));
        }
    }
}

/// The entries part of the way through later calls.
proof fn lemma_replay_prefix(
    entries: Map<Seq<char>, Entry>,
    calls: Seq<Exchange>,
    n: int,
    k: int,
)
    requires
        0 <= n,
        0 <= k,
        n + k <= calls.len(),
    ensures
        replay(entries, calls.take(n + k)) == replay(
            replay(entries, calls.take(n)),
            calls.skip(n).take(k),
        ),
    decreases k,
{
    let rest = calls.skip(n);
    if k > 0 {
        lemma_replay_prefix(entries, calls, n, k - 1);
        lemma_replay_step(entries, calls, n + k - 1);
        lemma_replay_step(replay(entries, calls.take(n)), rest, k - 1);
    } else {
        assert(rest.take(0) =~= Seq::empty());
    }
}

} // verus!
