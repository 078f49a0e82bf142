//! A credential store in memory.

use crate::chunks;
use crate::chunks::text_from_utf8;
use crate::error;
use crate::error::{ErrorView, TeamsError};
use crate::json;
use crate::model;
use crate::model::Entry;
use crate::secret_store;
use crate::secret_store::{Exchange, SecretStore};
use crate::text;
use crate::text::{is_before, joined, same_text};
use vstd::prelude::*;
use vstd::slice::slice_to_vec;
use vstd::string::*;
use vstd::utf8;

verus! {

/// A store that keeps its entries in memory, each as bytes under its key, in the order of the keys.
/// A password is kept as the UTF-8 bytes of its text, so that an entry can be read as either.
pub struct MemoryStore {
    entries: Vec<(String, Vec<u8>)>,
    calls: Ghost<Seq<Exchange>>,
}

/// The bytes kept under each key of a list.
pub open spec fn contents_of(list: Seq<(String, Vec<u8>)>) -> Map<Seq<char>, Seq<u8>>
    decreases list.len(),
{
    if list.len() == 0 {
        Map::empty()
    } else {
        contents_of(list.drop_last()).insert(list.last().0@, list.last().1@)
    }
}

/// The keys of a list, in its order.
pub open spec fn keys_of(list: Seq<(String, Vec<u8>)>) -> Seq<Seq<char>> {
    list.map_values(|entry: (String, Vec<u8>)| entry.0@)
}

/// A key is among the keys of a list if and only if the list keeps something under it. With no
/// key twice, it keeps what stands beside the key.
proof fn lemma_contents(list: Seq<(String, Vec<u8>)>)
    ensures
        forall|key: Seq<char>| #[trigger]
            contents_of(list).contains_key(key) <==> keys_of(list).contains(key),
        keys_of(list).no_duplicates() ==> forall|i: int|
            0 <= i < list.len() ==> contents_of(list)[(#[trigger] list[i]).0@] == list[i].1@,
    decreases list.len(),
{
    let names = keys_of(list);
    if list.len() > 0 {
        let rest = list.drop_last();
        lemma_contents(rest);
        let fewer = keys_of(rest);
        assert(names =~= fewer.push(list.last().0@));
        assert forall|key: Seq<char>|
            #[trigger] contents_of(list).contains_key(key) <==> names.contains(key) by {
            if fewer.contains(key) {
                let i = choose|i: int| 0 <= i < fewer.len() && fewer[i] == key;
                assert(names[i] == key);
            }
            if key == list.last().0@ {
                assert(names[list.len() - 1] == key);
            }
            if names.contains(key) && key != list.last().0@ {
                let i = choose|i: int| 0 <= i < names.len() && names[i] == key;
                assert(fewer[i] == key);
            }
            assert(contents_of(rest).contains_key(key) <==> fewer.contains(key));
        }
        if names.no_duplicates() {
            assert forall|i: int, j: int| 0 <= i < fewer.len() && 0 <= j < fewer.len() && i
                != j implies fewer[i] != fewer[j] by {
                assert(names[i] == fewer[i]);
                assert(names[j] == fewer[j]);
            }
            assert forall|i: int| 0 <= i < list.len() implies contents_of(
                list,
            )[(#[trigger] list[i]).0@] == list[i].1@ by {
                if i < list.len() - 1 {
                    assert(rest[i] == list[i]);
                    assert(names[i] == list[i].0@);
                    assert(names[list.len() - 1] == list.last().0@);
                }
            }
        }
    } else {
        assert(names =~= Seq::empty());
    }
}

/// Whether each of the texts comes before those after it.
pub open spec fn in_order(names: Seq<Seq<char>>) -> bool {
    forall|i: int, j: int|
        0 <= i < j < names.len() ==> text::comes_before(#[trigger] names[i], #[trigger] names[j])
}

/// Texts in order have none twice.
proof fn lemma_in_order(names: Seq<Seq<char>>)
    requires
        in_order(names),
    ensures
        names.no_duplicates(),
{
    assert forall|i: int, j: int| 0 <= i < names.len() && 0 <= j < names.len() && i
        != j implies names[i] != names[j] by {
        text::law_texts_are_ordered(names[i], names[j]);
    }
}

/// The entries of `list` but the one under `key`.
fn without(list: &Vec<(String, Vec<u8>)>, key: &str) -> (shorter: Vec<(String, Vec<u8>)>)
    requires
        in_order(keys_of(list@)),
    ensures
        contents_of(shorter@) == contents_of(list@).remove(key@),
        in_order(keys_of(shorter@)),
{
    let mut shorter: Vec<(String, Vec<u8>)> = Vec::new();
    let mut i: usize = 0;
    assert(contents_of(list@.take(0)).remove(key@) =~= Map::empty());
    assert(contents_of(shorter@) =~= Map::empty());
    while i < list.len()
        invariant
            i <= list@.len(),
            in_order(keys_of(list@)),
            contents_of(shorter@) == contents_of(list@.take(i as int)).remove(key@),
            in_order(keys_of(shorter@)),
            i < list@.len() ==> forall|j: int|
                0 <= j < shorter@.len() ==> text::comes_before(
                    #[trigger] keys_of(shorter@)[j],
                    keys_of(list@)[i as int],
                ),
        decreases list@.len() - i,
    {
        let ghost part = list@.take(i + 1);
        let ghost before = shorter@;
        let ghost names = keys_of(list@);
        assert(part.drop_last() =~= list@.take(i as int));
        assert(part.last() == list@[i as int]);
        if !same_text(list[i].0.as_str(), key) {
            let name: String = list[i].0.clone();
            let value: Vec<u8> = slice_to_vec(list[i].1.as_slice());
            shorter.push((name, value));
            proof {
                assert(names[i as int] == name@);
                assert(shorter@.drop_last() =~= before);
                assert(keys_of(shorter@) =~= keys_of(before).push(name@));
                assert(contents_of(shorter@) =~= contents_of(part).remove(key@));
            }
        } else {
            assert(contents_of(shorter@) =~= contents_of(part).remove(key@));
        }
        proof {
            if i + 1 < list@.len() {
                assert forall|j: int| 0 <= j < shorter@.len() implies text::comes_before(
                    #[trigger] keys_of(shorter@)[j],
                    names[i + 1],
                ) by {
                    assert(text::comes_before(names[i as int], names[i + 1]));
                    if j < before.len() {
                        assert(keys_of(shorter@)[j] == keys_of(before)[j]);
                        text::law_text_order_is_transitive(
                            keys_of(before)[j],
                            names[i as int],
                            names[i + 1],
                        );
                    }
                }
            }
        }
        i += 1;
    }
    assert(list@.take(i as int) =~= list@);
    shorter
}

/// A list with one entry put in where its key belongs, which was not in it.
proof fn lemma_put_in(before: Seq<(String, Vec<u8>)>, after: Seq<(String, Vec<u8>)>, place: int)
    requires
        0 <= place <= before.len(),
        after == before.insert(place, after[place]),
        in_order(keys_of(before)),
        !contents_of(before).contains_key(after[place].0@),
        forall|j: int|
            0 <= j < place ==> text::comes_before(
                #[trigger] keys_of(before)[j],
                after[place].0@,
            ),
        place < before.len() ==> !text::comes_before(keys_of(before)[place], after[place].0@),
    ensures
        in_order(keys_of(after)),
        contents_of(after) == contents_of(before).insert(after[place].0@, after[place].1@),
{
    let names = keys_of(before);
    let longer = keys_of(after);
    let key = after[place].0@;
    lemma_contents(before);
    lemma_contents(after);
    assert(longer =~= names.insert(place, key));
    assert forall|j: int| place <= j < names.len() implies text::comes_before(
        key,
        #[trigger] names[j],
    ) by {
        assert(names.contains(names[place]));
        text::law_texts_are_ordered(names[place], key);
        if place < j {
            text::law_text_order_is_transitive(key, names[place], names[j]);
        }
    }
    assert forall|i: int, j: int| 0 <= i < j < longer.len() implies text::comes_before(
        #[trigger] longer[i],
        #[trigger] longer[j],
    ) by {
        if j == place {
            assert(longer[i] == names[i]);
        } else if i == place {
            assert(longer[j] == names[j - 1]);
        } else {
            assert(longer[i] == names[if i < place { i } else { i - 1 }]);
            assert(longer[j] == names[if j < place { j } else { j - 1 }]);
        }
    }
    lemma_in_order(names);
    lemma_in_order(longer);
    let put = contents_of(before).insert(key, after[place].1@);
    assert forall|k: Seq<char>| #[trigger] contents_of(after).contains_key(k) == put.contains_key(
        k,
    ) by {
        if names.contains(k) {
            let i = choose|i: int| 0 <= i < names.len() && names[i] == k;
            assert(longer[if i < place { i } else { i + 1 }] == k);
        }
        if k == key {
            assert(longer[place] == k);
        }
        if longer.contains(k) && k != key {
            let i = choose|i: int| 0 <= i < longer.len() && longer[i] == k;
            assert(names[if i < place { i } else { i - 1 }] == k);
        }
        assert(contents_of(before).contains_key(k) == names.contains(k));
    }
    assert forall|k: Seq<char>| #[trigger] contents_of(after).contains_key(k) implies contents_of(
        after,
    )[k] == put[k] by {
        let i = choose|i: int| 0 <= i < longer.len() && longer[i] == k;
        assert(after[i].0@ == k);
        assert(contents_of(after)[after[i].0@] == after[i].1@);
        if i != place {
            let o = if i < place { i } else { i - 1 };
            assert(after[i] == before[o]);
            assert(contents_of(before)[before[o].0@] == before[o].1@);
            assert(longer[place] == key);
        }
    }
    assert(contents_of(after) =~= put);
}

/// The entries of `list` with `value` under `key`, in place of what was there.
fn with(list: &Vec<(String, Vec<u8>)>, key: &str, value: &[u8]) -> (longer: Vec<(String, Vec<u8>)>)
    requires
        in_order(keys_of(list@)),
    ensures
        contents_of(longer@) == contents_of(list@).insert(key@, value@),
        in_order(keys_of(longer@)),
{
    let mut longer: Vec<(String, Vec<u8>)> = without(list, key);
    let ghost before = longer@;
    let ghost names = keys_of(before);
    let mut place: usize = 0;
    while place < longer.len() && is_before(longer[place].0.as_str(), key)
        invariant
            place <= longer@.len(),
            longer@ == before,
            names == keys_of(before),
            forall|j: int| 0 <= j < place ==> text::comes_before(#[trigger] names[j], key@),
        decreases longer@.len() - place,
    {
        assert(names[place as int] == before[place as int].0@);
        place += 1;
    }
    longer.insert(place, (key.to_owned(), slice_to_vec(value)));
    proof {
        if place < before.len() {
            assert(names[place as int] == before[place as int].0@);
        }
        lemma_put_in(before, longer@, place as int);
        assert(contents_of(longer@) =~= contents_of(list@).insert(key@, value@));
    }
    longer
}

impl MemoryStore {
    #[verifier::type_invariant]
    spec fn well_formed(self) -> bool {
        &&& in_order(keys_of(self.entries@))
        &&& contents_of(self.entries@) == memory_replay(self.calls@)
        &&& memory_record(self.calls@)
    }

    /// The bytes kept under each key.
    pub closed spec fn contents(&self) -> Map<Seq<char>, Seq<u8>> {
        contents_of(self.entries@)
    }

    /// An empty store.
    pub fn new() -> (store: MemoryStore)
        ensures
            store.contents() == Map::<Seq<char>, Seq<u8>>::empty(),
            store.history() == Seq::<Exchange>::empty(),
    {
        let entries: Vec<(String, Vec<u8>)> = Vec::new();
        assert(keys_of(entries@) =~= Seq::empty());
        MemoryStore { entries, calls: Ghost(Seq::empty()) }
    }

    /// The record accounts for the store: every call was answered from what was kept at the time,
    /// and what is kept is what the calls left. This holds of a store at any time, so it also
    /// tells what an operation on any store came to on this one. At run time it does nothing.
    pub fn recall(&self)
        ensures
            memory_record(self.history()),
            self.contents() == memory_replay(self.history()),
    {
        proof {
            use_type_invariant(self);
        }
    }

    /// The keys under which something is kept, each once, in their order.
    pub fn keys(&self) -> (keys: Vec<String>)
        ensures
            in_order(json::texts(keys@)),
            forall|key: Seq<char>| #[trigger]
                json::texts(keys@).contains(key) <==> self.contents().contains_key(key),
    {
        proof {
            use_type_invariant(self);
            lemma_in_order(keys_of(self.entries@));
            lemma_contents(self.entries@);
        }
        let ghost names = keys_of(self.entries@);
        let mut keys: Vec<String> = Vec::new();
        let mut i: usize = 0;
        assert(json::texts(keys@) =~= names.take(0));
        while i < self.entries.len()
            invariant
                i <= self.entries@.len(),
                names == keys_of(self.entries@),
                json::texts(keys@) == names.take(i as int),
            decreases self.entries@.len() - i,
        {
            let ghost before = keys@;
            keys.push(self.entries[i].0.clone());
            assert(json::texts(keys@) =~= json::texts(before).push(names[i as int]));
            assert(names.take(i + 1) =~= names.take(i as int).push(names[i as int]));
            i += 1;
        }
        assert(names.take(i as int) =~= names);
        keys
    }

    /// What is kept under `key`.
    fn find(&self, key: &str) -> (found: Option<Vec<u8>>)
        ensures
            match found {
                Some(bytes) => self.contents().contains_key(key@) && self.contents()[key@]
                    == bytes@,
                None => !self.contents().contains_key(key@),
            },
    {
        proof {
            use_type_invariant(self);
            lemma_in_order(keys_of(self.entries@));
            lemma_contents(self.entries@);
        }
        let mut i: usize = 0;
        while i < self.entries.len()
            invariant
                i <= self.entries@.len(),
                forall|j: int| 0 <= j < i ==> (#[trigger] self.entries@[j]).0@ != key@,
                forall|k: Seq<char>| #[trigger]
                    contents_of(self.entries@).contains_key(k) <==> keys_of(
                        self.entries@,
                    ).contains(k),
                forall|j: int|
                    0 <= j < self.entries@.len() ==> contents_of(
                        self.entries@,
                    )[(#[trigger] self.entries@[j]).0@] == self.entries@[j].1@,
            decreases self.entries@.len() - i,
        {
            if same_text(self.entries[i].0.as_str(), key) {
                assert(keys_of(self.entries@)[i as int] == key@);
                return Some(slice_to_vec(self.entries[i].1.as_slice()));
            }
            i += 1;
        }
        proof {
            if keys_of(self.entries@).contains(key@) {
                let names = keys_of(self.entries@);
                let j = choose|j: int| 0 <= j < names.len() && names[j] == key@;
                assert(self.entries@[j].0@ == key@);
            }
        }
        None
    }
}

/// What a memory store replies to a call.
pub open spec fn memory_answers(contents: Map<Seq<char>, Seq<u8>>, call: Exchange) -> bool {
    match call {
        Exchange::GetPassword { key, reply } => reply == if !contents.contains_key(key) {
            Ok::<Option<Seq<char>>, ErrorView>(None)
        } else if utf8::valid_utf8(contents[key]) {
            Ok(Some(utf8::decode_utf8(contents[key])))
        } else {
            Err(
                ErrorView::KeyringError(
                    "Failed to retrieve token: "@ + chunks::utf8_error_text(contents[key]),
                ),
            )
        },
        Exchange::GetSecret { key, reply } => reply == if contents.contains_key(key) {
            Ok::<Option<Seq<u8>>, ErrorView>(Some(contents[key]))
        } else {
            Ok(None)
        },
        Exchange::SetPassword { reply, .. } => reply is Ok,
        Exchange::SetSecret { reply, .. } => reply is Ok,
        Exchange::Delete { key, reply } => reply == Ok::<bool, ErrorView>(
            contents.contains_key(key),
        ),
    }
}

/// What a memory store keeps after a call.
pub open spec fn memory_after(contents: Map<Seq<char>, Seq<u8>>, call: Exchange) -> Map<
    Seq<char>,
    Seq<u8>,
> {
    match call {
        Exchange::SetPassword { key, value, .. } => contents.insert(key, utf8::encode_utf8(value)),
        Exchange::SetSecret { key, value, .. } => contents.insert(key, value),
        Exchange::Delete { key, .. } => contents.remove(key),
        _ => contents,
    }
}

/// What a memory store keeps after several calls.
pub open spec fn memory_replay_from(
    contents: Map<Seq<char>, Seq<u8>>,
    calls: Seq<Exchange>,
) -> Map<Seq<char>, Seq<u8>>
    decreases calls.len(),
{
    if calls.len() == 0 {
        contents
    } else {
        memory_after(memory_replay_from(contents, calls.drop_last()), calls.last())
    }
}

/// Whether a memory store replies like this to several calls, each from what it keeps by then.
pub open spec fn memory_run(contents: Map<Seq<char>, Seq<u8>>, calls: Seq<Exchange>) -> bool {
    forall|k: int|
        0 <= k < calls.len() ==> memory_answers(
            memory_replay_from(contents, #[trigger] calls.take(k)),
            calls[k],
        )
}

/// What a memory store keeps after all its calls: it was empty at first.
pub open spec fn memory_replay(calls: Seq<Exchange>) -> Map<Seq<char>, Seq<u8>> {
    memory_replay_from(Map::empty(), calls)
}

/// Whether a memory store replied like this to all its calls.
pub open spec fn memory_record(calls: Seq<Exchange>) -> bool {
    memory_run(Map::empty(), calls)
}

/// One call more on the record.
proof fn lemma_record_push(calls: Seq<Exchange>, call: Exchange)
    requires
        memory_record(calls),
        memory_answers(memory_replay(calls), call),
    ensures
        memory_record(calls.push(call)),
        memory_replay(calls.push(call)) == memory_after(memory_replay(calls), call),
{
    let longer = calls.push(call);
    assert(longer.drop_last() =~= calls);
    assert forall|k: int| 0 <= k < longer.len() implies memory_answers(
        memory_replay(longer.take(k)),
        #[trigger] longer[k],
    ) by {
        if k < calls.len() {
            assert(longer.take(k) =~= calls.take(k));
            assert(longer[k] == calls[k]);
        } else {
            assert(longer.take(k) =~= calls);
        }
    }
}

impl SecretStore for MemoryStore {
    closed spec fn history(&self) -> Seq<Exchange> {
        self.calls@
    }

    fn get_password(&mut self, key: &str) -> (result: Result<Option<String>, TeamsError>)
        ensures
            memory_answers(old(self).contents(), final(self).history().last()),
            final(self).contents() == memory_after(
                old(self).contents(),
                final(self).history().last(),
            ),
    {
        let result: Result<Option<String>, TeamsError> = match self.find(key) {
            None => Ok(None),
            Some(bytes) => match text_from_utf8(bytes) {
                Ok(text) => {
                    proof {
                        utf8::encode_utf8_decode_utf8(text@);
                    }
                    Ok(Some(text))
                },
                Err(e) => Err(
                    TeamsError::KeyringError(joined("Failed to retrieve token: ", e.as_str())),
                ),
            },
        };
        let ghost call = Exchange::GetPassword {
            key: key@,
            reply: secret_store::password_reply(result),
        };
        proof {
            use_type_invariant(&*self);
            lemma_record_push(self.calls@, call);
        }
        self.calls = Ghost(self.calls@.push(call));
        result
    }

    fn set_password(&mut self, key: &str, value: &str) -> (result: Result<(), TeamsError>)
        ensures
            memory_answers(old(self).contents(), final(self).history().last()),
            final(self).contents() == memory_after(
                old(self).contents(),
                final(self).history().last(),
            ),
    {
        let result: Result<(), TeamsError> = Ok(());
        let ghost call = Exchange::SetPassword {
            key: key@,
            value: value@,
            reply: error::outcome(result),
        };
        proof {
            use_type_invariant(&*self);
            lemma_record_push(self.calls@, call);
        }
        let entries: Vec<(String, Vec<u8>)> = with(&self.entries, key, value.as_bytes());
        *self = MemoryStore { entries, calls: Ghost(self.calls@.push(call)) };
        result
    }

    fn get_secret(&mut self, key: &str) -> (result: Result<Option<Vec<u8>>, TeamsError>)
        ensures
            memory_answers(old(self).contents(), final(self).history().last()),
            final(self).contents() == memory_after(
                old(self).contents(),
                final(self).history().last(),
            ),
    {
        let result: Result<Option<Vec<u8>>, TeamsError> = Ok(self.find(key));
        let ghost call = Exchange::GetSecret {
            key: key@,
            reply: secret_store::secret_reply(result),
        };
        proof {
            use_type_invariant(&*self);
            lemma_record_push(self.calls@, call);
        }
        self.calls = Ghost(self.calls@.push(call));
        result
    }

    fn set_secret(&mut self, key: &str, value: &[u8]) -> (result: Result<(), TeamsError>)
        ensures
            memory_answers(old(self).contents(), final(self).history().last()),
            final(self).contents() == memory_after(
                old(self).contents(),
                final(self).history().last(),
            ),
    {
        let result: Result<(), TeamsError> = Ok(());
        let ghost call = Exchange::SetSecret {
            key: key@,
            value: value@,
            reply: error::outcome(result),
        };
        proof {
            use_type_invariant(&*self);
            lemma_record_push(self.calls@, call);
        }
        let entries: Vec<(String, Vec<u8>)> = with(&self.entries, key, value);
        *self = MemoryStore { entries, calls: Ghost(self.calls@.push(call)) };
        result
    }

    fn delete(&mut self, key: &str) -> (result: Result<bool, TeamsError>)
        ensures
            memory_answers(old(self).contents(), final(self).history().last()),
            final(self).contents() == memory_after(
                old(self).contents(),
                final(self).history().last(),
            ),
    {
        let existed: bool = self.find(key).is_some();
        let result: Result<bool, TeamsError> = Ok(existed);
        let ghost call = Exchange::Delete { key: key@, reply: error::outcome(result) };
        proof {
            use_type_invariant(&*self);
            lemma_record_push(self.calls@, call);
        }
        let entries: Vec<(String, Vec<u8>)> = without(&self.entries, key);
        *self = MemoryStore { entries, calls: Ghost(self.calls@.push(call)) };
        result
    }
}

/// Whether bytes are kept for each entry: those of the secret, or those that encode the password.
pub open spec fn keeps(
    contents: Map<Seq<char>, Seq<u8>>,
    entries: Map<Seq<char>, Entry>,
) -> bool {
    &&& contents.dom() == entries.dom()
    &&& forall|key: Seq<char>| #[trigger]
        entries.contains_key(key) ==> contents[key] == match entries[key] {
            Entry::Password(value) => utf8::encode_utf8(value),
            Entry::Secret(value) => value,
        }
}

/// A memory store is faithful: what it replies to a call is what a faithful store may reply, and it
/// goes on to keep what a faithful store does.
pub proof fn law_memory_store_is_faithful(
    contents: Map<Seq<char>, Seq<u8>>,
    entries: Map<Seq<char>, Entry>,
    call: Exchange,
)
    requires
        keeps(contents, entries),
        memory_answers(contents, call),
    ensures
        model::answers(entries, call),
        keeps(memory_after(contents, call), model::after(entries, call)),
{
    match call {
        Exchange::GetPassword { key, reply } => {
            assert(contents.contains_key(key) == entries.contains_key(key));
            if entries.contains_key(key) {
                if let Entry::Password(value) = entries[key] {
                    utf8::encode_utf8_valid_utf8(value);
                    utf8::encode_utf8_decode_utf8(value);
                }
            }
        },
        Exchange::GetSecret { key, reply } => {
            assert(contents.contains_key(key) == entries.contains_key(key));
        },
        Exchange::Delete { key, reply } => {
            assert(contents.contains_key(key) == entries.contains_key(key));
        },
        _ => {},
    }
    assert(memory_after(contents, call).dom() =~= model::after(entries, call).dom());
}

/// A memory store is faithful over any number of calls.
pub proof fn law_memory_runs_are_faithful(
    contents: Map<Seq<char>, Seq<u8>>,
    entries: Map<Seq<char>, Entry>,
    calls: Seq<Exchange>,
)
    requires
        keeps(contents, entries),
        memory_run(contents, calls),
    ensures
        model::faithful(entries, calls),
        keeps(memory_replay_from(contents, calls), model::replay(entries, calls)),
    decreases calls.len(),
{
    if calls.len() > 0 {
        let n = calls.len() - 1;
        let fewer = calls.drop_last();
        assert(calls.take(n) =~= fewer);
        assert forall|k: int| 0 <= k < fewer.len() implies memory_answers(
            memory_replay_from(contents, fewer.take(k)),
            #[trigger] fewer[k],
        ) by {
            assert(fewer.take(k) =~= calls.take(k));
            assert(fewer[k] == calls[k]);
        }
        law_memory_runs_are_faithful(contents, entries, fewer);
        law_memory_store_is_faithful(
            memory_replay_from(contents, fewer),
            model::replay(entries, fewer),
            calls[n],
        );
        assert forall|k: int| 0 <= k < calls.len() implies model::answers(
            model::replay(entries, calls.take(k)),
            #[trigger] calls[k],
        ) by {
            if k < n {
                assert(fewer.take(k) =~= calls.take(k));
                assert(fewer[k] == calls[k]);
            }
        }
    }
}

/// The calls that an operation adds to the record of a memory store are answered from what the
/// store kept before it, and leave what the store keeps after it.
pub proof fn law_memory_record_goes_on(before: Seq<Exchange>, after: Seq<Exchange>)
    requires
        memory_record(after),
        secret_store::continues(before, after),
    ensures
        memory_record(before),
        memory_run(memory_replay(before), secret_store::since(before, after)),
        memory_replay(after) == memory_replay_from(
            memory_replay(before),
            secret_store::since(before, after),
        ),
    decreases after.len(),
{
    let calls = secret_store::since(before, after);
    if after.len() == before.len() {
        assert(after =~= before);
        assert(calls =~= Seq::empty());
    } else {
        let n = after.len() - 1;
        let fewer = after.drop_last();
        assert(after.take(n) =~= fewer);
        assert forall|k: int| 0 <= k < fewer.len() implies memory_answers(
            memory_replay(fewer.take(k)),
            #[trigger] fewer[k],
        ) by {
            assert(fewer.take(k) =~= after.take(k));
            assert(fewer[k] == after[k]);
        }
        law_memory_record_goes_on(before, fewer);
        let part = secret_store::since(before, fewer);
        assert(calls.drop_last() =~= part);
        assert(calls.last() == after[n]);
        assert forall|k: int| 0 <= k < calls.len() implies memory_answers(
            memory_replay_from(memory_replay(before), calls.take(k)),
            #[trigger] calls[k],
        ) by {
            if k < part.len() {
                assert(calls.take(k) =~= part.take(k));
                assert(calls[k] == part[k]);
            } else {
                assert(calls.take(k) =~= part);
                assert(calls[k] == after[n]);
            }
        }
    }
}

/// Whatever an operation did to a memory store is what it does to a faithful store that starts
/// with the same entries: those that the calls before it left.
pub proof fn law_memory_operations_are_faithful(before: Seq<Exchange>, after: Seq<Exchange>)
    requires
        memory_record(after),
        secret_store::continues(before, after),
    ensures
        ({
            let calls = secret_store::since(before, after);
            let entries = model::replay(Map::empty(), before);
            &&& keeps(memory_replay(before), entries)
            &&& model::faithful(entries, calls)
            &&& model::replay(Map::empty(), after) == model::replay(entries, calls)
            &&& keeps(memory_replay(after), model::replay(entries, calls))
        }),
{
    let calls = secret_store::since(before, after);
    law_memory_record_goes_on(before, after);
    assert(keeps(Map::empty(), Map::empty())) by {
        assert(Map::<Seq<char>, Seq<u8>>::empty().dom() =~= Map::<Seq<char>, Entry>::empty().dom());
    }
    law_memory_runs_are_faithful(Map::empty(), Map::empty(), before);
    law_memory_runs_are_faithful(
        memory_replay(before),
        model::replay(Map::empty(), before),
        calls,
    );
    model::lemma_replay_split(Map::empty(), after, before.len() as int);
    assert(after.take(before.len() as int) =~= before);
}

/// A memory store keeps under a key what was last written there, a password as the bytes that encode
/// it, until it is deleted; reading changes nothing, and no call touches another key.
pub proof fn law_memory_keeps_what_it_is_given(
    contents: Map<Seq<char>, Seq<u8>>,
    call: Exchange,
    other: Seq<char>,
)
    ensures
        ({
            let after = memory_after(contents, call);
            &&& call is SetPassword ==> after.contains_key(call->SetPassword_key)
                && after[call->SetPassword_key] == utf8::encode_utf8(call->SetPassword_value)
            &&& call is SetSecret ==> after.contains_key(call->SetSecret_key)
                && after[call->SetSecret_key] == call->SetSecret_value
            &&& call is Delete ==> !after.contains_key(call->Delete_key)
            &&& call is GetPassword || call is GetSecret ==> after == contents
            &&& other != call.key() ==> after.contains_key(other) == contents.contains_key(other)
            &&& other != call.key() && contents.contains_key(other) ==> after[other]
                == contents[other]
        }),
{
}

/// A memory store replies with what it keeps: the bytes as they are, or the text that they encode.
/// It has nothing to give where it keeps nothing, and tells so of a deletion; it accepts every
/// write, and fails only where bytes read as a password encode no text.
pub proof fn law_memory_replies_with_what_it_keeps(
    contents: Map<Seq<char>, Seq<u8>>,
    call: Exchange,
)
    requires
        memory_answers(contents, call),
    ensures
        call is SetPassword ==> call->SetPassword_reply is Ok,
        call is SetSecret ==> call->SetSecret_reply is Ok,
        call is Delete ==> call->Delete_reply is Ok && call->Delete_reply->Ok_0
            == contents.contains_key(call->Delete_key),
        call is GetSecret ==> call->GetSecret_reply is Ok && (call->GetSecret_reply->Ok_0 is Some
            == contents.contains_key(call->GetSecret_key)),
        call is GetSecret && contents.contains_key(call->GetSecret_key)
            ==> call->GetSecret_reply->Ok_0->Some_0 == contents[call->GetSecret_key],
        call is GetPassword && !contents.contains_key(call->GetPassword_key)
            ==> call->GetPassword_reply is Ok && call->GetPassword_reply->Ok_0 is None,
        call is GetPassword && contents.contains_key(call->GetPassword_key) ==> (
        call->GetPassword_reply is Ok == utf8::valid_utf8(contents[call->GetPassword_key])),
        call is GetPassword && contents.contains_key(call->GetPassword_key)
            && call->GetPassword_reply is Ok ==> call->GetPassword_reply->Ok_0 is Some
            && utf8::encode_utf8(call->GetPassword_reply->Ok_0->Some_0)
            == contents[call->GetPassword_key],
{
    if call is GetPassword && contents.contains_key(call->GetPassword_key) && utf8::valid_utf8(
        contents[call->GetPassword_key],
    ) {
        utf8::decode_utf8_encode_utf8(contents[call->GetPassword_key]);
    }
}

/// Of keys in order, an earlier one comes before a later one.
pub proof fn law_keys_in_order(names: Seq<Seq<char>>, i: int, j: int)
    requires
        in_order(names),
        0 <= i < j < names.len(),
    ensures
        text::comes_before(names[i], names[j]),
{
}

} // verus!
