//! The index of profiles: a list of names, kept as JSON in one entry of the store.

use crate::error;
use crate::error::{ErrorView, TeamsError};
use crate::json;
use crate::json::{read_strings, write_strings};
use crate::keys;
use crate::keys::index_key;
use crate::secret_store;
use crate::secret_store::{Exchange, SecretStore};
use crate::text::{joined, same_text};
use vstd::prelude::*;
use vstd::string::*;

verus! {

/// The profiles that an index lists; none where the text is no list of names.
pub open spec fn indexed_profiles(index: Seq<char>) -> Seq<Seq<char>> {
    match json::json_strings(index) {
        Some(list) => list,
        None => Seq::empty(),
    }
}

/// The profiles that a reply of the store lists; none where there is no index or the store failed.
pub open spec fn listed_profiles(reply: Result<Option<Seq<char>>, ErrorView>) -> Seq<Seq<char>> {
    match reply {
        Ok(Some(index)) => indexed_profiles(index),
        _ => Seq::empty(),
    }
}

/// A list of profiles with one more, unless it is there already.
pub open spec fn with_profile(list: Seq<Seq<char>>, profile: Seq<char>) -> Seq<Seq<char>> {
    if list.contains(profile) {
        list
    } else {
        list.push(profile)
    }
}

/// A list of profiles without one, wherever it stands in it.
pub open spec fn without_profile(list: Seq<Seq<char>>, profile: Seq<char>) -> Seq<Seq<char>> {
    list.filter(|name: Seq<char>| name != profile)
}

/// The profiles that `index` lists.
pub fn parse_profile_index(index: &str) -> (list: Vec<String>)
    ensures
        json::texts(list@) == indexed_profiles(index@),
{
    match read_strings(index) {
        Some(list) => list,
        None => {
            let list: Vec<String> = Vec::new();
            assert(json::texts(list@) =~= Seq::empty());
            list
        },
    }
}

/// Whether `list` holds `profile`.
fn holds(list: &Vec<String>, profile: &str) -> (held: bool)
    ensures
        held == json::texts(list@).contains(profile@),
{
    let ghost names = json::texts(list@);
    let mut i: usize = 0;
    while i < list.len()
        invariant
            i <= list@.len(),
            names == json::texts(list@),
            forall|j: int| 0 <= j < i ==> names[j] != profile@,
        decreases list@.len() - i,
    {
        assert(names[i as int] == list@[i as int]@);
        if same_text(list[i].as_str(), profile) {
            return true;
        }
        i += 1;
    }
    false
}

/// `list` with `profile` added at the end, unless it is there already.
pub fn add_profile(list: Vec<String>, profile: &str) -> (longer: Vec<String>)
    ensures
        json::texts(longer@) == with_profile(json::texts(list@), profile@),
{
    let mut longer: Vec<String> = list;
    if !holds(&longer, profile) {
        longer.push(profile.to_owned());
        assert(json::texts(longer@) =~= json::texts(list@).push(profile@));
    }
    longer
}

/// `list` without `profile`.
pub fn remove_profile(list: Vec<String>, profile: &str) -> (shorter: Vec<String>)
    ensures
        json::texts(shorter@) == without_profile(json::texts(list@), profile@),
{
    let ghost names = json::texts(list@);
    let mut shorter: Vec<String> = Vec::new();
    let mut i: usize = 0;
    assert(names.take(0).filter(|name: Seq<char>| name != profile@) =~= Seq::empty()) by {
        reveal(Seq::filter);
    }
    assert(json::texts(shorter@) =~= Seq::empty());
    while i < list.len()
        invariant
            i <= list@.len(),
            names == json::texts(list@),
            json::texts(shorter@) == without_profile(names.take(i as int), profile@),
        decreases list@.len() - i,
    {
        let ghost before = shorter@;
        let kept: bool = !same_text(list[i].as_str(), profile);
        if kept {
            shorter.push(list[i].clone());
        }
        proof {
            reveal(Seq::filter);
            let longer = names.take(i + 1);
            assert(longer.drop_last() =~= names.take(i as int));
            assert(longer.last() == list@[i as int]@);
            if kept {
                assert(json::texts(shorter@) =~= json::texts(before).push(longer.last()));
            }
            assert(json::texts(shorter@) == without_profile(longer, profile@));
        }
        i += 1;
    }
    assert(names.take(i as int) =~= names);
    shorter
}

/// One look at the index.
pub open spec fn list_run(calls: Seq<Exchange>, list: Seq<Seq<char>>) -> bool {
    &&& calls.len() == 1
    &&& calls[0] matches Exchange::GetPassword { key, reply } && {
        &&& key == keys::profile_index_key()
        &&& list == listed_profiles(reply)
    }
}

/// Reads the list of profiles from `store`. A store that fails, or has no index, lists none.
pub fn list_profiles_in<S: SecretStore>(store: &mut S) -> (list: Vec<String>)
    ensures
        secret_store::continues(old(store).history(), final(store).history()),
        list_run(
            secret_store::since(old(store).history(), final(store).history()),
            json::texts(list@),
        ),
{
    let key: String = index_key();
    match store.get_password(key.as_str()) {
        Ok(Some(index)) => parse_profile_index(index.as_str()),
        Ok(None) => {
            let list: Vec<String> = Vec::new();
            assert(json::texts(list@) =~= Seq::empty());
            list
        },
        Err(_) => {
            let list: Vec<String> = Vec::new();
            assert(json::texts(list@) =~= Seq::empty());
            list
        },
    }
}

/// The error for an index that could not be written.
pub open spec fn store_index_error(e: ErrorView) -> ErrorView {
    ErrorView::KeyringError("Failed to store index: "@ + e.message())
}

/// One write of the index.
pub open spec fn write_index_run(
    list: Seq<Seq<char>>,
    calls: Seq<Exchange>,
    result: Result<(), ErrorView>,
) -> bool {
    &&& calls.len() == 1
    &&& calls[0] matches Exchange::SetPassword { key, value, reply } && {
        &&& key == keys::profile_index_key()
        &&& value == json::json_strings_text(list)
        &&& json::json_strings(value) == Some(list)
        &&& result == match reply {
            Ok(_) => Ok::<(), ErrorView>(()),
            Err(e) => Err::<(), ErrorView>(store_index_error(e)),
        }
    }
}

/// Writes the list of profiles to `store`.
pub fn write_profile_index<S: SecretStore>(store: &mut S, list: &Vec<String>) -> (result: Result<
    (),
    TeamsError,
>)
    ensures
        secret_store::continues(old(store).history(), final(store).history()),
        write_index_run(
            json::texts(list@),
            secret_store::since(old(store).history(), final(store).history()),
            error::outcome(result),
        ),
{
    let index: String = match write_strings(list) {
        Ok(text) => text,
        Err(e) => {
            return Err(
                TeamsError::KeyringError(
                    joined("Failed to serialize index: ", e.to_string().as_str()),
                ),
            );
        },
    };
    let key: String = index_key();
    match store.set_password(key.as_str(), index.as_str()) {
        Ok(()) => Ok(()),
        Err(e) => Err(
            TeamsError::KeyringError(joined("Failed to store index: ", e.message().as_str())),
        ),
    }
}

/// Adding a profile to the index: it is read, and written with the profile in it.
pub open spec fn add_run(
    profile: Seq<char>,
    calls: Seq<Exchange>,
    result: Result<(), ErrorView>,
) -> bool {
    &&& calls.len() == 2
    &&& calls[0] matches Exchange::GetPassword { key, reply } && {
        &&& key == keys::profile_index_key()
        &&& write_index_run(with_profile(listed_profiles(reply), profile), calls.skip(1), result)
    }
}

/// Removing a profile from the index: it is read, and written without the profile.
pub open spec fn remove_run(
    profile: Seq<char>,
    calls: Seq<Exchange>,
    result: Result<(), ErrorView>,
) -> bool {
    &&& calls.len() == 2
    &&& calls[0] matches Exchange::GetPassword { key, reply } && {
        &&& key == keys::profile_index_key()
        &&& write_index_run(without_profile(listed_profiles(reply), profile), calls.skip(1), result)
    }
}

/// Adding a profile where it is listed already changes nothing, so adding twice is adding once.
pub proof fn law_adding_twice_is_adding_once(list: Seq<Seq<char>>, profile: Seq<char>)
    ensures
        with_profile(with_profile(list, profile), profile) == with_profile(list, profile),
        with_profile(list, profile).contains(profile),
{
    if !list.contains(profile) {
        assert(list.push(profile)[list.len() as int] == profile);
    }
}

/// Adding a profile keeps a list free of repetitions, and every profile that was there.
pub proof fn law_adding_keeps_names_unique(list: Seq<Seq<char>>, profile: Seq<char>)
    ensures
        list.no_duplicates() ==> with_profile(list, profile).no_duplicates(),
        forall|name: Seq<char>|
            #[trigger] with_profile(list, profile).contains(name) <==> list.contains(name) || name
                == profile,
{
    let longer = with_profile(list, profile);
    if !list.contains(profile) {
        assert forall|name: Seq<char>| #[trigger] longer.contains(name) <==> list.contains(name)
            || name == profile by {
            if list.contains(name) {
                let i = choose|i: int| 0 <= i < list.len() && list[i] == name;
                assert(longer[i] == name);
            }
            if name == profile {
                assert(longer[list.len() as int] == name);
            }
            if longer.contains(name) && name != profile {
                let i = choose|i: int| 0 <= i < longer.len() && longer[i] == name;
                assert(list[i] == name);
            }
        }
    }
}

/// Removing a profile leaves all others, and none of it.
pub proof fn law_removing_removes_it_alone(list: Seq<Seq<char>>, profile: Seq<char>)
    ensures
        forall|name: Seq<char>|
            #[trigger] without_profile(list, profile).contains(name) <==> list.contains(name)
                && name != profile,
    decreases list.len(),
{
    reveal(Seq::filter);
    let shorter = without_profile(list, profile);
    if list.len() > 0 {
        let rest = list.drop_last();
        law_removing_removes_it_alone(rest, profile);
        let fewer = without_profile(rest, profile);
        assert forall|name: Seq<char>| #[trigger] shorter.contains(name) <==> list.contains(name)
            && name != profile by {
            assert(fewer.contains(name) <==> rest.contains(name) && name != profile);
            if list.contains(name) {
                let i = choose|i: int| 0 <= i < list.len() && list[i] == name;
                if i < rest.len() {
                    assert(rest[i] == name);
                }
            }
            if rest.contains(name) {
                let i = choose|i: int| 0 <= i < rest.len() && rest[i] == name;
                assert(list[i] == name);
            }
            if list.last() != profile {
                assert(shorter == fewer.push(list.last()));
                assert(shorter[fewer.len() as int] == list.last());
                if fewer.contains(name) {
                    let i = choose|i: int| 0 <= i < fewer.len() && fewer[i] == name;
                    assert(shorter[i] == name);
                }
                if shorter.contains(name) {
                    let i = choose|i: int| 0 <= i < shorter.len() && shorter[i] == name;
                    if i < fewer.len() {
                        assert(fewer[i] == name);
                    } else {
                        assert(list[list.len() - 1] == name);
                    }
                }
            } else {
                assert(shorter == fewer);
            }
        }
    }
}

/// Removing a profile that was just added gives the list as it was before, where it was not in it.
pub proof fn law_removing_undoes_adding(list: Seq<Seq<char>>, profile: Seq<char>)
    requires
        !list.contains(profile),
    ensures
        without_profile(with_profile(list, profile), profile) == list,
{
    reveal(Seq::filter);
    assert(list.push(profile).drop_last() =~= list);
    lemma_nothing_to_remove(list, profile);
}

/// A list without the profile stays as it is.
proof fn lemma_nothing_to_remove(list: Seq<Seq<char>>, profile: Seq<char>)
    requires
        !list.contains(profile),
    ensures
        without_profile(list, profile) == list,
    decreases list.len(),
{
    reveal(Seq::filter);
    if list.len() > 0 {
        let rest = list.drop_last();
        assert forall|i: int| 0 <= i < rest.len() implies rest[i] != profile by {
            assert(list[i] == rest[i]);
        }
        lemma_nothing_to_remove(rest, profile);
        assert(list.last() == list[list.len() - 1]);
        assert(rest.push(list.last()) =~= list);
    } else {
        assert(without_profile(list, profile) =~= list);
    }
}

/// Adding a profile that is listed leaves the list as it is. Adding another puts it behind the list,
/// which stands unchanged before it.
pub proof fn law_adding_puts_it_last(list: Seq<Seq<char>>, profile: Seq<char>)
    ensures
        list.contains(profile) ==> with_profile(list, profile) == list,
        !list.contains(profile) ==> with_profile(list, profile).len() == list.len() + 1,
        !list.contains(profile) ==> with_profile(list, profile).drop_last() == list,
        !list.contains(profile) ==> with_profile(list, profile).last() == profile,
{
    assert(list.push(profile).drop_last() =~= list);
}

/// Removing a profile leaves the other names, each as often as before and in the same order: the
/// places of the list where another name stands, one after the other, give what is left.
pub proof fn law_removing_keeps_the_others_in_order(list: Seq<Seq<char>>, profile: Seq<char>) -> (places:
    Seq<int>)
    ensures
        places.len() == without_profile(list, profile).len(),
        forall|j: int, k: int|
            0 <= j < k < places.len() ==> (#[trigger] places[j]) < (#[trigger] places[k]),
        forall|k: int|
            0 <= k < places.len() ==> 0 <= (#[trigger] places[k]) < list.len() && without_profile(
                list,
                profile,
            )[k] == list[places[k]],
        forall|i: int|
            0 <= i < list.len() ==> ((#[trigger] list[i]) != profile <==> places.contains(i)),
    decreases list.len(),
{
    reveal(Seq::filter);
    if list.len() == 0 {
        Seq::empty()
    } else {
        let n = list.len() - 1;
        let rest = list.drop_last();
        let fewer = law_removing_keeps_the_others_in_order(rest, profile);
        let places = if list.last() != profile {
            fewer.push(n)
        } else {
            fewer
        };
        let left = without_profile(list, profile);
        let part = without_profile(rest, profile);
        assert(left == if list.last() != profile {
            part.push(list.last())
        } else {
            part
        });
        assert forall|k: int| 0 <= k < places.len() implies 0 <= (#[trigger] places[k]) < list.len()
            && left[k] == list[places[k]] by {
            if k < fewer.len() {
                assert(places[k] == fewer[k]);
                assert(rest[fewer[k]] == list[fewer[k]]);
            }
        }
        assert forall|j: int, k: int| 0 <= j < k < places.len() implies (#[trigger] places[j]) < (
        #[trigger] places[k]) by {
            assert(places[j] == fewer[j]);
            if k < fewer.len() {
                assert(places[k] == fewer[k]);
            }
        }
        assert forall|i: int| 0 <= i < list.len() implies ((#[trigger] list[i]) != profile
            <==> places.contains(i)) by {
            if i < n {
                assert(rest[i] == list[i]);
                if fewer.contains(i) {
                    let k = choose|k: int| 0 <= k < fewer.len() && fewer[k] == i;
                    assert(places[k] == i);
                }
                if places.contains(i) {
                    let k = choose|k: int| 0 <= k < places.len() && places[k] == i;
                    assert(fewer[k] == i);
                }
            } else {
                if list.last() != profile {
                    assert(places[fewer.len() as int] == n);
                }
                if places.contains(i) && list.last() == profile {
                    let k = choose|k: int| 0 <= k < places.len() && places[k] == i;
                    assert(0 <= fewer[k] < rest.len());
                }
            }
        }
        places
    }
}

/// Removing a profile takes away each time it stands in the list, and every other name stands as
/// often as before. A list without repetitions stays without.
pub proof fn law_removing_keeps_the_counts(list: Seq<Seq<char>>, profile: Seq<char>)
    ensures
        without_profile(list, profile).len() + list.to_multiset().count(profile) == list.len(),
        without_profile(list, profile).to_multiset().count(profile) == 0,
        forall|name: Seq<char>|
            name != profile ==> #[trigger] without_profile(list, profile).to_multiset().count(name)
                == list.to_multiset().count(name),
        list.no_duplicates() ==> without_profile(list, profile).no_duplicates(),
    decreases list.len(),
{
    broadcast use vstd::seq_lib::group_to_multiset_ensures;
    reveal(Seq::filter);
    let left = without_profile(list, profile);
    if list.len() > 0 {
        let rest = list.drop_last();
        let part = without_profile(rest, profile);
        law_removing_keeps_the_counts(rest, profile);
        assert(rest.push(list.last()) =~= list);
        assert(left == if list.last() != profile {
            part.push(list.last())
        } else {
            part
        });
    }
    if list.no_duplicates() {
        let places = law_removing_keeps_the_others_in_order(list, profile);
        assert forall|j: int, k: int| 0 <= j < left.len() && 0 <= k < left.len() && j
            != k implies left[j] != left[k] by {
            assert(places[j] != places[k]) by {
                if j < k {
                    assert(places[j] < places[k]);
                } else {
                    assert(places[k] < places[j]);
                }
            }
        }
    }
}

/// What an index lists is what it reads as; nothing where it is no list, where there is none, and
/// where the store fails.
pub proof fn law_what_is_listed(index: Seq<char>, e: ErrorView)
    ensures
        json::json_strings(index) is Some ==> listed_profiles(Ok(Some(index))) == json::json_strings(
            index,
        )->Some_0,
        json::json_strings(index) is None ==> listed_profiles(Ok(Some(index))).len() == 0,
        indexed_profiles(index) == listed_profiles(Ok(Some(index))),
        listed_profiles(Ok(None)).len() == 0,
        listed_profiles(Err(e)).len() == 0,
{
}

/// Listing asks once, for the entry `profile-index`, and gives what the reply lists.
pub proof fn law_listing_reads_the_index(calls: Seq<Exchange>, list: Seq<Seq<char>>)
    requires
        list_run(calls, list),
    ensures
        calls.len() == 1,
        calls[0] is GetPassword,
        calls[0]->GetPassword_key == "profile-index"@,
        list == listed_profiles(calls[0]->GetPassword_reply),
{
}

/// Adding a profile reads the index and then writes one that reads as what was listed with the
/// profile behind it, unless it was listed already. An error of that write is returned as one of
/// the index, and nothing else is an error.
pub proof fn law_adding_writes_the_longer_list(
    profile: Seq<char>,
    calls: Seq<Exchange>,
    result: Result<(), ErrorView>,
)
    requires
        add_run(profile, calls, result),
    ensures
        calls.len() == 2,
        calls[0] is GetPassword,
        calls[0]->GetPassword_key == "profile-index"@,
        calls[1] is SetPassword,
        calls[1]->SetPassword_key == "profile-index"@,
        ({
            let listed = listed_profiles(calls[0]->GetPassword_reply);
            json::json_strings(calls[1]->SetPassword_value) == Some(
                if listed.contains(profile) {
                    listed
                } else {
                    listed.push(profile)
                },
            )
        }),
        calls[1]->SetPassword_reply is Ok ==> result is Ok,
        calls[1]->SetPassword_reply is Err ==> result == Err::<(), ErrorView>(
            ErrorView::KeyringError(
                "Failed to store index: "@ + match calls[1]->SetPassword_reply->Err_0 {
                    ErrorView::InvalidInput(text) => text,
                    ErrorView::KeyringError(text) => text,
                },
            ),
        ),
{
}

/// Removing a profile reads the index and then writes one that reads as what was listed without the
/// profile: the other names, each as often as before and in the same order. An error of that write
/// is returned as one of the index, and nothing else is an error.
pub proof fn law_removing_writes_the_shorter_list(
    profile: Seq<char>,
    calls: Seq<Exchange>,
    result: Result<(), ErrorView>,
) -> (places: Seq<int>)
    requires
        remove_run(profile, calls, result),
    ensures
        calls.len() == 2,
        calls[0] is GetPassword,
        calls[0]->GetPassword_key == "profile-index"@,
        calls[1] is SetPassword,
        calls[1]->SetPassword_key == "profile-index"@,
        ({
            let listed = listed_profiles(calls[0]->GetPassword_reply);
            let written = json::json_strings(calls[1]->SetPassword_value);
            &&& written is Some
            &&& places.len() == written->Some_0.len()
            &&& forall|j: int, k: int|
                0 <= j < k < places.len() ==> (#[trigger] places[j]) < (#[trigger] places[k])
            &&& forall|k: int|
                0 <= k < places.len() ==> 0 <= (#[trigger] places[k]) < listed.len()
                    && written->Some_0[k] == listed[places[k]]
            &&& forall|i: int|
                0 <= i < listed.len() ==> ((#[trigger] listed[i]) != profile <==> places.contains(i))
        }),
        calls[1]->SetPassword_reply is Ok ==> result is Ok,
        calls[1]->SetPassword_reply is Err ==> result == Err::<(), ErrorView>(
            ErrorView::KeyringError(
                "Failed to store index: "@ + match calls[1]->SetPassword_reply->Err_0 {
                    ErrorView::InvalidInput(text) => text,
                    ErrorView::KeyringError(text) => text,
                },
            ),
        ),
{
    law_removing_keeps_the_others_in_order(
        listed_profiles(calls[0]->GetPassword_reply),
        profile,
    )
}

/// Writing the index asks once, to set the entry `profile-index` to a text that reads as the list.
/// An error of that write is returned as one of the index, and nothing else is an error.
pub proof fn law_writing_the_index(
    list: Seq<Seq<char>>,
    calls: Seq<Exchange>,
    result: Result<(), ErrorView>,
)
    requires
        write_index_run(list, calls, result),
    ensures
        calls.len() == 1,
        calls[0] is SetPassword,
        calls[0]->SetPassword_key == "profile-index"@,
        json::json_strings(calls[0]->SetPassword_value) == Some(list),
        calls[0]->SetPassword_reply is Ok ==> result is Ok,
        calls[0]->SetPassword_reply is Err ==> result == Err::<(), ErrorView>(
            ErrorView::KeyringError(
                "Failed to store index: "@ + match calls[0]->SetPassword_reply->Err_0 {
                    ErrorView::InvalidInput(text) => text,
                    ErrorView::KeyringError(text) => text,
                },
            ),
        ),
{
}

} // verus!
