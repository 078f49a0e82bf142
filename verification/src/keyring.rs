//! The operations on stored tokens and on the index of profiles, for the store that the settings
//! select.

use crate::error;
use crate::error::{ErrorView, TeamsError};
use crate::json;
use crate::profiles;
use crate::profiles::{add_profile, list_profiles_in, remove_profile, write_profile_index};
use crate::secret_store;
use crate::secret_store::{Exchange, SecretStore};
use crate::settings;
use crate::settings::{chunk_bytes_for, disabled, store_kind, StoreKind};
use crate::tokens;
use crate::tokens::{delete_token_from, get_token_from, store_token_in};
use vstd::prelude::*;
use vstd::string::*;

verus! {

/// The settings of the process, and the stores that they choose from.
pub struct TokenStores<K, F> {
    /// The value of `TEAMS_CLI_DISABLE_KEYRING`, where it is set.
    pub disable_keyring: Option<String>,
    /// The value of `TEAMS_CLI_TOKEN_STORE`, where it is set.
    pub token_store: Option<String>,
    /// Whether the platform is Windows.
    pub windows: bool,
    /// The OS keyring.
    pub keyring: K,
    /// The file store, or why there is no directory for it.
    pub files: Result<F, TeamsError>,
}

/// A setting with its value taken by its view.
pub open spec fn setting(value: Option<String>) -> Option<Seq<char>> {
    match value {
        Some(text) => Some(text@),
        None => None,
    }
}

impl<K: SecretStore, F: SecretStore> TokenStores<K, F> {
    /// Whether the settings switch the stores off.
    pub open spec fn off(self) -> bool {
        settings::disables(setting(self.disable_keyring))
    }

    /// The store that the settings select, or why there is none.
    pub open spec fn selected(self) -> Result<StoreKind, ErrorView> {
        match settings::store_kind_of(setting(self.token_store)) {
            Ok(StoreKind::Keyring) => Ok(StoreKind::Keyring),
            Ok(StoreKind::File) => match self.files {
                Ok(_) => Ok(StoreKind::File),
                Err(e) => Err(e@),
            },
            Err(e) => Err(e),
        }
    }

    /// The record of the selected store.
    pub open spec fn history(self) -> Seq<Exchange> {
        match self.selected() {
            Ok(StoreKind::Keyring) => self.keyring.history(),
            Ok(StoreKind::File) => self.files->Ok_0.history(),
            Err(_) => Seq::empty(),
        }
    }

    /// Whether `after` differs from this at most in the selected store, which was called further.
    pub open spec fn leads_to(self, after: Self) -> bool {
        &&& after.disable_keyring == self.disable_keyring
        &&& after.token_store == self.token_store
        &&& after.windows == self.windows
        &&& after.selected() == self.selected()
        &&& self.selected() != Ok::<StoreKind, ErrorView>(StoreKind::Keyring) ==> after.keyring
            == self.keyring
        &&& self.selected() != Ok::<StoreKind, ErrorView>(StoreKind::File) ==> after.files
            == self.files
        &&& secret_store::continues(self.history(), after.history())
    }

    /// The calls to the selected store that lead from this to `after`.
    pub open spec fn calls_to(self, after: Self) -> Seq<Exchange> {
        secret_store::since(self.history(), after.history())
    }

    /// Whether the settings switch the stores off.
    pub fn is_off(&self) -> (off: bool)
        ensures
            off == self.off(),
    {
        match &self.disable_keyring {
            Some(value) => disabled(Some(value.as_str())),
            None => disabled(None),
        }
    }

    /// The store that the settings select.
    pub fn store(&self) -> (kind: Result<StoreKind, TeamsError>)
        ensures
            error::outcome(kind) == self.selected(),
    {
        let kind: Result<StoreKind, TeamsError> = match &self.token_store {
            Some(value) => store_kind(Some(value.as_str())),
            None => store_kind(None),
        };
        match kind {
            Ok(StoreKind::Keyring) => Ok(StoreKind::Keyring),
            Ok(StoreKind::File) => match &self.files {
                Ok(_) => Ok(StoreKind::File),
                Err(e) => Err(e.duplicate()),
            },
            Err(e) => Err(e),
        }
    }
}

/// The error for a store that is switched off.
pub open spec fn off_error() -> ErrorView {
    ErrorView::KeyringError("Keyring is disabled"@)
}

/// What storing a token comes to, for the settings and the stores before and after it.
pub open spec fn store_token_does<K: SecretStore, F: SecretStore>(
    before: TokenStores<K, F>,
    after: TokenStores<K, F>,
    profile: Seq<char>,
    token: Seq<char>,
    result: Result<(), ErrorView>,
) -> bool {
    if before.off() {
        after == before && result == Err::<(), ErrorView>(off_error())
    } else {
        match before.selected() {
            Err(e) => after == before && result == Err::<(), ErrorView>(e),
            Ok(kind) => {
                &&& before.leads_to(after)
                &&& tokens::store_token_run(
                    profile,
                    token,
                    settings::chunk_limit(kind, before.windows),
                    before.calls_to(after),
                    result,
                )
            },
        }
    }
}

/// Stores a serialized token under `profile` in the selected store.
pub fn store_token<K: SecretStore, F: SecretStore>(
    stores: &mut TokenStores<K, F>,
    profile: &str,
    token: &str,
) -> (result: Result<(), TeamsError>)
    ensures
        store_token_does(*old(stores), *final(stores), profile@, token@, error::outcome(result)),
        old(stores).off() ==> *final(stores) == *old(stores) && error::outcome(result) == Err::<
            (),
            ErrorView,
        >(off_error()),
        !old(stores).off() ==> match old(stores).selected() {
            Err(e) => *final(stores) == *old(stores) && error::outcome(result) == Err::<
                (),
                ErrorView,
            >(e),
            Ok(kind) => {
                &&& old(stores).leads_to(*final(stores))
                &&& tokens::store_token_run(
                    profile@,
                    token@,
                    settings::chunk_limit(kind, old(stores).windows),
                    old(stores).calls_to(*final(stores)),
                    error::outcome(result),
                )
            },
        },
{
    if stores.is_off() {
        return Err(TeamsError::KeyringError("Keyring is disabled".to_owned()));
    }
    let kind: StoreKind = match stores.store() {
        Ok(kind) => kind,
        Err(e) => {
            return Err(e);
        },
    };
    let limit: Option<usize> = chunk_bytes_for(kind, stores.windows);
    match kind {
        StoreKind::Keyring => store_token_in(&mut stores.keyring, profile, token, limit),
        StoreKind::File => match &mut stores.files {
            Ok(files) => store_token_in(files, profile, token, limit),
            Err(e) => Err(e.duplicate()),
        },
    }
}

/// What loading a token comes to, for the settings and the stores before and after it.
pub open spec fn get_token_does<K: SecretStore, F: SecretStore>(
    before: TokenStores<K, F>,
    after: TokenStores<K, F>,
    profile: Seq<char>,
    result: Result<Seq<char>, ErrorView>,
) -> bool {
    if before.off() {
        after == before && result == Err::<Seq<char>, ErrorView>(off_error())
    } else {
        match before.selected() {
            Err(e) => after == before && result == Err::<Seq<char>, ErrorView>(e),
            Ok(_) => {
                &&& before.leads_to(after)
                &&& tokens::get_token_run(profile, before.calls_to(after), result)
            },
        }
    }
}

/// Loads the serialized token stored under `profile` in the selected store.
pub fn get_token<K: SecretStore, F: SecretStore>(
    stores: &mut TokenStores<K, F>,
    profile: &str,
) -> (result: Result<String, TeamsError>)
    ensures
        get_token_does(*old(stores), *final(stores), profile@, error::text_outcome(result)),
        old(stores).off() ==> *final(stores) == *old(stores) && error::text_outcome(result) == Err::<
            Seq<char>,
            ErrorView,
        >(off_error()),
        !old(stores).off() ==> match old(stores).selected() {
            Err(e) => *final(stores) == *old(stores) && error::text_outcome(result) == Err::<
                Seq<char>,
                ErrorView,
            >(e),
            Ok(_) => {
                &&& old(stores).leads_to(*final(stores))
                &&& tokens::get_token_run(
                    profile@,
                    old(stores).calls_to(*final(stores)),
                    error::text_outcome(result),
                )
            },
        },
{
    if stores.is_off() {
        return Err(TeamsError::KeyringError("Keyring is disabled".to_owned()));
    }
    match stores.store() {
        Ok(StoreKind::Keyring) => get_token_from(&mut stores.keyring, profile),
        Ok(StoreKind::File) => match &mut stores.files {
            Ok(files) => get_token_from(files, profile),
            Err(e) => Err(e.duplicate()),
        },
        Err(e) => Err(e),
    }
}

/// What deleting a token comes to, for the settings and the stores before and after it.
pub open spec fn delete_token_does<K: SecretStore, F: SecretStore>(
    before: TokenStores<K, F>,
    after: TokenStores<K, F>,
    profile: Seq<char>,
    result: Result<(), ErrorView>,
) -> bool {
    if before.off() {
        after == before && result is Ok
    } else {
        match before.selected() {
            Err(e) => after == before && result == Err::<(), ErrorView>(e),
            Ok(kind) => {
                &&& before.leads_to(after)
                &&& tokens::delete_token_run(
                    profile,
                    settings::chunk_limit(kind, before.windows) is Some,
                    before.calls_to(after),
                    result,
                )
            },
        }
    }
}

/// Deletes the token stored under `profile` in the selected store. There is nothing to delete
/// where the stores are switched off.
pub fn delete_token<K: SecretStore, F: SecretStore>(
    stores: &mut TokenStores<K, F>,
    profile: &str,
) -> (result: Result<(), TeamsError>)
    ensures
        delete_token_does(*old(stores), *final(stores), profile@, error::outcome(result)),
        old(stores).off() ==> *final(stores) == *old(stores) && result is Ok,
        !old(stores).off() ==> match old(stores).selected() {
            Err(e) => *final(stores) == *old(stores) && error::outcome(result) == Err::<
                (),
                ErrorView,
            >(e),
            Ok(kind) => {
                &&& old(stores).leads_to(*final(stores))
                &&& tokens::delete_token_run(
                    profile@,
                    settings::chunk_limit(kind, old(stores).windows) is Some,
                    old(stores).calls_to(*final(stores)),
                    error::outcome(result),
                )
            },
        },
{
    if stores.is_off() {
        return Ok(());
    }
    let kind: StoreKind = match stores.store() {
        Ok(kind) => kind,
        Err(e) => {
            return Err(e);
        },
    };
    let chunked: bool = chunk_bytes_for(kind, stores.windows).is_some();
    match kind {
        StoreKind::Keyring => delete_token_from(&mut stores.keyring, profile, chunked),
        StoreKind::File => match &mut stores.files {
            Ok(files) => delete_token_from(files, profile, chunked),
            Err(e) => Err(e.duplicate()),
        },
    }
}

/// What listing the profiles comes to, for the settings and the stores before and after it.
pub open spec fn list_profiles_does<K: SecretStore, F: SecretStore>(
    before: TokenStores<K, F>,
    after: TokenStores<K, F>,
    list: Seq<Seq<char>>,
) -> bool {
    if before.off() || before.selected() is Err {
        after == before && list.len() == 0
    } else {
        &&& before.leads_to(after)
        &&& profiles::list_run(before.calls_to(after), list)
    }
}

/// The profiles that the index in the selected store lists: none where the stores are switched
/// off, none is selected, or the index cannot be read.
///
/// A keyring cannot enumerate its entries, so the index is an entry of its own.
pub fn list_profiles<K: SecretStore, F: SecretStore>(stores: &mut TokenStores<K, F>) -> (list: Vec<
    String,
>)
    ensures
        list_profiles_does(*old(stores), *final(stores), json::texts(list@)),
        old(stores).off() || old(stores).selected() is Err ==> *final(stores) == *old(stores)
            && list@.len() == 0,
        !old(stores).off() && old(stores).selected() is Ok ==> {
            &&& old(stores).leads_to(*final(stores))
            &&& profiles::list_run(old(stores).calls_to(*final(stores)), json::texts(list@))
        },
{
    if stores.is_off() {
        return Vec::new();
    }
    match stores.store() {
        Ok(StoreKind::Keyring) => list_profiles_in(&mut stores.keyring),
        Ok(StoreKind::File) => match &mut stores.files {
            Ok(files) => list_profiles_in(files),
            Err(_) => Vec::new(),
        },
        Err(_) => Vec::new(),
    }
}

/// Writes the index in the selected store.
fn write_index<K: SecretStore, F: SecretStore>(
    stores: &mut TokenStores<K, F>,
    list: &Vec<String>,
) -> (result: Result<(), TeamsError>)
    ensures
        match old(stores).selected() {
            Err(e) => *final(stores) == *old(stores) && error::outcome(result) == Err::<
                (),
                ErrorView,
            >(e),
            Ok(_) => {
                &&& old(stores).leads_to(*final(stores))
                &&& profiles::write_index_run(
                    json::texts(list@),
                    old(stores).calls_to(*final(stores)),
                    error::outcome(result),
                )
            },
        },
{
    match stores.store() {
        Ok(StoreKind::Keyring) => write_profile_index(&mut stores.keyring, list),
        Ok(StoreKind::File) => match &mut stores.files {
            Ok(files) => write_profile_index(files, list),
            Err(e) => Err(e.duplicate()),
        },
        Err(e) => Err(e),
    }
}

/// What adding a profile comes to, for the settings and the stores before and after it.
pub open spec fn add_profile_does<K: SecretStore, F: SecretStore>(
    before: TokenStores<K, F>,
    after: TokenStores<K, F>,
    profile: Seq<char>,
    result: Result<(), ErrorView>,
) -> bool {
    if before.off() {
        after == before && result is Ok
    } else {
        match before.selected() {
            Err(e) => after == before && result == Err::<(), ErrorView>(e),
            Ok(_) => {
                &&& before.leads_to(after)
                &&& profiles::add_run(profile, before.calls_to(after), result)
            },
        }
    }
}

/// Adds `profile` to the index in the selected store, unless it is listed there already. There is
/// no index to keep where the stores are switched off.
pub fn add_profile_to_index<K: SecretStore, F: SecretStore>(
    stores: &mut TokenStores<K, F>,
    profile: &str,
) -> (result: Result<(), TeamsError>)
    ensures
        add_profile_does(*old(stores), *final(stores), profile@, error::outcome(result)),
        old(stores).off() ==> *final(stores) == *old(stores) && result is Ok,
        !old(stores).off() ==> match old(stores).selected() {
            Err(e) => *final(stores) == *old(stores) && error::outcome(result) == Err::<
                (),
                ErrorView,
            >(e),
            Ok(_) => {
                &&& old(stores).leads_to(*final(stores))
                &&& profiles::add_run(
                    profile@,
                    old(stores).calls_to(*final(stores)),
                    error::outcome(result),
                )
            },
        },
{
    if stores.is_off() {
        return Ok(());
    }
    let ghost before = *stores;
    let list: Vec<String> = list_profiles(stores);
    let ghost mid = *stores;
    let longer: Vec<String> = add_profile(list, profile);
    let result: Result<(), TeamsError> = write_index(stores, &longer);
    proof {
        if before.selected() is Ok {
            assert(before.calls_to(*stores).skip(1) =~= mid.calls_to(*stores));
            assert(before.calls_to(*stores)[0] == before.calls_to(mid)[0]);
        }
    }
    result
}

/// What removing a profile comes to, for the settings and the stores before and after it.
pub open spec fn remove_profile_does<K: SecretStore, F: SecretStore>(
    before: TokenStores<K, F>,
    after: TokenStores<K, F>,
    profile: Seq<char>,
    result: Result<(), ErrorView>,
) -> bool {
    if before.off() {
        after == before && result is Ok
    } else {
        match before.selected() {
            Err(e) => after == before && result == Err::<(), ErrorView>(e),
            Ok(_) => {
                &&& before.leads_to(after)
                &&& profiles::remove_run(profile, before.calls_to(after), result)
            },
        }
    }
}

/// Removes `profile` from the index in the selected store. There is no index to keep where the
/// stores are switched off.
pub fn remove_profile_from_index<K: SecretStore, F: SecretStore>(
    stores: &mut TokenStores<K, F>,
    profile: &str,
) -> (result: Result<(), TeamsError>)
    ensures
        remove_profile_does(*old(stores), *final(stores), profile@, error::outcome(result)),
        old(stores).off() ==> *final(stores) == *old(stores) && result is Ok,
        !old(stores).off() ==> match old(stores).selected() {
            Err(e) => *final(stores) == *old(stores) && error::outcome(result) == Err::<
                (),
                ErrorView,
            >(e),
            Ok(_) => {
                &&& old(stores).leads_to(*final(stores))
                &&& profiles::remove_run(
                    profile@,
                    old(stores).calls_to(*final(stores)),
                    error::outcome(result),
                )
            },
        },
{
    if stores.is_off() {
        return Ok(());
    }
    let ghost before = *stores;
    let list: Vec<String> = list_profiles(stores);
    let ghost mid = *stores;
    let shorter: Vec<String> = remove_profile(list, profile);
    let result: Result<(), TeamsError> = write_index(stores, &shorter);
    proof {
        if before.selected() is Ok {
            assert(before.calls_to(*stores).skip(1) =~= mid.calls_to(*stores));
            assert(before.calls_to(*stores)[0] == before.calls_to(mid)[0]);
        }
    }
    result
}

} // verus!
