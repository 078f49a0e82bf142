//! What the operations for the selected store do, told by the settings as they stand: where they
//! are switched off, which store they use, and that they leave the other one alone.

use crate::error::ErrorView;
use crate::keyring;
use crate::keyring::TokenStores;
use crate::profiles;
use crate::secret_store;
use crate::secret_store::SecretStore;
use crate::settings;
use crate::settings::StoreKind;
use crate::tokens;
use vstd::prelude::*;

verus! {

/// Whether the value of `TEAMS_CLI_DISABLE_KEYRING` is `1`, `true`, `yes` or `on`, in letters of
/// either case.
pub open spec fn switched_off(value: Option<String>) -> bool {
    &&& value is Some
    &&& {
        let word = value->Some_0@;
        settings::reads(word, "1"@) || settings::reads(word, "true"@) || settings::reads(
            word,
            "yes"@,
        ) || settings::reads(word, "on"@)
    }
}

/// Whether the value of `TEAMS_CLI_TOKEN_STORE` is blank, absent, `keyring` or `keychain`, in letters
/// of either case and with blanks around it.
pub open spec fn chooses_keyring(value: Option<String>) -> bool {
    ||| value is None
    ||| settings::spells(value->Some_0@, ""@)
    ||| settings::spells(value->Some_0@, "keyring"@)
    ||| settings::spells(value->Some_0@, "keychain"@)
}

/// Whether the value of `TEAMS_CLI_TOKEN_STORE` is `file`, in letters of either case and with blanks
/// around it.
pub open spec fn chooses_files(value: Option<String>) -> bool {
    value is Some && settings::spells(value->Some_0@, "file"@)
}

/// Whether the stores are switched off is told by `TEAMS_CLI_DISABLE_KEYRING` alone, whatever the
/// platform and the other setting.
pub proof fn law_off_is_told_by_its_setting_alone<K: SecretStore, F: SecretStore>(
    stores: TokenStores<K, F>,
)
    ensures
        stores.off() <==> switched_off(stores.disable_keyring),
        switched_off(stores.disable_keyring) <==> stores.disable_keyring is Some
            && settings::disables(Some(stores.disable_keyring->Some_0@)),
{
    if let Some(value) = stores.disable_keyring {
        settings::law_words_that_switch_off(value@);
    } else {
        settings::law_words_that_switch_off(Seq::empty());
    }
}

/// Which store is selected is told by `TEAMS_CLI_TOKEN_STORE` alone, on every platform. A setting
/// that names no store is an error that quotes what it came down to, and so is a file store without
/// a directory, with the reason that there is none.
pub proof fn law_store_is_told_by_its_setting_alone<K: SecretStore, F: SecretStore>(
    stores: TokenStores<K, F>,
)
    ensures
        !(chooses_keyring(stores.token_store) && chooses_files(stores.token_store)),
        chooses_keyring(stores.token_store) <==> stores.token_store is None
            || settings::store_kind_of(Some(stores.token_store->Some_0@)) == Ok::<
            StoreKind,
            ErrorView,
        >(StoreKind::Keyring),
        chooses_files(stores.token_store) <==> stores.token_store is Some
            && settings::store_kind_of(Some(stores.token_store->Some_0@)) == Ok::<
            StoreKind,
            ErrorView,
        >(StoreKind::File),
        chooses_keyring(stores.token_store) ==> stores.selected() == Ok::<StoreKind, ErrorView>(
            StoreKind::Keyring,
        ),
        chooses_files(stores.token_store) && stores.files is Ok ==> stores.selected() == Ok::<
            StoreKind,
            ErrorView,
        >(StoreKind::File),
        chooses_files(stores.token_store) && stores.files is Err ==> stores.selected() == Err::<
            StoreKind,
            ErrorView,
        >(stores.files->Err_0@),
        !chooses_keyring(stores.token_store) && !chooses_files(stores.token_store)
            ==> stores.selected() == Err::<StoreKind, ErrorView>(
            ErrorView::InvalidInput(
                "TEAMS_CLI_TOKEN_STORE="@ + settings::store_word(stores.token_store->Some_0@)
                    + " is not a token store; use `keyring` (default) or `file`"@,
            ),
        ),
{
    if let Some(value) = stores.token_store {
        settings::law_words_that_select_a_store(value@);
    } else {
        settings::law_words_that_select_a_store(Seq::empty());
    }
}

/// The values of the settings are taken as they are, and `None` where they are not set.
pub proof fn law_settings_are_seen_as_they_are(value: String, text: &str)
    ensures
        keyring::setting(Some(value)) == Some(value@),
        keyring::setting(None) is None,
        settings::value_of(Some(text)) == Some(text@),
        settings::value_of(None) is None,
{
}

/// Storing a token uses the store that `TEAMS_CLI_TOKEN_STORE` names, on every platform, and leaves the
/// other one as it was; only the keyring of Windows gets it in chunks. Switched off, or with no
/// store to use, it is an error and both stores stay as they were.
pub proof fn law_tokens_are_stored_in_the_selected_store<K: SecretStore, F: SecretStore>(
    before: TokenStores<K, F>,
    after: TokenStores<K, F>,
    profile: Seq<char>,
    token: Seq<char>,
    result: Result<(), ErrorView>,
)
    requires
        keyring::store_token_does(before, after, profile, token, result),
    ensures
        after.disable_keyring == before.disable_keyring,
        after.token_store == before.token_store,
        after.windows == before.windows,
        switched_off(before.disable_keyring) ==> after.keyring == before.keyring && after.files
            == before.files && result == Err::<(), ErrorView>(
            ErrorView::KeyringError("Keyring is disabled"@),
        ),
        !switched_off(before.disable_keyring) && chooses_keyring(before.token_store) ==> after.files
            == before.files && secret_store::continues(
            before.keyring.history(),
            after.keyring.history(),
        ) && tokens::store_token_run(
            profile,
            token,
            if before.windows {
                Some(2560usize)
            } else {
                None
            },
            secret_store::since(before.keyring.history(), after.keyring.history()),
            result,
        ),
        !switched_off(before.disable_keyring) && chooses_files(before.token_store) && before.files
            is Ok ==> after.keyring == before.keyring && after.files is Ok
            && secret_store::continues(
            before.files->Ok_0.history(),
            after.files->Ok_0.history(),
        ) && tokens::store_token_run(
            profile,
            token,
            None,
            secret_store::since(before.files->Ok_0.history(), after.files->Ok_0.history()),
            result,
        ),
        !switched_off(before.disable_keyring) && chooses_files(before.token_store) && before.files
            is Err ==> after.keyring == before.keyring && after.files == before.files && result == Err::<(), ErrorView>(before.files->Err_0@),
        !switched_off(before.disable_keyring) && !chooses_keyring(before.token_store)
            && !chooses_files(before.token_store) ==> after.keyring == before.keyring && after.files
            == before.files && result == Err::<(), ErrorView>(
            ErrorView::InvalidInput(
                "TEAMS_CLI_TOKEN_STORE="@ + settings::store_word(before.token_store->Some_0@)
                    + " is not a token store; use `keyring` (default) or `file`"@,
            ),
        ),
{
    law_off_is_told_by_its_setting_alone(before);
    law_store_is_told_by_its_setting_alone(before);
    law_store_is_told_by_its_setting_alone(after);
    settings::law_only_the_windows_keyring_chunks(StoreKind::Keyring, before.windows);
    settings::law_only_the_windows_keyring_chunks(StoreKind::File, before.windows);
}

/// Loading a token uses the store that `TEAMS_CLI_TOKEN_STORE` names, on every platform, and leaves the
/// other one as it was. Switched off, or with no store to use, it is an error and both stores stay
/// as they were.
pub proof fn law_tokens_are_loaded_from_the_selected_store<K: SecretStore, F: SecretStore>(
    before: TokenStores<K, F>,
    after: TokenStores<K, F>,
    profile: Seq<char>,
    result: Result<Seq<char>, ErrorView>,
)
    requires
        keyring::get_token_does(before, after, profile, result),
    ensures
        after.disable_keyring == before.disable_keyring,
        after.token_store == before.token_store,
        after.windows == before.windows,
        switched_off(before.disable_keyring) ==> after.keyring == before.keyring && after.files
            == before.files && result == Err::<Seq<char>, ErrorView>(
            ErrorView::KeyringError("Keyring is disabled"@),
        ),
        !switched_off(before.disable_keyring) && chooses_keyring(before.token_store) ==> after.files
            == before.files && secret_store::continues(
            before.keyring.history(),
            after.keyring.history(),
        ) && tokens::get_token_run(
            profile,
            secret_store::since(before.keyring.history(), after.keyring.history()),
            result,
        ),
        !switched_off(before.disable_keyring) && chooses_files(before.token_store) && before.files
            is Ok ==> after.keyring == before.keyring && after.files is Ok
            && secret_store::continues(
            before.files->Ok_0.history(),
            after.files->Ok_0.history(),
        ) && tokens::get_token_run(
            profile,
            secret_store::since(before.files->Ok_0.history(), after.files->Ok_0.history()),
            result,
        ),
        !switched_off(before.disable_keyring) && chooses_files(before.token_store) && before.files
            is Err ==> after.keyring == before.keyring && after.files == before.files && result == Err::<Seq<char>, ErrorView>(before.files->Err_0@),
        !switched_off(before.disable_keyring) && !chooses_keyring(before.token_store)
            && !chooses_files(before.token_store) ==> after.keyring == before.keyring && after.files
            == before.files && result == Err::<Seq<char>, ErrorView>(
            ErrorView::InvalidInput(
                "TEAMS_CLI_TOKEN_STORE="@ + settings::store_word(before.token_store->Some_0@)
                    + " is not a token store; use `keyring` (default) or `file`"@,
            ),
        ),
{
    law_off_is_told_by_its_setting_alone(before);
    law_store_is_told_by_its_setting_alone(before);
    law_store_is_told_by_its_setting_alone(after);
    settings::law_only_the_windows_keyring_chunks(StoreKind::Keyring, before.windows);
    settings::law_only_the_windows_keyring_chunks(StoreKind::File, before.windows);
}

/// Deleting a token uses the store that `TEAMS_CLI_TOKEN_STORE` names, on every platform, and leaves
/// the other one as it was; only in the keyring of Windows chunks are looked for. Switched off it
/// does nothing and succeeds; with no store to use it is an error.
pub proof fn law_tokens_are_deleted_from_the_selected_store<K: SecretStore, F: SecretStore>(
    before: TokenStores<K, F>,
    after: TokenStores<K, F>,
    profile: Seq<char>,
    result: Result<(), ErrorView>,
)
    requires
        keyring::delete_token_does(before, after, profile, result),
    ensures
        after.disable_keyring == before.disable_keyring,
        after.token_store == before.token_store,
        after.windows == before.windows,
        switched_off(before.disable_keyring) ==> after.keyring == before.keyring && after.files
            == before.files && result is Ok,
        !switched_off(before.disable_keyring) && chooses_keyring(before.token_store) ==> after.files
            == before.files && secret_store::continues(
            before.keyring.history(),
            after.keyring.history(),
        ) && tokens::delete_token_run(
            profile,
            before.windows,
            secret_store::since(before.keyring.history(), after.keyring.history()),
            result,
        ),
        !switched_off(before.disable_keyring) && chooses_files(before.token_store) && before.files
            is Ok ==> after.keyring == before.keyring && after.files is Ok
            && secret_store::continues(
            before.files->Ok_0.history(),
            after.files->Ok_0.history(),
        ) && tokens::delete_token_run(
            profile,
            false,
            secret_store::since(before.files->Ok_0.history(), after.files->Ok_0.history()),
            result,
        ),
        !switched_off(before.disable_keyring) && chooses_files(before.token_store) && before.files
            is Err ==> after.keyring == before.keyring && after.files == before.files && result == Err::<(), ErrorView>(before.files->Err_0@),
        !switched_off(before.disable_keyring) && !chooses_keyring(before.token_store)
            && !chooses_files(before.token_store) ==> after.keyring == before.keyring && after.files
            == before.files && result == Err::<(), ErrorView>(
            ErrorView::InvalidInput(
                "TEAMS_CLI_TOKEN_STORE="@ + settings::store_word(before.token_store->Some_0@)
                    + " is not a token store; use `keyring` (default) or `file`"@,
            ),
        ),
{
    law_off_is_told_by_its_setting_alone(before);
    law_store_is_told_by_its_setting_alone(before);
    law_store_is_told_by_its_setting_alone(after);
    settings::law_only_the_windows_keyring_chunks(StoreKind::Keyring, before.windows);
    settings::law_only_the_windows_keyring_chunks(StoreKind::File, before.windows);
}

/// Adding a profile uses the store that `TEAMS_CLI_TOKEN_STORE` names, on every platform, and
/// leaves the other one as it was. Switched off it does nothing and succeeds; with no store to use
/// it is an error.
pub proof fn law_profiles_are_added_in_the_selected_store<K: SecretStore, F: SecretStore>(
    before: TokenStores<K, F>,
    after: TokenStores<K, F>,
    profile: Seq<char>,
    result: Result<(), ErrorView>,
)
    requires
        keyring::add_profile_does(before, after, profile, result),
    ensures
        after.disable_keyring == before.disable_keyring,
        after.token_store == before.token_store,
        after.windows == before.windows,
        switched_off(before.disable_keyring) ==> after.keyring == before.keyring && after.files
            == before.files && result is Ok,
        !switched_off(before.disable_keyring) && chooses_keyring(before.token_store) ==> after.files
            == before.files && secret_store::continues(
            before.keyring.history(),
            after.keyring.history(),
        ) && profiles::add_run(
            profile,
            secret_store::since(before.keyring.history(), after.keyring.history()),
            result,
        ),
        !switched_off(before.disable_keyring) && chooses_files(before.token_store) && before.files
            is Ok ==> after.keyring == before.keyring && after.files is Ok
            && secret_store::continues(
            before.files->Ok_0.history(),
            after.files->Ok_0.history(),
        ) && profiles::add_run(
            profile,
            secret_store::since(before.files->Ok_0.history(), after.files->Ok_0.history()),
            result,
        ),
        !switched_off(before.disable_keyring) && chooses_files(before.token_store) && before.files
            is Err ==> after.keyring == before.keyring && after.files == before.files && result == Err::<(), ErrorView>(before.files->Err_0@),
        !switched_off(before.disable_keyring) && !chooses_keyring(before.token_store)
            && !chooses_files(before.token_store) ==> after.keyring == before.keyring && after.files
            == before.files && result == Err::<(), ErrorView>(
            ErrorView::InvalidInput(
                "TEAMS_CLI_TOKEN_STORE="@ + settings::store_word(before.token_store->Some_0@)
                    + " is not a token store; use `keyring` (default) or `file`"@,
            ),
        ),
{
    law_off_is_told_by_its_setting_alone(before);
    law_store_is_told_by_its_setting_alone(before);
    law_store_is_told_by_its_setting_alone(after);
    settings::law_only_the_windows_keyring_chunks(StoreKind::Keyring, before.windows);
    settings::law_only_the_windows_keyring_chunks(StoreKind::File, before.windows);
}

/// Removing a profile uses the store that `TEAMS_CLI_TOKEN_STORE` names, on every platform, and
/// leaves the other one as it was. Switched off it does nothing and succeeds; with no store to use
/// it is an error.
pub proof fn law_profiles_are_removed_in_the_selected_store<K: SecretStore, F: SecretStore>(
    before: TokenStores<K, F>,
    after: TokenStores<K, F>,
    profile: Seq<char>,
    result: Result<(), ErrorView>,
)
    requires
        keyring::remove_profile_does(before, after, profile, result),
    ensures
        after.disable_keyring == before.disable_keyring,
        after.token_store == before.token_store,
        after.windows == before.windows,
        switched_off(before.disable_keyring) ==> after.keyring == before.keyring && after.files
            == before.files && result is Ok,
        !switched_off(before.disable_keyring) && chooses_keyring(before.token_store) ==> after.files
            == before.files && secret_store::continues(
            before.keyring.history(),
            after.keyring.history(),
        ) && profiles::remove_run(
            profile,
            secret_store::since(before.keyring.history(), after.keyring.history()),
            result,
        ),
        !switched_off(before.disable_keyring) && chooses_files(before.token_store) && before.files
            is Ok ==> after.keyring == before.keyring && after.files is Ok
            && secret_store::continues(
            before.files->Ok_0.history(),
            after.files->Ok_0.history(),
        ) && profiles::remove_run(
            profile,
            secret_store::since(before.files->Ok_0.history(), after.files->Ok_0.history()),
            result,
        ),
        !switched_off(before.disable_keyring) && chooses_files(before.token_store) && before.files
            is Err ==> after.keyring == before.keyring && after.files == before.files && result == Err::<(), ErrorView>(before.files->Err_0@),
        !switched_off(before.disable_keyring) && !chooses_keyring(before.token_store)
            && !chooses_files(before.token_store) ==> after.keyring == before.keyring && after.files
            == before.files && result == Err::<(), ErrorView>(
            ErrorView::InvalidInput(
                "TEAMS_CLI_TOKEN_STORE="@ + settings::store_word(before.token_store->Some_0@)
                    + " is not a token store; use `keyring` (default) or `file`"@,
            ),
        ),
{
    law_off_is_told_by_its_setting_alone(before);
    law_store_is_told_by_its_setting_alone(before);
    law_store_is_told_by_its_setting_alone(after);
    settings::law_only_the_windows_keyring_chunks(StoreKind::Keyring, before.windows);
    settings::law_only_the_windows_keyring_chunks(StoreKind::File, before.windows);
}

/// Listing the profiles uses the store that `TEAMS_CLI_TOKEN_STORE` names, on every platform, and
/// leaves the other one as it was. Switched off, or with no store to use, it lists none.
pub proof fn law_profiles_are_listed_from_the_selected_store<K: SecretStore, F: SecretStore>(
    before: TokenStores<K, F>,
    after: TokenStores<K, F>,
    list: Seq<Seq<char>>,
)
    requires
        keyring::list_profiles_does(before, after, list),
    ensures
        after.disable_keyring == before.disable_keyring,
        after.token_store == before.token_store,
        after.windows == before.windows,
        switched_off(before.disable_keyring) ==> after.keyring == before.keyring && after.files
            == before.files && list.len() == 0,
        !switched_off(before.disable_keyring) && chooses_keyring(before.token_store) ==> after.files
            == before.files && secret_store::continues(
            before.keyring.history(),
            after.keyring.history(),
        ) && profiles::list_run(
            secret_store::since(before.keyring.history(), after.keyring.history()),
            list,
        ),
        !switched_off(before.disable_keyring) && chooses_files(before.token_store) && before.files
            is Ok ==> after.keyring == before.keyring && after.files is Ok
            && secret_store::continues(
            before.files->Ok_0.history(),
            after.files->Ok_0.history(),
        ) && profiles::list_run(
            secret_store::since(before.files->Ok_0.history(), after.files->Ok_0.history()),
            list,
        ),
        !switched_off(before.disable_keyring) && chooses_files(before.token_store) && before.files
            is Err ==> after.keyring == before.keyring && after.files == before.files && list.len() == 0,
        !switched_off(before.disable_keyring) && !chooses_keyring(before.token_store)
            && !chooses_files(before.token_store) ==> after.keyring == before.keyring && after.files
            == before.files && list.len() == 0,
{
    law_off_is_told_by_its_setting_alone(before);
    law_store_is_told_by_its_setting_alone(before);
    law_store_is_told_by_its_setting_alone(after);
    settings::law_only_the_windows_keyring_chunks(StoreKind::Keyring, before.windows);
    settings::law_only_the_windows_keyring_chunks(StoreKind::File, before.windows);
}

} // verus!
