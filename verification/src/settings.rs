//! The settings that say whether tokens are kept, and where.

use crate::error;
use crate::error::{ErrorView, TeamsError};
use crate::text;
use crate::text::{same_text, to_ascii_lowercase, trim};
use vstd::prelude::*;
use vstd::string::*;

verus! {

/// The environment variable that switches the credential store off.
pub const DISABLE_KEYRING_ENV: &'static str = "TEAMS_CLI_DISABLE_KEYRING";

/// The environment variable that says where tokens live.
pub const TOKEN_STORE_ENV: &'static str = "TEAMS_CLI_TOKEN_STORE";

/// Largest secret a single entry of the Windows Credential Manager holds, in bytes
/// (`CRED_MAX_CREDENTIAL_BLOB_SIZE`).
pub const WINDOWS_CHUNK_BYTES: usize = 2560;

/// Where tokens live: the OS keyring by default; files under the config directory for a process
/// that cannot answer a keychain dialog or has no keyring at all, such as a daemon, a server or a
/// container.
#[derive(Debug, Clone, Copy, PartialEq, Eq, Structural)]
pub enum StoreKind {
    Keyring,
    File,
}

/// A setting with its value taken by its view.
pub open spec fn value_of(setting: Option<&str>) -> Option<Seq<char>> {
    match setting {
        Some(value) => Some(value@),
        None => None,
    }
}

/// Whether a value of `TEAMS_CLI_DISABLE_KEYRING` switches the store off: `1`, `true`, `yes` or
/// `on`, in letters of either case.
pub open spec fn disables(setting: Option<Seq<char>>) -> bool {
    &&& setting matches Some(value) && {
        let word = text::ascii_lowercase(value);
        word == "1"@ || word == "true"@ || word == "yes"@ || word == "on"@
    }
}

/// Whether the credential store is switched off by the value of `TEAMS_CLI_DISABLE_KEYRING`,
/// which is `None` where the variable is not set.
pub fn disabled(setting: Option<&str>) -> (off: bool)
    ensures
        off == disables(value_of(setting)),
{
    match setting {
        Some(value) => {
            let word: String = to_ascii_lowercase(value);
            let w: &str = word.as_str();
            same_text(w, "1") || same_text(w, "true") || same_text(w, "yes") || same_text(w, "on")
        },
        None => false,
    }
}

/// The word that a value of `TEAMS_CLI_TOKEN_STORE` comes down to: without blanks around it, in
/// lower case.
pub open spec fn store_word(value: Seq<char>) -> Seq<char> {
    text::ascii_lowercase(text::trim_end(text::trim_start(value)))
}

/// The error for a value of `TEAMS_CLI_TOKEN_STORE` that names no store.
pub open spec fn unknown_store_error(word: Seq<char>) -> ErrorView {
    ErrorView::InvalidInput(
        TOKEN_STORE_ENV@ + "="@ + word
            + " is not a token store; use `keyring` (default) or `file`"@,
    )
}

/// The store that a value of `TEAMS_CLI_TOKEN_STORE` selects.
pub open spec fn store_kind_of(setting: Option<Seq<char>>) -> Result<StoreKind, ErrorView> {
    match setting {
        None => Ok(StoreKind::Keyring),
        Some(value) => {
            let word = store_word(value);
            if word == ""@ || word == "keyring"@ || word == "keychain"@ {
                Ok(StoreKind::Keyring)
            } else if word == "file"@ {
                Ok(StoreKind::File)
            } else {
                Err(unknown_store_error(word))
            }
        },
    }
}

/// The store selected by the value of `TEAMS_CLI_TOKEN_STORE`, which is `None` where the variable
/// is not set.
pub fn store_kind(setting: Option<&str>) -> (kind: Result<StoreKind, TeamsError>)
    ensures
        error::outcome(kind) == store_kind_of(value_of(setting)),
{
    let value: &str = match setting {
        Some(value) => value,
        None => {
            return Ok(StoreKind::Keyring);
        },
    };
    let word: String = to_ascii_lowercase(trim(value));
    let w: &str = word.as_str();
    if same_text(w, "") || same_text(w, "keyring") || same_text(w, "keychain") {
        Ok(StoreKind::Keyring)
    } else if same_text(w, "file") {
        Ok(StoreKind::File)
    } else {
        let mut message: String = TOKEN_STORE_ENV.to_owned();
        message.append("=");
        message.append(w);
        message.append(" is not a token store; use `keyring` (default) or `file`");
        Err(TeamsError::InvalidInput(message))
    }
}

/// The size of the chunks in which a store keeps a token, or `None` where it keeps it whole.
pub open spec fn chunk_limit(kind: StoreKind, windows: bool) -> Option<usize> {
    if kind == StoreKind::Keyring && windows {
        Some(WINDOWS_CHUNK_BYTES)
    } else {
        None
    }
}

/// A file store has no size limit, so it never chunks; the keyring chunks where the platform
/// makes it necessary. Windows Credential Manager caps a credential blob, and a token bundle is
/// routinely twice that; macOS Keychain and Linux Secret Service accept secrets far larger than
/// any token bundle, so they keep a single entry.
pub fn chunk_bytes_for(kind: StoreKind, windows: bool) -> (limit: Option<usize>)
    ensures
        limit == chunk_limit(kind, windows),
{
    match kind {
        StoreKind::Keyring => if windows {
            Some(WINDOWS_CHUNK_BYTES)
        } else {
            None
        },
        StoreKind::File => None,
    }
}

/// Whether a value is a word, in letters of either case.
pub open spec fn reads(value: Seq<char>, word: Seq<char>) -> bool {
    &&& value.len() == word.len()
    &&& forall|i: int|
        0 <= i < word.len() ==> (#[trigger] value[i]) == word[i] || (65 <= value[i] as int <= 90
            && value[i] as int + 32 == word[i] as int)
}

/// Whether a value is a word, in letters of either case, with blanks around it.
pub open spec fn spells(value: Seq<char>, word: Seq<char>) -> bool {
    exists|a: int, b: int| #[trigger] spells_at(value, word, a, b)
}

/// Whether a value is a word from `a` to `b`, in letters of either case, and blank elsewhere.
pub open spec fn spells_at(value: Seq<char>, word: Seq<char>, a: int, b: int) -> bool {
    &&& 0 <= a <= b <= value.len()
    &&& reads(value.subrange(a, b), word)
    &&& forall|i: int|
        0 <= i < a || b <= i < value.len() ==> text::white_space(#[trigger] value[i])
}

/// Whether a text is of small letters `a` to `z` and digits.
pub open spec fn is_small(word: Seq<char>) -> bool {
    forall|i: int|
        0 <= i < word.len() ==> 97 <= (#[trigger] word[i]) as int <= 122 || 48 <= word[i] as int
            <= 57
}

/// A value is a word of small letters, in letters of either case, if and only if it is that word in
/// lower case.
pub proof fn law_reading_ignores_case(value: Seq<char>, word: Seq<char>)
    requires
        is_small(word),
    ensures
        reads(value, word) <==> text::ascii_lowercase(value) == word,
{
    let low = text::ascii_lowercase(value);
    text::law_lower_case_changes_capitals_alone(value);
    if reads(value, word) {
        assert forall|i: int| 0 <= i < word.len() implies low[i] == word[i] by {
            assert(value[i] == word[i] || value[i] as int + 32 == word[i] as int);
        }
        assert(low =~= word);
    }
    if low == word {
        assert forall|i: int| 0 <= i < word.len() implies (#[trigger] value[i]) == word[i] || (65
            <= value[i] as int <= 90 && value[i] as int + 32 == word[i] as int) by {
            assert(low[i] == word[i]);
        }
    }
}

/// The words of the settings are of small letters and digits.
pub proof fn lemma_words_are_small()
    ensures
        is_small("1"@) && is_small("true"@) && is_small("yes"@) && is_small("on"@),
        is_small(""@) && is_small("keyring"@) && is_small("keychain"@) && is_small("file"@),
        ""@ != "file"@ && "keyring"@ != "file"@ && "keychain"@ != "file"@,
{
    reveal_strlit("1");
    reveal_strlit("true");
    reveal_strlit("yes");
    reveal_strlit("on");
    reveal_strlit("");
    reveal_strlit("keyring");
    reveal_strlit("keychain");
    reveal_strlit("file");
    assert("keyring"@.len() == 7 && "keychain"@.len() == 8 && "file"@.len() == 4);
}

/// The store is switched off by `1`, `true`, `yes` and `on`, in letters of either case, and by no
/// other value; it is on where the variable is not set.
pub proof fn law_words_that_switch_off(value: Seq<char>)
    ensures
        !disables(None),
        disables(Some(value)) <==> reads(value, "1"@) || reads(value, "true"@) || reads(
            value,
            "yes"@,
        ) || reads(value, "on"@),
{
    lemma_words_are_small();
    law_reading_ignores_case(value, "1"@);
    law_reading_ignores_case(value, "true"@);
    law_reading_ignores_case(value, "yes"@);
    law_reading_ignores_case(value, "on"@);
}

/// The word that a value comes down to is what stands between its outer blanks, with its letters in
/// lower case.
pub proof fn law_store_word(value: Seq<char>, a: int, b: int)
    requires
        0 <= a <= b <= value.len(),
        forall|i: int| 0 <= i < a || b <= i < value.len() ==> text::white_space(#[trigger] value[i]),
        a < b ==> !text::white_space(value[a]) && !text::white_space(value[b - 1]),
    ensures
        store_word(value).len() == b - a,
        forall|i: int|
            a <= i < b ==> (#[trigger] value[i] as int) + (if 65 <= value[i] as int <= 90 {
                32int
            } else {
                0
            }) == store_word(value)[i - a] as int,
{
    text::law_trim_takes_the_outer_blanks(value, a, b);
    let core = value.subrange(a, b);
    text::law_lower_case_changes_capitals_alone(core);
    assert forall|i: int| a <= i < b implies (#[trigger] value[i] as int) + (if 65 <= value[i] as int
        <= 90 {
        32int
    } else {
        0
    }) == store_word(value)[i - a] as int by {
        assert(core[i - a] == value[i]);
    }
}

/// A value is a word of small letters, in letters of either case and with blanks around it, if and
/// only if it comes down to that word.
pub proof fn law_spelling_ignores_case_and_blanks(value: Seq<char>, word: Seq<char>)
    requires
        is_small(word),
    ensures
        spells(value, word) <==> store_word(value) == word,
{
    let (a, b) = lemma_outer_blanks(value);
    text::law_trim_takes_the_outer_blanks(value, a, b);
    law_reading_ignores_case(value.subrange(a, b), word);
    if store_word(value) == word {
        assert(spells_at(value, word, a, b));
    }
    if spells(value, word) {
        let (c, d) = choose|c: int, d: int| #[trigger] spells_at(value, word, c, d);
        let core = value.subrange(c, d);
        if c < d {
            assert(core[0] == value[c]);
            assert(core[d - c - 1] == value[d - 1]);
            lemma_letters_are_not_blank(core, word, 0);
            lemma_letters_are_not_blank(core, word, d - c - 1);
        }
        text::law_trim_takes_the_outer_blanks(value, c, d);
        law_reading_ignores_case(core, word);
    }
}

/// No letter of a word is blank.
proof fn lemma_letters_are_not_blank(value: Seq<char>, word: Seq<char>, i: int)
    requires
        is_small(word),
        reads(value, word),
        0 <= i < word.len(),
    ensures
        !text::white_space(value[i]),
{
    assert(97 <= word[i] as int <= 122 || 48 <= word[i] as int <= 57);
    assert(value[i] == word[i] || value[i] as int + 32 == word[i] as int);
}

/// Where the outer blanks of a text end and begin.
proof fn lemma_outer_blanks(value: Seq<char>) -> (range: (int, int))
    ensures
        0 <= range.0 <= range.1 <= value.len(),
        forall|i: int|
            0 <= i < range.0 || range.1 <= i < value.len() ==> text::white_space(
                #[trigger] value[i],
            ),
        range.0 < range.1 ==> !text::white_space(value[range.0]) && !text::white_space(
            value[range.1 - 1],
        ),
    decreases value.len(),
{
    if value.len() == 0 {
        (0, 0)
    } else if text::white_space(value[0]) {
        let rest = value.drop_first();
        let (a, b) = lemma_outer_blanks(rest);
        assert forall|i: int| 0 <= i < a + 1 || b + 1 <= i < value.len() implies text::white_space(
            #[trigger] value[i],
        ) by {
            if i > 0 {
                assert(value[i] == rest[i - 1]);
            }
        }
        (a + 1, b + 1)
    } else if text::white_space(value.last()) {
        let rest = value.drop_last();
        let (a, b) = lemma_outer_blanks(rest);
        assert(rest.len() > 0);
        assert(rest[0] == value[0]);
        assert forall|i: int| 0 <= i < a || b <= i < value.len() implies text::white_space(
            #[trigger] value[i],
        ) by {
            if i < rest.len() {
                assert(value[i] == rest[i]);
            }
        }
        (a, b)
    } else {
        (0, value.len() as int)
    }
}

/// `keyring` and `keychain` select the keyring, as a blank or absent value does; `file` selects the
/// files; all in letters of either case and with blanks around them. Any other value is an error
/// that says what it came down to.
pub proof fn law_words_that_select_a_store(value: Seq<char>)
    ensures
        store_kind_of(None) == Ok::<StoreKind, ErrorView>(StoreKind::Keyring),
        spells(value, ""@) || spells(value, "keyring"@) || spells(value, "keychain"@)
            ==> store_kind_of(Some(value)) == Ok::<StoreKind, ErrorView>(StoreKind::Keyring),
        spells(value, "file"@) ==> store_kind_of(Some(value)) == Ok::<StoreKind, ErrorView>(
            StoreKind::File,
        ),
        !spells(value, ""@) && !spells(value, "keyring"@) && !spells(value, "keychain"@) && !spells(
            value,
            "file"@,
        ) ==> store_kind_of(Some(value)) == Err::<StoreKind, ErrorView>(
            ErrorView::InvalidInput(
                "TEAMS_CLI_TOKEN_STORE="@ + store_word(value)
                    + " is not a token store; use `keyring` (default) or `file`"@,
            ),
        ),
{
    lemma_words_are_small();
    law_spelling_ignores_case_and_blanks(value, ""@);
    law_spelling_ignores_case_and_blanks(value, "keyring"@);
    law_spelling_ignores_case_and_blanks(value, "keychain"@);
    law_spelling_ignores_case_and_blanks(value, "file"@);
    reveal_strlit("TEAMS_CLI_TOKEN_STORE=");
    reveal_strlit("TEAMS_CLI_TOKEN_STORE");
    reveal_strlit("=");
    assert("TEAMS_CLI_TOKEN_STORE"@ + "="@ =~= "TEAMS_CLI_TOKEN_STORE="@);
}

/// Two values that differ only in the case of letters, or in the blanks around them, select the same
/// store, or give the same error.
pub proof fn law_selection_ignores_case_and_blanks(
    value: Seq<char>,
    a: int,
    b: int,
    other: Seq<char>,
    c: int,
    d: int,
)
    requires
        0 <= a <= b <= value.len(),
        0 <= c <= d <= other.len(),
        b - a == d - c,
        forall|i: int| 0 <= i < a || b <= i < value.len() ==> text::white_space(#[trigger] value[i]),
        forall|i: int| 0 <= i < c || d <= i < other.len() ==> text::white_space(#[trigger] other[i]),
        forall|i: int|
            a <= i < b ==> (#[trigger] value[i]) == other[i - a + c] || (65 <= value[i] as int <= 90
                && value[i] as int + 32 == other[i - a + c] as int) || (65 <= other[i - a + c] as int
                <= 90 && other[i - a + c] as int + 32 == value[i] as int),
    ensures
        store_kind_of(Some(value)) == store_kind_of(Some(other)),
{
    assert forall|i: int| a <= i < b implies text::white_space(#[trigger] value[i])
        == text::white_space(other[i - a + c]) by {
        text::law_blanks(value[i]);
    }
    let (p, q) = lemma_outer_blanks(value);
    if p < q {
        assert(a <= p && q <= b);
        let s = p - a + c;
        let t = q - a + c;
        assert forall|i: int| 0 <= i < s || t <= i < other.len() implies text::white_space(
            #[trigger] other[i],
        ) by {
            if c <= i < d {
                assert(text::white_space(value[i - c + a]) == text::white_space(other[i]));
            }
        }
        assert(text::white_space(value[p]) == text::white_space(other[s]));
        assert(text::white_space(value[q - 1]) == text::white_space(other[t - 1]));
        law_store_word(value, p, q);
        law_store_word(other, s, t);
        assert forall|i: int| 0 <= i < q - p implies store_word(value)[i] == store_word(
            other,
        )[i] by {
            assert(value[p + i] as int >= 0 && other[s + i] as int >= 0);
        }
        assert(store_word(value) =~= store_word(other));
    } else {
        assert forall|i: int| 0 <= i < other.len() implies text::white_space(
            #[trigger] other[i],
        ) by {
            if c <= i < d {
                assert(text::white_space(value[i - c + a]) == text::white_space(other[i]));
            }
        }
        law_store_word(value, p, q);
        law_store_word(other, 0, 0);
        assert(store_word(value) =~= store_word(other));
    }
}

/// Only the keyring of Windows keeps tokens in chunks, of 2560 bytes.
pub proof fn law_only_the_windows_keyring_chunks(kind: StoreKind, windows: bool)
    ensures
        chunk_limit(StoreKind::Keyring, true) == Some(2560usize),
        !windows || kind == StoreKind::File ==> chunk_limit(kind, windows) is None,
{
}

/// How the variables are named.
pub proof fn law_variables_are_named()
    ensures
        DISABLE_KEYRING_ENV@ == "TEAMS_CLI_DISABLE_KEYRING"@,
        TOKEN_STORE_ENV@ == "TEAMS_CLI_TOKEN_STORE"@,
        WINDOWS_CHUNK_BYTES == 2560,
{
}

} // verus!
