//! Keeping entries in files, one file per entry under a directory.
//!
//! A write goes to a sibling temporary file that is then renamed over the entry's file, so that a
//! reader never sees a partial token. The steps of a write are decided here; carrying them out is
//! the caller's.

use crate::error::{ErrorView, TeamsError};
use crate::keys;
use crate::replies;
use crate::replies::failure;
use crate::text;
use crate::text::{decimal_text, same_text};
use vstd::prelude::*;
use vstd::string::*;

verus! {

/// The permissions of the directory: its owner's alone.
pub const DIR_MODE: u32 = 0o700;

/// The permissions of each file: its owner's alone.
pub const FILE_MODE: u32 = 0o600;

/// A character of a key as it stands in a file name.
pub open spec fn file_char(c: char) -> char {
    if c == ':' || c == '/' || c == '\\' {
        '.'
    } else {
        c
    }
}

/// The file name of an entry: its key, with `:`, `/` and `\` as `.`.
pub open spec fn file_name_of(key: Seq<char>) -> Seq<char> {
    key.map_values(|c: char| file_char(c))
}

/// The file name of the entry under `key`.
pub fn file_name(key: &str) -> (name: String)
    ensures
        name@ == file_name_of(key@),
{
    let n: usize = key.unicode_len();
    let mut name: String = String::new();
    let mut i: usize = 0;
    while i < n
        invariant
            i <= n,
            n == key@.len(),
            name@ == file_name_of(key@.take(i as int)),
        decreases n - i,
    {
        let c: char = key.get_char(i);
        if c == ':' || c == '/' || c == '\\' {
            name.push('.');
        } else {
            name.push(c);
        }
        assert(key@.take(i + 1) =~= key@.take(i as int).push(c));
        assert(name@ =~= file_name_of(key@.take(i + 1)));
        i += 1;
    }
    assert(key@.take(n as int) =~= key@);
    name
}

/// What a temporary name is made from: the last component of the path of the entry's file. For a
/// file name that is empty or `.` that is the last component of the directory, given as `dir`; the
/// path has none where the file name is `..` or the directory has none, and then it is `token`.
pub open spec fn temp_stem(key: Seq<char>, dir: Option<Seq<char>>) -> Seq<char> {
    let name = file_name_of(key);
    if name == ""@ || name == "."@ {
        match dir {
            Some(last) => last,
            None => "token"@,
        }
    } else if name == ".."@ {
        "token"@
    } else {
        name
    }
}

/// The name of the temporary file for one write.
pub open spec fn temp_name_of(
    key: Seq<char>,
    dir: Option<Seq<char>>,
    process: nat,
    nonce: nat,
) -> Seq<char> {
    "."@ + temp_stem(key, dir) + "."@ + text::decimal(process) + "."@ + text::decimal(nonce)
        + ".tmp"@
}

/// The last component of a directory, if it has one, taken by its view.
pub open spec fn dir_view(dir: Option<&str>) -> Option<Seq<char>> {
    match dir {
        Some(last) => Some(last@),
        None => None,
    }
}

/// The name of the temporary file for one write of the entry under `key`; `dir` is the last
/// component of the directory, where it has one that is text. The name holds the number of the
/// process and the time in nanoseconds, so that writers in different processes, or at different
/// times, never share one.
pub fn temp_name(key: &str, dir: Option<&str>, process: u32, nonce: u128) -> (name: String)
    ensures
        name@ == temp_name_of(key@, dir_view(dir), process as nat, nonce as nat),
{
    let file: String = file_name(key);
    let f: &str = file.as_str();
    let stem: &str = if same_text(f, "") || same_text(f, ".") {
        match dir {
            Some(last) => last,
            None => "token",
        }
    } else if same_text(f, "..") {
        "token"
    } else {
        f
    };
    let mut name: String = ".".to_owned();
    name.append(stem);
    name.append(".");
    name.append(decimal_text(process as u128).as_str());
    name.append(".");
    name.append(decimal_text(nonce).as_str());
    name.append(".tmp");
    name
}

/// A step of writing an entry.
pub enum WriteStep {
    /// Create the directory, and those above it, where they do not exist.
    CreateDir,
    /// Set the permissions of the directory to [`DIR_MODE`].
    RestrictDir,
    /// Create the temporary file, which must not exist yet, with the permissions [`FILE_MODE`],
    /// and write the value to it.
    WriteTemp,
    /// Rename the temporary file over the entry's file.
    Replace,
    /// Remove the temporary file, since renaming it failed for this reason.
    RemoveTemp(String),
    /// The entry is written.
    Stored,
    /// The entry could not be written.
    Failed(TeamsError),
}

/// What a [`WriteStep`] says.
pub enum StepView {
    CreateDir,
    RestrictDir,
    WriteTemp,
    Replace,
    RemoveTemp(Seq<char>),
    Stored,
    Failed(ErrorView),
}

impl View for WriteStep {
    type V = StepView;

    open spec fn view(&self) -> StepView {
        match self {
            WriteStep::CreateDir => StepView::CreateDir,
            WriteStep::RestrictDir => StepView::RestrictDir,
            WriteStep::WriteTemp => StepView::WriteTemp,
            WriteStep::Replace => StepView::Replace,
            WriteStep::RemoveTemp(why) => StepView::RemoveTemp(why@),
            WriteStep::Stored => StepView::Stored,
            WriteStep::Failed(e) => StepView::Failed(e@),
        }
    }
}

/// What came of a step, with the reason of a failure taken by its view.
pub open spec fn step_outcome(outcome: Result<(), String>) -> Result<(), Seq<char>> {
    match outcome {
        Ok(_) => Ok(()),
        Err(why) => Err(why@),
    }
}

/// The step that follows a step, given what came of it, in the directory shown as `dir`.
pub open spec fn step_after(step: StepView, outcome: Result<(), Seq<char>>, dir: Seq<char>) -> StepView {
    match (step, outcome) {
        (StepView::CreateDir, Ok(_)) => StepView::RestrictDir,
        (StepView::CreateDir, Err(why)) => StepView::Failed(
            replies::failure_error("create token directory "@ + dir, why),
        ),
        (StepView::RestrictDir, Ok(_)) => StepView::WriteTemp,
        (StepView::RestrictDir, Err(why)) => StepView::Failed(
            replies::failure_error("set permissions on "@ + dir, why),
        ),
        (StepView::WriteTemp, Ok(_)) => StepView::Replace,
        (StepView::WriteTemp, Err(why)) => StepView::Failed(
            replies::failure_error("store token"@, why),
        ),
        (StepView::Replace, Ok(_)) => StepView::Stored,
        (StepView::Replace, Err(why)) => StepView::RemoveTemp(why),
        (StepView::RemoveTemp(why), _) => StepView::Failed(
            replies::failure_error("store token"@, why),
        ),
        (StepView::Stored, _) => StepView::Stored,
        (StepView::Failed(e), _) => StepView::Failed(e),
    }
}

impl WriteStep {
    /// The first step of a write.
    pub fn first() -> (step: WriteStep)
        ensures
            step@ == StepView::CreateDir,
    {
        WriteStep::CreateDir
    }

    /// The step that follows this one, given what came of it; `dir` is the directory as it is
    /// shown to the user.
    pub fn next(self, outcome: Result<(), String>, dir: &str) -> (step: WriteStep)
        ensures
            step@ == step_after(self@, step_outcome(outcome), dir@),
    {
        match self {
            WriteStep::CreateDir => match outcome {
                Ok(_) => WriteStep::RestrictDir,
                Err(why) => {
                    let mut what: String = "create token directory ".to_owned();
                    what.append(dir);
                    WriteStep::Failed(failure(what.as_str(), why.as_str()))
                },
            },
            WriteStep::RestrictDir => match outcome {
                Ok(_) => WriteStep::WriteTemp,
                Err(why) => {
                    let mut what: String = "set permissions on ".to_owned();
                    what.append(dir);
                    WriteStep::Failed(failure(what.as_str(), why.as_str()))
                },
            },
            WriteStep::WriteTemp => match outcome {
                Ok(_) => WriteStep::Replace,
                Err(why) => WriteStep::Failed(failure("store token", why.as_str())),
            },
            WriteStep::Replace => match outcome {
                Ok(_) => WriteStep::Stored,
                Err(why) => WriteStep::RemoveTemp(why),
            },
            WriteStep::RemoveTemp(why) => WriteStep::Failed(failure("store token", why.as_str())),
            WriteStep::Stored => WriteStep::Stored,
            WriteStep::Failed(e) => WriteStep::Failed(e),
        }
    }
}

/// The step that a write has come to after these outcomes.
pub open spec fn step_at(outcomes: Seq<Result<(), Seq<char>>>, dir: Seq<char>) -> StepView
    decreases outcomes.len(),
{
    if outcomes.len() == 0 {
        StepView::CreateDir
    } else {
        step_after(step_at(outcomes.drop_last(), dir), outcomes.last(), dir)
    }
}

/// A file name holds no path separator.
pub proof fn law_file_names_hold_no_separator(key: Seq<char>)
    ensures
        forall|i: int|
            0 <= i < key.len() ==> (#[trigger] file_name_of(key)[i]) != ':' && file_name_of(key)[i]
                != '/' && file_name_of(key)[i] != '\\',
        file_name_of(key).len() == key.len(),
{
}

/// The primary entry of a profile, each of its chunks and the index have files of their own in the
/// directory: their file names differ pairwise, none is empty, and none stands for the directory
/// or for the one above it.
pub proof fn law_entries_have_files_of_their_own(profile: Seq<char>, i: nat, j: nat)
    ensures
        ({
            let entry = file_name_of(keys::entry_key_of(profile));
            let chunk = file_name_of(keys::chunk_key_of(profile, i));
            let other = file_name_of(keys::chunk_key_of(profile, j));
            let index = file_name_of(keys::profile_index_key());
            &&& is_own_name(entry) && is_own_name(chunk) && is_own_name(index)
            &&& entry != index
            &&& chunk != entry
            &&& chunk != index
            &&& i != j ==> chunk != other
        }),
{
    reveal_strlit("");
    reveal_strlit(".");
    reveal_strlit("..");
    reveal_strlit(":token");
    reveal_strlit(":token:");
    reveal_strlit("profile-index");
    let entry = file_name_of(keys::entry_key_of(profile));
    let chunk = file_name_of(keys::chunk_key_of(profile, i));
    let other = file_name_of(keys::chunk_key_of(profile, j));
    let index = file_name_of(keys::profile_index_key());
    lemma_chunk_file_name(profile, i);
    lemma_chunk_file_name(profile, j);
    assert(entry.last() == 'n');
    assert(index.last() == 'x');
    assert(chunk.last() == text::decimal(i).last());
    assert(keys::is_digit(text::decimal(i).last()));
    if chunk == other {
        keys::lemma_decimal_injective(i, j);
    }
}

/// Whether a file name names a file in the directory, rather than nothing, the directory itself or
/// the one above it.
pub open spec fn is_own_name(name: Seq<char>) -> bool {
    name != ""@ && name != "."@ && name != ".."@
}

/// The file name of a chunk ends with the digits of its index.
proof fn lemma_chunk_file_name(profile: Seq<char>, i: nat)
    ensures
        ({
            let name = file_name_of(keys::chunk_key_of(profile, i));
            let digits = text::decimal(i);
            &&& digits.len() > 0
            &&& keys::is_digit(digits.last())
            &&& name.len() == profile.len() + 7 + digits.len()
            &&& name.skip(profile.len() as int + 7) == digits
        }),
{
    reveal_strlit(":token:");
    keys::lemma_decimal_digits(i);
    let key = keys::chunk_key_of(profile, i);
    let name = file_name_of(key);
    let digits = text::decimal(i);
    let n = profile.len() as int + 7;
    assert forall|k: int| 0 <= k < digits.len() implies name.skip(n)[k] == #[trigger] digits[k] by {
        assert(key[n + k] == digits[k]);
        assert(keys::is_digit(digits[k]));
    }
    assert(name.skip(n) =~= digits);
}

/// What a temporary name ends with: two numbers, each after a dot, and the suffix.
proof fn lemma_temp_name_shape(
    key: Seq<char>,
    dir: Option<Seq<char>>,
    process: nat,
    nonce: nat,
)
    ensures
        ({
            let name = temp_name_of(key, dir, process, nonce);
            let p = text::decimal(process);
            let n = text::decimal(nonce);
            let end = name.len() - 4;
            &&& p.len() > 0 && n.len() > 0
            &&& end == temp_stem(key, dir).len() + 3 + p.len() + n.len()
            &&& name.subrange(end - n.len(), end) == n
            &&& name[end - n.len() - 1] == '.'
            &&& name.subrange(end - n.len() - 1 - p.len(), end - n.len() - 1) == p
            &&& name[end - n.len() - 1 - p.len() - 1] == '.'
            &&& forall|i: int| end - n.len() <= i < end ==> keys::is_digit(#[trigger] name[i])
            &&& forall|i: int|
                end - n.len() - 1 - p.len() <= i < end - n.len() - 1 ==> keys::is_digit(
                    #[trigger] name[i],
                )
        }),
{
    reveal_strlit(".");
    reveal_strlit(".tmp");
    keys::lemma_decimal_digits(process);
    keys::lemma_decimal_digits(nonce);
    let name = temp_name_of(key, dir, process, nonce);
    let p = text::decimal(process);
    let n = text::decimal(nonce);
    let end = name.len() - 4;
    assert(name.subrange(end - n.len(), end) =~= n);
    assert(name.subrange(end - n.len() - 1 - p.len(), end - n.len() - 1) =~= p);
    assert forall|i: int| end - n.len() <= i < end implies keys::is_digit(#[trigger] name[i]) by {
        assert(name[i] == n[i - (end - n.len())]);
    }
    assert forall|i: int|
        end - n.len() - 1 - p.len() <= i < end - n.len() - 1 implies keys::is_digit(
        #[trigger] name[i],
    ) by {
        assert(name[i] == p[i - (end - n.len() - 1 - p.len())]);
    }
}

/// A temporary name belongs to one process and one time: writers that differ in either never share
/// one, whatever entries they write.
pub proof fn law_temp_names_are_distinct(
    k: Seq<char>,
    p: nat,
    n: nat,
    l: Seq<char>,
    q: nat,
    m: nat,
    dir: Option<Seq<char>>,
)
    requires
        temp_name_of(k, dir, p, n) == temp_name_of(l, dir, q, m),
    ensures
        p == q,
        n == m,
{
    lemma_temp_name_shape(k, dir, p, n);
    lemma_temp_name_shape(l, dir, q, m);
    let name = temp_name_of(k, dir, p, n);
    let end = name.len() - 4;
    let a = text::decimal(n).len() as int;
    let b = text::decimal(m).len() as int;
    if a < b {
        assert(keys::is_digit(name[end - a - 1]));
    } else if b < a {
        assert(keys::is_digit(name[end - b - 1]));
    }
    keys::lemma_decimal_injective(n, m);
    let c = text::decimal(p).len() as int;
    let d = text::decimal(q).len() as int;
    if c < d {
        assert(keys::is_digit(name[end - a - 1 - c - 1]));
    } else if d < c {
        assert(keys::is_digit(name[end - a - 1 - d - 1]));
    }
    keys::lemma_decimal_injective(p, q);
}

/// The entry's file is replaced only by a temporary file that was written whole, in a directory
/// that is its owner's alone: the write comes to that step after three successes and by no other
/// way. It ends as stored if and only if that succeeded too.
pub proof fn law_only_a_whole_file_replaces_the_entry(
    outcomes: Seq<Result<(), Seq<char>>>,
    dir: Seq<char>,
)
    ensures
        step_at(outcomes, dir) is Replace <==> outcomes.len() == 3 && (forall|i: int|
            0 <= i < 3 ==> (#[trigger] outcomes[i]) is Ok),
        step_at(outcomes, dir) is Stored <==> outcomes.len() >= 4 && (forall|i: int|
            0 <= i < 4 ==> (#[trigger] outcomes[i]) is Ok),
{
    lemma_steps(outcomes, dir);
}

/// A write ends after at most five steps, as stored or failed; and where the temporary file could
/// not be renamed it is removed first.
pub proof fn law_write_ends(outcomes: Seq<Result<(), Seq<char>>>, dir: Seq<char>)
    ensures
        outcomes.len() >= 5 ==> step_at(outcomes, dir) is Stored || step_at(outcomes, dir)
            is Failed,
        outcomes.len() >= 4 && outcomes[0] is Ok && outcomes[1] is Ok && outcomes[2] is Ok
            && outcomes[3] is Err ==> step_at(outcomes.take(4), dir) is RemoveTemp,
{
    lemma_steps(outcomes, dir);
    if outcomes.len() >= 4 {
        lemma_steps(outcomes.take(4), dir);
    }
}

/// Where a write stands after any outcomes.
proof fn lemma_steps(outcomes: Seq<Result<(), Seq<char>>>, dir: Seq<char>)
    ensures
        ({
            let n = outcomes.len();
            let step = step_at(outcomes, dir);
            &&& step is CreateDir <==> n == 0
            &&& step is RestrictDir <==> n == 1 && outcomes[0] is Ok
            &&& step is WriteTemp <==> n == 2 && outcomes[0] is Ok && outcomes[1] is Ok
            &&& step is Replace <==> n == 3 && outcomes[0] is Ok && outcomes[1] is Ok
                && outcomes[2] is Ok
            &&& step is RemoveTemp <==> n == 4 && outcomes[0] is Ok && outcomes[1] is Ok
                && outcomes[2] is Ok && outcomes[3] is Err
            &&& step is Stored <==> n >= 4 && outcomes[0] is Ok && outcomes[1] is Ok && outcomes[2]
                is Ok && outcomes[3] is Ok
        }),
    decreases outcomes.len(),
{
    if outcomes.len() > 0 {
        lemma_steps(outcomes.drop_last(), dir);
    }
}

/// In a file name `:`, `/` and `\` stand as dots, and every other character of the key stands
/// unchanged at its place.
pub proof fn law_file_names_keep_other_characters(key: Seq<char>)
    ensures
        file_name_of(key).len() == key.len(),
        forall|i: int|
            0 <= i < key.len() && (#[trigger] key[i]) != ':' && key[i] != '/' && key[i] != '\\'
                ==> file_name_of(key)[i] == key[i],
        forall|i: int|
            0 <= i < key.len() && ((#[trigger] key[i]) == ':' || key[i] == '/' || key[i] == '\\')
                ==> file_name_of(key)[i] == '.',
{
}

/// Profiles with different names, where those hold none of `:`, `/` and `\`, have different files:
/// no file of an entry of one is a file of an entry of the other.
pub proof fn law_profiles_have_files_of_their_own(p: Seq<char>, i: nat, q: Seq<char>, j: nat)
    requires
        p != q,
        forall|k: int|
            0 <= k < p.len() ==> (#[trigger] p[k]) != ':' && p[k] != '/' && p[k] != '\\',
        forall|k: int|
            0 <= k < q.len() ==> (#[trigger] q[k]) != ':' && q[k] != '/' && q[k] != '\\',
    ensures
        file_name_of(keys::entry_key_of(p)) != file_name_of(keys::entry_key_of(q)),
        file_name_of(keys::chunk_key_of(p, i)) != file_name_of(keys::chunk_key_of(q, j)),
        file_name_of(keys::chunk_key_of(p, i)) != file_name_of(keys::entry_key_of(q)),
{
    reveal_strlit(":token");
    reveal_strlit(":token:");
    lemma_chunk_file_name(p, i);
    lemma_chunk_file_name(q, j);
    let e = file_name_of(keys::entry_key_of(p));
    let f = file_name_of(keys::entry_key_of(q));
    let c = file_name_of(keys::chunk_key_of(p, i));
    let d = file_name_of(keys::chunk_key_of(q, j));
    assert(e.take(p.len() as int) =~= p);
    assert(f.take(q.len() as int) =~= q);
    assert(c.take(p.len() as int) =~= p);
    assert(d.take(q.len() as int) =~= q);
    assert(e.len() == p.len() + 6 && f.len() == q.len() + 6);
    assert(f.last() == 'n');
    assert(c.last() == text::decimal(i).last());
    if c == d {
        keys::lemma_decimal_digits(i);
        keys::lemma_decimal_digits(j);
        let a = text::decimal(i).len() as int;
        let b = text::decimal(j).len() as int;
        let n = c.len() as int;
        assert(c[p.len() as int + 6] == '.');
        assert(d[q.len() as int + 6] == '.');
        if a < b {
            assert(d.skip(q.len() as int + 7)[b - a - 1] == d[n - a - 1]);
            assert(keys::is_digit(text::decimal(j)[b - a - 1]));
        } else if b < a {
            assert(c.skip(p.len() as int + 7)[a - b - 1] == c[n - b - 1]);
            assert(keys::is_digit(text::decimal(i)[a - b - 1]));
        }
        assert(p.len() == q.len());
    }
}

/// How a temporary name is spelt: a dot, the last component of the path of the entry's file, the
/// number of the process, the time, and `.tmp`, with dots between them. For an entry of a profile
/// and for the index that component is the file name.
pub proof fn law_temp_names_are_spelt(
    key: Seq<char>,
    dir: Option<Seq<char>>,
    last: Seq<char>,
    process: nat,
    nonce: nat,
)
    requires
        file_name_of(key) != Seq::<char>::empty() && file_name_of(key) != seq!['.']
            && file_name_of(key) != seq!['.', '.'] ==> last == file_name_of(key),
        file_name_of(key) == Seq::<char>::empty() || file_name_of(key) == seq!['.'] ==> last
            == if dir is Some {
            dir->Some_0
        } else {
            seq!['t', 'o', 'k', 'e', 'n']
        },
        file_name_of(key) == seq!['.', '.'] ==> last == seq!['t', 'o', 'k', 'e', 'n'],
    ensures
        temp_name_of(key, dir, process, nonce) == seq!['.'] + last + seq!['.'] + text::decimal(
            process,
        ) + seq!['.'] + text::decimal(nonce) + seq!['.', 't', 'm', 'p'],
{
    reveal_strlit("");
    reveal_strlit(".");
    reveal_strlit("..");
    reveal_strlit("token");
    reveal_strlit(".tmp");
    assert(""@ =~= Seq::empty());
    assert("."@ =~= seq!['.']);
    assert(".."@ =~= seq!['.', '.']);
    assert("token"@ =~= seq!['t', 'o', 'k', 'e', 'n']);
    assert(".tmp"@ =~= seq!['.', 't', 'm', 'p']);
}

/// Each step of a write that succeeds is followed by the next one of creating the directory,
/// restricting it, writing the temporary file and renaming it. A step that fails ends the write
/// with an error that says which it was and why; renaming does so once the temporary file is
/// removed, with the reason that renaming failed, whether or not removing it succeeds.
pub proof fn law_steps_of_a_write(
    why: Seq<char>,
    other: Result<(), Seq<char>>,
    dir: Seq<char>,
    e: ErrorView,
)
    ensures
        step_after(StepView::CreateDir, Ok(()), dir) == StepView::RestrictDir,
        step_after(StepView::RestrictDir, Ok(()), dir) == StepView::WriteTemp,
        step_after(StepView::WriteTemp, Ok(()), dir) == StepView::Replace,
        step_after(StepView::Replace, Ok(()), dir) == StepView::Stored,
        step_after(StepView::Replace, Err(why), dir) == StepView::RemoveTemp(why),
        step_after(StepView::CreateDir, Err(why), dir) == StepView::Failed(
            ErrorView::KeyringError(
                "Failed to "@ + ("create token directory "@ + dir) + ": "@ + why,
            ),
        ),
        step_after(StepView::RestrictDir, Err(why), dir) == StepView::Failed(
            ErrorView::KeyringError("Failed to "@ + ("set permissions on "@ + dir) + ": "@ + why),
        ),
        step_after(StepView::WriteTemp, Err(why), dir) == StepView::Failed(
            ErrorView::KeyringError("Failed to "@ + "store token"@ + ": "@ + why),
        ),
        step_after(StepView::RemoveTemp(why), other, dir) == StepView::Failed(
            ErrorView::KeyringError("Failed to "@ + "store token"@ + ": "@ + why),
        ),
        step_after(StepView::Stored, other, dir) == StepView::Stored,
        step_after(StepView::Failed(e), other, dir) == StepView::Failed(e),
{
}

/// What a step and its outcome stand for: a step is seen as itself, with its texts and its error.
pub proof fn law_steps_are_seen_as_they_are(why: String, e: TeamsError)
    ensures
        WriteStep::CreateDir@ == StepView::CreateDir,
        WriteStep::RestrictDir@ == StepView::RestrictDir,
        WriteStep::WriteTemp@ == StepView::WriteTemp,
        WriteStep::Replace@ == StepView::Replace,
        WriteStep::RemoveTemp(why)@ == StepView::RemoveTemp(why@),
        WriteStep::Stored@ == StepView::Stored,
        WriteStep::Failed(e)@ == StepView::Failed(e@),
        step_outcome(Ok(())) == Ok::<(), Seq<char>>(()),
        step_outcome(Err(why)) == Err::<(), Seq<char>>(why@),
{
}

/// The directory is its owner's alone to read, write and search; a file is its owner's alone to read
/// and write.
pub proof fn law_modes_are_private()
    ensures
        DIR_MODE as int == 7 * 64,
        FILE_MODE as int == 6 * 64,
{
}

/// The last component of a directory is taken as it is, and none where there is none.
pub proof fn law_directories_are_seen_as_they_are(last: &str)
    ensures
        dir_view(Some(last)) == Some(last@),
        dir_view(None) is None,
{
}

} // verus!
