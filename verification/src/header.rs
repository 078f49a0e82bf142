//! The header that stands in a profile's primary entry where its token is kept in chunks.

use crate::error::TeamsError;
use crate::json;
use crate::json::{read_lone_number, read_numbers, write_number};
use crate::keys;
use crate::text;
use crate::text::{joined, same_text};
use vstd::prelude::*;
use vstd::string::*;

verus! {

/// Contents of the primary entry when the token is stored in chunks. The chunks themselves live
/// in `<profile>:token:<index>` entries.
#[derive(Debug)]
pub struct ChunkHeader {
    pub chunks: usize,
}

/// The text of a header that claims `chunks` chunks.
pub open spec fn header_text(chunks: u64) -> Seq<char> {
    json::object_text("chunks"@, chunks)
}

/// Whether `c` stands exactly once in `s`.
pub open spec fn occurs_once(s: Seq<char>, c: char) -> bool {
    exists|i: int| #[trigger] only_at(s, c, i)
}

/// Whether `c` stands at `i` in `s` and nowhere else.
pub open spec fn only_at(s: Seq<char>, c: char, i: int) -> bool {
    &&& 0 <= i < s.len()
    &&& s[i] == c
    &&& forall|j: int| 0 <= j < s.len() && #[trigger] s[j] == c ==> j == i
}

/// Whether `c` stands in `s` more than once.
pub open spec fn occurs_again(s: Seq<char>, c: char) -> bool {
    exists|i: int, j: int| 0 <= i < j < s.len() && #[trigger] s[i] == c && #[trigger] s[j] == c
}

/// The number of chunks that a text claims as a header, given what it reads as: an object with the
/// one field `chunks`, given once, or an array of one number. A colon stands after the name of
/// every field, and nowhere else in such an object; an array of a number has none. The number must
/// be one that a `usize` holds.
pub open spec fn claimed_chunks(
    text: Seq<char>,
    fields: Option<Seq<(Seq<char>, u64)>>,
    lone: Option<u64>,
) -> Option<usize> {
    let claimed: Option<u64> = if occurs_once(text, ':') {
        match fields {
            Some(list) => if list.len() == 1 && list[0].0 == "chunks"@ {
                Some(list[0].1)
            } else {
                None
            },
            None => None,
        }
    } else if text.contains(':') {
        None
    } else {
        lone
    };
    match claimed {
        Some(n) => if n <= usize::MAX {
            Some(n as usize)
        } else {
            None
        },
        None => None,
    }
}

/// The number of chunks that a text claims as a header.
pub open spec fn header_chunks(text: Seq<char>) -> Option<usize> {
    claimed_chunks(text, json::json_numbers(text), json::json_lone_number(text))
}

/// A list of named numbers, if there is one, with each name taken by its view.
pub open spec fn fields_view(fields: Option<Vec<(String, u64)>>) -> Option<Seq<(Seq<char>, u64)>> {
    match fields {
        Some(list) => Some(json::named_numbers(list@)),
        None => None,
    }
}

/// Whether `c` stands exactly once in `s`.
fn stands_once(s: &str, c: char) -> (once: bool)
    ensures
        once == occurs_once(s@, c),
{
    let n: usize = s.unicode_len();
    let mut found: Option<usize> = None;
    let mut i: usize = 0;
    while i < n
        invariant
            i <= n,
            n == s@.len(),
            match found {
                Some(k) => only_at(s@.take(i as int), c, k as int),
                None => forall|j: int| 0 <= j < i ==> s@[j] != c,
            },
        decreases n - i,
    {
        let ghost before = s@.take(i as int);
        let ghost after = s@.take(i + 1);
        assert(after =~= before.push(s@[i as int]));
        if s.get_char(i) == c {
            match found {
                Some(k) => {
                    assert(s@[k as int] == before[k as int]);
                    assert(s@[i as int] == c);
                    assert(!occurs_once(s@, c));
                    return false;
                },
                None => {
                    found = Some(i);
                    assert(only_at(after, c, i as int));
                },
            }
        } else {
            proof {
                if let Some(k) = found {
                    assert(after[k as int] == before[k as int]);
                    assert forall|j: int| 0 <= j < after.len() && #[trigger] after[j] == c implies j
                        == k by {
                        assert(j < i ==> before[j] == after[j]);
                    }
                    assert(only_at(after, c, k as int));
                }
            }
        }
        i += 1;
    }
    assert(s@.take(n as int) =~= s@);
    match found {
        Some(k) => true,
        None => false,
    }
}

/// Whether `c` stands in `s`.
fn stands_in(s: &str, c: char) -> (found: bool)
    ensures
        found == s@.contains(c),
{
    let n: usize = s.unicode_len();
    let mut i: usize = 0;
    while i < n
        invariant
            i <= n,
            n == s@.len(),
            forall|j: int| 0 <= j < i ==> s@[j] != c,
        decreases n - i,
    {
        if s.get_char(i) == c {
            assert(s@[i as int] == c);
            return true;
        }
        i += 1;
    }
    false
}

impl ChunkHeader {
    /// The header that a text is, given what it reads as: as an object of numbers, and as an array
    /// of one number.
    pub fn from_readings(text: &str, fields: Option<Vec<(String, u64)>>, lone: Option<u64>) -> (header:
        Option<ChunkHeader>)
        ensures
            match header {
                Some(h) => claimed_chunks(text@, fields_view(fields), lone) == Some(h.chunks),
                None => claimed_chunks(text@, fields_view(fields), lone) is None,
            },
    {
        let claimed: Option<u64> = if stands_once(text, ':') {
            match fields {
                Some(list) => {
                    assert(json::named_numbers(list@).len() == list@.len());
                    if list.len() == 1 && same_text(list[0].0.as_str(), "chunks") {
                        Some(list[0].1)
                    } else {
                        None
                    }
                },
                None => None,
            }
        } else if stands_in(text, ':') {
            None
        } else {
            lone
        };
        match claimed {
            Some(n) => if n <= usize::MAX as u64 {
                Some(ChunkHeader { chunks: n as usize })
            } else {
                None
            },
            None => None,
        }
    }

    /// Reads a header. Any text that is none gives nothing: it is a token that stands in the
    /// primary entry itself.
    pub fn parse(text: &str) -> (header: Option<ChunkHeader>)
        ensures
            match header {
                Some(h) => header_chunks(text@) == Some(h.chunks),
                None => header_chunks(text@) is None,
            },
    {
        let fields: Option<Vec<(String, u64)>> = read_numbers(text);
        let lone: Option<u64> = read_lone_number(text);
        ChunkHeader::from_readings(text, fields, lone)
    }

    /// The header as it is stored.
    pub fn to_json(&self) -> (text: Result<String, TeamsError>)
        ensures
            text matches Ok(t) && t@ == header_text(self.chunks as u64) && header_chunks(t@) == Some(
                self.chunks,
            ),
    {
        proof {
            reveal_strlit("chunks");
            lemma_header_has_one_colon(self.chunks as u64);
        }
        match write_number("chunks", self.chunks as u64) {
            Ok(text) => Ok(text),
            Err(e) => Err(
                TeamsError::KeyringError(
                    joined("Failed to serialize token: ", e.to_string().as_str()),
                ),
            ),
        }
    }
}

/// A header holds one colon, between the field's name and its number.
proof fn lemma_header_has_one_colon(chunks: u64)
    ensures
        occurs_once(header_text(chunks), ':'),
{
    reveal_strlit("chunks");
    keys::lemma_decimal_digits(chunks as nat);
    let text = header_text(chunks);
    let digits = text::decimal(chunks as nat);
    assert(text.len() == 10 + digits.len() + 1);
    assert forall|j: int| 0 <= j < text.len() && #[trigger] text[j] == ':' implies j == 9 by {
        if 10 <= j < 10 + digits.len() {
            assert(text[j] == digits[j - 10]);
            assert(keys::is_digit(digits[j - 10]));
        }
    }
    assert(only_at(text, ':', 9));
}

/// A text with several colons is no header. The text of a token is an object of several fields, so
/// it is never taken for one.
pub proof fn law_several_colons_are_no_header(text: Seq<char>)
    requires
        occurs_again(text, ':'),
    ensures
        header_chunks(text) is None,
{
    let (i, j) = choose|i: int, j: int|
        0 <= i < j < text.len() && #[trigger] text[i] == ':' && #[trigger] text[j] == ':';
    assert(text.contains(':'));
    if occurs_once(text, ':') {
        let k = choose|k: int| #[trigger] only_at(text, ':', k);
        assert(i == k && j == k);
    }
}

/// How a header is spelt: an object with the one field `chunks`.
pub proof fn law_headers_are_spelt(chunks: u64)
    ensures
        header_text(chunks) == seq!['{', '"', 'c', 'h', 'u', 'n', 'k', 's', '"', ':']
            + text::decimal(chunks as nat) + seq!['}'],
{
    reveal_strlit("chunks");
    assert(header_text(chunks) =~= seq!['{', '"', 'c', 'h', 'u', 'n', 'k', 's', '"', ':']
        + text::decimal(chunks as nat) + seq!['}']);
}

/// A text with one colon, at `at`, is a header if and only if it reads as an object whose one field is
/// `chunks`, with a number that a `usize` holds; that is the number of chunks.
pub proof fn law_object_headers(
    text: Seq<char>,
    at: int,
    fields: Option<Seq<(Seq<char>, u64)>>,
    lone: Option<u64>,
    n: u64,
)
    requires
        0 <= at < text.len(),
        forall|i: int| 0 <= i < text.len() ==> ((#[trigger] text[i]) == ':' <==> i == at),
    ensures
        fields == Some(seq![("chunks"@, n)]) && n <= usize::MAX ==> claimed_chunks(
            text,
            fields,
            lone,
        ) == Some(n as usize),
        claimed_chunks(text, fields, lone) is Some ==> fields is Some && fields->Some_0.len() == 1
            && fields->Some_0[0].0 == "chunks"@ && fields->Some_0[0].1 == claimed_chunks(
            text,
            fields,
            lone,
        )->Some_0,
{
    assert(text[at] == ':');
    assert(only_at(text, ':', at));
}

/// A text without a colon is a header if and only if it reads as an array of one number that a
/// `usize` holds; that is the number of chunks.
pub proof fn law_array_headers(
    text: Seq<char>,
    fields: Option<Seq<(Seq<char>, u64)>>,
    lone: Option<u64>,
)
    requires
        forall|i: int| 0 <= i < text.len() ==> (#[trigger] text[i]) != ':',
    ensures
        lone is None || lone->Some_0 > usize::MAX ==> claimed_chunks(text, fields, lone) is None,
        lone is Some && lone->Some_0 <= usize::MAX ==> claimed_chunks(text, fields, lone) == Some(
            lone->Some_0 as usize,
        ),
{
    if occurs_once(text, ':') {
        let k = choose|k: int| #[trigger] only_at(text, ':', k);
        assert(text[k] == ':');
    }
}

/// A text with colons at two places is no header, whatever it reads as.
pub proof fn law_two_colons_are_no_header(
    text: Seq<char>,
    i: int,
    j: int,
    fields: Option<Seq<(Seq<char>, u64)>>,
    lone: Option<u64>,
)
    requires
        0 <= i < j < text.len(),
        text[i] == ':',
        text[j] == ':',
    ensures
        claimed_chunks(text, fields, lone) is None,
        header_chunks(text) is None,
        occurs_again(text, ':'),
{
    assert(text.contains(':'));
    if occurs_once(text, ':') {
        let k = choose|k: int| #[trigger] only_at(text, ':', k);
        assert(i == k && j == k);
    }
}

/// A text is a header by what it reads as itself, as an object and as an array.
pub proof fn law_a_header_is_told_by_its_text(text: Seq<char>)
    ensures
        header_chunks(text) == claimed_chunks(
            text,
            json::json_numbers(text),
            json::json_lone_number(text),
        ),
{
}

/// The view of fields: each name is taken by its view, at its place.
pub proof fn law_fields_are_seen_one_by_one(list: Vec<(String, u64)>)
    ensures
        fields_view(None) is None,
        fields_view(Some(list)) is Some,
        fields_view(Some(list))->Some_0.len() == list@.len(),
        forall|i: int|
            0 <= i < list@.len() ==> fields_view(Some(list))->Some_0[i] == ((
            #[trigger] list@[i]).0@, list@[i].1),
{
}

} // verus!
