//! Cutting the bytes of a token into chunks, and putting them together again.

use vstd::prelude::*;
use vstd::slice::slice_subrange;
use vstd::utf8;

verus! {

/// The bytes cut into pieces of `size`, the last one as short as need be. No bytes, no piece.
pub open spec fn split(bytes: Seq<u8>, size: nat) -> Seq<Seq<u8>>
    decreases bytes.len(),
{
    if bytes.len() == 0 || size == 0 {
        Seq::empty()
    } else if bytes.len() <= size {
        seq![bytes]
    } else {
        seq![bytes.take(size as int)] + split(bytes.skip(size as int), size)
    }
}

/// The pieces one after the other.
pub open spec fn concat(pieces: Seq<Seq<u8>>) -> Seq<u8>
    decreases pieces.len(),
{
    if pieces.len() == 0 {
        Seq::empty()
    } else {
        concat(pieces.drop_last()) + pieces.last()
    }
}

/// A list of slices with each slice taken by its view.
pub open spec fn pieces(list: Seq<&[u8]>) -> Seq<Seq<u8>> {
    list.map_values(|s: &[u8]| s@)
}

/// `bytes` cut into pieces of `size`.
pub fn split_bytes<'a>(bytes: &'a [u8], size: usize) -> (list: Vec<&'a [u8]>)
    requires
        size > 0,
    ensures
        pieces(list@) == split(bytes@, size as nat),
{
    let n: usize = bytes.len();
    let mut list: Vec<&'a [u8]> = Vec::new();
    let mut from: usize = 0;
    assert(bytes@.skip(0) =~= bytes@);
    assert(pieces(list@) + split(bytes@, size as nat) =~= split(bytes@, size as nat));
    while from < n
        invariant
            size > 0,
            from <= n,
            n == bytes@.len(),
            pieces(list@) + split(bytes@.skip(from as int), size as nat) == split(
                bytes@,
                size as nat,
            ),
        decreases n - from,
    {
        let to: usize = if n - from <= size {
            n
        } else {
            from + size
        };
        let piece: &'a [u8] = slice_subrange(bytes, from, to);
        let ghost before = list@;
        let ghost rest = bytes@.skip(from as int);
        list.push(piece);
        proof {
            assert(rest.skip(to - from) =~= bytes@.skip(to as int));
            assert(rest.take(to - from) =~= piece@);
            assert(pieces(list@) =~= pieces(before).push(piece@));
            if n - from <= size {
                assert(rest =~= piece@);
            }
            assert(pieces(list@) + split(bytes@.skip(to as int), size as nat) =~= pieces(before)
                + split(rest, size as nat));
        }
        from = to;
    }
    assert(pieces(list@) + split(bytes@.skip(n as int), size as nat) =~= pieces(list@));
    list
}

/// The error that `String::from_utf8` gives for bytes that are not valid UTF-8, as text.
pub uninterp spec fn utf8_error_text(bytes: Seq<u8>) -> Seq<char>;

/// `String::from_utf8`: succeeds on valid UTF-8 alone, with the text that those bytes encode. On
/// any other bytes its error, given a name of its own, is a function of the bytes.
#[verifier::external_body]
pub(crate) fn text_from_utf8(bytes: Vec<u8>) -> (text: Result<String, String>)
    ensures
        text is Ok <==> utf8::valid_utf8(bytes@),
        text matches Ok(t) ==> utf8::encode_utf8(t@) == bytes@,
        text matches Err(e) ==> e@ == utf8_error_text(bytes@),
{
    match String::from_utf8(bytes) {
        Ok(text) => Ok(text),
        Err(e) => Err(e.to_string()),
    }
}

/// One piece put before others.
proof fn lemma_concat_first(first: Seq<u8>, rest: Seq<Seq<u8>>)
    ensures
        concat(seq![first] + rest) == first + concat(rest),
    decreases rest.len(),
{
    let all = seq![first] + rest;
    if rest.len() == 0 {
        assert(concat(all.drop_last()) =~= Seq::empty());
        assert(concat(rest) =~= Seq::empty());
        assert(concat(all) =~= first + concat(rest));
    } else {
        assert(all.drop_last() =~= seq![first] + rest.drop_last());
        lemma_concat_first(first, rest.drop_last());
        assert(concat(all) =~= first + concat(rest));
    }
}

/// Splitting loses nothing: the pieces put together are the bytes.
pub proof fn law_split_then_concat(bytes: Seq<u8>, size: nat)
    requires
        size > 0,
    ensures
        concat(split(bytes, size)) == bytes,
    decreases bytes.len(),
{
    if bytes.len() == 0 {
        assert(bytes =~= Seq::empty());
    } else if bytes.len() <= size {
        lemma_concat_first(bytes, Seq::empty());
        assert(seq![bytes] + Seq::<Seq<u8>>::empty() =~= seq![bytes]);
        assert(bytes + concat(Seq::empty()) =~= bytes);
    } else {
        let rest = bytes.skip(size as int);
        law_split_then_concat(rest, size);
        lemma_concat_first(bytes.take(size as int), split(rest, size));
        assert(bytes.take(size as int) + rest =~= bytes);
    }
}

/// No piece is empty or larger than `size`, and every piece but the last is exactly `size`, so
/// that a credential entry of that size holds each of them.
pub proof fn law_piece_sizes(bytes: Seq<u8>, size: nat)
    requires
        size > 0,
    ensures
        forall|i: int|
            0 <= i < split(bytes, size).len() ==> 0 < (#[trigger] split(bytes, size)[i]).len()
                <= size,
        forall|i: int|
            0 <= i < split(bytes, size).len() - 1 ==> (#[trigger] split(bytes, size)[i]).len()
                == size,
    decreases bytes.len(),
{
    if bytes.len() > size {
        let rest = bytes.skip(size as int);
        law_piece_sizes(rest, size);
        assert forall|i: int| 0 <= i < split(bytes, size).len() implies 0 < (#[trigger] split(
            bytes,
            size,
        )[i]).len() <= size by {
            if i > 0 {
                assert(split(bytes, size)[i] == split(rest, size)[i - 1]);
            }
        }
        assert forall|i: int| 0 <= i < split(bytes, size).len() - 1 implies (#[trigger] split(
            bytes,
            size,
        )[i]).len() == size by {
            if i > 0 {
                assert(split(bytes, size)[i] == split(rest, size)[i - 1]);
            }
        }
    }
}

/// The number of pieces is the number of bytes divided by `size`, rounded up: a size that divides
/// the bytes evenly adds no empty piece.
pub proof fn law_piece_count(bytes: Seq<u8>, size: nat)
    requires
        size > 0,
    ensures
        split(bytes, size).len() == (bytes.len() + size - 1) / (size as int),
    decreases bytes.len(),
{
    let n = bytes.len() as int;
    let s = size as int;
    if n == 0 {
        vstd::arithmetic::div_mod::lemma_basic_div(s - 1, s);
    } else if n <= s {
        vstd::arithmetic::div_mod::lemma_div_plus_one(n - 1, s);
        vstd::arithmetic::div_mod::lemma_basic_div(n - 1, s);
    } else {
        law_piece_count(bytes.skip(s), size);
        vstd::arithmetic::div_mod::lemma_div_plus_one(n - 1, s);
    }
}

/// The bytes from `i * size` on, up to `size` of them.
pub open spec fn piece_at(bytes: Seq<u8>, size: int, i: int) -> Seq<u8> {
    let end = (i + 1) * size;
    bytes.subrange(
        i * size,
        if end < bytes.len() {
            end
        } else {
            bytes.len() as int
        },
    )
}

/// Piece `i` is the bytes from `i * size` on, up to `size` of them.
pub proof fn law_pieces_are_consecutive(bytes: Seq<u8>, size: nat, i: int)
    requires
        size > 0,
        0 <= i < split(bytes, size).len(),
    ensures
        i * size < bytes.len(),
        split(bytes, size)[i] == piece_at(bytes, size as int, i),
    decreases i,
{
    if i == 0 {
        assert((i + 1) * size == size && i * size == 0) by (nonlinear_arith)
            requires
                i == 0,
        ;
        assert(split(bytes, size)[0] =~= piece_at(bytes, size as int, 0));
    } else {
        let rest = bytes.skip(size as int);
        law_pieces_are_consecutive(rest, size, i - 1);
        assert((i - 1) * size == i * size - size && (i + 1) * size == i * size + size && (i - 1 + 1)
            * size == i * size && (i - 1) * size >= 0) by (nonlinear_arith)
            requires
                i >= 1,
        ;
        assert(split(bytes, size)[i] == split(rest, size)[i - 1]);
        assert(split(bytes, size)[i] =~= piece_at(bytes, size as int, i));
    }
}

/// The pieces are consecutive: piece `i` is the bytes from `i * size` to `(i + 1) * size`, or to the
/// end where that comes first; and there are as many as it takes to hold all bytes.
pub proof fn law_split_cuts_at_multiples_of_the_size(bytes: Seq<u8>, size: nat, i: int)
    requires
        size > 0,
    ensures
        0 <= i ==> (i < split(bytes, size).len() <==> i * size < bytes.len()),
        0 <= i && (i + 1) * size <= bytes.len() ==> split(bytes, size)[i] == bytes.subrange(
            i * size,
            (i + 1) * size,
        ),
        0 <= i && i * size < bytes.len() < (i + 1) * size ==> split(bytes, size)[i]
            == bytes.subrange(i * size, bytes.len() as int),
{
    if 0 <= i {
        let n = split(bytes, size).len() as int;
        law_piece_count(bytes, size);
        lemma_reaches(bytes.len() as int, size as int, n, i);
        if i < n {
            law_pieces_are_consecutive(bytes, size, i);
        } else {
            assert((i + 1) * size == i * size + size) by (nonlinear_arith);
        }
    }
}

/// A count rounded up is the number of multiples below.
proof fn lemma_reaches(len: int, size: int, n: int, i: int)
    requires
        0 <= len,
        0 < size,
        0 <= i,
        n == (len + size - 1) / size,
    ensures
        i < n <==> i * size < len,
{
    let t = len + size - 1;
    vstd::arithmetic::div_mod::lemma_fundamental_div_mod(t, size);
    vstd::arithmetic::div_mod::lemma_mod_bound(t, size);
    assert(i < n <==> i * size < len) by (nonlinear_arith)
        requires
            0 < size,
            0 <= t % size < size,
            t == size * n + t % size,
            t == len + size - 1,
    ;
}

/// Putting pieces together puts one list of them behind the other; a piece alone stays as it is, and
/// no pieces give no bytes.
pub proof fn law_concat_puts_one_behind_the_other(a: Seq<Seq<u8>>, b: Seq<Seq<u8>>, piece: Seq<u8>)
    ensures
        concat(Seq::empty()) == Seq::<u8>::empty(),
        concat(seq![piece]) == piece,
        concat(a + b) == concat(a) + concat(b),
    decreases b.len(),
{
    assert(seq![piece].drop_last() =~= Seq::empty());
    assert(concat(seq![piece].drop_last()) =~= Seq::empty());
    assert(concat(seq![piece]) =~= piece);
    if b.len() == 0 {
        assert(a + b =~= a);
        assert(concat(a) + concat(b) =~= concat(a));
    } else {
        law_concat_puts_one_behind_the_other(a, b.drop_last(), piece);
        assert((a + b).drop_last() =~= a + b.drop_last());
        assert(concat(a + b) =~= concat(a) + concat(b));
    }
}

/// The view of a list of slices: each slice is taken by its view, at its place.
pub proof fn law_slices_are_seen_one_by_one(list: Seq<&[u8]>)
    ensures
        pieces(list).len() == list.len(),
        forall|i: int| 0 <= i < list.len() ==> pieces(list)[i] == (#[trigger] list[i])@,
{
}

} // verus!
