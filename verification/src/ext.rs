//! The primitives of the format: a cursor over the bytes of a document,
//! variable-length integers, length-prefixed strings and run-length encoded
//! strings.

use vstd::prelude::*;
use vstd::slice::slice_subrange;
use vstd::string::StringSliceAdditionalSpecFns;
use vstd::utf8::{decode_utf8, encode_utf8, valid_utf8};
use crate::error::{LoadError, LoadErrorView, StoreError, StreamError};
use crate::wire::{as_signed, le_bytes, le_value};

verus! {

/// The most bytes that a variable-length integer may take: ten groups of
/// seven bits cover sixty-four bits.
pub const VARINT_MAX_BYTES: usize = 10;

/// Reads a variable-length integer from the front of `s`, with room for
/// `room` more bytes. Each byte gives seven bits, least significant group
/// first, and its high bit says that another byte follows. The result is the
/// number and how many bytes it took.
///
/// In the last byte that there is room for, only the lowest bit may be set:
/// anything more does not fit sixty-four bits.
pub open spec fn parse_varint_groups(s: Seq<u8>, room: nat) -> Result<(nat, nat), StreamError>
    decreases room,
{
    if room == 0 {
        Err(StreamError::OversizedInteger)
    } else if s.len() == 0 {
        Err(StreamError::UnexpectedEof)
    } else if room == 1 && s[0] > 1 {
        Err(StreamError::OversizedInteger)
    } else if s[0] < 128 {
        Ok((s[0] as nat, 1))
    } else {
        match parse_varint_groups(s.skip(1), (room - 1) as nat) {
            Ok((v, n)) => Ok(((s[0] - 128) as nat + 128 * v, n + 1)),
            Err(e) => Err(e),
        }
    }
}

/// Reads a variable-length integer of at most sixty-four bits from the front
/// of `s`: the number, and how many bytes it took.
pub open spec fn parse_varint(s: Seq<u8>) -> Result<(nat, nat), StreamError> {
    parse_varint_groups(s, VARINT_MAX_BYTES as nat)
}

/// The bytes of a variable-length integer: groups of seven bits, least
/// significant first, every byte but the last with its high bit set.
pub open spec fn varint_bytes(n: nat) -> Seq<u8>
    decreases n,
{
    if n < 128 {
        seq![n as u8]
    } else {
        seq![(n % 128 + 128) as u8] + varint_bytes(n / 128)
    }
}

/// The largest number that `room` bytes of a variable-length integer may
/// hold, plus one.
pub open spec fn varint_bound(room: nat) -> nat
    decreases room,
{
    if room == 0 {
        0
    } else if room == 1 {
        2
    } else {
        128 * varint_bound((room - 1) as nat)
    }
}

/// Ten bytes hold exactly the numbers of sixty-four bits.
pub proof fn lemma_varint_bound_ten()
    ensures
        varint_bound(10) == 0x1_0000_0000_0000_0000,
{
    reveal_with_fuel(varint_bound, 11);
}

/// A number that fits the room is read back from its bytes, whatever
/// follows them.
pub proof fn lemma_varint_groups_round_trip(n: nat, room: nat, rest: Seq<u8>)
    requires
        n < varint_bound(room),
    ensures
        parse_varint_groups(varint_bytes(n) + rest, room) == Ok::<(nat, nat), StreamError>(
            (n, varint_bytes(n).len()),
        ),
        1 <= varint_bytes(n).len() <= room,
    decreases n,
{
    let s = varint_bytes(n) + rest;
    if n < 128 {
        assert(s[0] == n);
    } else {
        assert(room >= 2) by {
            if room == 1 {
            }
        }
        let tail = varint_bytes(n / 128);
        assert(s[0] == n % 128 + 128);
        assert(s.skip(1) == tail + rest);
        lemma_varint_groups_round_trip(n / 128, (room - 1) as nat, rest);
    }
}

/// Every number of sixty-four bits is read back from its variable-length
/// bytes, whatever follows them.
pub proof fn lemma_varint_round_trip(n: u64, rest: Seq<u8>)
    ensures
        parse_varint(varint_bytes(n as nat) + rest) == Ok::<(nat, nat), StreamError>(
            (n as nat, varint_bytes(n as nat).len()),
        ),
        1 <= varint_bytes(n as nat).len() <= VARINT_MAX_BYTES,
{
    lemma_varint_bound_ten();
    lemma_varint_groups_round_trip(n as nat, 10, rest);
}

/// What comes back from reading a variable-length integer is below the bound
/// of its room, and its bytes are within the input.
pub proof fn lemma_parse_varint_groups_bound(s: Seq<u8>, room: nat)
    ensures
        parse_varint_groups(s, room) matches Ok((v, n)) ==> v < varint_bound(room) && 1 <= n <= room
            && n <= s.len(),
    decreases room,
{
    if room > 0 {
        lemma_varint_bound_positive(room);
        if room > 1 {
            lemma_varint_bound_positive((room - 1) as nat);
        }
        if s.len() > 0 && !(room == 1 && s[0] > 1) && s[0] >= 128 {
            lemma_parse_varint_groups_bound(s.skip(1), (room - 1) as nat);
        }
    }
}

/// Any room at all holds zero and one.
pub proof fn lemma_varint_bound_positive(room: nat)
    requires
        room >= 1,
    ensures
        varint_bound(room) >= 2,
    decreases room,
{
    if room > 1 {
        lemma_varint_bound_positive((room - 1) as nat);
    }
}

/// Reads a length-prefixed string from the front of `s`: a variable-length
/// integer, then that many bytes of UTF-8. The result is the text and how
/// many bytes it took, prefix included.
pub open spec fn parse_string(s: Seq<u8>) -> Result<(Seq<char>, nat), StreamError> {
    match parse_varint(s) {
        Err(e) => Err(e),
        Ok((len, n)) => {
            let bytes = s.subrange(n as int, (n + len) as int);
            if s.len() - n < len {
                Err(StreamError::UnexpectedEof)
            } else if !valid_utf8(bytes) {
                Err(StreamError::InvalidUtf8)
            } else {
                Ok((decode_utf8(bytes), n + len))
            }
        },
    }
}

/// The bytes of a length-prefixed string.
pub open spec fn string_bytes(text: Seq<char>) -> Seq<u8> {
    varint_bytes(encode_utf8(text).len()) + encode_utf8(text)
}

/// A text whose length fits sixty-four bits is read back from its
/// length-prefixed bytes, whatever follows them.
pub proof fn lemma_string_round_trip(text: Seq<char>, rest: Seq<u8>)
    requires
        encode_utf8(text).len() <= u64::MAX,
    ensures
        parse_string(string_bytes(text) + rest) == Ok::<(Seq<char>, nat), StreamError>(
            (text, string_bytes(text).len()),
        ),
{
    let body = encode_utf8(text);
    let prefix = varint_bytes(body.len());
    let s = string_bytes(text) + rest;
    assert(s == prefix + (body + rest));
    lemma_varint_round_trip(body.len() as u64, body + rest);
    assert(s.subrange(prefix.len() as int, (prefix.len() + body.len()) as int) == body);
    vstd::utf8::encode_utf8_valid_utf8(text);
    vstd::utf8::encode_utf8_decode_utf8(text);
}

/// How far the run at the front of `s` reaches, counted from a length `k`
/// that it is known to have: it grows while the next byte is the same as the
/// first, and stops at 255.
pub open spec fn run_from(s: Seq<u8>, k: nat) -> nat
    decreases s.len() - k,
{
    if k < s.len() && k < 255 && s[k as int] == s[0] {
        run_from(s, k + 1)
    } else {
        k
    }
}

/// The length of the run at the front of a sequence that is not empty: the
/// number of leading bytes equal to the first, but no more than 255.
pub open spec fn first_run(s: Seq<u8>) -> nat {
    run_from(s, 1)
}

/// A run is at least as long as it is known to be, within the sequence and
/// within 255, and all its bytes are equal to the first.
pub proof fn lemma_run_from(s: Seq<u8>, k: nat)
    requires
        1 <= k <= s.len(),
        k <= 255,
        forall|j: int| 0 <= j < k ==> #[trigger] s[j] == s[0],
    ensures
        k <= run_from(s, k) <= s.len(),
        run_from(s, k) <= 255,
        forall|j: int| 0 <= j < run_from(s, k) ==> #[trigger] s[j] == s[0],
    decreases s.len() - k,
{
    if k < s.len() && k < 255 && s[k as int] == s[0] {
        lemma_run_from(s, k + 1);
    }
}

/// The run-length encoding of a byte sequence: for each run, its length and
/// its byte. A run ends where the byte changes or after 255 bytes.
pub open spec fn rle_pairs(s: Seq<u8>) -> Seq<u8>
    decreases s.len(),
{
    if s.len() == 0 {
        seq![]
    } else {
        let k = first_run(s);
        if 1 <= k <= s.len() {
            seq![k as u8, s[0]] + rle_pairs(s.skip(k as int))
        } else {
            seq![]
        }
    }
}

/// What run-length pairs stand for: each pair's byte, as often as the pair's
/// length says. A single byte left at the end stands for nothing.
pub open spec fn rle_expand(pairs: Seq<u8>) -> Seq<u8>
    decreases pairs.len(),
{
    if pairs.len() < 2 {
        seq![]
    } else {
        Seq::new(pairs[0] as nat, |i: int| pairs[1]) + rle_expand(pairs.skip(2))
    }
}

/// The run-length encoding is made of whole pairs.
pub proof fn lemma_rle_pairs_even(s: Seq<u8>)
    ensures
        rle_pairs(s).len() % 2 == 0,
    decreases s.len(),
{
    if s.len() > 0 {
        lemma_run_from(s, 1);
        lemma_rle_pairs_even(s.skip(first_run(s) as int));
    }
}

/// Expanding the run-length encoding of a byte sequence gives the sequence.
pub proof fn lemma_rle_round_trip(s: Seq<u8>)
    ensures
        rle_expand(rle_pairs(s)) == s,
    decreases s.len(),
{
    if s.len() > 0 {
        lemma_run_from(s, 1);
        let k = first_run(s);
        let pairs = rle_pairs(s);
        assert(pairs.skip(2) == rle_pairs(s.skip(k as int)));
        lemma_rle_round_trip(s.skip(k as int));
        assert(Seq::new(pairs[0] as nat, |i: int| pairs[1]) == s.take(k as int));
        assert(s.take(k as int) + s.skip(k as int) == s);
    }
}

/// Expanding pairs one after another: whole pairs, then any more.
pub proof fn lemma_rle_expand_concat(a: Seq<u8>, b: Seq<u8>)
    requires
        a.len() % 2 == 0,
    ensures
        rle_expand(a + b) == rle_expand(a) + rle_expand(b),
    decreases a.len(),
{
    if a.len() == 0 {
        assert(a + b == b);
    } else {
        assert((a + b).skip(2) == a.skip(2) + b);
        lemma_rle_expand_concat(a.skip(2), b);
    }
}

/// Reads a run-length encoded string from the front of `s`: a 16-bit count
/// of bytes, then that many bytes taken as pairs of a length and a byte;
/// what the pairs stand for must be UTF-8. The result is the text and how
/// many bytes it took. An odd count leaves its last byte unread.
pub open spec fn parse_rle_string(s: Seq<u8>) -> Result<(Seq<char>, nat), StreamError> {
    let size = le_value(s.take(2));
    let body = 2 * (size / 2);
    let bytes = rle_expand(s.subrange(2, (2 + body) as int));
    if s.len() < 2 {
        Err(StreamError::UnexpectedEof)
    } else if s.len() - 2 < body {
        Err(StreamError::UnexpectedEof)
    } else if !valid_utf8(bytes) {
        Err(StreamError::InvalidUtf8)
    } else {
        Ok((decode_utf8(bytes), 2 + body))
    }
}

/// The most bytes that the pairs of a run-length encoded string may take.
pub const RLE_LIMIT: usize = 65535;

/// The bytes of a run-length encoded string, for a text whose pairs are
/// within the limit.
pub open spec fn rle_string_bytes(text: Seq<char>) -> Seq<u8> {
    le_bytes(rle_pairs(encode_utf8(text)).len(), 2) + rle_pairs(encode_utf8(text))
}

/// A text whose pairs are within the limit is read back from its run-length
/// encoded bytes, whatever follows them.
pub proof fn lemma_rle_string_round_trip(text: Seq<char>, rest: Seq<u8>)
    requires
        rle_pairs(encode_utf8(text)).len() <= RLE_LIMIT,
    ensures
        parse_rle_string(rle_string_bytes(text) + rest) == Ok::<(Seq<char>, nat), StreamError>(
            (text, rle_string_bytes(text).len()),
        ),
{
    let body = encode_utf8(text);
    let pairs = rle_pairs(body);
    let prefix = le_bytes(pairs.len(), 2);
    let s = rle_string_bytes(text) + rest;
    crate::wire::lemma_le_bytes(pairs.len(), 2);
    assert(vstd::arithmetic::power::pow(256, 2) == 65536) by {
        reveal_with_fuel(vstd::arithmetic::power::pow, 3);
    }
    assert(s.take(2) == prefix);
    lemma_rle_pairs_even(body);
    assert(s.subrange(2, (2 + pairs.len()) as int) == pairs);
    lemma_rle_round_trip(body);
    vstd::utf8::encode_utf8_valid_utf8(text);
    vstd::utf8::encode_utf8_decode_utf8(text);
}

/// A cursor over the bytes of a document. Reading moves it forward; it never
/// moves back. A copy of a cursor reads on from the same place, and leaves
/// the cursor where it is.
#[derive(Clone, Copy)]
pub struct Reader<'a> {
    rest: &'a [u8],
}

impl<'a> View for Reader<'a> {
    type V = Seq<u8>;

    /// The bytes that have not been read yet.
    closed spec fn view(&self) -> Seq<u8> {
        self.rest@
    }
}

impl<'a> Reader<'a> {
    /// A cursor at the start of `bytes`.
    pub fn new(bytes: &'a [u8]) -> (r: Reader<'a>)
        ensures
            r@ == bytes@,
    {
        Reader { rest: bytes }
    }

    /// How many bytes have not been read yet.
    pub fn remaining(&self) -> (n: usize)
        ensures
            n == self@.len(),
    {
        self.rest.len()
    }

    /// Reads the next `n` bytes.
    pub fn read_exact(&mut self, n: usize) -> (r: Result<&'a [u8], StreamError>)
        ensures
            match r {
                Ok(bytes) => n <= old(self)@.len() && bytes@ == old(self)@.take(n as int) && final(self)@ == old(self)@.skip(n as int),
                Err(e) => n > old(self)@.len() && e == StreamError::UnexpectedEof && final(self)@
                    == old(self)@,
            },
    {
        if n > self.rest.len() {
            return Err(StreamError::UnexpectedEof);
        }
        let bytes = slice_subrange(self.rest, 0, n);
        self.rest = slice_subrange(self.rest, n, self.rest.len());
        Ok(bytes)
    }

    /// Reads one byte.
    pub fn read_u8(&mut self) -> (r: Result<u8, StreamError>)
        ensures
            match r {
                Ok(b) => old(self)@.len() >= 1 && b == old(self)@[0] && final(self)@ == old(self)@.skip(1),
                Err(e) => old(self)@.len() < 1 && e == StreamError::UnexpectedEof && final(self)@
                    == old(self)@,
            },
    {
        match self.read_exact(1) {
            Ok(bytes) => Ok(bytes[0]),
            Err(e) => Err(e),
        }
    }

    /// Reads an unsigned 16-bit integer, least significant byte first.
    pub fn read_u16(&mut self) -> (r: Result<u16, StreamError>)
        ensures
            match r {
                Ok(v) => old(self)@.len() >= 2 && v == le_value(old(self)@.take(2)) && final(self)@
                    == old(self)@.skip(2),
                Err(e) => old(self)@.len() < 2 && e == StreamError::UnexpectedEof && final(self)@
                    == old(self)@,
            },
    {
        match self.read_exact(2) {
            Ok(bytes) => {
                assert(bytes@.take(2) == bytes@);
                Ok(crate::wire::read_u16(bytes))
            },
            Err(e) => Err(e),
        }
    }

    /// Reads a signed 16-bit integer, least significant byte first.
    pub fn read_i16(&mut self) -> (r: Result<i16, StreamError>)
        ensures
            match r {
                Ok(v) => old(self)@.len() >= 2 && v == as_signed(le_value(old(self)@.take(2)), 16)
                    && final(self)@ == old(self)@.skip(2),
                Err(e) => old(self)@.len() < 2 && e == StreamError::UnexpectedEof && final(self)@
                    == old(self)@,
            },
    {
        match self.read_exact(2) {
            Ok(bytes) => {
                assert(bytes@.take(2) == bytes@);
                Ok(crate::wire::read_i16(bytes))
            },
            Err(e) => Err(e),
        }
    }

    /// Reads an unsigned 32-bit integer, least significant byte first.
    pub fn read_u32(&mut self) -> (r: Result<u32, StreamError>)
        ensures
            match r {
                Ok(v) => old(self)@.len() >= 4 && v == le_value(old(self)@.take(4)) && final(self)@
                    == old(self)@.skip(4),
                Err(e) => old(self)@.len() < 4 && e == StreamError::UnexpectedEof && final(self)@
                    == old(self)@,
            },
    {
        match self.read_exact(4) {
            Ok(bytes) => {
                assert(bytes@.take(4) == bytes@);
                Ok(crate::wire::read_u32(bytes))
            },
            Err(e) => Err(e),
        }
    }

    /// Reads a signed 32-bit integer, least significant byte first.
    pub fn read_i32(&mut self) -> (r: Result<i32, StreamError>)
        ensures
            match r {
                Ok(v) => old(self)@.len() >= 4 && v == as_signed(le_value(old(self)@.take(4)), 32)
                    && final(self)@ == old(self)@.skip(4),
                Err(e) => old(self)@.len() < 4 && e == StreamError::UnexpectedEof && final(self)@
                    == old(self)@,
            },
    {
        match self.read_exact(4) {
            Ok(bytes) => {
                assert(bytes@.take(4) == bytes@);
                Ok(crate::wire::read_i32(bytes))
            },
            Err(e) => Err(e),
        }
    }
}


/// Reading the primitives of the format from a source of bytes.
pub trait ReadExt {
    /// The bytes that have not been read yet.
    spec fn unread(&self) -> Seq<u8>;

    /// Reads a run-length encoded string.
    fn read_rle_string(&mut self) -> (r: Result<String, StreamError>)
        ensures
            match parse_rle_string(old(self).unread()) {
                Ok((text, n)) => r is Ok && r->Ok_0@ == text && final(self).unread() == old(self).unread().skip(n as int),
                Err(e) => r == Err::<String, StreamError>(e) && final(self).unread() == old(self).unread(),
            },
    ;

    /// Reads a 16-bit index and returns the string of `arr` at that place.
    fn lookup_string<'arr>(&mut self, arr: &'arr Vec<String>) -> (r: Result<&'arr str, LoadError>)
        ensures
            match parse_lookup(old(self).unread(), arr@.len()) {
                Ok(i) => r is Ok && r->Ok_0@ == arr@[i as int]@ && final(self).unread() == old(self).unread().skip(2),
                Err(e) => r is Err && r->Err_0@ == e && final(self).unread() == old(self).unread(),
            },
    ;

    /// Reads a length-prefixed string.
    fn read_string(&mut self) -> (r: Result<String, StreamError>)
        ensures
            match parse_string(old(self).unread()) {
                Ok((text, n)) => r is Ok && r->Ok_0@ == text && final(self).unread() == old(self).unread().skip(n as int),
                Err(e) => r == Err::<String, StreamError>(e) && final(self).unread() == old(self).unread(),
            },
    ;

    /// Reads a variable-length integer of at most sixty-four bits.
    fn read_variable_length_int(&mut self) -> (r: Result<u64, StreamError>)
        ensures
            match parse_varint(old(self).unread()) {
                Ok((v, n)) => r == Ok::<u64, StreamError>(v as u64) && v <= u64::MAX && final(self).unread() == old(self).unread().skip(n as int),
                Err(e) => r == Err::<u64, StreamError>(e) && final(self).unread() == old(self).unread(),
            },
    ;
}

/// Reads a 16-bit index into a table of `count` strings from the front of
/// `s`.
pub open spec fn parse_lookup(s: Seq<u8>, count: nat) -> Result<nat, LoadErrorView> {
    let index = le_value(s.take(2));
    if s.len() < 2 {
        Err(LoadErrorView::IoError(StreamError::UnexpectedEof))
    } else if index >= count {
        Err(LoadErrorView::InvalidString(index as usize))
    } else {
        Ok(index)
    }
}

/// Writing the primitives of the format behind the bytes written so far.
pub trait WriteExt {
    /// The bytes written so far.
    spec fn written(&self) -> Seq<u8>;

    /// Writes a string run-length encoded, unless its pairs take more bytes
    /// than their 16-bit count can say: then nothing is written.
    fn write_rle_string(&mut self, str: &str) -> (r: Result<(), StoreError>)
        ensures
            rle_pairs(encode_utf8(str@)).len() <= RLE_LIMIT ==> r is Ok && final(self).written()
                == old(self).written() + rle_string_bytes(str@),
            rle_pairs(encode_utf8(str@)).len() > RLE_LIMIT ==> r == Err::<(), StoreError>(
                StoreError::TextTooLong,
            ) && final(self).written() == old(self).written(),
    ;

    /// Writes a length-prefixed string.
    fn write_string(&mut self, str: &str)
        ensures
            final(self).written() == old(self).written() + string_bytes(str@),
    ;

    /// Writes a variable-length integer.
    fn write_variable_length_int(&mut self, value: u64)
        ensures
            final(self).written() == old(self).written() + varint_bytes(value as nat),
    ;
}


/// Reads a variable-length integer of at most sixty-four bits from the front
/// of `bytes`: the number, and how many bytes it took.
pub fn decode_varint(bytes: &[u8]) -> (r: Result<(u64, usize), StreamError>)
    ensures
        match parse_varint(bytes@) {
            Ok((v, n)) => r == Ok::<(u64, usize), StreamError>((v as u64, n as usize)) && v
                <= u64::MAX && 1 <= n <= bytes@.len(),
            Err(e) => r == Err::<(u64, usize), StreamError>(e),
        },
{
    let mut result: u64 = 0;
    let mut scale: u64 = 1;
    let mut count: usize = 0;
    proof {
        lemma_varint_bound_ten();
        lemma_parse_varint_groups_bound(bytes@, VARINT_MAX_BYTES as nat);
        assert(bytes@.skip(0) == bytes@);
    }
    while count < VARINT_MAX_BYTES
        invariant
            count <= VARINT_MAX_BYTES,
            count <= bytes@.len(),
            scale >= 1,
            scale * varint_bound((VARINT_MAX_BYTES - count) as nat) == 0x1_0000_0000_0000_0000,
            result < scale,
            parse_varint(bytes@) == lift_varint(
                parse_varint_groups(
                    bytes@.skip(count as int),
                    (VARINT_MAX_BYTES - count) as nat,
                ),
                result as nat,
                scale as nat,
                count as nat,
            ),
            parse_varint(bytes@) matches Ok((v, n)) ==> v < 0x1_0000_0000_0000_0000 && 1 <= n
                <= bytes@.len(),
        decreases VARINT_MAX_BYTES - count,
    {
        let ghost room = (VARINT_MAX_BYTES - count) as nat;
        let ghost rest = bytes@.skip(count as int);
        if count >= bytes.len() {
            return Err(StreamError::UnexpectedEof);
        }
        let byte = bytes[count];
        assert(rest[0] == byte);
        if count == VARINT_MAX_BYTES - 1 && byte > 1 {
            return Err(StreamError::OversizedInteger);
        }
        proof {
            lemma_varint_bound_positive(room);
            assert(rest.skip(1) == bytes@.skip(count as int + 1));
        }
        if byte < 128 {
            proof {
                assert(scale * (byte + 1) <= scale * varint_bound(room)) by (nonlinear_arith)
                    requires
                        byte + 1 <= varint_bound(room),
                        scale >= 1,
                ;
                assert(scale * (byte + 1) == scale * byte + scale) by (nonlinear_arith);
            }
            return Ok((result + scale * (byte as u64), count + 1));
        }
        proof {
            assert(room >= 2);
            let next = varint_bound((room - 1) as nat);
            assert(varint_bound(room) == 128 * next);
            lemma_varint_bound_positive((room - 1) as nat);
            assert(scale * 128 * next == scale * (128 * next)) by (nonlinear_arith);
            assert(scale * 128 * 2 <= scale * 128 * next) by (nonlinear_arith)
                requires
                    next >= 2,
                    scale >= 1,
            ;
            assert(scale * (byte - 128) <= scale * 127) by (nonlinear_arith)
                requires
                    byte - 128 <= 127,
                    scale >= 1,
            ;
            lemma_lift_step(
                parse_varint_groups(rest.skip(1), (room - 1) as nat),
                result as nat,
                scale as nat,
                count as nat,
                (byte - 128) as nat,
            );
        }
        result = result + scale * ((byte - 128) as u64);
        scale = scale * 128;
        count = count + 1;
    }
    Err(StreamError::OversizedInteger)
}

/// Expands run-length pairs: each pair's byte, as often as the pair's length
/// says.
pub fn rle_decode(pairs: &[u8]) -> (bytes: Vec<u8>)
    ensures
        bytes@ == rle_expand(pairs@),
{
    let count = pairs.len() / 2;
    let mut bytes: Vec<u8> = Vec::new();
    let mut i: usize = 0;
    assert(pairs@.take(0) == Seq::<u8>::empty());
    while i < count
        invariant
            i <= count,
            count == pairs@.len() / 2,
            2 * count <= pairs@.len() <= usize::MAX,
            bytes@ == rle_expand(pairs@.take(2 * i)),
        decreases count - i,
    {
        let times = pairs[2 * i];
        let byte = pairs[2 * i + 1];
        let ghost before = bytes@;
        let mut k: u8 = 0;
        while k < times
            invariant
                k <= times,
                bytes@ == before + Seq::new(k as nat, |j: int| byte),
            decreases times - k,
        {
            bytes.push(byte);
            k += 1;
        }
        proof {
            let done = pairs@.take(2 * i);
            let pair = seq![times, byte];
            assert(pairs@.take(2 * (i + 1)) == done + pair);
            lemma_rle_expand_concat(done, pair);
            assert(rle_expand(pair.skip(2)) == Seq::<u8>::empty());
            assert(rle_expand(pair) =~= Seq::new(times as nat, |j: int| byte));
        }
        i += 1;
    }
    proof {
        let whole = pairs@.take(2 * count);
        let left = pairs@.skip(2 * count);
        assert(pairs@ == whole + left);
        lemma_rle_expand_concat(whole, left);
        assert(rle_expand(left) == Seq::<u8>::empty());
    }
    bytes
}

/// Run-length encodes bytes, unless the pairs take more bytes than their
/// 16-bit count can say.
pub fn rle_encode(bytes: &[u8]) -> (r: Option<Vec<u8>>)
    ensures
        r is Some <==> rle_pairs(bytes@).len() <= RLE_LIMIT,
        r is Some ==> r->Some_0@ == rle_pairs(bytes@),
{
    let n = bytes.len();
    let mut pairs: Vec<u8> = Vec::new();
    let mut i: usize = 0;
    assert(bytes@.skip(0) == bytes@);
    while i < n
        invariant
            i <= n,
            n == bytes@.len(),
            pairs@.len() <= RLE_LIMIT + 2,
            rle_pairs(bytes@) == pairs@ + rle_pairs(bytes@.skip(i as int)),
        decreases n - i,
    {
        if pairs.len() > RLE_LIMIT {
            return None;
        }
        let ghost rest = bytes@.skip(i as int);
        let byte = bytes[i];
        let mut run: u8 = 1;
        while run < 255 && i + (run as usize) < n && bytes[i + run as usize] == byte
            invariant
                i < n,
                n == bytes@.len(),
                1 <= run <= 255,
                i + run <= n,
                rest == bytes@.skip(i as int),
                byte == rest[0],
                first_run(rest) == run_from(rest, run as nat),
            decreases 255 - run,
        {
            run += 1;
        }
        let ghost before = pairs@;
        pairs.push(run);
        pairs.push(byte);
        proof {
            assert(first_run(rest) == run);
            assert(rest.skip(run as int) == bytes@.skip(i + run));
            assert(pairs@ == before + seq![run, byte]);
        }
        i += run as usize;
    }
    assert(rle_pairs(bytes@.skip(n as int)) == Seq::<u8>::empty());
    if pairs.len() > RLE_LIMIT {
        return None;
    }
    Some(pairs)
}

impl<'a> ReadExt for Reader<'a> {
    open spec fn unread(&self) -> Seq<u8> {
        self@
    }

    fn read_variable_length_int(&mut self) -> (r: Result<u64, StreamError>) {
        match decode_varint(self.rest) {
            Ok((value, n)) => {
                self.rest = slice_subrange(self.rest, n, self.rest.len());
                Ok(value)
            },
            Err(e) => Err(e),
        }
    }

    fn read_string(&mut self) -> (r: Result<String, StreamError>) {
        let (length, n) = match decode_varint(self.rest) {
            Ok(found) => found,
            Err(e) => {
                return Err(e);
            },
        };
        if length > (self.rest.len() - n) as u64 {
            return Err(StreamError::UnexpectedEof);
        }
        let end = n + length as usize;
        let bytes = slice_subrange(self.rest, n, end);
        match String::from_utf8(vstd::slice::slice_to_vec(bytes)) {
            Ok(text) => {
                self.rest = slice_subrange(self.rest, end, self.rest.len());
                Ok(text)
            },
            Err(_) => Err(StreamError::InvalidUtf8),
        }
    }

    fn lookup_string<'arr>(&mut self, arr: &'arr Vec<String>) -> (r: Result<&'arr str, LoadError>) {
        if self.rest.len() < 2 {
            return Err(LoadError::IoError(StreamError::UnexpectedEof));
        }
        let index = crate::wire::read_u16(self.rest) as usize;
        if index < arr.len() {
            self.rest = slice_subrange(self.rest, 2, self.rest.len());
            Ok(arr[index].as_str())
        } else {
            Err(LoadError::InvalidString(index))
        }
    }

    fn read_rle_string(&mut self) -> (r: Result<String, StreamError>) {
        if self.rest.len() < 2 {
            return Err(StreamError::UnexpectedEof);
        }
        let size = crate::wire::read_u16(self.rest) as usize;
        let body = 2 * (size / 2);
        if self.rest.len() - 2 < body {
            return Err(StreamError::UnexpectedEof);
        }
        let bytes = rle_decode(slice_subrange(self.rest, 2, 2 + body));
        match String::from_utf8(bytes) {
            Ok(text) => {
                self.rest = slice_subrange(self.rest, 2 + body, self.rest.len());
                Ok(text)
            },
            Err(_) => Err(StreamError::InvalidUtf8),
        }
    }
}

/// What a partial reading of a variable-length integer makes of the rest:
/// the number read so far stands below the groups still to come.
pub open spec fn lift_varint(
    rest: Result<(nat, nat), StreamError>,
    low: nat,
    scale: nat,
    count: nat,
) -> Result<(nat, nat), StreamError> {
    match rest {
        Ok((v, n)) => Ok((low + scale * v, count + n)),
        Err(e) => Err(e),
    }
}

/// One more group read: it joins the low part, and the scale moves on.
pub proof fn lemma_lift_step(
    rest: Result<(nat, nat), StreamError>,
    low: nat,
    scale: nat,
    count: nat,
    group: nat,
)
    ensures
        lift_varint(
            match rest {
                Ok((v, n)) => Ok((group + 128 * v, n + 1)),
                Err(e) => Err(e),
            },
            low,
            scale,
            count,
        ) == lift_varint(rest, low + scale * group, scale * 128, count + 1),
{
    match rest {
        Ok((v, n)) => {
            assert(low + scale * (group + 128 * v) == low + scale * group + scale * 128 * v)
                by (nonlinear_arith);
        },
        Err(e) => {},
    }
}

impl WriteExt for Vec<u8> {
    open spec fn written(&self) -> Seq<u8> {
        self@
    }

    fn write_variable_length_int(&mut self, value: u64) {
        let ghost start = self@;
        let mut rest = value;
        while rest >= 128
            invariant
                start + varint_bytes(value as nat) == self@ + varint_bytes(rest as nat),
            decreases rest,
        {
            let ghost before = self@;
            self.push((rest % 128 + 128) as u8);
            assert(before + varint_bytes(rest as nat) == self@ + varint_bytes((rest / 128) as nat));
            rest = rest / 128;
        }
        let ghost before = self@;
        self.push(rest as u8);
        assert(before + varint_bytes(rest as nat) == self@);
    }

    fn write_string(&mut self, str: &str) {
        let bytes = str.as_bytes();
        self.write_variable_length_int(bytes.len() as u64);
        self.extend_from_slice(bytes);
    }

    fn write_rle_string(&mut self, str: &str) -> (r: Result<(), StoreError>) {
        match rle_encode(str.as_bytes()) {
            Some(pairs) => {
                let count = crate::wire::write_u16(pairs.len() as u16);
                self.extend_from_slice(count.as_slice());
                self.extend_from_slice(pairs.as_slice());
                Ok(())
            },
            None => Err(StoreError::TextTooLong),
        }
    }
}

} // verus!
