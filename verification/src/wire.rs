//! The primitives of the binary layout: unsigned 32-bit integers, least
//! significant byte first, and text as a byte count followed by UTF-8 bytes.

use vstd::prelude::*;
use vstd::slice::*;
use vstd::utf8::*;

verus! {

/// Why a buffer could not be decoded.
#[derive(Debug, Clone, Copy, PartialEq, Eq, Structural)]
pub enum DecodeError {
    /// The input is shorter than an integer field, or than a declared
    /// length demands.
    Truncated,
    /// The input ended where another optional field was still expected.
    UnexpectedEnd,
    /// A text field does not hold UTF-8.
    InvalidUtf8,
}

/// The four bytes of `x`, least significant first.
pub open spec fn le32(x: u32) -> Seq<u8> {
    seq![
        (x % 256) as u8,
        ((x / 256) % 256) as u8,
        ((x / 65536) % 256) as u8,
        (x / 16777216) as u8,
    ]
}

/// The integer whose little-endian bytes are `b0, b1, b2, b3`.
pub open spec fn le32_value(b0: u8, b1: u8, b2: u8, b3: u8) -> u32 {
    (b0 + 256 * b1 + 65536 * b2 + 16777216 * b3) as u32
}

/// The prefix that announces `n` following items: `n` is reduced modulo
/// 2^32, so the prefix is exact for every count that fits 32 bits.
pub open spec fn count_prefix(n: nat) -> Seq<u8> {
    le32((n % 0x1_0000_0000) as u32)
}

/// A frame: the count of `bytes`, then `bytes`.
pub open spec fn framed(bytes: Seq<u8>) -> Seq<u8> {
    count_prefix(bytes.len()) + bytes
}

/// A text field: the frame of the text's UTF-8 form.
pub open spec fn text_field(text: Seq<char>) -> Seq<u8> {
    framed(encode_utf8(text))
}

/// An optional text field; an absent text is written as the empty text.
pub open spec fn optional_text_field(text: Option<Seq<char>>) -> Seq<u8> {
    match text {
        Some(t) => text_field(t),
        None => text_field(Seq::empty()),
    }
}

/// The concatenated little-endian forms of `ids`.
pub open spec fn id_fields(ids: Seq<u32>) -> Seq<u8>
    decreases ids.len(),
{
    if ids.len() == 0 {
        Seq::empty()
    } else {
        le32(ids[0]) + id_fields(ids.skip(1))
    }
}

/// Reads one integer from the front of `s`; gives it with the rest of `s`.
pub open spec fn take_u32(s: Seq<u8>) -> Result<(u32, Seq<u8>), DecodeError> {
    if s.len() < 4 {
        Err(DecodeError::Truncated)
    } else {
        Ok((le32_value(s[0], s[1], s[2], s[3]), s.skip(4)))
    }
}

/// Reads `n` integers from the front of `s`.
pub open spec fn take_ids(s: Seq<u8>, n: nat) -> Result<(Seq<u32>, Seq<u8>), DecodeError>
    decreases n,
{
    if n == 0 {
        Ok((Seq::empty(), s))
    } else {
        match take_u32(s) {
            Err(e) => Err(e),
            Ok((x, rest)) => match take_ids(rest, (n - 1) as nat) {
                Err(e) => Err(e),
                Ok((xs, rest2)) => Ok((seq![x] + xs, rest2)),
            },
        }
    }
}

/// Reads one frame from the front of `s`: a byte count, then that many
/// bytes. Gives the bytes with the rest of `s`.
pub open spec fn take_frame(s: Seq<u8>) -> Result<(Seq<u8>, Seq<u8>), DecodeError> {
    match take_u32(s) {
        Err(e) => Err(e),
        Ok((len, rest)) => if rest.len() < len {
            Err(DecodeError::Truncated)
        } else {
            Ok((rest.take(len as int), rest.skip(len as int)))
        },
    }
}

/// Reads one text field from the front of `s`.
pub open spec fn take_text(s: Seq<u8>) -> Result<(Seq<char>, Seq<u8>), DecodeError> {
    match take_frame(s) {
        Err(e) => Err(e),
        Ok((bytes, rest)) => if !valid_utf8(bytes) {
            Err(DecodeError::InvalidUtf8)
        } else {
            Ok((decode_utf8(bytes), rest))
        },
    }
}

/// Reads one optional text field from the front of `s`. The field must be
/// there; an empty text reads as absent.
pub open spec fn take_optional_text(s: Seq<u8>) -> Result<
    (Option<Seq<char>>, Seq<u8>),
    DecodeError,
> {
    if s.len() == 0 {
        Err(DecodeError::UnexpectedEnd)
    } else {
        match take_text(s) {
            Err(e) => Err(e),
            Ok((t, rest)) => Ok((if t.len() == 0 { None } else { Some(t) }, rest)),
        }
    }
}

/// Reading back what `le32` wrote gives the integer and leaves what followed.
pub proof fn lemma_take_u32_of_le32(x: u32, rest: Seq<u8>)
    ensures
        take_u32(le32(x) + rest) == Ok::<(u32, Seq<u8>), DecodeError>((x, rest)),
{
    let s = le32(x) + rest;
    assert(s.skip(4) =~= rest);
    assert(s[0] == (x % 256) as u8);
    assert(s[1] == ((x / 256) % 256) as u8);
    assert(s[2] == ((x / 65536) % 256) as u8);
    assert(s[3] == (x / 16777216) as u8);
}

/// Reading back a frame gives its bytes and leaves what followed.
pub proof fn lemma_take_frame_of_framed(bytes: Seq<u8>, rest: Seq<u8>)
    requires
        bytes.len() < 0x1_0000_0000,
    ensures
        take_frame(framed(bytes) + rest) == Ok::<(Seq<u8>, Seq<u8>), DecodeError>((bytes, rest)),
{
    let n = (bytes.len() % 0x1_0000_0000) as u32;
    assert(framed(bytes) + rest =~= le32(n) + (bytes + rest));
    lemma_take_u32_of_le32(n, bytes + rest);
    assert((bytes + rest).take(n as int) =~= bytes);
    assert((bytes + rest).skip(n as int) =~= rest);
}

/// Appends the little-endian form of `x` to `out`.
pub fn put_u32(out: &mut Vec<u8>, x: u32)
    ensures
        final(out)@ == old(out)@ + le32(x),
{
    out.push((x % 256) as u8);
    out.push(((x / 256) % 256) as u8);
    out.push(((x / 65536) % 256) as u8);
    out.push((x / 16777216) as u8);
    assert(out@ =~= old(out)@ + le32(x));
}

/// Appends the prefix that announces `n` items to `out`.
pub fn put_count(out: &mut Vec<u8>, n: usize)
    ensures
        final(out)@ == old(out)@ + count_prefix(n as nat),
{
    let low: u64 = (n as u64) % 0x1_0000_0000u64;
    put_u32(out, low as u32);
}

/// Appends the frame of `bytes` to `out`.
pub fn put_frame(out: &mut Vec<u8>, bytes: &[u8])
    ensures
        final(out)@ == old(out)@ + framed(bytes@),
{
    put_count(out, bytes.len());
    out.extend_from_slice(bytes);
    assert(out@ =~= old(out)@ + framed(bytes@));
}

/// Appends `text` as a text field to `out`.
pub fn put_text(out: &mut Vec<u8>, text: &str)
    ensures
        final(out)@ == old(out)@ + text_field(text@),
{
    put_frame(out, text.as_bytes());
}

/// Calls `String::from_utf8`. The contract says that the call succeeds
/// exactly on well-formed UTF-8, and that the text it gives is the one those
/// bytes decode to.
#[verifier::external_body]
fn text_from_utf8(bytes: Vec<u8>) -> (r: Option<String>)
    ensures
        r is Some <==> valid_utf8(bytes@),
        r matches Some(t) ==> t@ == decode_utf8(bytes@),
{
    String::from_utf8(bytes).ok()
}

/// A cursor over a byte buffer. Every read checks the bounds first and
/// moves the cursor past what it read.
pub struct Reader<'a> {
    data: &'a [u8],
    pos: usize,
}

impl<'a> Reader<'a> {
    #[verifier::type_invariant]
    spec fn in_bounds(self) -> bool {
        self.pos <= self.data@.len()
    }

    /// The bytes that have not been read yet.
    pub closed spec fn remaining(self) -> Seq<u8> {
        self.data@.skip(self.pos as int)
    }

    /// A cursor at the start of `data`.
    pub fn new(data: &'a [u8]) -> (r: Self)
        ensures
            r.remaining() == data@,
    {
        let r = Reader { data, pos: 0 };
        assert(data@.skip(0) =~= data@);
        r
    }

    /// Whether every byte has been read.
    pub fn at_end(&self) -> (b: bool)
        ensures
            b == (self.remaining().len() == 0),
    {
        proof {
            use_type_invariant(self);
        }
        self.pos == self.data.len()
    }

    /// Reads one integer.
    pub fn read_u32(&mut self) -> (r: Result<u32, DecodeError>)
        ensures
            match take_u32(old(self).remaining()) {
                Ok((x, rest)) => r == Ok::<u32, DecodeError>(x) && final(self).remaining() == rest,
                Err(e) => r == Err::<u32, DecodeError>(e),
            },
    {
        proof {
            use_type_invariant(&*self);
        }
        if self.data.len() - self.pos < 4 {
            return Err(DecodeError::Truncated);
        }
        let b0: u8 = self.data[self.pos];
        let b1: u8 = self.data[self.pos + 1];
        let b2: u8 = self.data[self.pos + 2];
        let b3: u8 = self.data[self.pos + 3];
        let x: u32 = b0 as u32 + 256 * (b1 as u32) + 65536 * (b2 as u32) + 16777216 * (b3 as u32);
        assert(self.data@.skip(self.pos as int).skip(4) =~= self.data@.skip(self.pos + 4));
        self.pos = self.pos + 4;
        Ok(x)
    }

    /// Reads `n` integers.
    pub fn read_ids(&mut self, n: u32) -> (r: Result<Vec<u32>, DecodeError>)
        ensures
            match take_ids(old(self).remaining(), n as nat) {
                Ok((ids, rest)) => r is Ok && r->Ok_0@ == ids && final(self).remaining() == rest,
                Err(e) => r == Err::<Vec<u32>, DecodeError>(e),
            },
    {
        let mut ids: Vec<u32> = Vec::new();
        let mut i: u32 = 0;
        while i < n
            invariant
                i <= n,
                ids@.len() == i,
                match take_ids(self.remaining(), (n - i) as nat) {
                    Ok((tail, rest)) => take_ids(old(self).remaining(), n as nat) == Ok::<
                        (Seq<u32>, Seq<u8>),
                        DecodeError,
                    >((ids@ + tail, rest)),
                    Err(e) => take_ids(old(self).remaining(), n as nat) == Err::<
                        (Seq<u32>, Seq<u8>),
                        DecodeError,
                    >(e),
                },
            decreases n - i,
        {
            let ghost done = ids@;
            match self.read_u32() {
                Err(e) => {
                    return Err(e);
                },
                Ok(x) => {
                    ids.push(x);
                    proof {
                        match take_ids(self.remaining(), (n - i - 1) as nat) {
                            Ok((tail, rest)) => {
                                assert(done + (seq![x] + tail) =~= ids@ + tail);
                            },
                            Err(e) => {},
                        }
                    }
                },
            }
            i = i + 1;
        }
        assert(ids@ + Seq::<u32>::empty() =~= ids@);
        Ok(ids)
    }

    /// Reads one frame: a byte count, then that many bytes.
    pub fn read_frame(&mut self) -> (r: Result<&'a [u8], DecodeError>)
        ensures
            match take_frame(old(self).remaining()) {
                Ok((bytes, rest)) => r is Ok && r->Ok_0@ == bytes && final(self).remaining()
                    == rest,
                Err(e) => r == Err::<&[u8], DecodeError>(e),
            },
    {
        let len: usize = match self.read_u32() {
            Err(e) => {
                return Err(e);
            },
            Ok(n) => n as usize,
        };
        proof {
            use_type_invariant(&*self);
        }
        if self.data.len() - self.pos < len {
            return Err(DecodeError::Truncated);
        }
        let bytes = slice_subrange(self.data, self.pos, self.pos + len);
        assert(bytes@ =~= self.remaining().take(len as int));
        assert(self.data@.skip(self.pos as int).skip(len as int) =~= self.data@.skip(
            self.pos + len,
        ));
        self.pos = self.pos + len;
        Ok(bytes)
    }

    /// Reads one text field.
    pub fn read_text(&mut self) -> (r: Result<String, DecodeError>)
        ensures
            match take_text(old(self).remaining()) {
                Ok((t, rest)) => r is Ok && r->Ok_0@ == t && final(self).remaining() == rest,
                Err(e) => r == Err::<String, DecodeError>(e),
            },
    {
        let bytes = match self.read_frame() {
            Err(e) => {
                return Err(e);
            },
            Ok(bytes) => slice_to_vec(bytes),
        };
        match text_from_utf8(bytes) {
            None => Err(DecodeError::InvalidUtf8),
            Some(t) => Ok(t),
        }
    }

    /// Reads one optional text field: the field must be there, and an empty
    /// text reads as absent.
    pub fn read_optional_text(&mut self) -> (r: Result<Option<String>, DecodeError>)
        ensures
            match take_optional_text(old(self).remaining()) {
                Ok((t, rest)) => r is Ok && option_text(r->Ok_0) == t && final(self).remaining()
                    == rest,
                Err(e) => r == Err::<Option<String>, DecodeError>(e),
            },
    {
        if self.at_end() {
            return Err(DecodeError::UnexpectedEnd);
        }
        match self.read_text() {
            Err(e) => Err(e),
            Ok(t) => {
                if t.as_str().is_empty() {
                    Ok(None)
                } else {
                    Ok(Some(t))
                }
            },
        }
    }
}

/// The text that an optional string holds, if any.
pub open spec fn option_text(t: Option<String>) -> Option<Seq<char>> {
    match t {
        Some(s) => Some(s@),
        None => None,
    }
}

} // verus!
