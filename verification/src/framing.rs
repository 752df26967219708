//! The framing of records: a length of four bytes, least significant first,
//! then that many bytes of body.

use byteorder::ByteOrder;
use byteorder::LittleEndian;
use vstd::prelude::*;
use vstd::slice::slice_subrange;

verus! {

/// The four bytes that stand for `n`, least significant first.
pub open spec fn le32(n: u32) -> Seq<u8> {
    seq![
        (n % 256) as u8,
        ((n / 256) % 256) as u8,
        ((n / 65536) % 256) as u8,
        ((n / 16777216) % 256) as u8,
    ]
}

/// The number that the first four bytes of `bytes` stand for, least
/// significant first.
pub open spec fn le32_value(bytes: Seq<u8>) -> int
    recommends
        bytes.len() >= 4,
{
    bytes[0] + 256 * bytes[1] + 65536 * bytes[2] + 16777216 * bytes[3]
}

/// Four bytes written for a number read back as that number.
pub proof fn lemma_le32_round_trip(n: u32)
    ensures
        le32(n).len() == 4,
        le32_value(le32(n)) == n,
{
}

/// The value of four bytes fits in 32 bits.
pub proof fn lemma_le32_value_bounds(bytes: Seq<u8>)
    requires
        bytes.len() >= 4,
    ensures
        0 <= le32_value(bytes) <= u32::MAX,
{
}

/// `byteorder::LittleEndian::write_u32`: overwrites the first four bytes of
/// `buf` with `n`, least significant byte first, and leaves the rest of `buf`
/// as it was. It panics on a shorter buffer, which `requires` leaves out.
#[verifier::external_body]
pub(crate) fn write_le32(buf: &mut Vec<u8>, n: u32)
    requires
        old(buf)@.len() >= 4,
    ensures
        final(buf)@ == le32(n) + old(buf)@.skip(4),
{
    LittleEndian::write_u32(buf, n)
}

/// `byteorder::LittleEndian::read_u32`: the number that the first four bytes
/// of `buf` stand for, least significant byte first. It panics on a shorter
/// buffer, which `requires` leaves out.
#[verifier::external_body]
pub(crate) fn read_le32(buf: &[u8]) -> (n: u32)
    requires
        buf@.len() >= 4,
    ensures
        n == le32_value(buf@),
{
    LittleEndian::read_u32(buf)
}

/// The body of the frame that starts at `at`, and where the next frame
/// starts. `None` where fewer than four bytes are left for the length, or
/// fewer bytes than the length declares are left for the body.
pub open spec fn frame_at(bytes: Seq<u8>, at: int) -> Option<(Seq<u8>, int)>
    recommends
        0 <= at <= bytes.len(),
{
    if at + 4 > bytes.len() {
        None
    } else {
        let n = le32_value(bytes.subrange(at, at + 4));
        if at + 4 + n > bytes.len() {
            None
        } else {
            Some((bytes.subrange(at + 4, at + 4 + n), at + 4 + n))
        }
    }
}

/// A frame that is there ends within the bytes, behind where it starts.
pub proof fn lemma_frame_at_bounds(bytes: Seq<u8>, at: int)
    requires
        0 <= at,
        frame_at(bytes, at) is Some,
    ensures
        at + 4 <= frame_at(bytes, at).unwrap().1 <= bytes.len(),
        frame_at(bytes, at).unwrap().0.len() == frame_at(bytes, at).unwrap().1 - at - 4,
{
    lemma_le32_value_bounds(bytes.subrange(at, at + 4));
}

/// The frame of `body`: its length in four bytes, then the body itself.
pub open spec fn framed(body: Seq<u8>) -> Seq<u8>
    recommends
        body.len() <= u32::MAX,
{
    le32(body.len() as u32) + body
}

/// A frame, whatever follows it, is read back as its body, and the next
/// frame starts right behind it.
pub proof fn lemma_frame_at_framed(before: Seq<u8>, body: Seq<u8>, after: Seq<u8>)
    requires
        body.len() <= u32::MAX,
    ensures
        frame_at(before + framed(body) + after, before.len() as int) == Some(
            (body, before.len() as int + 4 + body.len() as int),
        ),
{
    let all = before + framed(body) + after;
    let at = before.len() as int;
    lemma_le32_round_trip(body.len() as u32);
    assert(all.subrange(at, at + 4) =~= le32(body.len() as u32));
    assert(all.subrange(at + 4, at + 4 + body.len()) =~= body);
}

/// A frame within the first part of a sequence is the same frame whatever
/// follows that part.
pub proof fn lemma_frame_at_prefix(a: Seq<u8>, b: Seq<u8>, at: int)
    requires
        0 <= at,
        frame_at(a, at) is Some,
    ensures
        frame_at(a + b, at) == frame_at(a, at),
{
    lemma_frame_at_bounds(a, at);
    let n = le32_value(a.subrange(at, at + 4));
    assert((a + b).subrange(at, at + 4) =~= a.subrange(at, at + 4));
    assert((a + b).subrange(at + 4, at + 4 + n) =~= a.subrange(at + 4, at + 4 + n));
}

/// A frame in the second part of a sequence is the frame of that part
/// alone, moved by the length of the first part.
pub proof fn lemma_frame_at_shift(a: Seq<u8>, b: Seq<u8>, at: int)
    requires
        0 <= at <= b.len(),
    ensures
        frame_at(a + b, a.len() + at) == match frame_at(b, at) {
            Some((body, next)) => Some((body, a.len() + next)),
            None => None,
        },
{
    if at + 4 <= b.len() {
        let n = le32_value(b.subrange(at, at + 4));
        let from = a.len() + at;
        lemma_le32_value_bounds(b.subrange(at, at + 4));
        assert((a + b).subrange(from, from + 4) =~= b.subrange(at, at + 4));
        if at + 4 + n <= b.len() {
            assert((a + b).subrange(from + 4, from + 4 + n) =~= b.subrange(at + 4, at + 4 + n));
        }
    }
}

/// A position in a sequence of bytes that holds frames.
pub struct Cursor {
    bytes: Vec<u8>,
    position: usize,
}

impl Cursor {
    #[verifier::type_invariant]
    spec fn inv(self) -> bool {
        self.position <= self.bytes@.len()
    }

    /// The bytes that the cursor moves over.
    pub closed spec fn bytes(self) -> Seq<u8> {
        self.bytes@
    }

    /// How many of the bytes lie behind the cursor.
    pub closed spec fn at(self) -> int {
        self.position as int
    }

    /// A cursor before the first of `bytes`.
    pub fn new(bytes: Vec<u8>) -> (c: Cursor)
        ensures
            c.bytes() == bytes@,
            c.at() == 0,
    {
        Cursor { bytes, position: 0 }
    }

    /// How many bytes lie behind the cursor.
    pub fn position(&self) -> (p: usize)
        ensures
            p == self.at(),
            p <= self.bytes().len(),
    {
        proof {
            use_type_invariant(self);
        }
        self.position
    }

    /// How many bytes lie before the cursor.
    pub fn remaining(&self) -> (n: usize)
        ensures
            n == self.bytes().len() - self.at(),
    {
        proof {
            use_type_invariant(self);
        }
        self.bytes.len() - self.position
    }

    /// Moves the cursor so that `position` bytes lie behind it.
    pub fn set_position(&mut self, position: usize)
        requires
            position <= old(self).bytes().len(),
        ensures
            final(self).bytes() == old(self).bytes(),
            final(self).at() == position,
    {
        self.position = position;
    }

    /// Reads the frame at the cursor and moves behind it. Where no whole
    /// frame is left, the cursor stays.
    pub fn read_frame(&mut self) -> (body: Option<Vec<u8>>)
        ensures
            final(self).bytes() == old(self).bytes(),
            match frame_at(old(self).bytes(), old(self).at()) {
                Some((b, next)) => body is Some && body.unwrap()@ == b && final(self).at() == next,
                None => body is None && final(self).at() == old(self).at(),
            },
    {
        proof {
            use_type_invariant(&*self);
        }
        let len = self.bytes.len();
        let start = self.position;
        if len - start < 4 {
            return None;
        }
        let n = read_le32(slice_subrange(self.bytes.as_slice(), start, start + 4)) as usize;
        proof {
            lemma_le32_value_bounds(self.bytes@.subrange(start as int, start + 4));
        }
        if len - start - 4 < n {
            return None;
        }
        let body = vstd::slice::slice_to_vec(
            slice_subrange(self.bytes.as_slice(), start + 4, start + 4 + n),
        );
        self.position = start + 4 + n;
        Some(body)
    }
}

} // verus!
