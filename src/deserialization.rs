//! A bounds-checked cursor over an immutable byte buffer, and the decoding
//! capability that every wire type provides.
use vstd::prelude::*;

verus! {

/// Why a decode failed. Any failure aborts the whole enclosing decode.
#[derive(Debug, Clone, Copy, PartialEq, Eq, Structural)]
pub enum DecodeError {
    /// Fewer bytes remain than a field requires.
    TruncatedBuffer,
    /// A compression pointer does not point strictly before the name holding it.
    InvalidCompressionPointer,
    /// The record data took another number of bytes than its declared length.
    RDLengthMismatch,
    /// A record type number outside the known set, in a type field.
    UnknownRecordKind,
    /// A class number outside the known set.
    UnknownClass,
}

/// The big-endian word at `pos`, if two bytes are there.
pub open spec fn spec_u16_at(buf: Seq<u8>, pos: int) -> Option<u16> {
    if 0 <= pos && pos + 2 <= buf.len() {
        Some((buf[pos] as int * 256 + buf[pos + 1] as int) as u16)
    } else {
        None
    }
}

/// The big-endian signed 32-bit word at `pos`, if four bytes are there.
pub open spec fn spec_i32_at(buf: Seq<u8>, pos: int) -> Option<i32> {
    if 0 <= pos && pos + 4 <= buf.len() {
        Some(
            (buf[pos] as int * 0x1000000 + buf[pos + 1] as int * 0x10000 + buf[pos + 2] as int
                * 0x100 + buf[pos + 3] as int) as u32 as i32,
        )
    } else {
        None
    }
}

/// Reads a big-endian 16-bit word and moves the cursor past it.
pub fn pop_u16(buf: &[u8], cursor: &mut usize) -> (r: Option<u16>)
    ensures
        r == spec_u16_at(buf@, *old(cursor) as int),
        r is Some ==> *final(cursor) == *old(cursor) + 2,
{
    if *cursor >= buf.len() || buf.len() - *cursor < 2 {
        return None;
    }
    let hi = buf[*cursor] as u16;
    *cursor += 1;
    let lo = buf[*cursor] as u16;
    *cursor += 1;
    Some(hi * 256 + lo)
}

/// Reads one byte and moves the cursor past it.
pub fn pop_u8(buf: &[u8], cursor: &mut usize) -> (r: Option<u8>)
    ensures
        *old(cursor) < buf@.len() ==> r == Some(buf@[*old(cursor) as int]) && *final(cursor)
            == *old(cursor) + 1,
        *old(cursor) >= buf@.len() ==> r is None,
{
    if *cursor >= buf.len() {
        return None;
    }
    let lo = buf[*cursor];
    *cursor += 1;
    Some(lo)
}

/// The `n` bytes at `pos`, if they are all there.
pub open spec fn spec_bytes_at(buf: Seq<u8>, pos: int, n: int) -> Option<Seq<u8>> {
    if 0 <= pos && 0 <= n && pos + n <= buf.len() {
        Some(buf.subrange(pos, pos + n))
    } else {
        None
    }
}

/// Reads `n` raw bytes and moves the cursor past them.
pub fn pop_bytes(buf: &[u8], cursor: &mut usize, n: usize) -> (r: Option<Vec<u8>>)
    ensures
        r matches Some(v) ==> v@ == spec_bytes_at(buf@, *old(cursor) as int, n as int)->Some_0
            && *final(cursor) == *old(cursor) + n,
        r is None <==> spec_bytes_at(buf@, *old(cursor) as int, n as int) is None,
{
    if *cursor > buf.len() || buf.len() - *cursor < n {
        return None;
    }
    let start = *cursor;
    let stop = start + n;
    let mut out: Vec<u8> = Vec::new();
    while *cursor < stop
        invariant
            stop == start + n,
            start <= *cursor <= stop <= buf@.len(),
            out@ == buf@.subrange(start as int, *cursor as int),
        decreases stop - *cursor,
    {
        out.push(buf[*cursor]);
        *cursor += 1;
        assert(out@ =~= buf@.subrange(start as int, *cursor as int));
    }
    Some(out)
}

/// A part of bytes found at `p` is found at the matching place of `buf`.
pub proof fn lemma_subrange_part(buf: Seq<u8>, p: int, w: Seq<u8>, a: int, b: int)
    requires
        0 <= p,
        p + w.len() <= buf.len(),
        buf.subrange(p, p + w.len()) == w,
        0 <= a <= b <= w.len(),
    ensures
        buf.subrange(p + a, p + b) == w.subrange(a, b),
{
    assert forall|i: int| 0 <= i < b - a implies buf.subrange(p + a, p + b)[i] == w.subrange(
        a,
        b,
    )[i] by {
        assert(buf[p + a + i] == buf.subrange(p, p + w.len())[a + i]);
    };
    assert(buf.subrange(p + a, p + b) =~= w.subrange(a, b));
}

/// A word written high byte first reads back as itself.
pub proof fn lemma_be16_read(buf: Seq<u8>, p: int, n: u16)
    requires
        0 <= p,
        p + 2 <= buf.len(),
        buf.subrange(p, p + 2) == crate::serialization::be16(n),
    ensures
        spec_u16_at(buf, p) == Some(n),
{
    assert(buf[p] == buf.subrange(p, p + 2)[0]);
    assert(buf[p + 1] == buf.subrange(p, p + 2)[1]);
    let hi = n / 256;
    let lo = n % 256;
    assert(hi < 256 && lo < 256);
    assert(buf[p] as int == hi);
    assert(buf[p + 1] as int == lo);
}

/// A value that can be decoded from a buffer at a cursor. `spec_from_bytes`
/// gives the decoded value's view and the cursor after it, or the failure.
pub trait FromBytes: Sized + View {
    spec fn spec_from_bytes(buf: Seq<u8>, pos: int) -> Result<(Self::V, int), DecodeError>;

    fn from_bytes(buf: &[u8], cursor: &mut usize) -> (r: Result<Self, DecodeError>)
        ensures
            match Self::spec_from_bytes(buf@, *old(cursor) as int) {
                Ok((v, end)) => r matches Ok(x) && x@ == v && *final(cursor) as int == end,
                Err(e) => r == Err::<Self, DecodeError>(e),
            },
    ;
}

/// `count` values of `T` decoded one after the other from `pos`, or the
/// first failure.
pub open spec fn spec_collection<T: FromBytes>(buf: Seq<u8>, pos: int, count: nat) -> Result<
    (Seq<T::V>, int),
    DecodeError,
>
    decreases count,
{
    if count == 0 {
        Ok((Seq::empty(), pos))
    } else {
        match T::spec_from_bytes(buf, pos) {
            Err(e) => Err(e),
            Ok((v, next)) => match spec_collection::<T>(buf, next, (count - 1) as nat) {
                Err(e) => Err(e),
                Ok((vs, end)) => Ok((seq![v] + vs, end)),
            },
        }
    }
}

/// Decodes `count` values of `T` in a row. The first failure fails the whole
/// read: no partial list is returned.
pub fn pop_collection<T: FromBytes>(buf: &[u8], cursor: &mut usize, count: usize) -> (r: Result<
    Vec<T>,
    DecodeError,
>)
    ensures
        match spec_collection::<T>(buf@, *old(cursor) as int, count as nat) {
            Ok((vs, end)) => r matches Ok(xs) && xs@.map_values(|x: T| x@) == vs && *final(cursor)
                as int == end,
            Err(e) => r == Err::<Vec<T>, DecodeError>(e),
        },
{
    let mut items: Vec<T> = Vec::new();
    let mut i: usize = 0;
    while i < count
        invariant
            i <= count,
            spec_collection::<T>(buf@, *old(cursor) as int, count as nat) == match spec_collection::<
                T,
            >(buf@, *cursor as int, (count - i) as nat) {
                Ok((vs, end)) => Ok((items@.map_values(|x: T| x@) + vs, end)),
                Err(e) => Err(e),
            },
        decreases count - i,
    {
        let item = T::from_bytes(buf, cursor)?;
        proof {
            let ghost vs = items@.map_values(|x: T| x@);
            assert(items@.push(item).map_values(|x: T| x@) =~= vs.push(item@));
            let ghost rest = spec_collection::<T>(buf@, *cursor as int, (count - i - 1) as nat);
            if let Ok((ws, end)) = rest {
                assert(vs + (seq![item@] + ws) =~= vs.push(item@) + ws);
            }
        }
        items.push(item);
        i += 1;
    }
    assert(items@.map_values(|x: T| x@) + Seq::<T::V>::empty() =~= items@.map_values(|x: T| x@));
    Ok(items)
}

impl FromBytes for u8 {
    open spec fn spec_from_bytes(buf: Seq<u8>, pos: int) -> Result<(u8, int), DecodeError> {
        if 0 <= pos < buf.len() {
            Ok((buf[pos], pos + 1))
        } else {
            Err(DecodeError::TruncatedBuffer)
        }
    }

    fn from_bytes(buf: &[u8], cursor: &mut usize) -> (r: Result<u8, DecodeError>) {
        match pop_u8(buf, cursor) {
            Some(b) => Ok(b),
            None => Err(DecodeError::TruncatedBuffer),
        }
    }
}

impl FromBytes for char {
    /// One byte, read as the character of the same number.
    open spec fn spec_from_bytes(buf: Seq<u8>, pos: int) -> Result<(char, int), DecodeError> {
        if 0 <= pos < buf.len() {
            Ok((buf[pos] as char, pos + 1))
        } else {
            Err(DecodeError::TruncatedBuffer)
        }
    }

    fn from_bytes(buf: &[u8], cursor: &mut usize) -> (r: Result<char, DecodeError>) {
        match pop_u8(buf, cursor) {
            Some(b) => Ok(b as char),
            None => Err(DecodeError::TruncatedBuffer),
        }
    }
}

impl FromBytes for i32 {
    open spec fn spec_from_bytes(buf: Seq<u8>, pos: int) -> Result<(i32, int), DecodeError> {
        match spec_i32_at(buf, pos) {
            Some(v) => Ok((v, pos + 4)),
            None => Err(DecodeError::TruncatedBuffer),
        }
    }

    fn from_bytes(buf: &[u8], cursor: &mut usize) -> (r: Result<i32, DecodeError>) {
        if *cursor >= buf.len() || buf.len() - *cursor < 4 {
            return Err(DecodeError::TruncatedBuffer);
        }
        let a = buf[*cursor] as u32;
        *cursor += 1;
        let b = buf[*cursor] as u32;
        *cursor += 1;
        let c = buf[*cursor] as u32;
        *cursor += 1;
        let d = buf[*cursor] as u32;
        *cursor += 1;
        let num = a * 0x1000000 + b * 0x10000 + c * 0x100 + d;
        Ok(num as i32)
    }
}

/// A decode `part` of the first `p` bytes of a buffer, beside the decode
/// `whole` of the full buffer: the same result or a truncation, and a
/// truncation where the full decode ends beyond `p`.
pub open spec fn spec_prefix_ok<V>(
    whole: Result<(V, int), DecodeError>,
    part: Result<(V, int), DecodeError>,
    p: int,
) -> bool {
    &&& (part == whole || part == Err::<(V, int), DecodeError>(DecodeError::TruncatedBuffer))
    &&& (whole is Ok && whole->Ok_0.1 > p ==> part == Err::<(V, int), DecodeError>(
        DecodeError::TruncatedBuffer,
    ))
}

/// Every successful decode of a `T` in `buf` is related as above to the
/// decode at the same place in the first `p` bytes.
pub open spec fn spec_prefix_closed<T: FromBytes>(buf: Seq<u8>, p: int) -> bool {
    forall|pos: int|
        #[trigger] T::spec_from_bytes(buf, pos) is Ok ==> spec_prefix_ok(
            T::spec_from_bytes(buf, pos),
            T::spec_from_bytes(buf.take(p), pos),
            p,
        )
}

/// Words read from the first `p` bytes are those of the full buffer, as far
/// as they lie within `p`.
pub proof fn lemma_words_prefix(buf: Seq<u8>, p: int, pos: int)
    requires
        0 <= p <= buf.len(),
    ensures
        pos + 2 <= p ==> spec_u16_at(buf.take(p), pos) == spec_u16_at(buf, pos),
        pos + 2 > p ==> spec_u16_at(buf.take(p), pos) is None,
        pos + 4 <= p ==> spec_i32_at(buf.take(p), pos) == spec_i32_at(buf, pos),
        pos + 4 > p ==> spec_i32_at(buf.take(p), pos) is None,
{
    let t = buf.take(p);
    if 0 <= pos && pos + 2 <= p {
        assert(t[pos] == buf[pos] && t[pos + 1] == buf[pos + 1]);
    }
    if 0 <= pos && pos + 4 <= p {
        assert(t[pos] == buf[pos] && t[pos + 1] == buf[pos + 1]);
        assert(t[pos + 2] == buf[pos + 2] && t[pos + 3] == buf[pos + 3]);
    }
}

/// Raw bytes read from the first `p` bytes are those of the full buffer, as
/// far as they lie within `p`.
pub proof fn lemma_bytes_prefix(buf: Seq<u8>, p: int, pos: int, n: int)
    requires
        0 <= p <= buf.len(),
    ensures
        pos + n <= p ==> spec_bytes_at(buf.take(p), pos, n) == spec_bytes_at(buf, pos, n),
        pos + n > p ==> spec_bytes_at(buf.take(p), pos, n) is None,
{
    if 0 <= pos && 0 <= n && pos + n <= p {
        assert(buf.take(p).subrange(pos, pos + n) =~= buf.subrange(pos, pos + n));
    }
}

/// A run of decodes that succeeds on `buf` gives the same result on the
/// first `p` bytes, or a truncation; a truncation where a non-empty run ends
/// beyond `p`.
pub proof fn lemma_collection_prefix<T: FromBytes>(buf: Seq<u8>, p: int, pos: int, count: nat)
    requires
        0 <= p <= buf.len(),
        spec_prefix_closed::<T>(buf, p),
        spec_collection::<T>(buf, pos, count) is Ok,
    ensures
        count > 0 ==> spec_prefix_ok(
            spec_collection::<T>(buf, pos, count),
            spec_collection::<T>(buf.take(p), pos, count),
            p,
        ),
        count == 0 ==> spec_collection::<T>(buf.take(p), pos, count) == spec_collection::<T>(
            buf,
            pos,
            count,
        ) && spec_collection::<T>(buf, pos, count)->Ok_0.1 == pos,
    decreases count,
{
    if count > 0 {
        let first = T::spec_from_bytes(buf, pos);
        assert(first is Ok);
        let next = first->Ok_0.1;
        lemma_collection_prefix::<T>(buf, p, next, (count - 1) as nat);
    }
}

} // verus!
