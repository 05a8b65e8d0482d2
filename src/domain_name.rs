//! Domain names: a dotted string, written on the wire as length-prefixed
//! labels and read back with backward compression pointers followed.
use vstd::prelude::*;
use vstd::string::StrSliceExecFns;

use crate::deserialization::{pop_u8, spec_prefix_ok, DecodeError, FromBytes};

verus! {

/// The byte `.` that separates labels.
pub const DOT: u8 = 0x2E;

/// A dotted domain name such as `www.example.com`.
#[derive(Debug, Clone, Default)]
pub struct DomainName {
    inner: String,
}

impl View for DomainName {
    type V = Seq<char>;

    closed spec fn view(&self) -> Seq<char> {
        self.inner@
    }
}

/// Each byte read as the character of the same number.
pub open spec fn latin1(bytes: Seq<u8>) -> Seq<char> {
    bytes.map_values(|b: u8| b as char)
}

/// A length byte whose top two bits are both set starts a compression pointer.
pub open spec fn is_pointer(len: u8) -> bool {
    len >= 0xC0
}

/// The message offset that a compression pointer made of `hi`, `lo` names.
pub open spec fn pointer_target(hi: u8, lo: u8) -> int {
    (hi - 0xC0) * 256 + lo
}

/// The characters that the name at `pos` decodes to, pointers followed.
/// `origin` is where the name being read began: a pointer must point before
/// it. `first` says that no label has been written yet; every later label is
/// preceded by a dot, and so is the name a pointer leads to.
pub open spec fn spec_name_chars(buf: Seq<u8>, pos: int, origin: int, first: bool) -> Result<
    Seq<char>,
    DecodeError,
>
    decreases origin, buf.len() - pos,
{
    if pos < 0 || pos >= buf.len() {
        Err(DecodeError::TruncatedBuffer)
    } else {
        let len = buf[pos];
        if len == 0 {
            Ok(Seq::empty())
        } else if is_pointer(len) {
            if pos + 1 >= buf.len() {
                Err(DecodeError::TruncatedBuffer)
            } else {
                let target = pointer_target(len, buf[pos + 1]);
                if target >= origin {
                    Err(DecodeError::InvalidCompressionPointer)
                } else {
                    with_prefix(seq!['.'], spec_name_chars(buf, target, target, true))
                }
            }
        } else if pos + 1 + len > buf.len() {
            Err(DecodeError::TruncatedBuffer)
        } else {
            let label = latin1(buf.subrange(pos + 1, pos + 1 + len));
            let sep = if first {
                Seq::<char>::empty()
            } else {
                seq!['.']
            };
            with_prefix(sep + label, spec_name_chars(buf, pos + 1 + len, origin, false))
        }
    }
}

/// `r` with `p` put in front of a successful result.
pub open spec fn with_prefix(p: Seq<char>, r: Result<Seq<char>, DecodeError>) -> Result<
    Seq<char>,
    DecodeError,
> {
    match r {
        Ok(s) => Ok(p + s),
        Err(e) => Err(e),
    }
}

/// Where the name written in place at `pos` ends: after its zero byte or
/// after its pointer. What a pointer leads to is read elsewhere.
pub open spec fn spec_name_end(buf: Seq<u8>, pos: int) -> int
    decreases buf.len() - pos,
{
    if pos < 0 || pos >= buf.len() {
        pos
    } else if buf[pos] == 0 {
        pos + 1
    } else if is_pointer(buf[pos]) {
        pos + 2
    } else if pos + 1 + buf[pos] > buf.len() {
        pos
    } else {
        spec_name_end(buf, pos + 1 + buf[pos])
    }
}

/// The name decoded at `pos`, with the cursor after it.
pub open spec fn spec_name_at(buf: Seq<u8>, pos: int) -> Result<(Seq<char>, int), DecodeError> {
    match spec_name_chars(buf, pos, pos, true) {
        Ok(s) => Ok((s, spec_name_end(buf, pos))),
        Err(e) => Err(e),
    }
}

/// The wire form of the dotted bytes `rest`, where `label` holds the bytes
/// of the current label read so far: each label as its length and its
/// bytes, then a zero byte.
pub open spec fn spec_wire_labels(rest: Seq<u8>, label: Seq<u8>) -> Seq<u8>
    decreases rest.len(),
{
    if rest.len() == 0 {
        seq![label.len() as u8] + label + seq![0u8]
    } else if rest[0] == DOT {
        seq![label.len() as u8] + label + spec_wire_labels(rest.drop_first(), Seq::empty())
    } else {
        spec_wire_labels(rest.drop_first(), label.push(rest[0]))
    }
}

/// The uncompressed wire form of the name `s`.
pub open spec fn spec_name_wire(s: Seq<char>) -> Seq<u8> {
    spec_wire_labels(vstd::utf8::encode_utf8(s), Seq::empty())
}

/// Collects characters into a string.
/// Relies on `FromIterator<char>` for `String`: the string holds the
/// characters in order.
#[verifier::external_body]
pub(crate) fn string_of_chars(chars: &Vec<char>) -> (r: String)
    ensures
        r@ == chars@,
{
    chars.iter().collect()
}

impl DomainName {
    pub fn new(name: &str) -> (r: DomainName)
        ensures
            r@ == name@,
    {
        DomainName { inner: name.to_owned() }
    }

    pub fn empty() -> (r: DomainName)
        ensures
            r@ == Seq::<char>::empty(),
    {
        DomainName { inner: String::new() }
    }

    /// The dotted name.
    pub fn as_str(&self) -> (r: &str)
        ensures
            r@ == self@,
    {
        self.inner.as_str()
    }

    /// The uncompressed wire form: each dot-separated part as a length byte
    /// and its bytes, then a zero byte.
    pub fn to_bytes(&self) -> (r: Vec<u8>)
        ensures
            r@ == spec_name_wire(self@),
    {
        let bytes = self.inner.as_str().as_bytes();
        let mut buf: Vec<u8> = Vec::new();
        let mut start: usize = 0;
        let mut i: usize = 0;
        assert(bytes@.skip(0) =~= bytes@);
        assert(bytes@.subrange(0, 0) =~= Seq::<u8>::empty());
        while i < bytes.len()
            invariant
                start <= i <= bytes@.len(),
                bytes@ == vstd::utf8::encode_utf8(self@),
                buf@ + spec_wire_labels(bytes@.skip(i as int), bytes@.subrange(start as int, i as int))
                    == spec_name_wire(self@),
            decreases bytes.len() - i,
        {
            let ghost cur = bytes@.subrange(start as int, i as int);
            assert(bytes@.skip(i as int).drop_first() =~= bytes@.skip(i + 1));
            assert(bytes@.skip(i as int)[0] == bytes@[i as int]);
            if bytes[i] == DOT {
                let ghost prev = buf@;
                push_label(&mut buf, bytes, start, i);
                assert(bytes@.subrange(i + 1, i + 1) =~= Seq::<u8>::empty());
                assert(buf@ + spec_wire_labels(bytes@.skip(i + 1), Seq::empty()) =~= prev
                    + spec_wire_labels(bytes@.skip(i as int), cur));
                start = i + 1;
            } else {
                assert(cur.push(bytes@[i as int]) =~= bytes@.subrange(start as int, i + 1));
            }
            i += 1;
        }
        push_label(&mut buf, bytes, start, i);
        buf.push(0);
        buf
    }
}

/// Appends the label `bytes[start..end]`, its length first.
fn push_label(buf: &mut Vec<u8>, bytes: &[u8], start: usize, end: usize)
    requires
        start <= end <= bytes@.len(),
    ensures
        final(buf)@ == old(buf)@ + seq![(end - start) as u8] + bytes@.subrange(
            start as int,
            end as int,
        ),
{
    buf.push((end - start) as u8);
    let ghost base = buf@;
    let mut j: usize = start;
    while j < end
        invariant
            start <= j <= end <= bytes@.len(),
            buf@ == base + bytes@.subrange(start as int, j as int),
        decreases end - j,
    {
        buf.push(bytes[j]);
        j += 1;
        assert(buf@ =~= base + bytes@.subrange(start as int, j as int));
    }
}

impl FromBytes for DomainName {
    open spec fn spec_from_bytes(buf: Seq<u8>, pos: int) -> Result<(Seq<char>, int), DecodeError> {
        spec_name_at(buf, pos)
    }

    /// Reads labels until a zero byte. A compression pointer must point before
    /// the start of the name that holds it; reading goes on there, and the
    /// cursor ends after the first pointer met.
    fn from_bytes(buf: &[u8], cursor: &mut usize) -> (r: Result<DomainName, DecodeError>) {
        let start: usize = *cursor;
        let mut pos: usize = start;
        let mut origin: usize = start;
        let mut first = true;
        let mut jumped = false;
        let mut end: usize = 0;
        let mut out: Vec<char> = Vec::new();
        loop
            invariant_except_break
                spec_name_chars(buf@, start as int, start as int, true) == with_prefix(
                    out@,
                    spec_name_chars(buf@, pos as int, origin as int, first),
                ),
                !jumped ==> origin == start && spec_name_end(buf@, start as int) == spec_name_end(
                    buf@,
                    pos as int,
                ),
            invariant
                start == *old(cursor),
                *cursor == start,
                origin <= start,
                jumped ==> end as int == spec_name_end(buf@, start as int),
            ensures
                spec_name_chars(buf@, start as int, start as int, true) == Ok::<
                    Seq<char>,
                    DecodeError,
                >(out@),
                end as int == spec_name_end(buf@, start as int),
            decreases origin, buf@.len() - pos,
        {
            let ghost rest = spec_name_chars(buf@, pos as int, origin as int, first);
            let at = pos;
            let len = match pop_u8(buf, &mut pos) {
                Some(b) => b,
                None => return Err(DecodeError::TruncatedBuffer),
            };
            if len == 0 {
                if !jumped {
                    end = pos;
                }
                assert(out@ + Seq::<char>::empty() =~= out@);
                break ;
            } else if len >= 0xC0 {
                let lo = match pop_u8(buf, &mut pos) {
                    Some(b) => b,
                    None => return Err(DecodeError::TruncatedBuffer),
                };
                let target: usize = (len - 0xC0) as usize * 256 + lo as usize;
                if target >= origin {
                    return Err(DecodeError::InvalidCompressionPointer);
                }
                if !jumped {
                    end = pos;
                    jumped = true;
                }
                let ghost before = out@;
                out.push('.');
                proof {
                    let tail = spec_name_chars(buf@, target as int, target as int, true);
                    assert(rest == with_prefix(seq!['.'], tail));
                    if let Ok(t) = tail {
                        assert(before + (seq!['.'] + t) =~= out@ + t);
                    }
                }
                pos = target;
                origin = target;
                first = true;
            } else {
                let n = len as usize;
                if buf.len() - pos < n {
                    return Err(DecodeError::TruncatedBuffer);
                }
                let ghost before = out@;
                let ghost sep = if first {
                    Seq::<char>::empty()
                } else {
                    seq!['.']
                };
                if !first {
                    out.push('.');
                }
                let stop = pos + n;
                while pos < stop
                    invariant
                        at + 1 <= pos <= stop <= buf@.len(),
                        out@ == before + sep + latin1(buf@.subrange(at + 1, pos as int)),
                    decreases stop - pos,
                {
                    out.push(buf[pos] as char);
                    pos += 1;
                    assert(latin1(buf@.subrange(at + 1, pos as int)) =~= latin1(
                        buf@.subrange(at + 1, pos - 1),
                    ).push(buf@[pos - 1] as char));
                }
                proof {
                    let label = latin1(buf@.subrange(at + 1, stop as int));
                    let tail = spec_name_chars(buf@, stop as int, origin as int, false);
                    assert(rest == with_prefix(sep + label, tail));
                    if let Ok(t) = tail {
                        assert(before + (sep + label + t) =~= out@ + t);
                    }
                }
                first = false;
            }
        }
        *cursor = end;
        Ok(DomainName { inner: string_of_chars(&out) })
    }
}

/// The dotted bytes `rest`, after the label bytes `label`, split into labels
/// of 1 to 63 bytes each.
pub open spec fn spec_valid_labels(rest: Seq<u8>, label: Seq<u8>) -> bool
    decreases rest.len(),
{
    if rest.len() == 0 {
        1 <= label.len() <= 63
    } else if rest[0] == DOT {
        1 <= label.len() <= 63 && spec_valid_labels(rest.drop_first(), Seq::empty())
    } else {
        spec_valid_labels(rest.drop_first(), label.push(rest[0]))
    }
}

/// A name that reads back as itself: ASCII, and made of labels of 1 to 63
/// characters.
pub open spec fn spec_valid_name(s: Seq<char>) -> bool {
    vstd::utf8::is_ascii_chars(s) && spec_valid_labels(vstd::utf8::encode_utf8(s), Seq::empty())
}

/// Labels written by `spec_wire_labels` read back as their bytes, with a dot
/// between two labels and none in front.
proof fn lemma_wire_labels_read(
    buf: Seq<u8>,
    p: int,
    origin: int,
    first: bool,
    rest: Seq<u8>,
    label: Seq<u8>,
)
    requires
        spec_valid_labels(rest, label),
        0 <= p,
        p + spec_wire_labels(rest, label).len() <= buf.len(),
        buf.subrange(p, p + spec_wire_labels(rest, label).len()) == spec_wire_labels(rest, label),
    ensures
        spec_name_chars(buf, p, origin, first) == Ok::<Seq<char>, DecodeError>(
            (if first {
                Seq::<char>::empty()
            } else {
                seq!['.']
            }) + latin1(label + rest),
        ),
        spec_name_end(buf, p) == p + spec_wire_labels(rest, label).len(),
    decreases rest.len(),
{
    let w = spec_wire_labels(rest, label);
    let sep = if first {
        Seq::<char>::empty()
    } else {
        seq!['.']
    };
    let n = label.len() as int;
    if rest.len() != 0 && rest[0] != DOT {
        lemma_wire_labels_read(buf, p, origin, first, rest.drop_first(), label.push(rest[0]));
        assert(label.push(rest[0]) + rest.drop_first() =~= label + rest);
    } else {
        assert(w[0] == buf[p]);
        assert(buf[p] == n as u8);
        assert(buf[p] as int == n);
        assert(buf.subrange(p + 1, p + 1 + n) =~= label) by {
            assert forall|i: int| 0 <= i < n implies buf.subrange(p + 1, p + 1 + n)[i] == label[i] by {
                assert(buf[p + 1 + i] == w[1 + i]);
            };
        };
        if rest.len() == 0 {
            assert(w =~= seq![n as u8] + label + seq![0u8]);
            assert(buf[p + 1 + n] == w[1 + n]);
            assert(spec_name_end(buf, p + 1 + n) == p + 2 + n);
            assert(spec_name_end(buf, p) == spec_name_end(buf, p + 1 + n));
            assert(label + rest =~= label);
            assert(sep + latin1(label) + Seq::<char>::empty() =~= sep + latin1(label));
        } else {
            let w2 = spec_wire_labels(rest.drop_first(), Seq::empty());
            assert(w =~= seq![n as u8] + label + w2);
            assert(buf.subrange(p + 1 + n, p + 1 + n + w2.len()) =~= w2) by {
                assert forall|i: int| 0 <= i < w2.len() implies buf.subrange(
                    p + 1 + n,
                    p + 1 + n + w2.len(),
                )[i] == w2[i] by {
                    assert(buf[p + 1 + n + i] == w[1 + n + i]);
                };
            };
            lemma_wire_labels_read(buf, p + 1 + n, origin, false, rest.drop_first(), Seq::empty());
            assert(spec_name_end(buf, p) == spec_name_end(buf, p + 1 + n));
            assert((DOT as char) == '.');
            assert(latin1(label + rest) =~= latin1(label) + seq!['.'] + latin1(
                Seq::<u8>::empty() + rest.drop_first(),
            ));
            assert(sep + latin1(label) + (seq!['.'] + latin1(Seq::<u8>::empty() + rest.drop_first()))
                =~= sep + latin1(label + rest));
        }
    }
}

/// The bytes of an ASCII string read back as the string.
proof fn lemma_ascii_latin1(s: Seq<char>)
    requires
        vstd::utf8::is_ascii_chars(s),
    ensures
        latin1(vstd::utf8::encode_utf8(s)) == s,
{
    vstd::utf8::is_ascii_chars_encode_utf8(s);
    let b = vstd::utf8::encode_utf8(s);
    assert forall|i: int| 0 <= i < s.len() implies latin1(b)[i] == s[i] by {
        let c = s[i];
        let x = c as u32;
        assert(x < 128);
        assert((x as u8) as u32 == x) by (bit_vector)
            requires
                x < 128,
        ;
        assert(b[i] == c as u8);
    };
    assert(latin1(b) =~= s);
}

/// A valid name, written uncompressed at `p`, reads back as itself and ends
/// where its wire form ends.
pub proof fn lemma_name_wire_read(buf: Seq<u8>, p: int, s: Seq<char>)
    requires
        spec_valid_name(s),
        0 <= p,
        p + spec_name_wire(s).len() <= buf.len(),
        buf.subrange(p, p + spec_name_wire(s).len()) == spec_name_wire(s),
    ensures
        spec_name_at(buf, p) == Ok::<(Seq<char>, int), DecodeError>(
            (s, p + spec_name_wire(s).len()),
        ),
{
    let b = vstd::utf8::encode_utf8(s);
    lemma_wire_labels_read(buf, p, p, true, b, Seq::empty());
    lemma_ascii_latin1(s);
    assert(Seq::<char>::empty() + latin1(Seq::<u8>::empty() + b) =~= latin1(b));
}

/// Labels written in place, each as its length byte and its bytes, with no
/// terminating byte.
pub open spec fn spec_labels_wire(ls: Seq<Seq<u8>>) -> Seq<u8>
    decreases ls.len(),
{
    if ls.len() == 0 {
        Seq::empty()
    } else {
        seq![ls[0].len() as u8] + ls[0] + spec_labels_wire(ls.drop_first())
    }
}

/// Labels joined by dots.
pub open spec fn spec_dot_join(ls: Seq<Seq<u8>>) -> Seq<char>
    decreases ls.len(),
{
    if ls.len() == 0 {
        Seq::empty()
    } else if ls.len() == 1 {
        latin1(ls[0])
    } else {
        latin1(ls[0]) + seq!['.'] + spec_dot_join(ls.drop_first())
    }
}

/// Every label is 1 to 63 bytes long.
pub open spec fn spec_labels_fit(ls: Seq<Seq<u8>>) -> bool {
    forall|i: int| 0 <= i < ls.len() ==> 1 <= #[trigger] ls[i].len() <= 63
}

/// Reading over labels written in place: their text comes first, then
/// whatever follows them.
proof fn lemma_read_labels(buf: Seq<u8>, pos: int, origin: int, first: bool, ls: Seq<Seq<u8>>)
    requires
        spec_labels_fit(ls),
        0 <= pos,
        pos + spec_labels_wire(ls).len() <= buf.len(),
        buf.subrange(pos, pos + spec_labels_wire(ls).len()) == spec_labels_wire(ls),
    ensures
        ls.len() == 0 ==> spec_name_chars(buf, pos, origin, first) == spec_name_chars(
            buf,
            pos + spec_labels_wire(ls).len(),
            origin,
            first,
        ),
        ls.len() > 0 ==> spec_name_chars(buf, pos, origin, first) == with_prefix(
            (if first {
                Seq::<char>::empty()
            } else {
                seq!['.']
            }) + spec_dot_join(ls),
            spec_name_chars(buf, pos + spec_labels_wire(ls).len(), origin, false),
        ),
        spec_name_end(buf, pos) == spec_name_end(buf, pos + spec_labels_wire(ls).len()),
    decreases ls.len(),
{
    if ls.len() > 0 {
        let w = spec_labels_wire(ls);
        let l = ls[0];
        let n = l.len() as int;
        let rest = ls.drop_first();
        let rw = spec_labels_wire(rest);
        assert(1 <= ls[0].len() <= 63);
        assert(w =~= seq![n as u8] + l + rw);
        assert(buf[pos] == w[0]);
        crate::deserialization::lemma_subrange_part(buf, pos, w, 1, 1 + n);
        assert(w.subrange(1, 1 + n) =~= l);
        crate::deserialization::lemma_subrange_part(buf, pos, w, 1 + n, w.len() as int);
        assert(w.subrange(1 + n, w.len() as int) =~= rw);
        assert(spec_labels_fit(rest)) by {
            assert forall|i: int| 0 <= i < rest.len() implies 1 <= #[trigger] rest[i].len() <= 63 by {
                assert(rest[i] == ls[i + 1]);
            };
        };
        lemma_read_labels(buf, pos + 1 + n, origin, false, rest);
        let sep = if first {
            Seq::<char>::empty()
        } else {
            seq!['.']
        };
        let after = spec_name_chars(buf, pos + w.len(), origin, false);
        if rest.len() == 0 {
            assert(spec_dot_join(ls) == latin1(l));
        } else {
            assert(spec_dot_join(ls) == latin1(l) + seq!['.'] + spec_dot_join(rest));
            if let Ok(t) = after {
                assert(sep + latin1(l) + (seq!['.'] + spec_dot_join(rest) + t) =~= sep
                    + spec_dot_join(ls) + t);
            }
        }
    }
}

/// A compression pointer that does not point strictly before the start of
/// the name holding it fails the read, whatever labels come before it.
pub proof fn lemma_pointer_not_before_origin(buf: Seq<u8>, origin: int, ls: Seq<Seq<u8>>)
    requires
        spec_labels_fit(ls),
        0 <= origin,
        origin + spec_labels_wire(ls).len() + 2 <= buf.len(),
        buf.subrange(origin, origin + spec_labels_wire(ls).len()) == spec_labels_wire(ls),
        is_pointer(buf[origin + spec_labels_wire(ls).len()]),
        pointer_target(
            buf[origin + spec_labels_wire(ls).len()],
            buf[origin + spec_labels_wire(ls).len() + 1],
        ) >= origin,
    ensures
        spec_name_at(buf, origin) == Err::<(Seq<char>, int), DecodeError>(
            DecodeError::InvalidCompressionPointer,
        ),
{
    lemma_read_labels(buf, origin, origin, true, ls);
}

/// A name made of labels and then one compression pointer to an earlier
/// name reads as its labels, a dot, and the earlier name; the cursor ends
/// after the pointer.
pub proof fn lemma_pointer_to_earlier_name(buf: Seq<u8>, origin: int, ls: Seq<Seq<u8>>)
    requires
        ls.len() > 0,
        spec_labels_fit(ls),
        0 <= origin,
        origin + spec_labels_wire(ls).len() + 2 <= buf.len(),
        buf.subrange(origin, origin + spec_labels_wire(ls).len()) == spec_labels_wire(ls),
        is_pointer(buf[origin + spec_labels_wire(ls).len()]),
        pointer_target(
            buf[origin + spec_labels_wire(ls).len()],
            buf[origin + spec_labels_wire(ls).len() + 1],
        ) < origin,
        spec_name_at(
            buf,
            pointer_target(
                buf[origin + spec_labels_wire(ls).len()],
                buf[origin + spec_labels_wire(ls).len() + 1],
            ),
        ) is Ok,
    ensures
        spec_name_at(buf, origin) == Ok::<(Seq<char>, int), DecodeError>(
            (
                spec_dot_join(ls) + seq!['.'] + spec_name_at(
                    buf,
                    pointer_target(
                        buf[origin + spec_labels_wire(ls).len()],
                        buf[origin + spec_labels_wire(ls).len() + 1],
                    ),
                )->Ok_0.0,
                origin + spec_labels_wire(ls).len() + 2,
            ),
        ),
{
    let q = origin + spec_labels_wire(ls).len();
    let t = pointer_target(buf[q], buf[q + 1]);
    lemma_read_labels(buf, origin, origin, true, ls);
    let s = spec_name_at(buf, t)->Ok_0.0;
    assert(Seq::<char>::empty() + spec_dot_join(ls) + (seq!['.'] + s) =~= spec_dot_join(ls)
        + seq!['.'] + s);
}

/// Reading a name from the first `p` bytes follows the same steps as from
/// the full buffer until a step needs a byte at or past `p`.
proof fn lemma_name_chars_prefix(buf: Seq<u8>, p: int, pos: int, origin: int, first: bool)
    requires
        0 <= p <= buf.len(),
        spec_name_chars(buf, pos, origin, first) is Ok,
    ensures
        (spec_name_chars(buf.take(p), pos, origin, first) == spec_name_chars(buf, pos, origin, first)
            && spec_name_end(buf.take(p), pos) == spec_name_end(buf, pos)) || spec_name_chars(
            buf.take(p),
            pos,
            origin,
            first,
        ) == Err::<Seq<char>, DecodeError>(DecodeError::TruncatedBuffer),
        spec_name_end(buf, pos) > p ==> spec_name_chars(buf.take(p), pos, origin, first) == Err::<
            Seq<char>,
            DecodeError,
        >(DecodeError::TruncatedBuffer),
    decreases origin, buf.len() - pos,
{
    let t = buf.take(p);
    if pos < p {
        let len = buf[pos];
        assert(t[pos] == len);
        if len == 0 {
        } else if is_pointer(len) {
            if pos + 1 < p {
                assert(t[pos + 1] == buf[pos + 1]);
                let target = pointer_target(len, buf[pos + 1]);
                lemma_name_chars_prefix(buf, p, target, target, true);
            }
        } else if pos + 1 + len <= p {
            assert(t.subrange(pos + 1, pos + 1 + len) =~= buf.subrange(pos + 1, pos + 1 + len));
            lemma_name_chars_prefix(buf, p, pos + 1 + len, origin, false);
        }
    }
}

/// A name read from the first `p` bytes is the one read from the full
/// buffer, or a truncation; a truncation where the name ends beyond `p`.
pub proof fn lemma_name_prefix(buf: Seq<u8>, p: int, pos: int)
    requires
        0 <= p <= buf.len(),
        spec_name_at(buf, pos) is Ok,
    ensures
        spec_prefix_ok(spec_name_at(buf, pos), spec_name_at(buf.take(p), pos), p),
{
    lemma_name_chars_prefix(buf, p, pos, pos, true);
}

} // verus!
