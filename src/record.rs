//! Resource records: owner name, type, class, time to live, and the record
//! data read according to the type.
use vstd::prelude::*;

use crate::deserialization::{
    lemma_bytes_prefix, lemma_words_prefix, pop_bytes, pop_u16, spec_bytes_at, spec_i32_at,
    spec_prefix_closed, spec_prefix_ok, spec_u16_at, DecodeError, FromBytes,
};
use crate::domain_name::{latin1, lemma_name_prefix, spec_name_at, string_of_chars, DomainName};

verus! {

/// Record types.
#[derive(Debug, Clone, Copy, PartialEq, Eq, Structural, Default)]
pub enum Kind {
    /// illegal?
    Undefined,
    /// a host address
    #[default]
    A,
    /// an ipv6 address
    AAAA,
    /// an authoritative name server
    NS,
    /// a mail destination (Obsolete - use MX)
    MD,
    /// a mail forwarder (Obsolete - use MX)
    MF,
    /// the canonical name for an alias
    CNAME,
    /// marks the start of a zone of authority
    SOA,
    /// a mailbox domain name (EXPERIMENTAL)
    MB,
    /// a mail group member (EXPERIMENTAL)
    MG,
    /// a mail rename domain name (EXPERIMENTAL)
    MR,
    /// a null RR (EXPERIMENTAL)
    NULL,
    /// a well known service description
    WKS,
    /// a domain name pointer
    PTR,
    /// host information
    HINFO,
    /// mailbox or mail list information
    MINFO,
    /// mail exchange
    MX,
    /// text strings
    TXT,
}

impl View for Kind {
    type V = Kind;

    open spec fn view(&self) -> Kind {
        *self
    }
}

/// The assigned number of each record type.
pub open spec fn spec_kind_code(k: Kind) -> u16 {
    match k {
        Kind::Undefined => 0,
        Kind::A => 1,
        Kind::NS => 2,
        Kind::MD => 3,
        Kind::MF => 4,
        Kind::CNAME => 5,
        Kind::SOA => 6,
        Kind::MB => 7,
        Kind::MG => 8,
        Kind::MR => 9,
        Kind::NULL => 10,
        Kind::WKS => 11,
        Kind::PTR => 12,
        Kind::HINFO => 13,
        Kind::MINFO => 14,
        Kind::MX => 15,
        Kind::TXT => 16,
        Kind::AAAA => 28,
    }
}

/// The record type with the number `n`, if it is a known one.
pub open spec fn spec_kind_of(n: u16) -> Option<Kind> {
    if n <= 16 || n == 28 {
        Some(choose|k: Kind| spec_kind_code(k) == n)
    } else {
        None
    }
}

impl Kind {
    /// The assigned number.
    pub fn to_u16(self) -> (r: u16)
        ensures
            r == spec_kind_code(self),
    {
        match self {
            Kind::Undefined => 0,
            Kind::A => 1,
            Kind::NS => 2,
            Kind::MD => 3,
            Kind::MF => 4,
            Kind::CNAME => 5,
            Kind::SOA => 6,
            Kind::MB => 7,
            Kind::MG => 8,
            Kind::MR => 9,
            Kind::NULL => 10,
            Kind::WKS => 11,
            Kind::PTR => 12,
            Kind::HINFO => 13,
            Kind::MINFO => 14,
            Kind::MX => 15,
            Kind::TXT => 16,
            Kind::AAAA => 28,
        }
    }

    /// The record type with the number `value`, or `None` for a number
    /// outside the known set.
    pub fn from_u16(value: u16) -> (r: Option<Kind>)
        ensures
            r == spec_kind_of(value),
            r matches Some(k) ==> spec_kind_code(k) == value,
    {
        let r = match value {
            0 => Some(Kind::Undefined),
            1 => Some(Kind::A),
            2 => Some(Kind::NS),
            3 => Some(Kind::MD),
            4 => Some(Kind::MF),
            5 => Some(Kind::CNAME),
            6 => Some(Kind::SOA),
            7 => Some(Kind::MB),
            8 => Some(Kind::MG),
            9 => Some(Kind::MR),
            10 => Some(Kind::NULL),
            11 => Some(Kind::WKS),
            12 => Some(Kind::PTR),
            13 => Some(Kind::HINFO),
            14 => Some(Kind::MINFO),
            15 => Some(Kind::MX),
            16 => Some(Kind::TXT),
            28 => Some(Kind::AAAA),
            _ => None,
        };
        proof {
            if let Some(k) = r {
                lemma_kind_code_injective(k, value);
            }
        }
        r
    }
}

/// No two record types share a number.
pub proof fn lemma_kind_code_injective(k: Kind, n: u16)
    requires
        spec_kind_code(k) == n,
    ensures
        spec_kind_of(n) == Some(k),
{
    let c = choose|j: Kind| spec_kind_code(j) == n;
    assert(spec_kind_code(c) == n);
}

impl FromBytes for Kind {
    open spec fn spec_from_bytes(buf: Seq<u8>, pos: int) -> Result<(Kind, int), DecodeError> {
        match spec_u16_at(buf, pos) {
            None => Err(DecodeError::TruncatedBuffer),
            Some(n) => match spec_kind_of(n) {
                Some(k) => Ok((k, pos + 2)),
                None => Err(DecodeError::UnknownRecordKind),
            },
        }
    }

    fn from_bytes(buf: &[u8], cursor: &mut usize) -> (r: Result<Kind, DecodeError>) {
        let num = match pop_u16(buf, cursor) {
            Some(n) => n,
            None => return Err(DecodeError::TruncatedBuffer),
        };
        match Kind::from_u16(num) {
            Some(k) => Ok(k),
            None => Err(DecodeError::UnknownRecordKind),
        }
    }
}

/// Record classes.
#[derive(Debug, Clone, Copy, PartialEq, Eq, Structural, Default)]
pub enum Class {
    /// the Internet
    #[default]
    Internet,
}

impl View for Class {
    type V = Class;

    open spec fn view(&self) -> Class {
        *self
    }
}

/// The assigned number of each class.
pub open spec fn spec_class_code(c: Class) -> u16 {
    match c {
        Class::Internet => 1,
    }
}

/// The class with the number `n`, if it is a known one.
pub open spec fn spec_class_of(n: u16) -> Option<Class> {
    if n == 1 {
        Some(Class::Internet)
    } else {
        None
    }
}

impl Class {
    /// The assigned number.
    pub fn to_u16(self) -> (r: u16)
        ensures
            r == spec_class_code(self),
    {
        match self {
            Class::Internet => 1,
        }
    }

    /// The class with the number `value`, or `None` for a number outside the
    /// known set.
    pub fn from_u16(value: u16) -> (r: Option<Class>)
        ensures
            r == spec_class_of(value),
    {
        match value {
            1 => Some(Class::Internet),
            _ => None,
        }
    }
}

impl FromBytes for Class {
    open spec fn spec_from_bytes(buf: Seq<u8>, pos: int) -> Result<(Class, int), DecodeError> {
        match spec_u16_at(buf, pos) {
            None => Err(DecodeError::TruncatedBuffer),
            Some(n) => match spec_class_of(n) {
                Some(c) => Ok((c, pos + 2)),
                None => Err(DecodeError::UnknownClass),
            },
        }
    }

    fn from_bytes(buf: &[u8], cursor: &mut usize) -> (r: Result<Class, DecodeError>) {
        let num = match pop_u16(buf, cursor) {
            Some(n) => n,
            None => return Err(DecodeError::TruncatedBuffer),
        };
        match Class::from_u16(num) {
            Some(c) => Ok(c),
            None => Err(DecodeError::UnknownClass),
        }
    }
}

/// Record data, read according to the record type.
#[derive(Debug, Clone)]
pub enum Content {
    /// Four address bytes.
    IPv4([u8; 4]),
    /// Eight 16-bit groups.
    IPv6([u16; 8]),
    DomainName(DomainName),
    Text(String),
    /// Bytes kept as they are.
    Other(Vec<u8>),
}

/// The view of record data.
pub enum ContentModel {
    IPv4(Seq<u8>),
    IPv6(Seq<u16>),
    DomainName(Seq<char>),
    Text(Seq<char>),
    Other(Seq<u8>),
}

impl View for Content {
    type V = ContentModel;

    open spec fn view(&self) -> ContentModel {
        match self {
            Content::IPv4(a) => ContentModel::IPv4(a@),
            Content::IPv6(a) => ContentModel::IPv6(a@),
            Content::DomainName(d) => ContentModel::DomainName(d@),
            Content::Text(t) => ContentModel::Text(t@),
            Content::Other(b) => ContentModel::Other(b@),
        }
    }
}

/// The eight big-endian 16-bit groups at `pos`, if sixteen bytes are there.
pub open spec fn spec_ipv6_at(buf: Seq<u8>, pos: int) -> Option<Seq<u16>> {
    if 0 <= pos && pos + 16 <= buf.len() {
        Some(Seq::new(8, |i: int| spec_u16_at(buf, pos + 2 * i)->Some_0))
    } else {
        None
    }
}

/// Raw record data: the `count` bytes at `pos` kept as they are.
pub open spec fn spec_opaque(buf: Seq<u8>, pos: int, count: u16) -> Result<(ContentModel, int), DecodeError> {
    match spec_bytes_at(buf, pos, count as int) {
        Some(b) => Ok((ContentModel::Other(b), pos + count)),
        None => Err(DecodeError::TruncatedBuffer),
    }
}

/// The record data of a record of type `kind` with declared length `count`,
/// read at `pos`, and the cursor after it.
pub open spec fn spec_rdata(buf: Seq<u8>, kind: Kind, count: u16, pos: int) -> Result<
    (ContentModel, int),
    DecodeError,
> {
    match kind {
        Kind::A => if count == 4 {
            match spec_bytes_at(buf, pos, 4) {
                Some(b) => Ok((ContentModel::IPv4(b), pos + 4)),
                None => Err(DecodeError::TruncatedBuffer),
            }
        } else {
            spec_opaque(buf, pos, count)
        },
        Kind::AAAA => match spec_ipv6_at(buf, pos) {
            Some(g) => Ok((ContentModel::IPv6(g), pos + 16)),
            None => Err(DecodeError::TruncatedBuffer),
        },
        Kind::NS | Kind::CNAME | Kind::SOA => match spec_name_at(buf, pos) {
            Ok((s, end)) => Ok((ContentModel::DomainName(s), end)),
            Err(e) => Err(e),
        },
        Kind::TXT => match spec_bytes_at(buf, pos, count as int) {
            Some(b) => Ok((ContentModel::Text(latin1(b)), pos + count)),
            None => Err(DecodeError::TruncatedBuffer),
        },
        _ => spec_opaque(buf, pos, count),
    }
}

fn pop_ipv4(buf: &[u8], cursor: &mut usize) -> (r: Option<[u8; 4]>)
    ensures
        r matches Some(a) ==> spec_bytes_at(buf@, *old(cursor) as int, 4) == Some(a@)
            && *final(cursor) == *old(cursor) + 4,
        r is None <==> spec_bytes_at(buf@, *old(cursor) as int, 4) is None,
{
    if *cursor > buf.len() || buf.len() - *cursor < 4 {
        return None;
    }
    let a = [buf[*cursor], buf[*cursor + 1], buf[*cursor + 2], buf[*cursor + 3]];
    assert(a@ =~= buf@.subrange(*cursor as int, *cursor + 4));
    *cursor += 4;
    Some(a)
}

fn pop_ipv6(buf: &[u8], cursor: &mut usize) -> (r: Option<[u16; 8]>)
    ensures
        r matches Some(g) ==> spec_ipv6_at(buf@, *old(cursor) as int) == Some(g@)
            && *final(cursor) == *old(cursor) + 16,
        r is None <==> spec_ipv6_at(buf@, *old(cursor) as int) is None,
{
    if *cursor > buf.len() || buf.len() - *cursor < 16 {
        return None;
    }
    let start = *cursor;
    let mut g: [u16; 8] = [0; 8];
    let mut i: usize = 0;
    while i < 8
        invariant
            i <= 8,
            start + 16 <= buf@.len(),
            *cursor == start + 2 * i,
            forall|j: int| 0 <= j < i ==> g@[j] == spec_u16_at(buf@, start + 2 * j)->Some_0,
        decreases 8 - i,
    {
        let w = match pop_u16(buf, cursor) {
            Some(w) => w,
            None => return None,
        };
        g[i] = w;
        i += 1;
    }
    assert(g@ =~= Seq::new(8, |j: int| spec_u16_at(buf@, start + 2 * j)->Some_0));
    Some(g)
}

fn pop_text(buf: &[u8], cursor: &mut usize, n: usize) -> (r: Option<String>)
    ensures
        r matches Some(t) ==> t@ == latin1(spec_bytes_at(buf@, *old(cursor) as int, n as int)->Some_0)
            && *final(cursor) == *old(cursor) + n,
        r is None <==> spec_bytes_at(buf@, *old(cursor) as int, n as int) is None,
{
    let bytes = pop_bytes(buf, cursor, n)?;
    let mut chars: Vec<char> = Vec::new();
    let mut i: usize = 0;
    while i < bytes.len()
        invariant
            i <= bytes@.len(),
            chars@ == latin1(bytes@.take(i as int)),
        decreases bytes.len() - i,
    {
        chars.push(bytes[i] as char);
        i += 1;
        assert(chars@ =~= latin1(bytes@.take(i as int)));
    }
    assert(bytes@.take(i as int) =~= bytes@);
    Some(string_of_chars(&chars))
}

/// A resource record.
#[derive(Debug, Clone)]
pub struct Record {
    pub name: DomainName,
    pub kind: Kind,
    pub class: Class,
    pub ttl: i32,
    pub data: Content,
}

/// The view of a resource record.
pub struct RecordModel {
    pub name: Seq<char>,
    pub kind: Kind,
    pub class: Class,
    pub ttl: i32,
    pub data: ContentModel,
}

impl View for Record {
    type V = RecordModel;

    open spec fn view(&self) -> RecordModel {
        RecordModel {
            name: self.name@,
            kind: self.kind,
            class: self.class,
            ttl: self.ttl,
            data: self.data@,
        }
    }
}

/// The record at `pos`: name, type, class, time to live, data length and
/// data, with the data required to take exactly its declared length.
pub open spec fn spec_record(buf: Seq<u8>, pos: int) -> Result<(RecordModel, int), DecodeError> {
    match spec_name_at(buf, pos) {
        Err(e) => Err(e),
        Ok((name, at1)) => match Kind::spec_from_bytes(buf, at1) {
            Err(e) => Err(e),
            Ok((kind, at2)) => match Class::spec_from_bytes(buf, at2) {
                Err(e) => Err(e),
                Ok((class, at3)) => match spec_i32_at(buf, at3) {
                    None => Err(DecodeError::TruncatedBuffer),
                    Some(ttl) => match spec_u16_at(buf, at3 + 4) {
                        None => Err(DecodeError::TruncatedBuffer),
                        Some(count) => match spec_rdata(buf, kind, count, at3 + 6) {
                            Err(e) => Err(e),
                            Ok((data, end)) => if end != at3 + 6 + count {
                                Err(DecodeError::RDLengthMismatch)
                            } else {
                                Ok((RecordModel { name, kind, class, ttl, data }, end))
                            },
                        },
                    },
                },
            },
        },
    }
}

impl FromBytes for Record {
    open spec fn spec_from_bytes(buf: Seq<u8>, pos: int) -> Result<(RecordModel, int), DecodeError> {
        spec_record(buf, pos)
    }

    fn from_bytes(buf: &[u8], cursor: &mut usize) -> (r: Result<Record, DecodeError>) {
        let name = DomainName::from_bytes(buf, cursor)?;
        let kind = Kind::from_bytes(buf, cursor)?;
        let class = Class::from_bytes(buf, cursor)?;
        let ttl = i32::from_bytes(buf, cursor)?;
        let count = match pop_u16(buf, cursor) {
            Some(n) => n,
            None => return Err(DecodeError::TruncatedBuffer),
        };
        let start = *cursor;
        let data = match kind {
            Kind::A => {
                if count == 4 {
                    match pop_ipv4(buf, cursor) {
                        Some(ip) => Content::IPv4(ip),
                        None => return Err(DecodeError::TruncatedBuffer),
                    }
                } else {
                    match pop_bytes(buf, cursor, count as usize) {
                        Some(b) => Content::Other(b),
                        None => return Err(DecodeError::TruncatedBuffer),
                    }
                }
            },
            Kind::AAAA => match pop_ipv6(buf, cursor) {
                Some(ip) => Content::IPv6(ip),
                None => return Err(DecodeError::TruncatedBuffer),
            },
            Kind::NS | Kind::CNAME | Kind::SOA => {
                Content::DomainName(DomainName::from_bytes(buf, cursor)?)
            },
            Kind::TXT => match pop_text(buf, cursor, count as usize) {
                Some(t) => Content::Text(t),
                None => return Err(DecodeError::TruncatedBuffer),
            },
            _ => match pop_bytes(buf, cursor, count as usize) {
                Some(b) => Content::Other(b),
                None => return Err(DecodeError::TruncatedBuffer),
            },
        };
        if *cursor < start || *cursor - start != count as usize {
            return Err(DecodeError::RDLengthMismatch);
        }
        Ok(Record { name, kind, class, ttl, data })
    }
}

/// Where the data of the record at `pos` starts, its declared length, and
/// where reading it according to the record type ends, when everything
/// before and the data itself read without failure.
pub open spec fn spec_rdata_span(buf: Seq<u8>, pos: int) -> Option<(int, u16, int)> {
    match spec_name_at(buf, pos) {
        Err(_) => None,
        Ok((_, at1)) => match Kind::spec_from_bytes(buf, at1) {
            Err(_) => None,
            Ok((kind, at2)) => match Class::spec_from_bytes(buf, at2) {
                Err(_) => None,
                Ok((_, at3)) => match (spec_i32_at(buf, at3), spec_u16_at(buf, at3 + 4)) {
                    (Some(_), Some(count)) => match spec_rdata(buf, kind, count, at3 + 6) {
                        Ok((_, end)) => Some((at3 + 6, count, end)),
                        Err(_) => None,
                    },
                    _ => None,
                },
            },
        },
    }
}

/// A record whose data, read according to its type, takes another number of
/// bytes than its declared length fails with `RDLengthMismatch`; one whose
/// data takes exactly that many is read.
pub proof fn lemma_rdlength_accounting(buf: Seq<u8>, pos: int)
    requires
        spec_rdata_span(buf, pos) is Some,
    ensures
        ({
            let (start, count, end) = spec_rdata_span(buf, pos)->Some_0;
            &&& end != start + count ==> spec_record(buf, pos) == Err::<(RecordModel, int), DecodeError>(
                DecodeError::RDLengthMismatch,
            )
            &&& end == start + count ==> (spec_record(buf, pos) matches Ok((_, e)) && e == end)
        }),
{
}

/// Record data read from the first `p` bytes is that read from the full
/// buffer, or a truncation; a truncation where the data ends beyond `p`.
proof fn lemma_rdata_prefix(buf: Seq<u8>, p: int, kind: Kind, count: u16, pos: int)
    requires
        0 <= p <= buf.len(),
        spec_rdata(buf, kind, count, pos) is Ok,
    ensures
        spec_prefix_ok(spec_rdata(buf, kind, count, pos), spec_rdata(buf.take(p), kind, count, pos), p),
{
    let t = buf.take(p);
    lemma_bytes_prefix(buf, p, pos, 4);
    lemma_bytes_prefix(buf, p, pos, count as int);
    match kind {
        Kind::AAAA => {
            if pos + 16 <= p {
                assert forall|i: int| 0 <= i < 8 implies #[trigger] spec_ipv6_at(t, pos)->Some_0[i]
                    == spec_ipv6_at(buf, pos)->Some_0[i] by {
                    lemma_words_prefix(buf, p, pos + 2 * i);
                };
                assert(spec_ipv6_at(t, pos)->Some_0 =~= spec_ipv6_at(buf, pos)->Some_0);
            }
        },
        Kind::NS | Kind::CNAME | Kind::SOA => {
            lemma_name_prefix(buf, p, pos);
        },
        _ => {},
    }
}

/// A record read from the first `p` bytes is that read from the full
/// buffer, or a truncation; a truncation where the record ends beyond `p`.
pub proof fn lemma_record_prefix(buf: Seq<u8>, p: int, pos: int)
    requires
        0 <= p <= buf.len(),
        spec_record(buf, pos) is Ok,
    ensures
        spec_prefix_ok(spec_record(buf, pos), spec_record(buf.take(p), pos), p),
{
    let t = buf.take(p);
    lemma_name_prefix(buf, p, pos);
    let at1 = spec_name_at(buf, pos)->Ok_0.1;
    lemma_words_prefix(buf, p, at1);
    let kind = Kind::spec_from_bytes(buf, at1)->Ok_0.0;
    lemma_words_prefix(buf, p, at1 + 2);
    let at3 = at1 + 4;
    lemma_words_prefix(buf, p, at3);
    lemma_words_prefix(buf, p, at3 + 4);
    let count = spec_u16_at(buf, at3 + 4)->Some_0;
    lemma_rdata_prefix(buf, p, kind, count, at3 + 6);
}

/// Each record that reads from `buf` reads the same from its first `p`
/// bytes, or is truncated there.
pub proof fn lemma_records_prefix_closed(buf: Seq<u8>, p: int)
    requires
        0 <= p <= buf.len(),
    ensures
        spec_prefix_closed::<Record>(buf, p),
{
    assert forall|pos: int| #[trigger] Record::spec_from_bytes(buf, pos) is Ok implies spec_prefix_ok(
        Record::spec_from_bytes(buf, pos),
        Record::spec_from_bytes(buf.take(p), pos),
        p,
    ) by {
        lemma_record_prefix(buf, p, pos);
    };
}

} // verus!
