use vstd::prelude::*;

use crate::parser::{be16_at, be32_at, parse_name, PacketParser, ParseError};
use crate::writer::{
    encode_name, encode_qname, lemma_encode_name_len, u16_bytes, u32_bytes, valid_name,
    PacketWriter, WriteError,
};

verus! {

// ------------------------------------------------------------------ codes
/// Response code of a header.
#[derive(Clone, Copy, Debug, PartialEq, Eq, Structural)]
pub enum RCode {
    NOERROR,
    FORMERR,
    SERVFAIL,
    NXDOMAIN,
    NOTIMP,
    REFUSED,
}

/// The response code that a 4-bit field holds; unassigned values read as NOERROR.
pub open spec fn rcode_of(num: u8) -> RCode {
    if num == 1 {
        RCode::FORMERR
    } else if num == 2 {
        RCode::SERVFAIL
    } else if num == 3 {
        RCode::NXDOMAIN
    } else if num == 4 {
        RCode::NOTIMP
    } else if num == 5 {
        RCode::REFUSED
    } else {
        RCode::NOERROR
    }
}

/// The number of a response code on the wire.
pub open spec fn rcode_num(r: RCode) -> u8 {
    match r {
        RCode::NOERROR => 0,
        RCode::FORMERR => 1,
        RCode::SERVFAIL => 2,
        RCode::NXDOMAIN => 3,
        RCode::NOTIMP => 4,
        RCode::REFUSED => 5,
    }
}

impl RCode {
    /// The response code numbered `num`.
    pub fn get_rcode(num: u8) -> (r: RCode)
        ensures
            r == rcode_of(num),
    {
        match num {
            1 => RCode::FORMERR,
            2 => RCode::SERVFAIL,
            3 => RCode::NXDOMAIN,
            4 => RCode::NOTIMP,
            5 => RCode::REFUSED,
            _ => RCode::NOERROR,
        }
    }

    /// The number of this response code.
    pub fn to_num(&self) -> (r: u8)
        ensures
            r == rcode_num(*self),
    {
        match *self {
            RCode::NOERROR => 0,
            RCode::FORMERR => 1,
            RCode::SERVFAIL => 2,
            RCode::NXDOMAIN => 3,
            RCode::NOTIMP => 4,
            RCode::REFUSED => 5,
        }
    }
}

/// Kind of query in a header.
#[derive(Clone, Copy, Debug, PartialEq, Eq, Structural)]
pub enum OpCode {
    QUERY,
    IQUERY,
    STATUS,
}

/// The opcode that a 4-bit field holds; unassigned values read as QUERY.
pub open spec fn opcode_of(num: u8) -> OpCode {
    if num == 1 {
        OpCode::IQUERY
    } else if num == 2 {
        OpCode::STATUS
    } else {
        OpCode::QUERY
    }
}

/// The number of an opcode on the wire.
pub open spec fn opcode_num(o: OpCode) -> u8 {
    match o {
        OpCode::QUERY => 0,
        OpCode::IQUERY => 1,
        OpCode::STATUS => 2,
    }
}

impl OpCode {
    /// The opcode numbered `num`.
    pub fn get_opcode(num: u8) -> (r: OpCode)
        ensures
            r == opcode_of(num),
    {
        match num {
            1 => OpCode::IQUERY,
            2 => OpCode::STATUS,
            _ => OpCode::QUERY,
        }
    }

    /// The number of this opcode.
    pub fn to_num(&self) -> (r: u8)
        ensures
            r == opcode_num(*self),
    {
        match *self {
            OpCode::QUERY => 0,
            OpCode::IQUERY => 1,
            OpCode::STATUS => 2,
        }
    }
}

/// Record type of a question or a record.
#[derive(Clone, Copy, Debug, PartialEq, Eq, Hash, Structural)]
pub enum QueryType {
    UNKNOWN(u16),
    A,
    NS,
    CNAME,
    MX,
    AAAA,
}

/// The number of a record type on the wire.
pub open spec fn qtype_num(t: QueryType) -> u16 {
    match t {
        QueryType::UNKNOWN(x) => x,
        QueryType::A => 1,
        QueryType::NS => 2,
        QueryType::CNAME => 5,
        QueryType::MX => 15,
        QueryType::AAAA => 28,
    }
}

/// The record type numbered `num`.
pub open spec fn qtype_of(num: u16) -> QueryType {
    if num == 1 {
        QueryType::A
    } else if num == 2 {
        QueryType::NS
    } else if num == 5 {
        QueryType::CNAME
    } else if num == 15 {
        QueryType::MX
    } else if num == 28 {
        QueryType::AAAA
    } else {
        QueryType::UNKNOWN(num)
    }
}

impl QueryType {
    /// The number of this record type.
    pub fn to_num(&self) -> (r: u16)
        ensures
            r == qtype_num(*self),
    {
        match *self {
            QueryType::UNKNOWN(x) => x,
            QueryType::A => 1,
            QueryType::NS => 2,
            QueryType::CNAME => 5,
            QueryType::MX => 15,
            QueryType::AAAA => 28,
        }
    }

    /// The record type numbered `num`.
    pub fn get_query_type(num: u16) -> (r: QueryType)
        ensures
            r == qtype_of(num),
    {
        match num {
            1 => QueryType::A,
            2 => QueryType::NS,
            5 => QueryType::CNAME,
            15 => QueryType::MX,
            28 => QueryType::AAAA,
            _ => QueryType::UNKNOWN(num),
        }
    }
}

// ----------------------------------------------------------------- header
/// The fixed twelve-byte header of a packet.
#[derive(Clone, Copy, Debug, PartialEq, Eq, Structural)]
pub struct DNSHeader {
    pub id: u16,
    pub query: bool,
    pub opcode: OpCode,
    pub authoritative_answer: bool,
    pub truncation: bool,
    pub recursion_desired: bool,
    pub recursion_available: bool,
    pub zero: bool,
    pub checking_disabled: bool,
    pub authed_data: bool,
    pub rcode: RCode,
    pub qd_count: u16,
    pub an_count: u16,
    pub ns_count: u16,
    pub ar_count: u16,
}

/// A header with every field zero, false, QUERY or NOERROR.
pub open spec fn empty_header() -> DNSHeader {
    DNSHeader {
        id: 0,
        query: false,
        opcode: OpCode::QUERY,
        authoritative_answer: false,
        truncation: false,
        recursion_desired: false,
        recursion_available: false,
        zero: false,
        checking_disabled: false,
        authed_data: false,
        rcode: RCode::NOERROR,
        qd_count: 0,
        an_count: 0,
        ns_count: 0,
        ar_count: 0,
    }
}

/// The header whose twelve bytes start at `p`.
pub open spec fn header_from(buf: Seq<u8>, p: int) -> DNSHeader {
    let a = buf[p + 2];
    let b = buf[p + 3];
    DNSHeader {
        id: be16_at(buf, p) as u16,
        recursion_desired: a & 0x01 != 0,
        truncation: a & 0x02 != 0,
        authoritative_answer: a & 0x04 != 0,
        opcode: opcode_of((a >> 3) & 0x0F),
        query: a & 0x80 != 0,
        rcode: rcode_of(b & 0x0F),
        checking_disabled: b & 0x10 != 0,
        authed_data: b & 0x20 != 0,
        zero: b & 0x40 != 0,
        recursion_available: b & 0x80 != 0,
        qd_count: be16_at(buf, p + 4) as u16,
        an_count: be16_at(buf, p + 6) as u16,
        ns_count: be16_at(buf, p + 8) as u16,
        ar_count: be16_at(buf, p + 10) as u16,
    }
}

/// 1 for true, 0 for false.
pub open spec fn bit(b: bool) -> u8 {
    if b {
        1
    } else {
        0
    }
}

/// The first flag byte: QR, opcode, AA, TC, RD.
pub open spec fn flags_hi(h: DNSHeader) -> u8 {
    bit(h.recursion_desired) | (bit(h.truncation) << 1u8) | (bit(h.authoritative_answer) << 2u8)
        | (opcode_num(h.opcode) << 3u8) | (bit(h.query) << 7u8)
}

/// The second flag byte: RA, Z, AD, CD, rcode.
pub open spec fn flags_lo(h: DNSHeader) -> u8 {
    rcode_num(h.rcode) | (bit(h.checking_disabled) << 4u8) | (bit(h.authed_data) << 5u8) | (bit(
        h.zero,
    ) << 6u8) | (bit(h.recursion_available) << 7u8)
}

/// The twelve bytes of a header.
pub open spec fn header_bytes(h: DNSHeader) -> Seq<u8> {
    u16_bytes(h.id) + seq![flags_hi(h), flags_lo(h)] + u16_bytes(h.qd_count) + u16_bytes(
        h.an_count,
    ) + u16_bytes(h.ns_count) + u16_bytes(h.ar_count)
}

fn bit_of(b: bool) -> (r: u8)
    ensures
        r == bit(b),
{
    if b {
        1
    } else {
        0
    }
}

impl DNSHeader {
    /// A header with every field zero, false, QUERY or NOERROR.
    pub fn new() -> (r: DNSHeader)
        ensures
            r == empty_header(),
    {
        DNSHeader {
            id: 0,
            query: false,
            opcode: OpCode::QUERY,
            authoritative_answer: false,
            truncation: false,
            recursion_desired: false,
            recursion_available: false,
            zero: false,
            checking_disabled: false,
            authed_data: false,
            rcode: RCode::NOERROR,
            qd_count: 0,
            an_count: 0,
            ns_count: 0,
            ar_count: 0,
        }
    }

    /// Reads the twelve header bytes at the parser's cursor into `self`.
    /// Nothing changes when fewer than twelve bytes are left.
    pub fn parse_header(&mut self, parser: &mut PacketParser) -> (r: Result<(), ParseError>)
        ensures
            final(parser).buffer@ == old(parser).buffer@,
            old(parser).position + 12 <= old(parser).buffer@.len() ==> r is Ok && *final(self)
                == header_from(old(parser).buffer@, old(parser).position as int)
                && final(parser).position == old(parser).position + 12,
            old(parser).position + 12 > old(parser).buffer@.len() ==> r == Err::<(), ParseError>(
                ParseError::EndOfBuffer,
            ) && *final(self) == *old(self) && final(parser).position == old(parser).position,
    {
        if parser.position >= parser.buffer.len() || parser.buffer.len() - parser.position < 12 {
            return Err(ParseError::EndOfBuffer);
        }
        let ghost buf = parser.buffer@;
        let ghost p = parser.position as int;
        let id = parser.parse_u16();
        let a = parser.parse_byte();
        let b = parser.parse_byte();
        let qd = parser.parse_u16();
        let an = parser.parse_u16();
        let ns = parser.parse_u16();
        let ar = parser.parse_u16();
        match (id, a, b, qd, an, ns, ar) {
            (Ok(id), Ok(a), Ok(b), Ok(qd), Ok(an), Ok(ns), Ok(ar)) => {
                self.id = id;
                self.recursion_desired = a & 0x01 != 0;
                self.truncation = a & 0x02 != 0;
                self.authoritative_answer = a & 0x04 != 0;
                self.opcode = OpCode::get_opcode((a >> 3) & 0x0F);
                self.query = a & 0x80 != 0;
                self.rcode = RCode::get_rcode(b & 0x0F);
                self.checking_disabled = b & 0x10 != 0;
                self.authed_data = b & 0x20 != 0;
                self.zero = b & 0x40 != 0;
                self.recursion_available = b & 0x80 != 0;
                self.qd_count = qd;
                self.an_count = an;
                self.ns_count = ns;
                self.ar_count = ar;
                Ok(())
            },
            _ => Err(ParseError::EndOfBuffer),
        }
    }

    /// Appends the twelve header bytes. Nothing is written when they do not fit.
    pub fn write_header(&self, writer: &mut PacketWriter) -> (r: Result<(), WriteError>)
        ensures
            final(writer).capacity == old(writer).capacity,
            old(writer).buffer@.len() + 12 <= old(writer).capacity ==> r is Ok
                && final(writer).buffer@ == old(writer).buffer@ + header_bytes(*self),
            old(writer).buffer@.len() + 12 > old(writer).capacity ==> r == Err::<(), WriteError>(
                WriteError::BufferFull,
            ) && final(writer).buffer@ == old(writer).buffer@,
    {
        if writer.capacity < 12 || writer.buffer.len() > writer.capacity - 12 {
            return Err(WriteError::BufferFull);
        }
        let hi = bit_of(self.recursion_desired) | (bit_of(self.truncation) << 1u8) | (bit_of(
            self.authoritative_answer,
        ) << 2u8) | (self.opcode.to_num() << 3u8) | (bit_of(self.query) << 7u8);
        let lo = self.rcode.to_num() | (bit_of(self.checking_disabled) << 4u8) | (bit_of(
            self.authed_data,
        ) << 5u8) | (bit_of(self.zero) << 6u8) | (bit_of(self.recursion_available) << 7u8);
        let ghost before = writer.buffer@;
        writer.write_u16(self.id);
        writer.write_u8(hi);
        writer.write_u8(lo);
        writer.write_u16(self.qd_count);
        writer.write_u16(self.an_count);
        writer.write_u16(self.ns_count);
        writer.write_u16(self.ar_count);
        assert(writer.buffer@ =~= before + header_bytes(*self));
        Ok(())
    }
}


// --------------------------------------------------------------- question
/// A question: a name and the record type asked for it.
#[derive(Clone, Debug)]
pub struct DNSQuestion {
    pub qname: String,
    pub qtype: QueryType,
    pub class: u16,
}

/// What a question holds, with its name as text.
pub struct QuestionView {
    pub qname: Seq<char>,
    pub qtype: QueryType,
    pub class: u16,
}

impl View for DNSQuestion {
    type V = QuestionView;

    open spec fn view(&self) -> QuestionView {
        QuestionView { qname: self.qname@, qtype: self.qtype, class: self.class }
    }
}

/// The question at `p` and the position after it.
pub open spec fn question_at(buf: Seq<u8>, p: int) -> Result<(QuestionView, int), ParseError> {
    match parse_name(buf, p) {
        Err(e) => Err(e),
        Ok((name, pa)) => if pa + 4 > buf.len() {
            Err(ParseError::EndOfBuffer)
        } else {
            Ok(
                (
                    QuestionView {
                        qname: name,
                        qtype: qtype_of(be16_at(buf, pa) as u16),
                        class: be16_at(buf, pa + 2) as u16,
                    },
                    pa + 4,
                ),
            )
        },
    }
}

/// The bytes of a question; the class is always written as 1 (IN).
pub open spec fn question_bytes(q: QuestionView) -> Seq<u8> {
    encode_name(q.qname) + u16_bytes(qtype_num(q.qtype)) + u16_bytes(1)
}

impl DNSQuestion {
    /// An empty question: root name, type UNKNOWN(0), class 0.
    pub fn new() -> (r: DNSQuestion)
        ensures
            r@ == (QuestionView { qname: Seq::empty(), qtype: QueryType::UNKNOWN(0), class: 0 }),
    {
        DNSQuestion { qname: String::new(), qtype: QueryType::UNKNOWN(0), class: 0 }
    }

    /// Reads a question at the parser's cursor into `self`; `self` is left as it
    /// was when that fails.
    pub fn parse_question(&mut self, parser: &mut PacketParser) -> (r: Result<(), ParseError>)
        ensures
            final(parser).buffer@ == old(parser).buffer@,
            match question_at(old(parser).buffer@, old(parser).position as int) {
                Ok((q, end)) => r is Ok && final(self)@ == q && final(parser).position == end,
                Err(e) => r == Err::<(), ParseError>(e) && final(self)@ == old(self)@,
            },
    {
        let qname = parser.parse_qname()?;
        let qtype = parser.parse_u16()?;
        let class = parser.parse_u16()?;
        self.qname = qname;
        self.qtype = QueryType::get_query_type(qtype);
        self.class = class;
        Ok(())
    }

    /// Appends the question. Nothing is written when it fails.
    pub fn write_question(&self, buffer: &mut PacketWriter) -> (r: Result<(), WriteError>)
        ensures
            final(buffer).capacity == old(buffer).capacity,
            !valid_name(self.qname@) ==> r == Err::<(), WriteError>(WriteError::InvalidName),
            valid_name(self.qname@) && old(buffer).buffer@.len() + question_bytes(self@).len()
                > old(buffer).capacity ==> r == Err::<(), WriteError>(WriteError::BufferFull),
            valid_name(self.qname@) && old(buffer).buffer@.len() + question_bytes(self@).len()
                <= old(buffer).capacity ==> r is Ok,
            r is Ok ==> final(buffer).buffer@ == old(buffer).buffer@ + question_bytes(self@),
            r is Err ==> final(buffer).buffer@ == old(buffer).buffer@,
    {
        let name = encode_qname(self.qname.as_str())?;
        proof {
            lemma_encode_name_len(self.qname@);
        }
        if name.len() > 255 || buffer.capacity < name.len() + 4 || buffer.buffer.len()
            > buffer.capacity - (name.len() + 4) {
            return Err(WriteError::BufferFull);
        }
        let ghost before = buffer.buffer@;
        buffer.write_bytes(name);
        buffer.write_u16(self.qtype.to_num());
        buffer.write_u16(1);
        assert(buffer.buffer@ =~= before + question_bytes(self@));
        Ok(())
    }
}


// ---------------------------------------------------------------- records
/// An IPv4 address as its 32-bit value, first octet most significant.
#[derive(Clone, Copy, Debug, PartialEq, Eq, Hash, Structural)]
pub struct Ipv4Address {
    pub bits: u32,
}

impl Ipv4Address {
    /// The address `a.b.c.d`.
    pub fn new(a: u8, b: u8, c: u8, d: u8) -> (r: Ipv4Address)
        ensures
            r.bits == a * 16777216 + b * 65536 + c * 256 + d,
    {
        Ipv4Address { bits: (a as u32) * 16777216 + (b as u32) * 65536 + (c as u32) * 256 + (d as u32) }
    }
}

/// An IPv6 address as its 128-bit value, first octet most significant.
#[derive(Clone, Copy, Debug, PartialEq, Eq, Hash, Structural)]
pub struct Ipv6Address {
    pub bits: u128,
}

/// Big-endian value of sixteen bytes at `p`.
pub open spec fn be128_at(buf: Seq<u8>, p: int) -> int {
    be32_at(buf, p) * 0x1_0000_0000_0000_0000_0000_0000 + be32_at(buf, p + 4)
        * 0x1_0000_0000_0000_0000 + be32_at(buf, p + 8) * 0x1_0000_0000 + be32_at(buf, p + 12)
}

/// The sixteen bytes of `v`, most significant first.
pub open spec fn u128_bytes(v: u128) -> Seq<u8> {
    u32_bytes((v / 0x1_0000_0000_0000_0000_0000_0000) as u32) + u32_bytes(
        ((v / 0x1_0000_0000_0000_0000) % 0x1_0000_0000) as u32,
    ) + u32_bytes(((v / 0x1_0000_0000) % 0x1_0000_0000) as u32) + u32_bytes(
        (v % 0x1_0000_0000) as u32,
    )
}

/// A resource record of one of the types this resolver handles.
#[derive(Clone, Debug, Eq, Hash)]
pub enum DNSRecord {
    UNKNOWN { domain: String, qtype: u16, data_len: u16, ttl: u32 },
    A { domain: String, addr: Ipv4Address, ttl: u32 },
    NS { domain: String, host: String, ttl: u32 },
    CNAME { domain: String, host: String, ttl: u32 },
    MX { domain: String, priority: u16, host: String, ttl: u32 },
    AAAA { domain: String, addr: Ipv6Address, ttl: u32 },
}

/// What a record holds, with its names as text.
pub enum RecordView {
    Unknown { domain: Seq<char>, qtype: u16, data_len: u16, ttl: u32 },
    A { domain: Seq<char>, addr: Ipv4Address, ttl: u32 },
    NS { domain: Seq<char>, host: Seq<char>, ttl: u32 },
    CNAME { domain: Seq<char>, host: Seq<char>, ttl: u32 },
    MX { domain: Seq<char>, priority: u16, host: Seq<char>, ttl: u32 },
    AAAA { domain: Seq<char>, addr: Ipv6Address, ttl: u32 },
}

impl View for DNSRecord {
    type V = RecordView;

    open spec fn view(&self) -> RecordView {
        match self {
            DNSRecord::UNKNOWN { domain, qtype, data_len, ttl } => RecordView::Unknown {
                domain: domain@,
                qtype: *qtype,
                data_len: *data_len,
                ttl: *ttl,
            },
            DNSRecord::A { domain, addr, ttl } => RecordView::A {
                domain: domain@,
                addr: *addr,
                ttl: *ttl,
            },
            DNSRecord::NS { domain, host, ttl } => RecordView::NS {
                domain: domain@,
                host: host@,
                ttl: *ttl,
            },
            DNSRecord::CNAME { domain, host, ttl } => RecordView::CNAME {
                domain: domain@,
                host: host@,
                ttl: *ttl,
            },
            DNSRecord::MX { domain, priority, host, ttl } => RecordView::MX {
                domain: domain@,
                priority: *priority,
                host: host@,
                ttl: *ttl,
            },
            DNSRecord::AAAA { domain, addr, ttl } => RecordView::AAAA {
                domain: domain@,
                addr: *addr,
                ttl: *ttl,
            },
        }
    }
}

impl PartialEq for DNSRecord {
    fn eq(&self, other: &DNSRecord) -> (r: bool)
        ensures
            r == (self@ == other@),
    {
        match (self, other) {
            (
                DNSRecord::UNKNOWN { domain: d1, qtype: q1, data_len: l1, ttl: t1 },
                DNSRecord::UNKNOWN { domain: d2, qtype: q2, data_len: l2, ttl: t2 },
            ) => *d1 == *d2 && q1 == q2 && l1 == l2 && t1 == t2,
            (
                DNSRecord::A { domain: d1, addr: a1, ttl: t1 },
                DNSRecord::A { domain: d2, addr: a2, ttl: t2 },
            ) => *d1 == *d2 && a1.bits == a2.bits && t1 == t2,
            (
                DNSRecord::NS { domain: d1, host: h1, ttl: t1 },
                DNSRecord::NS { domain: d2, host: h2, ttl: t2 },
            ) => *d1 == *d2 && *h1 == *h2 && t1 == t2,
            (
                DNSRecord::CNAME { domain: d1, host: h1, ttl: t1 },
                DNSRecord::CNAME { domain: d2, host: h2, ttl: t2 },
            ) => *d1 == *d2 && *h1 == *h2 && t1 == t2,
            (
                DNSRecord::MX { domain: d1, priority: pa, host: h1, ttl: t1 },
                DNSRecord::MX { domain: d2, priority: pb, host: h2, ttl: t2 },
            ) => *d1 == *d2 && pa == pb && *h1 == *h2 && t1 == t2,
            (
                DNSRecord::AAAA { domain: d1, addr: a1, ttl: t1 },
                DNSRecord::AAAA { domain: d2, addr: a2, ttl: t2 },
            ) => *d1 == *d2 && a1.bits == a2.bits && t1 == t2,
            _ => false,
        }
    }
}

impl vstd::std_specs::cmp::PartialEqSpecImpl for DNSRecord {
    open spec fn obeys_eq_spec() -> bool {
        true
    }

    open spec fn eq_spec(&self, other: &DNSRecord) -> bool {
        self@ == other@
    }
}

/// The type of a record.
pub open spec fn record_qtype(r: RecordView) -> QueryType {
    match r {
        RecordView::Unknown { qtype, .. } => QueryType::UNKNOWN(qtype),
        RecordView::A { .. } => QueryType::A,
        RecordView::NS { .. } => QueryType::NS,
        RecordView::CNAME { .. } => QueryType::CNAME,
        RecordView::MX { .. } => QueryType::MX,
        RecordView::AAAA { .. } => QueryType::AAAA,
    }
}

/// The owner name of a record.
pub open spec fn record_domain(r: RecordView) -> Seq<char> {
    match r {
        RecordView::Unknown { domain, .. } => domain,
        RecordView::A { domain, .. } => domain,
        RecordView::NS { domain, .. } => domain,
        RecordView::CNAME { domain, .. } => domain,
        RecordView::MX { domain, .. } => domain,
        RecordView::AAAA { domain, .. } => domain,
    }
}

/// The time to live of a record, in seconds.
pub open spec fn record_ttl(r: RecordView) -> u32 {
    match r {
        RecordView::Unknown { ttl, .. } => ttl,
        RecordView::A { ttl, .. } => ttl,
        RecordView::NS { ttl, .. } => ttl,
        RecordView::CNAME { ttl, .. } => ttl,
        RecordView::MX { ttl, .. } => ttl,
        RecordView::AAAA { ttl, .. } => ttl,
    }
}

/// The record at `p` and the position after it. The class is not kept; the data
/// length is kept for unknown types only, whose data is skipped.
pub open spec fn record_at(buf: Seq<u8>, p: int) -> Result<(RecordView, int), ParseError> {
    match parse_name(buf, p) {
        Err(e) => Err(e),
        Ok((domain, pa)) => if pa + 10 > buf.len() {
            Err(ParseError::EndOfBuffer)
        } else {
            let num = be16_at(buf, pa) as u16;
            let ttl = be32_at(buf, pa + 4) as u32;
            let data_len = be16_at(buf, pa + 8) as u16;
            let pb = pa + 10;
            match qtype_of(num) {
                QueryType::A => if pb + 4 > buf.len() {
                    Err(ParseError::EndOfBuffer)
                } else {
                    Ok(
                        (
                            RecordView::A {
                                domain,
                                addr: Ipv4Address { bits: be32_at(buf, pb) as u32 },
                                ttl,
                            },
                            pb + 4,
                        ),
                    )
                },
                QueryType::AAAA => if pb + 16 > buf.len() {
                    Err(ParseError::EndOfBuffer)
                } else {
                    Ok(
                        (
                            RecordView::AAAA {
                                domain,
                                addr: Ipv6Address { bits: be128_at(buf, pb) as u128 },
                                ttl,
                            },
                            pb + 16,
                        ),
                    )
                },
                QueryType::NS => match parse_name(buf, pb) {
                    Err(e) => Err(e),
                    Ok((host, pc)) => Ok((RecordView::NS { domain, host, ttl }, pc)),
                },
                QueryType::CNAME => match parse_name(buf, pb) {
                    Err(e) => Err(e),
                    Ok((host, pc)) => Ok((RecordView::CNAME { domain, host, ttl }, pc)),
                },
                QueryType::MX => if pb + 2 > buf.len() {
                    Err(ParseError::EndOfBuffer)
                } else {
                    match parse_name(buf, pb + 2) {
                        Err(e) => Err(e),
                        Ok((host, pc)) => Ok(
                            (
                                RecordView::MX {
                                    domain,
                                    priority: be16_at(buf, pb) as u16,
                                    host,
                                    ttl,
                                },
                                pc,
                            ),
                        ),
                    }
                },
                QueryType::UNKNOWN(_) => if pb + data_len > buf.len() {
                    Err(ParseError::EndOfBuffer)
                } else {
                    Ok((RecordView::Unknown { domain, qtype: num, data_len, ttl }, pb + data_len))
                },
            }
        },
    }
}

/// The owner name, type, class 1 and time to live that start every written record.
pub open spec fn record_prefix(domain: Seq<char>, t: QueryType, ttl: u32) -> Seq<u8> {
    encode_name(domain) + u16_bytes(qtype_num(t)) + u16_bytes(1) + u32_bytes(ttl)
}

/// The bytes of a record; a record of an unknown type is skipped.
pub open spec fn record_bytes(r: RecordView) -> Seq<u8> {
    match r {
        RecordView::Unknown { .. } => Seq::empty(),
        RecordView::A { domain, addr, ttl } => record_prefix(domain, QueryType::A, ttl) + u16_bytes(
            4,
        ) + u32_bytes(addr.bits),
        RecordView::NS { domain, host, ttl } => record_prefix(domain, QueryType::NS, ttl)
            + u16_bytes(encode_name(host).len() as u16) + encode_name(host),
        RecordView::CNAME { domain, host, ttl } => record_prefix(domain, QueryType::CNAME, ttl)
            + u16_bytes(encode_name(host).len() as u16) + encode_name(host),
        RecordView::MX { domain, priority, host, ttl } => record_prefix(domain, QueryType::MX, ttl)
            + u16_bytes((encode_name(host).len() + 2) as u16) + u16_bytes(priority) + encode_name(
            host,
        ),
        RecordView::AAAA { domain, addr, ttl } => record_prefix(domain, QueryType::AAAA, ttl)
            + u16_bytes(16) + u128_bytes(addr.bits),
    }
}

/// Every name of a record can be written; a record of an unknown type is never
/// written, so it always passes.
pub open spec fn record_writable(r: RecordView) -> bool {
    match r {
        RecordView::Unknown { .. } => true,
        RecordView::A { domain, .. } => valid_name(domain),
        RecordView::AAAA { domain, .. } => valid_name(domain),
        RecordView::NS { domain, host, .. } => valid_name(domain) && valid_name(host),
        RecordView::CNAME { domain, host, .. } => valid_name(domain) && valid_name(host),
        RecordView::MX { domain, host, .. } => valid_name(domain) && valid_name(host),
    }
}

impl DNSRecord {
    /// A copy of this record.
    pub fn duplicate(&self) -> (r: DNSRecord)
        ensures
            r@ == self@,
    {
        match self {
            DNSRecord::UNKNOWN { domain, qtype, data_len, ttl } => DNSRecord::UNKNOWN {
                domain: domain.clone(),
                qtype: *qtype,
                data_len: *data_len,
                ttl: *ttl,
            },
            DNSRecord::A { domain, addr, ttl } => DNSRecord::A {
                domain: domain.clone(),
                addr: *addr,
                ttl: *ttl,
            },
            DNSRecord::NS { domain, host, ttl } => DNSRecord::NS {
                domain: domain.clone(),
                host: host.clone(),
                ttl: *ttl,
            },
            DNSRecord::CNAME { domain, host, ttl } => DNSRecord::CNAME {
                domain: domain.clone(),
                host: host.clone(),
                ttl: *ttl,
            },
            DNSRecord::MX { domain, priority, host, ttl } => DNSRecord::MX {
                domain: domain.clone(),
                priority: *priority,
                host: host.clone(),
                ttl: *ttl,
            },
            DNSRecord::AAAA { domain, addr, ttl } => DNSRecord::AAAA {
                domain: domain.clone(),
                addr: *addr,
                ttl: *ttl,
            },
        }
    }

    /// The type of this record.
    pub fn get_query_type(&self) -> (r: QueryType)
        ensures
            r == record_qtype(self@),
    {
        match self {
            DNSRecord::UNKNOWN { qtype, .. } => QueryType::UNKNOWN(*qtype),
            DNSRecord::A { .. } => QueryType::A,
            DNSRecord::NS { .. } => QueryType::NS,
            DNSRecord::CNAME { .. } => QueryType::CNAME,
            DNSRecord::MX { .. } => QueryType::MX,
            DNSRecord::AAAA { .. } => QueryType::AAAA,
        }
    }

    /// The owner name of this record; none for a record of an unknown type.
    pub fn get_domain(&self) -> (r: Option<String>)
        ensures
            self@ is Unknown ==> r is None,
            !(self@ is Unknown) ==> r is Some && r->Some_0@ == record_domain(self@),
    {
        match self {
            DNSRecord::UNKNOWN { .. } => None,
            DNSRecord::A { domain, .. } => Some(domain.clone()),
            DNSRecord::NS { domain, .. } => Some(domain.clone()),
            DNSRecord::CNAME { domain, .. } => Some(domain.clone()),
            DNSRecord::MX { domain, .. } => Some(domain.clone()),
            DNSRecord::AAAA { domain, .. } => Some(domain.clone()),
        }
    }

    /// The time to live of this record, in seconds.
    pub fn get_ttl(&self) -> (r: u32)
        ensures
            r == record_ttl(self@),
    {
        match self {
            DNSRecord::UNKNOWN { ttl, .. } => *ttl,
            DNSRecord::A { ttl, .. } => *ttl,
            DNSRecord::NS { ttl, .. } => *ttl,
            DNSRecord::CNAME { ttl, .. } => *ttl,
            DNSRecord::MX { ttl, .. } => *ttl,
            DNSRecord::AAAA { ttl, .. } => *ttl,
        }
    }

    /// Reads a record at the parser's cursor.
    pub fn parse_record(parser: &mut PacketParser) -> (r: Result<DNSRecord, ParseError>)
        ensures
            final(parser).buffer@ == old(parser).buffer@,
            match record_at(old(parser).buffer@, old(parser).position as int) {
                Ok((rec, end)) => r is Ok && r->Ok_0@ == rec && final(parser).position == end,
                Err(e) => r == Err::<DNSRecord, ParseError>(e),
            },
    {
        let domain = parser.parse_qname()?;
        if parser.position >= parser.buffer.len() || parser.buffer.len() - parser.position < 10 {
            return Err(ParseError::EndOfBuffer);
        }
        let qtype_num = parser.parse_u16()?;
        let _class = parser.parse_u16()?;
        let ttl = parser.parse_u32()?;
        let data_length = parser.parse_u16()?;
        match QueryType::get_query_type(qtype_num) {
            QueryType::A => {
                let raw = parser.parse_u32()?;
                Ok(DNSRecord::A { domain, addr: Ipv4Address { bits: raw }, ttl })
            },
            QueryType::AAAA => {
                if parser.position >= parser.buffer.len() || parser.buffer.len() - parser.position
                    < 16 {
                    return Err(ParseError::EndOfBuffer);
                }
                let w0 = parser.parse_u32()?;
                let w1 = parser.parse_u32()?;
                let w2 = parser.parse_u32()?;
                let w3 = parser.parse_u32()?;
                let bits = (w0 as u128) * 0x1_0000_0000_0000_0000_0000_0000 + (w1 as u128)
                    * 0x1_0000_0000_0000_0000 + (w2 as u128) * 0x1_0000_0000 + (w3 as u128);
                Ok(DNSRecord::AAAA { domain, addr: Ipv6Address { bits }, ttl })
            },
            QueryType::NS => {
                let host = parser.parse_qname()?;
                Ok(DNSRecord::NS { domain, host, ttl })
            },
            QueryType::CNAME => {
                let host = parser.parse_qname()?;
                Ok(DNSRecord::CNAME { domain, host, ttl })
            },
            QueryType::MX => {
                let priority = parser.parse_u16()?;
                let host = parser.parse_qname()?;
                Ok(DNSRecord::MX { domain, priority, host, ttl })
            },
            QueryType::UNKNOWN(_) => {
                if parser.buffer.len() - parser.position < data_length as usize {
                    return Err(ParseError::EndOfBuffer);
                }
                let skip_to = parser.position + data_length as usize;
                parser.jump(skip_to);
                Ok(DNSRecord::UNKNOWN { domain, qtype: qtype_num, data_len: data_length, ttl })
            },
        }
    }

    /// Appends the record and returns how many bytes it took; a record of an
    /// unknown type takes none. Nothing is written when it fails.
    pub fn write_record(&self, writer: &mut PacketWriter) -> (r: Result<usize, WriteError>)
        ensures
            final(writer).capacity == old(writer).capacity,
            !record_writable(self@) ==> r == Err::<usize, WriteError>(WriteError::InvalidName),
            record_writable(self@) && old(writer).buffer@.len() + record_bytes(self@).len()
                > old(writer).capacity ==> r == Err::<usize, WriteError>(WriteError::BufferFull),
            record_writable(self@) && old(writer).buffer@.len() + record_bytes(self@).len()
                <= old(writer).capacity ==> r == Ok::<usize, WriteError>(
                record_bytes(self@).len() as usize,
            ),
            r is Ok ==> final(writer).buffer@ == old(writer).buffer@ + record_bytes(self@),
            r is Err ==> final(writer).buffer@ == old(writer).buffer@,
    {
        let ghost before = writer.buffer@;
        match self {
            DNSRecord::UNKNOWN { .. } => {
                if writer.buffer.len() > writer.capacity {
                    return Err(WriteError::BufferFull);
                }
                assert(writer.buffer@ =~= before + record_bytes(self@));
                Ok(0)
            },
            DNSRecord::A { .. } => self.write_address_record(writer),
            DNSRecord::AAAA { .. } => self.write_address_record(writer),
            DNSRecord::NS { .. } => self.write_host_record(writer),
            DNSRecord::CNAME { .. } => self.write_host_record(writer),
            DNSRecord::MX { .. } => self.write_mail_record(writer),
        }
    }

    /// `write_record` for A and AAAA records.
    fn write_address_record(&self, writer: &mut PacketWriter) -> (r: Result<usize, WriteError>)
        requires
            self is A || self is AAAA,
        ensures
            final(writer).capacity == old(writer).capacity,
            !record_writable(self@) ==> r == Err::<usize, WriteError>(WriteError::InvalidName),
            record_writable(self@) && old(writer).buffer@.len() + record_bytes(self@).len()
                > old(writer).capacity ==> r == Err::<usize, WriteError>(WriteError::BufferFull),
            record_writable(self@) && old(writer).buffer@.len() + record_bytes(self@).len()
                <= old(writer).capacity ==> r == Ok::<usize, WriteError>(
                record_bytes(self@).len() as usize,
            ),
            r is Ok ==> final(writer).buffer@ == old(writer).buffer@ + record_bytes(self@),
            r is Err ==> final(writer).buffer@ == old(writer).buffer@,
    {
        let ghost before = writer.buffer@;
        match self {
            DNSRecord::A { domain, addr, ttl } => {
                let name = encode_qname(domain.as_str())?;
                proof {
                    lemma_encode_name_len(domain@);
                }
                let total = name.len() + 14;
                if writer.capacity < total || writer.buffer.len() > writer.capacity - total {
                    return Err(WriteError::BufferFull);
                }
                writer.write_bytes(name);
                writer.write_u16(1);
                writer.write_u16(1);
                writer.write_u32(*ttl);
                writer.write_u16(4);
                writer.write_u32(addr.bits);
                assert(writer.buffer@ =~= before + record_bytes(self@));
                Ok(total)
            },
            DNSRecord::AAAA { domain, addr, ttl } => {
                let name = encode_qname(domain.as_str())?;
                proof {
                    lemma_encode_name_len(domain@);
                }
                let total = name.len() + 26;
                if writer.capacity < total || writer.buffer.len() > writer.capacity - total {
                    return Err(WriteError::BufferFull);
                }
                writer.write_bytes(name);
                writer.write_u16(28);
                writer.write_u16(1);
                writer.write_u32(*ttl);
                writer.write_u16(16);
                let v = addr.bits;
                writer.write_u32((v / 0x1_0000_0000_0000_0000_0000_0000) as u32);
                writer.write_u32(((v / 0x1_0000_0000_0000_0000) % 0x1_0000_0000) as u32);
                writer.write_u32(((v / 0x1_0000_0000) % 0x1_0000_0000) as u32);
                writer.write_u32((v % 0x1_0000_0000) as u32);
                assert(writer.buffer@ =~= before + record_bytes(self@));
                Ok(total)
            },
            _ => Err(WriteError::InvalidName),
        }
    }

    /// `write_record` for NS and CNAME records.
    fn write_host_record(&self, writer: &mut PacketWriter) -> (r: Result<usize, WriteError>)
        requires
            self is NS || self is CNAME,
        ensures
            final(writer).capacity == old(writer).capacity,
            !record_writable(self@) ==> r == Err::<usize, WriteError>(WriteError::InvalidName),
            record_writable(self@) && old(writer).buffer@.len() + record_bytes(self@).len()
                > old(writer).capacity ==> r == Err::<usize, WriteError>(WriteError::BufferFull),
            record_writable(self@) && old(writer).buffer@.len() + record_bytes(self@).len()
                <= old(writer).capacity ==> r == Ok::<usize, WriteError>(
                record_bytes(self@).len() as usize,
            ),
            r is Ok ==> final(writer).buffer@ == old(writer).buffer@ + record_bytes(self@),
            r is Err ==> final(writer).buffer@ == old(writer).buffer@,
    {
        let ghost before = writer.buffer@;
        match self {
            DNSRecord::NS { domain, host, ttl } => {
                let name = encode_qname(domain.as_str())?;
                let target = encode_qname(host.as_str())?;
                proof {
                    lemma_encode_name_len(domain@);
                    lemma_encode_name_len(host@);
                }
                let size = target.len();
                let total = name.len() + 10 + size;
                if writer.capacity < total || writer.buffer.len() > writer.capacity - total {
                    return Err(WriteError::BufferFull);
                }
                writer.write_bytes(name);
                writer.write_u16(2);
                writer.write_u16(1);
                writer.write_u32(*ttl);
                writer.write_u16(size as u16);
                writer.write_bytes(target);
                assert(writer.buffer@ =~= before + record_bytes(self@));
                Ok(total)
            },
            DNSRecord::CNAME { domain, host, ttl } => {
                let name = encode_qname(domain.as_str())?;
                let target = encode_qname(host.as_str())?;
                proof {
                    lemma_encode_name_len(domain@);
                    lemma_encode_name_len(host@);
                }
                let size = target.len();
                let total = name.len() + 10 + size;
                if writer.capacity < total || writer.buffer.len() > writer.capacity - total {
                    return Err(WriteError::BufferFull);
                }
                writer.write_bytes(name);
                writer.write_u16(5);
                writer.write_u16(1);
                writer.write_u32(*ttl);
                writer.write_u16(size as u16);
                writer.write_bytes(target);
                assert(writer.buffer@ =~= before + record_bytes(self@));
                Ok(total)
            },
            _ => Err(WriteError::InvalidName),
        }
    }

    /// `write_record` for MX records.
    fn write_mail_record(&self, writer: &mut PacketWriter) -> (r: Result<usize, WriteError>)
        requires
            self is MX,
        ensures
            final(writer).capacity == old(writer).capacity,
            !record_writable(self@) ==> r == Err::<usize, WriteError>(WriteError::InvalidName),
            record_writable(self@) && old(writer).buffer@.len() + record_bytes(self@).len()
                > old(writer).capacity ==> r == Err::<usize, WriteError>(WriteError::BufferFull),
            record_writable(self@) && old(writer).buffer@.len() + record_bytes(self@).len()
                <= old(writer).capacity ==> r == Ok::<usize, WriteError>(
                record_bytes(self@).len() as usize,
            ),
            r is Ok ==> final(writer).buffer@ == old(writer).buffer@ + record_bytes(self@),
            r is Err ==> final(writer).buffer@ == old(writer).buffer@,
    {
        let ghost before = writer.buffer@;
        match self {
            DNSRecord::MX { domain, priority, host, ttl } => {
                let name = encode_qname(domain.as_str())?;
                let target = encode_qname(host.as_str())?;
                proof {
                    lemma_encode_name_len(domain@);
                    lemma_encode_name_len(host@);
                }
                let size = target.len() + 2;
                let total = name.len() + 10 + size;
                if writer.capacity < total || writer.buffer.len() > writer.capacity - total {
                    return Err(WriteError::BufferFull);
                }
                writer.write_bytes(name);
                writer.write_u16(15);
                writer.write_u16(1);
                writer.write_u32(*ttl);
                writer.write_u16(size as u16);
                writer.write_u16(*priority);
                writer.write_bytes(target);
                assert(writer.buffer@ =~= before + record_bytes(self@));
                Ok(total)
            },
            _ => Err(WriteError::InvalidName),
        }
    }
}


// ----------------------------------------------------------------- packet
/// A whole message: header, questions, answers, authorities and additional records.
#[derive(Clone, Debug)]
pub struct DNSPacket {
    pub header: DNSHeader,
    pub questions: Vec<DNSQuestion>,
    pub answers: Vec<DNSRecord>,
    pub authorities: Vec<DNSRecord>,
    pub resources: Vec<DNSRecord>,
}

/// What a packet holds, its names as text.
pub struct PacketView {
    pub header: DNSHeader,
    pub questions: Seq<QuestionView>,
    pub answers: Seq<RecordView>,
    pub authorities: Seq<RecordView>,
    pub resources: Seq<RecordView>,
}

/// The views of a vector of records.
pub open spec fn records_view(v: Seq<DNSRecord>) -> Seq<RecordView> {
    v.map_values(|r: DNSRecord| r@)
}

/// The views of a vector of questions.
pub open spec fn questions_view(v: Seq<DNSQuestion>) -> Seq<QuestionView> {
    v.map_values(|q: DNSQuestion| q@)
}

impl View for DNSPacket {
    type V = PacketView;

    open spec fn view(&self) -> PacketView {
        PacketView {
            header: self.header,
            questions: questions_view(self.questions@),
            answers: records_view(self.answers@),
            authorities: records_view(self.authorities@),
            resources: records_view(self.resources@),
        }
    }
}

/// `n` questions from `p` on, and the position after them.
pub open spec fn questions_at(buf: Seq<u8>, p: int, n: nat) -> Result<
    (Seq<QuestionView>, int),
    ParseError,
>
    decreases n,
{
    if n == 0 {
        Ok((Seq::empty(), p))
    } else {
        match question_at(buf, p) {
            Err(e) => Err(e),
            Ok((q, pa)) => match questions_at(buf, pa, (n - 1) as nat) {
                Err(e) => Err(e),
                Ok((qs, pb)) => Ok((seq![q] + qs, pb)),
            },
        }
    }
}

/// `n` records from `p` on, and the position after them.
pub open spec fn records_at(buf: Seq<u8>, p: int, n: nat) -> Result<
    (Seq<RecordView>, int),
    ParseError,
>
    decreases n,
{
    if n == 0 {
        Ok((Seq::empty(), p))
    } else {
        match record_at(buf, p) {
            Err(e) => Err(e),
            Ok((r, pa)) => match records_at(buf, pa, (n - 1) as nat) {
                Err(e) => Err(e),
                Ok((rs, pb)) => Ok((seq![r] + rs, pb)),
            },
        }
    }
}

/// The packet at `p`, with as many entries in each section as its header counts,
/// and the position after it.
pub open spec fn packet_at(buf: Seq<u8>, p: int) -> Result<(PacketView, int), ParseError> {
    if p + 12 > buf.len() {
        Err(ParseError::EndOfBuffer)
    } else {
        let h = header_from(buf, p);
        match questions_at(buf, p + 12, h.qd_count as nat) {
            Err(e) => Err(e),
            Ok((qs, pa)) => match records_at(buf, pa, h.an_count as nat) {
                Err(e) => Err(e),
                Ok((ans, pb)) => match records_at(buf, pb, h.ns_count as nat) {
                    Err(e) => Err(e),
                    Ok((auth, pc)) => match records_at(buf, pc, h.ar_count as nat) {
                        Err(e) => Err(e),
                        Ok((res, pd)) => Ok(
                            (
                                PacketView {
                                    header: h,
                                    questions: qs,
                                    answers: ans,
                                    authorities: auth,
                                    resources: res,
                                },
                                pd,
                            ),
                        ),
                    },
                },
            },
        }
    }
}

/// The bytes of questions, one after the other.
pub open spec fn questions_bytes(qs: Seq<QuestionView>) -> Seq<u8>
    decreases qs.len(),
{
    if qs.len() == 0 {
        Seq::empty()
    } else {
        questions_bytes(qs.drop_last()) + question_bytes(qs.last())
    }
}

/// The bytes of records, one after the other.
pub open spec fn records_bytes(rs: Seq<RecordView>) -> Seq<u8>
    decreases rs.len(),
{
    if rs.len() == 0 {
        Seq::empty()
    } else {
        records_bytes(rs.drop_last()) + record_bytes(rs.last())
    }
}

/// The bytes of a packet, its header as it stands.
pub open spec fn packet_bytes(pk: PacketView) -> Seq<u8> {
    header_bytes(pk.header) + questions_bytes(pk.questions) + records_bytes(pk.answers)
        + records_bytes(pk.authorities) + records_bytes(pk.resources)
}

/// Every name in the packet can be written.
pub open spec fn packet_writable(pk: PacketView) -> bool {
    &&& forall|i: int| 0 <= i < pk.questions.len() ==> valid_name(#[trigger] pk.questions[i].qname)
    &&& forall|i: int| 0 <= i < pk.answers.len() ==> record_writable(#[trigger] pk.answers[i])
    &&& forall|i: int| 0 <= i < pk.authorities.len() ==> record_writable(
        #[trigger] pk.authorities[i],
    )
    &&& forall|i: int| 0 <= i < pk.resources.len() ==> record_writable(#[trigger] pk.resources[i])
}

/// The packet with its header counts set to the sizes of its sections.
pub open spec fn with_counts(pk: PacketView) -> PacketView {
    PacketView {
        header: DNSHeader {
            qd_count: pk.questions.len() as u16,
            an_count: pk.answers.len() as u16,
            ns_count: pk.authorities.len() as u16,
            ar_count: pk.resources.len() as u16,
            ..pk.header
        },
        ..pk
    }
}

/// Every section fits a 16-bit count.
pub open spec fn counts_fit(pk: PacketView) -> bool {
    &&& pk.questions.len() <= 0xFFFF
    &&& pk.answers.len() <= 0xFFFF
    &&& pk.authorities.len() <= 0xFFFF
    &&& pk.resources.len() <= 0xFFFF
}

/// The first A record's address among `rs`.
pub open spec fn first_address(rs: Seq<RecordView>) -> Option<Ipv4Address>
    decreases rs.len(),
{
    if rs.len() == 0 {
        None
    } else {
        match rs[0] {
            RecordView::A { addr, .. } => Some(addr),
            _ => first_address(rs.drop_first()),
        }
    }
}

/// `suffix` ends `s`.
pub open spec fn is_suffix(suffix: Seq<char>, s: Seq<char>) -> bool {
    suffix.len() <= s.len() && s.subrange(s.len() - suffix.len(), s.len() as int) == suffix
}

/// The address of the first A record among `rs` owned by `host`.
pub open spec fn glue_address(host: Seq<char>, rs: Seq<RecordView>) -> Option<Ipv4Address>
    decreases rs.len(),
{
    if rs.len() == 0 {
        None
    } else {
        match rs[0] {
            RecordView::A { domain, addr, .. } => if domain == host {
                Some(addr)
            } else {
                glue_address(host, rs.drop_first())
            },
            _ => glue_address(host, rs.drop_first()),
        }
    }
}

/// The host of the first NS record among `auth` whose owner ends `qname`.
pub open spec fn delegated_host(qname: Seq<char>, auth: Seq<RecordView>) -> Option<Seq<char>>
    decreases auth.len(),
{
    if auth.len() == 0 {
        None
    } else {
        match auth[0] {
            RecordView::NS { domain, host, .. } => if is_suffix(domain, qname) {
                Some(host)
            } else {
                delegated_host(qname, auth.drop_first())
            },
            _ => delegated_host(qname, auth.drop_first()),
        }
    }
}

/// Over the NS records among `auth` whose owner ends `qname`, in order, the
/// first glue address that `res` gives for one's host.
pub open spec fn delegated_address(
    qname: Seq<char>,
    auth: Seq<RecordView>,
    res: Seq<RecordView>,
) -> Option<Ipv4Address>
    decreases auth.len(),
{
    if auth.len() == 0 {
        None
    } else {
        match auth[0] {
            RecordView::NS { domain, host, .. } => if is_suffix(domain, qname) && glue_address(
                host,
                res,
            ) is Some {
                glue_address(host, res)
            } else {
                delegated_address(qname, auth.drop_first(), res)
            },
            _ => delegated_address(qname, auth.drop_first(), res),
        }
    }
}

/// Whether `suffix` ends `s`.
fn ends_with(s: &str, suffix: &str) -> (r: bool)
    ensures
        r == is_suffix(suffix@, s@),
{
    let n = s.unicode_len();
    let m = suffix.unicode_len();
    if m > n {
        return false;
    }
    let mut i: usize = 0;
    while i < m
        invariant
            n == s@.len(),
            m == suffix@.len(),
            m <= n,
            i <= m,
            forall|k: int| 0 <= k < i ==> s@[n - m + k] == suffix@[k],
        decreases m - i,
    {
        if s.get_char(n - m + i) != suffix.get_char(i) {
            assert(s@.subrange(n - m, n as int)[i as int] != suffix@[i as int]);
            return false;
        }
        i = i + 1;
    }
    assert(s@.subrange(n - m, n as int) =~= suffix@);
    true
}

fn parse_questions(parser: &mut PacketParser, count: u16) -> (r: Result<Vec<DNSQuestion>, ParseError>)
    ensures
        final(parser).buffer@ == old(parser).buffer@,
        match questions_at(old(parser).buffer@, old(parser).position as int, count as nat) {
            Ok((qs, end)) => r is Ok && questions_view(r->Ok_0@) == qs && final(parser).position
                == end,
            Err(e) => r == Err::<Vec<DNSQuestion>, ParseError>(e),
        },
{
    let ghost buf = parser.buffer@;
    let ghost start = parser.position as int;
    let mut out: Vec<DNSQuestion> = Vec::new();
    let mut res: Result<(), ParseError> = Ok(());
    let mut i: u16 = 0;
    while i < count
        invariant_except_break
            res is Ok,
        invariant
            i <= count,
            parser.buffer@ == buf,
            res is Ok ==> questions_at(buf, start, count as nat) == match questions_at(
                buf,
                parser.position as int,
                (count - i) as nat,
            ) {
                Ok((qs, end)) => Ok::<(Seq<QuestionView>, int), ParseError>(
                    (questions_view(out@) + qs, end),
                ),
                Err(e) => Err(e),
            },
            res is Err ==> questions_at(buf, start, count as nat) == Err::<
                (Seq<QuestionView>, int),
                ParseError,
            >(res->Err_0),
        ensures
            parser.buffer@ == buf,
            res is Ok ==> questions_at(buf, start, count as nat) == Ok::<
                (Seq<QuestionView>, int),
                ParseError,
            >((questions_view(out@), parser.position as int)),
            res is Err ==> questions_at(buf, start, count as nat) == Err::<
                (Seq<QuestionView>, int),
                ParseError,
            >(res->Err_0),
        decreases count - i,
    {
        let ghost pos = parser.position as int;
        let mut q = DNSQuestion::new();
        match q.parse_question(parser) {
            Ok(()) => {},
            Err(e) => {
                res = Err(e);
                break;
            },
        }
        proof {
            let next = out@.push(q);
            assert(questions_view(next) =~= questions_view(out@).push(q@));
            match questions_at(buf, parser.position as int, (count - i - 1) as nat) {
                Ok((qs, end)) => {
                    assert(questions_view(out@) + (seq![q@] + qs) =~= questions_view(next) + qs);
                },
                Err(e) => {},
            }
        }
        out.push(q);
        i = i + 1;
    }
    proof {
        if res is Ok {
            assert(questions_view(out@) + Seq::<QuestionView>::empty() =~= questions_view(out@));
        }
    }
    match res {
        Ok(()) => Ok(out),
        Err(e) => Err(e),
    }
}

fn parse_records(parser: &mut PacketParser, count: u16) -> (r: Result<Vec<DNSRecord>, ParseError>)
    ensures
        final(parser).buffer@ == old(parser).buffer@,
        match records_at(old(parser).buffer@, old(parser).position as int, count as nat) {
            Ok((rs, end)) => r is Ok && records_view(r->Ok_0@) == rs && final(parser).position
                == end,
            Err(e) => r == Err::<Vec<DNSRecord>, ParseError>(e),
        },
{
    let ghost buf = parser.buffer@;
    let ghost start = parser.position as int;
    let mut out: Vec<DNSRecord> = Vec::new();
    let mut res: Result<(), ParseError> = Ok(());
    let mut i: u16 = 0;
    while i < count
        invariant_except_break
            res is Ok,
        invariant
            i <= count,
            parser.buffer@ == buf,
            res is Ok ==> records_at(buf, start, count as nat) == match records_at(
                buf,
                parser.position as int,
                (count - i) as nat,
            ) {
                Ok((rs, end)) => Ok::<(Seq<RecordView>, int), ParseError>(
                    (records_view(out@) + rs, end),
                ),
                Err(e) => Err(e),
            },
            res is Err ==> records_at(buf, start, count as nat) == Err::<
                (Seq<RecordView>, int),
                ParseError,
            >(res->Err_0),
        ensures
            parser.buffer@ == buf,
            res is Ok ==> records_at(buf, start, count as nat) == Ok::<
                (Seq<RecordView>, int),
                ParseError,
            >((records_view(out@), parser.position as int)),
            res is Err ==> records_at(buf, start, count as nat) == Err::<
                (Seq<RecordView>, int),
                ParseError,
            >(res->Err_0),
        decreases count - i,
    {
        let rec = match DNSRecord::parse_record(parser) {
            Ok(rec) => rec,
            Err(e) => {
                res = Err(e);
                break;
            },
        };
        proof {
            let next = out@.push(rec);
            assert(records_view(next) =~= records_view(out@).push(rec@));
            match records_at(buf, parser.position as int, (count - i - 1) as nat) {
                Ok((rs, end)) => {
                    assert(records_view(out@) + (seq![rec@] + rs) =~= records_view(next) + rs);
                },
                Err(e) => {},
            }
        }
        out.push(rec);
        i = i + 1;
    }
    proof {
        if res is Ok {
            assert(records_view(out@) + Seq::<RecordView>::empty() =~= records_view(out@));
        }
    }
    match res {
        Ok(()) => Ok(out),
        Err(e) => Err(e),
    }
}

proof fn lemma_questions_bytes_prefix(qs: Seq<QuestionView>, i: int)
    requires
        0 <= i <= qs.len(),
    ensures
        questions_bytes(qs.subrange(0, i)).len() <= questions_bytes(qs).len(),
    decreases qs.len() - i,
{
    if i < qs.len() {
        lemma_questions_bytes_prefix(qs, i + 1);
        assert(qs.subrange(0, i + 1).drop_last() == qs.subrange(0, i));
    } else {
        assert(qs.subrange(0, i) == qs);
    }
}

proof fn lemma_records_bytes_prefix(rs: Seq<RecordView>, i: int)
    requires
        0 <= i <= rs.len(),
    ensures
        records_bytes(rs.subrange(0, i)).len() <= records_bytes(rs).len(),
    decreases rs.len() - i,
{
    if i < rs.len() {
        lemma_records_bytes_prefix(rs, i + 1);
        assert(rs.subrange(0, i + 1).drop_last() == rs.subrange(0, i));
    } else {
        assert(rs.subrange(0, i) == rs);
    }
}

fn write_questions(qs: &Vec<DNSQuestion>, writer: &mut PacketWriter) -> (r: Result<(), WriteError>)
    ensures
        final(writer).capacity == old(writer).capacity,
        r is Ok ==> final(writer).buffer@ == old(writer).buffer@ + questions_bytes(
            questions_view(qs@),
        ),
        r is Ok ==> final(writer).buffer@.len() <= final(writer).capacity || old(
            writer,
        ).buffer@.len() > old(writer).capacity,
        r is Ok ==> forall|i: int| 0 <= i < qs@.len() ==> valid_name(#[trigger] qs@[i].qname@),
        (forall|i: int| 0 <= i < qs@.len() ==> valid_name(#[trigger] qs@[i].qname@)) ==> (r is Err
            ==> r == Err::<(), WriteError>(WriteError::BufferFull)),
        (forall|i: int| 0 <= i < qs@.len() ==> valid_name(#[trigger] qs@[i].qname@))
            && old(writer).buffer@.len() + questions_bytes(questions_view(qs@)).len() <= old(
            writer,
        ).capacity ==> r is Ok,
{
    let ghost before = writer.buffer@;
    let ghost view = questions_view(qs@);
    let mut res: Result<(), WriteError> = Ok(());
    let mut i: usize = 0;
    while i < qs.len()
        invariant_except_break
            res is Ok,
        invariant
            i <= qs@.len(),
            view == questions_view(qs@),
            writer.capacity == old(writer).capacity,
            res is Ok ==> writer.buffer@ == before + questions_bytes(view.subrange(0, i as int)),
            res is Ok ==> writer.buffer@.len() <= writer.capacity || before.len()
                > writer.capacity,
            forall|k: int| 0 <= k < i ==> valid_name(#[trigger] qs@[k].qname@),
            (forall|k: int| 0 <= k < qs@.len() ==> valid_name(#[trigger] qs@[k].qname@)) && before.len()
                + questions_bytes(view).len() <= writer.capacity ==> res is Ok,
            (forall|k: int| 0 <= k < qs@.len() ==> valid_name(#[trigger] qs@[k].qname@)) ==> (res is Err
                ==> res == Err::<(), WriteError>(WriteError::BufferFull)),
        ensures
            writer.capacity == old(writer).capacity,
            res is Ok ==> i == qs@.len(),
            res is Ok ==> writer.buffer@ == before + questions_bytes(view.subrange(0, i as int)),
            res is Ok ==> writer.buffer@.len() <= writer.capacity || before.len()
                > writer.capacity,
            res is Ok ==> forall|k: int| 0 <= k < qs@.len() ==> valid_name(#[trigger] qs@[k].qname@),
            (forall|k: int| 0 <= k < qs@.len() ==> valid_name(#[trigger] qs@[k].qname@)) && before.len()
                + questions_bytes(view).len() <= writer.capacity ==> res is Ok,
            (forall|k: int| 0 <= k < qs@.len() ==> valid_name(#[trigger] qs@[k].qname@)) ==> (res is Err
                ==> res == Err::<(), WriteError>(WriteError::BufferFull)),
        decreases qs@.len() - i,
    {
        proof {
            lemma_questions_bytes_prefix(view, i + 1);
            assert(view.subrange(0, i + 1).drop_last() == view.subrange(0, i as int));
            assert(view[i as int] == qs@[i as int]@);
        }
        match qs[i].write_question(writer) {
            Ok(()) => {},
            Err(e) => {
                res = Err(e);
                break;
            },
        }
        i = i + 1;
    }
    proof {
        if res is Ok {
            assert(view.subrange(0, i as int) == view);
        }
    }
    res
}

fn write_records(rs: &Vec<DNSRecord>, writer: &mut PacketWriter) -> (r: Result<(), WriteError>)
    ensures
        final(writer).capacity == old(writer).capacity,
        r is Ok ==> final(writer).buffer@ == old(writer).buffer@ + records_bytes(records_view(rs@)),
        r is Ok ==> final(writer).buffer@.len() <= final(writer).capacity || old(
            writer,
        ).buffer@.len() > old(writer).capacity,
        r is Ok ==> forall|i: int| 0 <= i < rs@.len() ==> record_writable(#[trigger] rs@[i]@),
        (forall|i: int| 0 <= i < rs@.len() ==> record_writable(#[trigger] rs@[i]@)) ==> (r is Err
            ==> r == Err::<(), WriteError>(WriteError::BufferFull)),
        (forall|i: int| 0 <= i < rs@.len() ==> record_writable(#[trigger] rs@[i]@))
            && old(writer).buffer@.len() + records_bytes(records_view(rs@)).len() <= old(
            writer,
        ).capacity ==> r is Ok,
{
    let ghost before = writer.buffer@;
    let ghost view = records_view(rs@);
    let mut res: Result<(), WriteError> = Ok(());
    let mut i: usize = 0;
    while i < rs.len()
        invariant_except_break
            res is Ok,
        invariant
            i <= rs@.len(),
            view == records_view(rs@),
            writer.capacity == old(writer).capacity,
            res is Ok ==> writer.buffer@ == before + records_bytes(view.subrange(0, i as int)),
            res is Ok ==> writer.buffer@.len() <= writer.capacity || before.len()
                > writer.capacity,
            forall|k: int| 0 <= k < i ==> record_writable(#[trigger] rs@[k]@),
            (forall|k: int| 0 <= k < rs@.len() ==> record_writable(#[trigger] rs@[k]@)) && before.len()
                + records_bytes(view).len() <= writer.capacity ==> res is Ok,
            (forall|k: int| 0 <= k < rs@.len() ==> record_writable(#[trigger] rs@[k]@)) ==> (res is Err
                ==> res == Err::<(), WriteError>(WriteError::BufferFull)),
        ensures
            writer.capacity == old(writer).capacity,
            res is Ok ==> i == rs@.len(),
            res is Ok ==> writer.buffer@ == before + records_bytes(view.subrange(0, i as int)),
            res is Ok ==> writer.buffer@.len() <= writer.capacity || before.len()
                > writer.capacity,
            res is Ok ==> forall|k: int| 0 <= k < rs@.len() ==> record_writable(#[trigger] rs@[k]@),
            (forall|k: int| 0 <= k < rs@.len() ==> record_writable(#[trigger] rs@[k]@)) && before.len()
                + records_bytes(view).len() <= writer.capacity ==> res is Ok,
            (forall|k: int| 0 <= k < rs@.len() ==> record_writable(#[trigger] rs@[k]@)) ==> (res is Err
                ==> res == Err::<(), WriteError>(WriteError::BufferFull)),
        decreases rs@.len() - i,
    {
        proof {
            lemma_records_bytes_prefix(view, i + 1);
            assert(view.subrange(0, i + 1).drop_last() == view.subrange(0, i as int));
            assert(view[i as int] == rs@[i as int]@);
        }
        match rs[i].write_record(writer) {
            Ok(_) => {},
            Err(e) => {
                res = Err(e);
                break;
            },
        }
        i = i + 1;
    }
    proof {
        if res is Ok {
            assert(view.subrange(0, i as int) == view);
        }
    }
    res
}


impl DNSPacket {
    /// An empty packet with an empty header.
    pub fn new() -> (r: DNSPacket)
        ensures
            r@ == (PacketView {
                header: empty_header(),
                questions: Seq::empty(),
                answers: Seq::empty(),
                authorities: Seq::empty(),
                resources: Seq::empty(),
            }),
    {
        let r = DNSPacket {
            header: DNSHeader::new(),
            questions: Vec::new(),
            answers: Vec::new(),
            authorities: Vec::new(),
            resources: Vec::new(),
        };
        assert(r@.questions =~= Seq::<QuestionView>::empty());
        assert(r@.answers =~= Seq::<RecordView>::empty());
        assert(r@.authorities =~= Seq::<RecordView>::empty());
        assert(r@.resources =~= Seq::<RecordView>::empty());
        r
    }

    /// Reads a whole packet at the parser's cursor.
    pub fn get_dns_packet(parser: &mut PacketParser) -> (r: Result<DNSPacket, ParseError>)
        ensures
            final(parser).buffer@ == old(parser).buffer@,
            match packet_at(old(parser).buffer@, old(parser).position as int) {
                Ok((pk, end)) => r is Ok && r->Ok_0@ == pk && final(parser).position == end,
                Err(e) => r == Err::<DNSPacket, ParseError>(e),
            },
    {
        let mut header = DNSHeader::new();
        header.parse_header(parser)?;
        let questions = parse_questions(parser, header.qd_count)?;
        let answers = parse_records(parser, header.an_count)?;
        let authorities = parse_records(parser, header.ns_count)?;
        let resources = parse_records(parser, header.ar_count)?;
        Ok(DNSPacket { header, questions, answers, authorities, resources })
    }

    /// Sets the header counts to the sizes of the sections, then appends the
    /// packet. Nothing changes when a section is too large for its count.
    pub fn write_dns_packet(&mut self, writer: &mut PacketWriter) -> (r: Result<(), WriteError>)
        ensures
            final(writer).capacity == old(writer).capacity,
            !counts_fit(old(self)@) ==> r == Err::<(), WriteError>(WriteError::TooManyEntries)
                && final(self)@ == old(self)@ && final(writer).buffer@ == old(writer).buffer@,
            counts_fit(old(self)@) ==> final(self)@ == with_counts(old(self)@),
            r is Ok ==> final(writer).buffer@ == old(writer).buffer@ + packet_bytes(final(self)@),
            counts_fit(old(self)@) && !packet_writable(old(self)@) ==> r is Err,
            counts_fit(old(self)@) && packet_writable(old(self)@) && old(writer).buffer@.len()
                + packet_bytes(with_counts(old(self)@)).len() <= old(writer).capacity ==> r is Ok,
            counts_fit(old(self)@) && packet_writable(old(self)@) && old(writer).buffer@.len()
                + packet_bytes(with_counts(old(self)@)).len() > old(writer).capacity ==> r
                == Err::<(), WriteError>(WriteError::BufferFull),
    {
        if self.questions.len() > 0xFFFF || self.answers.len() > 0xFFFF || self.authorities.len()
            > 0xFFFF || self.resources.len() > 0xFFFF {
            return Err(WriteError::TooManyEntries);
        }
        self.header.qd_count = self.questions.len() as u16;
        self.header.an_count = self.answers.len() as u16;
        self.header.ns_count = self.authorities.len() as u16;
        self.header.ar_count = self.resources.len() as u16;
        assert(self@ == with_counts(old(self)@));
        self.write_sections(writer)
    }

    /// Appends the header as it stands and every section.
    #[verifier::rlimit(30)]
    fn write_sections(&self, writer: &mut PacketWriter) -> (r: Result<(), WriteError>)
        ensures
            final(writer).capacity == old(writer).capacity,
            r is Ok ==> final(writer).buffer@ == old(writer).buffer@ + packet_bytes(self@),
            !packet_writable(self@) ==> r is Err,
            packet_writable(self@) && old(writer).buffer@.len() + packet_bytes(self@).len()
                <= old(writer).capacity ==> r is Ok,
            packet_writable(self@) && old(writer).buffer@.len() + packet_bytes(self@).len()
                > old(writer).capacity ==> r == Err::<(), WriteError>(WriteError::BufferFull),
    {
        let ghost pk = self@;
        let ghost before = writer.buffer@;
        proof {
            assert forall|i: int| 0 <= i < self.questions@.len() implies valid_name(
                #[trigger] self.questions@[i].qname@,
            ) == valid_name(pk.questions[i].qname) by {}
            assert forall|i: int| 0 <= i < self.answers@.len() implies record_writable(
                #[trigger] self.answers@[i]@,
            ) == record_writable(pk.answers[i]) by {}
            assert forall|i: int| 0 <= i < self.authorities@.len() implies record_writable(
                #[trigger] self.authorities@[i]@,
            ) == record_writable(pk.authorities[i]) by {}
            assert forall|i: int| 0 <= i < self.resources@.len() implies record_writable(
                #[trigger] self.resources@[i]@,
            ) == record_writable(pk.resources[i]) by {}
        }
        self.header.write_header(writer)?;
        write_questions(&self.questions, writer)?;
        write_records(&self.answers, writer)?;
        write_records(&self.authorities, writer)?;
        write_records(&self.resources, writer)?;
        assert(writer.buffer@ =~= before + packet_bytes(pk));
        Ok(())
    }

    /// The address of the first A record among the answers.
    pub fn get_random_record(&self) -> (r: Option<Ipv4Address>)
        ensures
            r == first_address(self@.answers),
    {
        let ghost view = self@.answers;
        assert(view.subrange(0, view.len() as int) == view);
        let mut i: usize = 0;
        while i < self.answers.len()
            invariant
                i <= self.answers@.len(),
                view == records_view(self.answers@),
                first_address(view) == first_address(view.subrange(i as int, view.len() as int)),
            decreases self.answers@.len() - i,
        {
            assert(view.subrange(i as int, view.len() as int).drop_first() == view.subrange(
                i + 1,
                view.len() as int,
            ));
            assert(view.subrange(i as int, view.len() as int)[0] == self.answers@[i as int]@);
            match &self.answers[i] {
                DNSRecord::A { addr, .. } => {
                    return Some(*addr);
                },
                _ => {},
            }
            i = i + 1;
        }
        None
    }

    /// The address of the first A record among the additional records owned by `host`.
    fn glue_for(&self, host: &String) -> (r: Option<Ipv4Address>)
        ensures
            r == glue_address(host@, self@.resources),
    {
        let ghost view = self@.resources;
        assert(view.subrange(0, view.len() as int) == view);
        let mut i: usize = 0;
        while i < self.resources.len()
            invariant
                i <= self.resources@.len(),
                view == records_view(self.resources@),
                glue_address(host@, view) == glue_address(
                    host@,
                    view.subrange(i as int, view.len() as int),
                ),
            decreases self.resources@.len() - i,
        {
            assert(view.subrange(i as int, view.len() as int).drop_first() == view.subrange(
                i + 1,
                view.len() as int,
            ));
            assert(view.subrange(i as int, view.len() as int)[0] == self.resources@[i as int]@);
            match &self.resources[i] {
                DNSRecord::A { domain, addr, .. } => {
                    if *domain == *host {
                        return Some(*addr);
                    }
                },
                _ => {},
            }
            i = i + 1;
        }
        None
    }

    /// The address of a name server for `qname` that the additional records give:
    /// over the NS records in the authority section whose owner ends `qname`,
    /// in order, the first that has a glue A record.
    pub fn get_resolved_ns(&self, qname: &str) -> (r: Option<Ipv4Address>)
        ensures
            r == delegated_address(qname@, self@.authorities, self@.resources),
    {
        let ghost view = self@.authorities;
        assert(view.subrange(0, view.len() as int) == view);
        let mut i: usize = 0;
        while i < self.authorities.len()
            invariant
                i <= self.authorities@.len(),
                view == records_view(self.authorities@),
                delegated_address(qname@, view, self@.resources) == delegated_address(
                    qname@,
                    view.subrange(i as int, view.len() as int),
                    self@.resources,
                ),
            decreases self.authorities@.len() - i,
        {
            assert(view.subrange(i as int, view.len() as int).drop_first() == view.subrange(
                i + 1,
                view.len() as int,
            ));
            assert(view.subrange(i as int, view.len() as int)[0] == self.authorities@[i as int]@);
            match &self.authorities[i] {
                DNSRecord::NS { domain, host, .. } => {
                    if ends_with(qname, domain.as_str()) {
                        match self.glue_for(host) {
                            Some(addr) => {
                                return Some(addr);
                            },
                            None => {},
                        }
                    }
                },
                _ => {},
            }
            i = i + 1;
        }
        None
    }

    /// The host of the first NS record in the authority section whose owner ends `qname`.
    pub fn get_unresolved_ns(&self, qname: &str) -> (r: Option<String>)
        ensures
            match delegated_host(qname@, self@.authorities) {
                Some(h) => r is Some && r->Some_0@ == h,
                None => r is None,
            },
    {
        let ghost view = self@.authorities;
        assert(view.subrange(0, view.len() as int) == view);
        let mut i: usize = 0;
        while i < self.authorities.len()
            invariant
                i <= self.authorities@.len(),
                view == records_view(self.authorities@),
                delegated_host(qname@, view) == delegated_host(
                    qname@,
                    view.subrange(i as int, view.len() as int),
                ),
            decreases self.authorities@.len() - i,
        {
            assert(view.subrange(i as int, view.len() as int).drop_first() == view.subrange(
                i + 1,
                view.len() as int,
            ));
            assert(view.subrange(i as int, view.len() as int)[0] == self.authorities@[i as int]@);
            match &self.authorities[i] {
                DNSRecord::NS { domain, host, .. } => {
                    if ends_with(qname, domain.as_str()) {
                        return Some(host.clone());
                    }
                },
                _ => {},
            }
            i = i + 1;
        }
        None
    }
}

} // verus!
