use vstd::prelude::*;

use crate::packet::{
    be128_at, bit, flags_hi, flags_lo, header_bytes, header_from, opcode_num, opcode_of, packet_at,
    packet_bytes, qtype_num, qtype_of, question_at, question_bytes, questions_at, questions_bytes,
    rcode_num, rcode_of, record_at, record_bytes, record_prefix, record_writable, records_at,
    records_bytes, u128_bytes, DNSHeader, PacketView, QueryType, QuestionView, RecordView,
};
use crate::parser::{
    be16_at, be32_at, join_labels, latin1, name_at, parse_name, ParseError, MAX_JUMPS,
};
use crate::writer::{
    ascii_bytes, dot_index, encode_labels, encode_name, u16_bytes, u32_bytes, valid_labels,
    valid_name,
};

verus! {

proof fn lemma_pointer_loop(buf: Seq<u8>, p: int, jumps: int)
    requires
        0 <= p,
        p + 1 < buf.len(),
        buf[p] >= 0xC0,
        (buf[p] - 0xC0) * 256 + buf[p + 1] == p,
        0 <= jumps,
    ensures
        name_at(buf, p, jumps) == Err::<(Seq<Seq<u8>>, int), ParseError>(ParseError::TooManyJumps),
    decreases MAX_JUMPS + 1 - jumps,
{
    if jumps <= MAX_JUMPS {
        lemma_pointer_loop(buf, p, jumps + 1);
    }
}

/// A name that points to itself cannot be read: it fails with too many jumps
/// instead of looping.
pub proof fn law_pointer_cycle_fails(buf: Seq<u8>, p: int)
    requires
        0 <= p,
        p + 1 < buf.len(),
        buf[p] >= 0xC0,
        (buf[p] - 0xC0) * 256 + buf[p + 1] == p,
    ensures
        parse_name(buf, p) == Err::<(Seq<char>, int), ParseError>(ParseError::TooManyJumps),
{
    lemma_pointer_loop(buf, p, 0);
}

proof fn lemma_join_cons(l: Seq<u8>, rest: Seq<Seq<u8>>)
    ensures
        join_labels(seq![l] + rest) == if rest.len() == 0 {
            latin1(l)
        } else {
            latin1(l) + seq!['.'] + join_labels(rest)
        },
    decreases rest.len(),
{
    let all = seq![l] + rest;
    if rest.len() == 0 {
        assert(all == seq![l]);
    } else if rest.len() == 1 {
        assert(all.drop_last() == seq![l]);
        assert(all.last() == rest[0]);
        assert(join_labels(rest) == latin1(rest[0]));
        assert(seq![l][0] == l);
        assert(join_labels(seq![l]) == latin1(l));
        assert(join_labels(all) == latin1(l) + seq!['.'] + latin1(rest[0]));
    } else {
        assert(all.drop_last() == seq![l] + rest.drop_last());
        assert(all.last() == rest.last());
        lemma_join_cons(l, rest.drop_last());
        assert(join_labels(all) == join_labels(seq![l] + rest.drop_last()) + seq!['.'] + latin1(
            rest.last(),
        ));
        assert(join_labels(rest) == join_labels(rest.drop_last()) + seq!['.'] + latin1(
            rest.last(),
        ));
        assert(join_labels(all) =~= latin1(l) + seq!['.'] + join_labels(rest));
    }
}

proof fn lemma_latin1_ascii(x: Seq<char>)
    requires
        vstd::utf8::is_ascii_chars(x),
    ensures
        latin1(ascii_bytes(x)) == x,
{
    assert forall|i: int| 0 <= i < x.len() implies latin1(ascii_bytes(x))[i] == x[i] by {
        assert('\0' <= x[i] <= '\u{7f}');
    }
    assert(latin1(ascii_bytes(x)) =~= x);
}

proof fn lemma_dot_index_facts(s: Seq<char>)
    ensures
        0 <= dot_index(s) <= s.len(),
        dot_index(s) < s.len() ==> s[dot_index(s)] == '.',
    decreases s.len(),
{
    if s.len() > 0 && s[0] != '.' {
        lemma_dot_index_facts(s.drop_first());
    }
}

proof fn lemma_labels_decode(buf: Seq<u8>, p: int, t: Seq<char>)
    requires
        t.len() > 0,
        valid_labels(t),
        vstd::utf8::is_ascii_chars(t),
        0 <= p,
        p + encode_labels(t).len() <= buf.len(),
        buf.subrange(p, p + encode_labels(t).len()) == encode_labels(t),
    ensures
        name_at(buf, p, 0) is Ok,
        name_at(buf, p, 0)->Ok_0.1 == p + encode_labels(t).len(),
        name_at(buf, p, 0)->Ok_0.0.len() > 0,
        join_labels(name_at(buf, p, 0)->Ok_0.0) == t,
    decreases t.len(),
{
    lemma_dot_index_facts(t);
    let k = dot_index(t);
    let enc = encode_labels(t);
    let head = t.subrange(0, k);
    assert(vstd::utf8::is_ascii_chars(head));
    assert(buf[p] == enc[0]);
    assert(enc[0] == k as u8);
    assert(buf.subrange(p + 1, p + 1 + k) =~= ascii_bytes(head)) by {
        assert forall|i: int| 0 <= i < k implies buf.subrange(p + 1, p + 1 + k)[i] == ascii_bytes(
            head,
        )[i] by {
            assert(buf[p + 1 + i] == enc[1 + i]);
        }
    }
    lemma_latin1_ascii(head);
    if k >= t.len() {
        assert(head == t);
        assert(buf[p + 1 + k] == enc[1 + k]);
        assert(name_at(buf, p + 1 + k, 0) == Ok::<(Seq<Seq<u8>>, int), ParseError>(
            (Seq::empty(), p + 2 + k),
        ));
        lemma_join_cons(ascii_bytes(head), Seq::empty());
        assert(seq![ascii_bytes(head)] + Seq::<Seq<u8>>::empty() == seq![ascii_bytes(head)]);
    } else {
        let tail = t.subrange(k + 1, t.len() as int);
        let rest_enc = encode_labels(tail);
        assert(enc == seq![k as u8] + ascii_bytes(head) + rest_enc);
        assert(vstd::utf8::is_ascii_chars(tail));
        assert(valid_labels(tail));
        lemma_dot_index_facts(tail);
        assert(dot_index(tail) >= 1);
        assert(buf.subrange(p + 1 + k, p + 1 + k + rest_enc.len()) =~= rest_enc) by {
            assert forall|i: int| 0 <= i < rest_enc.len() implies buf.subrange(
                p + 1 + k,
                p + 1 + k + rest_enc.len(),
            )[i] == rest_enc[i] by {
                assert(buf[p + 1 + k + i] == enc[1 + k + i]);
            }
        }
        lemma_labels_decode(buf, p + 1 + k, tail);
        let rest = name_at(buf, p + 1 + k, 0)->Ok_0.0;
        lemma_join_cons(ascii_bytes(head), rest);
        assert(t =~= head + seq!['.'] + tail);
    }
}

/// A valid name's wire form reads back as the same name, and the cursor ends
/// right after it.
pub proof fn lemma_name_decode(buf: Seq<u8>, p: int, s: Seq<char>)
    requires
        valid_name(s),
        0 <= p,
        p + encode_name(s).len() <= buf.len(),
        buf.subrange(p, p + encode_name(s).len()) == encode_name(s),
    ensures
        parse_name(buf, p) == Ok::<(Seq<char>, int), ParseError>((s, p + encode_name(s).len())),
{
    if s.len() == 0 {
        assert(buf[p] == encode_name(s)[0]);
        assert(join_labels(Seq::<Seq<u8>>::empty()) =~= s);
    } else {
        lemma_labels_decode(buf, p, s);
    }
}


/// Bytes `x + y` at `p` are `x` at `p` and `y` right after.
proof fn lemma_split(buf: Seq<u8>, p: int, x: Seq<u8>, y: Seq<u8>)
    requires
        0 <= p,
        p + x.len() + y.len() <= buf.len(),
        buf.subrange(p, p + x.len() + y.len()) == x + y,
    ensures
        buf.subrange(p, p + x.len()) == x,
        buf.subrange(p + x.len(), p + x.len() + y.len()) == y,
{
    assert forall|i: int| 0 <= i < x.len() implies buf.subrange(p, p + x.len())[i] == x[i] by {
        assert(buf.subrange(p, p + x.len() + y.len())[i] == (x + y)[i]);
    }
    assert forall|i: int| 0 <= i < y.len() implies buf.subrange(
        p + x.len(),
        p + x.len() + y.len(),
    )[i] == y[i] by {
        assert(buf.subrange(p + x.len(), p + x.len() + y.len())[i] == buf[p + x.len() + i]);
        assert(buf[p + x.len() + i] == buf.subrange(p, p + x.len() + y.len())[x.len() + i]);
        assert(buf.subrange(p, p + x.len() + y.len())[x.len() + i] == (x + y)[x.len() + i]);
        assert((x + y)[x.len() + i] == y[i]);
    }
    assert(buf.subrange(p, p + x.len()) =~= x);
    assert(buf.subrange(p + x.len(), p + x.len() + y.len()) =~= y);
}

proof fn lemma_u16_decode(buf: Seq<u8>, p: int, v: u16)
    requires
        0 <= p,
        p + 2 <= buf.len(),
        buf.subrange(p, p + 2) == u16_bytes(v),
    ensures
        be16_at(buf, p) == v,
{
    assert(buf[p] == buf.subrange(p, p + 2)[0]);
    assert(buf[p + 1] == buf.subrange(p, p + 2)[1]);
}

proof fn lemma_u32_decode(buf: Seq<u8>, p: int, v: u32)
    requires
        0 <= p,
        p + 4 <= buf.len(),
        buf.subrange(p, p + 4) == u32_bytes(v),
    ensures
        be32_at(buf, p) == v,
{
    let hi = (v / 65536) as u16;
    let lo = (v % 65536) as u16;
    lemma_split(buf, p, u16_bytes(hi), u16_bytes(lo));
    lemma_u16_decode(buf, p, hi);
    lemma_u16_decode(buf, p + 2, lo);
}

proof fn lemma_u128_words(v: u128)
    ensures
        v / 0x1_0000_0000_0000_0000_0000_0000 < 0x1_0000_0000,
        v == (v / 0x1_0000_0000_0000_0000_0000_0000) * 0x1_0000_0000_0000_0000_0000_0000 + ((v
            / 0x1_0000_0000_0000_0000) % 0x1_0000_0000) * 0x1_0000_0000_0000_0000 + ((v
            / 0x1_0000_0000) % 0x1_0000_0000) * 0x1_0000_0000 + v % 0x1_0000_0000,
{
    assert(v / 0x1_0000_0000_0000_0000_0000_0000 < 0x1_0000_0000) by (bit_vector);
    assert(v == (v / 0x1_0000_0000_0000_0000_0000_0000) * 0x1_0000_0000_0000_0000_0000_0000 + ((v
        / 0x1_0000_0000_0000_0000) % 0x1_0000_0000) * 0x1_0000_0000_0000_0000 + ((v
        / 0x1_0000_0000) % 0x1_0000_0000) * 0x1_0000_0000 + v % 0x1_0000_0000) by (bit_vector);
}

#[verifier::rlimit(40)]
proof fn lemma_u128_decode(buf: Seq<u8>, p: int, v: u128)
    requires
        0 <= p,
        p + 16 <= buf.len(),
        buf.subrange(p, p + 16) == u128_bytes(v),
    ensures
        be128_at(buf, p) == v,
{
    let w0 = (v / 0x1_0000_0000_0000_0000_0000_0000) as u32;
    let w1 = ((v / 0x1_0000_0000_0000_0000) % 0x1_0000_0000) as u32;
    let w2 = ((v / 0x1_0000_0000) % 0x1_0000_0000) as u32;
    let w3 = (v % 0x1_0000_0000) as u32;
    let b0 = u32_bytes(w0);
    let b1 = u32_bytes(w1);
    let b2 = u32_bytes(w2);
    let b3 = u32_bytes(w3);
    assert(u128_bytes(v) == b0 + b1 + b2 + b3);
    lemma_split(buf, p, b0 + b1 + b2, b3);
    lemma_split(buf, p, b0 + b1, b2);
    lemma_split(buf, p, b0, b1);
    lemma_u32_decode(buf, p, w0);
    lemma_u32_decode(buf, p + 4, w1);
    lemma_u32_decode(buf, p + 8, w2);
    lemma_u32_decode(buf, p + 12, w3);
    lemma_u128_words(v);
}

proof fn lemma_flags(h: DNSHeader)
    ensures
        (flags_hi(h) & 0x01 != 0) == h.recursion_desired,
        (flags_hi(h) & 0x02 != 0) == h.truncation,
        (flags_hi(h) & 0x04 != 0) == h.authoritative_answer,
        opcode_of((flags_hi(h) >> 3) & 0x0F) == h.opcode,
        (flags_hi(h) & 0x80 != 0) == h.query,
        rcode_of(flags_lo(h) & 0x0F) == h.rcode,
        (flags_lo(h) & 0x10 != 0) == h.checking_disabled,
        (flags_lo(h) & 0x20 != 0) == h.authed_data,
        (flags_lo(h) & 0x40 != 0) == h.zero,
        (flags_lo(h) & 0x80 != 0) == h.recursion_available,
{
    let rd = bit(h.recursion_desired);
    let tc = bit(h.truncation);
    let aa = bit(h.authoritative_answer);
    let op = opcode_num(h.opcode);
    let qr = bit(h.query);
    let a = flags_hi(h);
    assert(a == rd | (tc << 1u8) | (aa << 2u8) | (op << 3u8) | (qr << 7u8));
    assert({
        &&& (a & 0x01 != 0) == (rd == 1)
        &&& (a & 0x02 != 0) == (tc == 1)
        &&& (a & 0x04 != 0) == (aa == 1)
        &&& (a >> 3) & 0x0F == op
        &&& (a & 0x80 != 0) == (qr == 1)
    }) by (bit_vector)
        requires
            a == rd | (tc << 1u8) | (aa << 2u8) | (op << 3u8) | (qr << 7u8),
            rd <= 1,
            tc <= 1,
            aa <= 1,
            op <= 2,
            qr <= 1,
    ;
    let rc = rcode_num(h.rcode);
    let cd = bit(h.checking_disabled);
    let ad = bit(h.authed_data);
    let z = bit(h.zero);
    let ra = bit(h.recursion_available);
    let b = flags_lo(h);
    assert(b == rc | (cd << 4u8) | (ad << 5u8) | (z << 6u8) | (ra << 7u8));
    assert({
        &&& b & 0x0F == rc
        &&& (b & 0x10 != 0) == (cd == 1)
        &&& (b & 0x20 != 0) == (ad == 1)
        &&& (b & 0x40 != 0) == (z == 1)
        &&& (b & 0x80 != 0) == (ra == 1)
    }) by (bit_vector)
        requires
            b == rc | (cd << 4u8) | (ad << 5u8) | (z << 6u8) | (ra << 7u8),
            rc <= 5,
            cd <= 1,
            ad <= 1,
            z <= 1,
            ra <= 1,
    ;
}

proof fn lemma_header_decode(buf: Seq<u8>, p: int, h: DNSHeader)
    requires
        0 <= p,
        p + 12 <= buf.len(),
        buf.subrange(p, p + 12) == header_bytes(h),
    ensures
        header_from(buf, p) == h,
{
    let f = seq![flags_hi(h), flags_lo(h)];
    let b_id = u16_bytes(h.id);
    let b_qd = u16_bytes(h.qd_count);
    let b_an = u16_bytes(h.an_count);
    let b_ns = u16_bytes(h.ns_count);
    let b_ar = u16_bytes(h.ar_count);
    assert(header_bytes(h) == b_id + f + b_qd + b_an + b_ns + b_ar);
    lemma_split(buf, p, b_id + f + b_qd + b_an + b_ns, b_ar);
    lemma_split(buf, p, b_id + f + b_qd + b_an, b_ns);
    lemma_split(buf, p, b_id + f + b_qd, b_an);
    lemma_split(buf, p, b_id + f, b_qd);
    lemma_split(buf, p, b_id, f);
    lemma_u16_decode(buf, p, h.id);
    lemma_u16_decode(buf, p + 4, h.qd_count);
    lemma_u16_decode(buf, p + 6, h.an_count);
    lemma_u16_decode(buf, p + 8, h.ns_count);
    lemma_u16_decode(buf, p + 10, h.ar_count);
    assert(buf[p + 2] == buf.subrange(p + 2, p + 4)[0]);
    assert(buf[p + 3] == buf.subrange(p + 2, p + 4)[1]);
    lemma_flags(h);
}

/// A type that reads back as itself: an UNKNOWN never carries a known number.
pub open spec fn canonical_qtype(t: QueryType) -> bool {
    qtype_of(qtype_num(t)) == t
}

proof fn lemma_question_decode(buf: Seq<u8>, p: int, q: QuestionView)
    requires
        valid_name(q.qname),
        canonical_qtype(q.qtype),
        0 <= p,
        p + question_bytes(q).len() <= buf.len(),
        buf.subrange(p, p + question_bytes(q).len()) == question_bytes(q),
    ensures
        question_at(buf, p) == Ok::<(QuestionView, int), ParseError>(
            (QuestionView { class: 1, ..q }, p + question_bytes(q).len()),
        ),
{
    let n = encode_name(q.qname);
    let t = u16_bytes(qtype_num(q.qtype));
    let c = u16_bytes(1);
    lemma_split(buf, p, n + t, c);
    lemma_split(buf, p, n, t);
    lemma_name_decode(buf, p, q.qname);
    lemma_u16_decode(buf, p + n.len(), qtype_num(q.qtype));
    lemma_u16_decode(buf, p + n.len() + 2, 1);
}

proof fn lemma_prefix_decode(buf: Seq<u8>, p: int, domain: Seq<char>, t: QueryType, ttl: u32, rest: Seq<u8>)
    requires
        valid_name(domain),
        0 <= p,
        p + record_prefix(domain, t, ttl).len() + rest.len() <= buf.len(),
        buf.subrange(p, p + record_prefix(domain, t, ttl).len() + rest.len()) == record_prefix(
            domain,
            t,
            ttl,
        ) + rest,
    ensures
        parse_name(buf, p) == Ok::<(Seq<char>, int), ParseError>((domain, p + encode_name(domain).len())),
        be16_at(buf, p + encode_name(domain).len()) == qtype_num(t),
        be32_at(buf, p + encode_name(domain).len() + 4) == ttl,
        record_prefix(domain, t, ttl).len() == encode_name(domain).len() + 8,
        buf.subrange(
            p + record_prefix(domain, t, ttl).len(),
            p + record_prefix(domain, t, ttl).len() + rest.len(),
        ) == rest,
{
    let n = encode_name(domain);
    let tb = u16_bytes(qtype_num(t));
    let cb = u16_bytes(1);
    let lb = u32_bytes(ttl);
    let pre = record_prefix(domain, t, ttl);
    lemma_split(buf, p, pre, rest);
    lemma_split(buf, p, n + tb + cb, lb);
    lemma_split(buf, p, n + tb, cb);
    lemma_split(buf, p, n, tb);
    lemma_name_decode(buf, p, domain);
    lemma_u16_decode(buf, p + n.len(), qtype_num(t));
    lemma_u32_decode(buf, p + n.len() + 4, ttl);
}

#[verifier::rlimit(40)]
proof fn lemma_a_record_decode(buf: Seq<u8>, p: int, r: RecordView)
    requires
        r is A,
        record_writable(r),
        0 <= p,
        p + record_bytes(r).len() <= buf.len(),
        buf.subrange(p, p + record_bytes(r).len()) == record_bytes(r),
    ensures
        record_at(buf, p) == Ok::<(RecordView, int), ParseError>((r, p + record_bytes(r).len())),
{
    match r {
        RecordView::A { domain, addr, ttl } => {
            let body = u16_bytes(4) + u32_bytes(addr.bits);
            assert(record_bytes(r) =~= record_prefix(domain, QueryType::A, ttl) + body);
            lemma_prefix_decode(buf, p, domain, QueryType::A, ttl, body);
            let q = p + record_prefix(domain, QueryType::A, ttl).len();
            lemma_split(buf, q, u16_bytes(4), u32_bytes(addr.bits));
            lemma_u32_decode(buf, q + 2, addr.bits);
        },
        _ => {},
    }
}

#[verifier::rlimit(40)]
proof fn lemma_aaaa_record_decode(buf: Seq<u8>, p: int, r: RecordView)
    requires
        r is AAAA,
        record_writable(r),
        0 <= p,
        p + record_bytes(r).len() <= buf.len(),
        buf.subrange(p, p + record_bytes(r).len()) == record_bytes(r),
    ensures
        record_at(buf, p) == Ok::<(RecordView, int), ParseError>((r, p + record_bytes(r).len())),
{
    match r {
        RecordView::AAAA { domain, addr, ttl } => {
            let body = u16_bytes(16) + u128_bytes(addr.bits);
            assert(record_bytes(r) =~= record_prefix(domain, QueryType::AAAA, ttl) + body);
            lemma_prefix_decode(buf, p, domain, QueryType::AAAA, ttl, body);
            let q = p + record_prefix(domain, QueryType::AAAA, ttl).len();
            lemma_split(buf, q, u16_bytes(16), u128_bytes(addr.bits));
            lemma_u128_decode(buf, q + 2, addr.bits);
        },
        _ => {},
    }
}

#[verifier::rlimit(40)]
proof fn lemma_ns_record_decode(buf: Seq<u8>, p: int, r: RecordView)
    requires
        r is NS,
        record_writable(r),
        0 <= p,
        p + record_bytes(r).len() <= buf.len(),
        buf.subrange(p, p + record_bytes(r).len()) == record_bytes(r),
    ensures
        record_at(buf, p) == Ok::<(RecordView, int), ParseError>((r, p + record_bytes(r).len())),
{
    match r {
        RecordView::NS { domain, host, ttl } => {
            let hb = encode_name(host);
            let body = u16_bytes(hb.len() as u16) + hb;
            assert(record_bytes(r) =~= record_prefix(domain, QueryType::NS, ttl) + body);
            lemma_prefix_decode(buf, p, domain, QueryType::NS, ttl, body);
            let q = p + record_prefix(domain, QueryType::NS, ttl).len();
            lemma_split(buf, q, u16_bytes(hb.len() as u16), hb);
            lemma_name_decode(buf, q + 2, host);
        },
        _ => {},
    }
}

#[verifier::rlimit(40)]
proof fn lemma_cname_record_decode(buf: Seq<u8>, p: int, r: RecordView)
    requires
        r is CNAME,
        record_writable(r),
        0 <= p,
        p + record_bytes(r).len() <= buf.len(),
        buf.subrange(p, p + record_bytes(r).len()) == record_bytes(r),
    ensures
        record_at(buf, p) == Ok::<(RecordView, int), ParseError>((r, p + record_bytes(r).len())),
{
    match r {
        RecordView::CNAME { domain, host, ttl } => {
            let hb = encode_name(host);
            let body = u16_bytes(hb.len() as u16) + hb;
            assert(record_bytes(r) =~= record_prefix(domain, QueryType::CNAME, ttl) + body);
            lemma_prefix_decode(buf, p, domain, QueryType::CNAME, ttl, body);
            let q = p + record_prefix(domain, QueryType::CNAME, ttl).len();
            lemma_split(buf, q, u16_bytes(hb.len() as u16), hb);
            lemma_name_decode(buf, q + 2, host);
        },
        _ => {},
    }
}

#[verifier::rlimit(40)]
proof fn lemma_mx_record_decode(buf: Seq<u8>, p: int, r: RecordView)
    requires
        r is MX,
        record_writable(r),
        0 <= p,
        p + record_bytes(r).len() <= buf.len(),
        buf.subrange(p, p + record_bytes(r).len()) == record_bytes(r),
    ensures
        record_at(buf, p) == Ok::<(RecordView, int), ParseError>((r, p + record_bytes(r).len())),
{
    match r {
        RecordView::MX { domain, priority, host, ttl } => {
            let hb = encode_name(host);
            let body = u16_bytes((hb.len() + 2) as u16) + u16_bytes(priority) + hb;
            assert(record_bytes(r) =~= record_prefix(domain, QueryType::MX, ttl) + body);
            lemma_prefix_decode(buf, p, domain, QueryType::MX, ttl, body);
            let q = p + record_prefix(domain, QueryType::MX, ttl).len();
            lemma_split(buf, q, u16_bytes((hb.len() + 2) as u16) + u16_bytes(priority), hb);
            lemma_split(buf, q, u16_bytes((hb.len() + 2) as u16), u16_bytes(priority));
            lemma_u16_decode(buf, q + 2, priority);
            lemma_name_decode(buf, q + 4, host);
        },
        _ => {},
    }
}

proof fn lemma_record_decode(buf: Seq<u8>, p: int, r: RecordView)
    requires
        record_writable(r),
        !(r is Unknown),
        0 <= p,
        p + record_bytes(r).len() <= buf.len(),
        buf.subrange(p, p + record_bytes(r).len()) == record_bytes(r),
    ensures
        record_at(buf, p) == Ok::<(RecordView, int), ParseError>((r, p + record_bytes(r).len())),
{
    match r {
        RecordView::A { .. } => lemma_a_record_decode(buf, p, r),
        RecordView::AAAA { .. } => lemma_aaaa_record_decode(buf, p, r),
        RecordView::NS { .. } => lemma_ns_record_decode(buf, p, r),
        RecordView::CNAME { .. } => lemma_cname_record_decode(buf, p, r),
        RecordView::MX { .. } => lemma_mx_record_decode(buf, p, r),
        RecordView::Unknown { .. } => {},
    }
}

#[verifier::rlimit(80)]
#[verifier::spinoff_prover]
proof fn lemma_records_bytes_cons(rs: Seq<RecordView>)
    requires
        rs.len() > 0,
    ensures
        records_bytes(rs) == record_bytes(rs[0]) + records_bytes(rs.drop_first()),
    decreases rs.len(),
{
    if rs.len() == 1 {
        assert(rs.drop_last().len() == 0);
        assert(rs.drop_first().len() == 0);
        assert(rs.last() == rs[0]);
        assert(records_bytes(rs.drop_last()) == Seq::<u8>::empty());
        assert(records_bytes(rs.drop_first()) == Seq::<u8>::empty());
        assert(records_bytes(rs) == records_bytes(rs.drop_last()) + record_bytes(rs.last()));
        assert(records_bytes(rs) =~= record_bytes(rs[0]) + records_bytes(rs.drop_first()));
    } else {
        lemma_records_bytes_cons(rs.drop_last());
        assert(rs.drop_last().drop_first() == rs.drop_first().drop_last());
        assert(rs.drop_first().last() == rs.last());
        assert(rs.drop_last()[0] == rs[0]);
        assert(records_bytes(rs) == records_bytes(rs.drop_last()) + record_bytes(rs.last()));
        assert(records_bytes(rs.drop_first()) == records_bytes(rs.drop_first().drop_last()) + record_bytes(
            rs.drop_first().last(),
        ));
        assert(records_bytes(rs) =~= record_bytes(rs[0]) + records_bytes(rs.drop_first()));
    }
}

#[verifier::rlimit(80)]
#[verifier::spinoff_prover]
proof fn lemma_questions_bytes_cons(qs: Seq<QuestionView>)
    requires
        qs.len() > 0,
    ensures
        questions_bytes(qs) == question_bytes(qs[0]) + questions_bytes(qs.drop_first()),
    decreases qs.len(),
{
    if qs.len() == 1 {
        assert(qs.drop_last().len() == 0);
        assert(qs.drop_first().len() == 0);
        assert(questions_bytes(qs) =~= question_bytes(qs[0]) + questions_bytes(qs.drop_first()));
    } else {
        lemma_questions_bytes_cons(qs.drop_last());
        assert(qs.drop_last().drop_first() == qs.drop_first().drop_last());
        assert(qs.drop_first().last() == qs.last());
        assert(qs.drop_last()[0] == qs[0]);
        assert(questions_bytes(qs) == questions_bytes(qs.drop_last()) + question_bytes(qs.last()));
        assert(questions_bytes(qs.drop_first()) == questions_bytes(qs.drop_first().drop_last()) + question_bytes(
            qs.drop_first().last(),
        ));
        assert(questions_bytes(qs) =~= question_bytes(qs[0]) + questions_bytes(qs.drop_first()));
    }
}

/// Records that a written packet gives back exactly: of a known type, with
/// writable names.
pub open spec fn records_round_trip(rs: Seq<RecordView>) -> bool {
    forall|i: int| 0 <= i < rs.len() ==> record_writable(#[trigger] rs[i]) && !(rs[i] is Unknown)
}

/// Questions that a written packet gives back exactly: writable names, types
/// that read back as themselves, class IN.
pub open spec fn questions_round_trip(qs: Seq<QuestionView>) -> bool {
    forall|i: int|
        0 <= i < qs.len() ==> valid_name(#[trigger] qs[i].qname) && canonical_qtype(qs[i].qtype)
            && qs[i].class == 1
}

proof fn lemma_records_decode(buf: Seq<u8>, p: int, rs: Seq<RecordView>)
    requires
        records_round_trip(rs),
        0 <= p,
        p + records_bytes(rs).len() <= buf.len(),
        buf.subrange(p, p + records_bytes(rs).len()) == records_bytes(rs),
    ensures
        records_at(buf, p, rs.len() as nat) == Ok::<(Seq<RecordView>, int), ParseError>(
            (rs, p + records_bytes(rs).len()),
        ),
    decreases rs.len(),
{
    if rs.len() > 0 {
        lemma_records_bytes_cons(rs);
        let first = record_bytes(rs[0]);
        let rest = rs.drop_first();
        lemma_split(buf, p, first, records_bytes(rest));
        lemma_record_decode(buf, p, rs[0]);
        assert(records_round_trip(rest)) by {
            assert forall|i: int| 0 <= i < rest.len() implies record_writable(#[trigger] rest[i])
                && !(rest[i] is Unknown) by {
                assert(rest[i] == rs[i + 1]);
            }
        }
        lemma_records_decode(buf, p + first.len(), rest);
        assert(seq![rs[0]] + rest == rs);
        assert((rs.len() - 1) as nat == rest.len());
    } else {
        assert(rs =~= Seq::<RecordView>::empty());
    }
}

proof fn lemma_questions_decode(buf: Seq<u8>, p: int, qs: Seq<QuestionView>)
    requires
        questions_round_trip(qs),
        0 <= p,
        p + questions_bytes(qs).len() <= buf.len(),
        buf.subrange(p, p + questions_bytes(qs).len()) == questions_bytes(qs),
    ensures
        questions_at(buf, p, qs.len() as nat) == Ok::<(Seq<QuestionView>, int), ParseError>(
            (qs, p + questions_bytes(qs).len()),
        ),
    decreases qs.len(),
{
    if qs.len() > 0 {
        lemma_questions_bytes_cons(qs);
        let first = question_bytes(qs[0]);
        let rest = qs.drop_first();
        lemma_split(buf, p, first, questions_bytes(rest));
        lemma_question_decode(buf, p, qs[0]);
        assert(QuestionView { class: 1, ..qs[0] } == qs[0]);
        assert(questions_round_trip(rest)) by {
            assert forall|i: int| 0 <= i < rest.len() implies valid_name(#[trigger] rest[i].qname)
                && canonical_qtype(rest[i].qtype) && rest[i].class == 1 by {
                assert(rest[i] == qs[i + 1]);
            }
        }
        lemma_questions_decode(buf, p + first.len(), rest);
        assert(seq![qs[0]] + rest == qs);
        assert((qs.len() - 1) as nat == rest.len());
    } else {
        assert(qs =~= Seq::<QuestionView>::empty());
    }
}

proof fn lemma_sections(buf: Seq<u8>, h: Seq<u8>, q: Seq<u8>, a: Seq<u8>, n: Seq<u8>, r: Seq<u8>)
    requires
        buf == h + q + a + n + r,
    ensures
        buf.subrange(0, h.len() as int) == h,
        buf.subrange(h.len() as int, (h.len() + q.len()) as int) == q,
        buf.subrange((h.len() + q.len()) as int, (h.len() + q.len() + a.len()) as int) == a,
        buf.subrange(
            (h.len() + q.len() + a.len()) as int,
            (h.len() + q.len() + a.len() + n.len()) as int,
        ) == n,
        buf.subrange(
            (h.len() + q.len() + a.len() + n.len()) as int,
            (h.len() + q.len() + a.len() + n.len() + r.len()) as int,
        ) == r,
{
    assert(buf.subrange(0, buf.len() as int) == buf);
    lemma_split(buf, 0, h + q + a + n, r);
    lemma_split(buf, 0, h + q + a, n);
    lemma_split(buf, 0, h + q, a);
    lemma_split(buf, 0, h, q);
}

/// Reading a written packet gives it back: header, questions and every section,
/// when its counts match its sections, its names can be written, its questions
/// are of class IN with types that read back as themselves, and no record is of
/// an unknown type (those are not written).
#[verifier::rlimit(100)]
#[verifier::spinoff_prover]
pub proof fn law_packet_round_trip(pk: PacketView)
    requires
        pk.header.qd_count == pk.questions.len(),
        pk.header.an_count == pk.answers.len(),
        pk.header.ns_count == pk.authorities.len(),
        pk.header.ar_count == pk.resources.len(),
        questions_round_trip(pk.questions),
        records_round_trip(pk.answers),
        records_round_trip(pk.authorities),
        records_round_trip(pk.resources),
    ensures
        packet_at(packet_bytes(pk), 0) == Ok::<(PacketView, int), ParseError>(
            (pk, packet_bytes(pk).len() as int),
        ),
{
    let buf = packet_bytes(pk);
    let h = header_bytes(pk.header);
    let q = questions_bytes(pk.questions);
    let a = records_bytes(pk.answers);
    let n = records_bytes(pk.authorities);
    let r = records_bytes(pk.resources);
    lemma_sections(buf, h, q, a, n, r);
    assert(h.len() == 12);
    lemma_header_decode(buf, 0, pk.header);
    lemma_questions_decode(buf, 12, pk.questions);
    lemma_records_decode(buf, (12 + q.len()) as int, pk.answers);
    lemma_records_decode(buf, (12 + q.len() + a.len()) as int, pk.authorities);
    lemma_records_decode(buf, (12 + q.len() + a.len() + n.len()) as int, pk.resources);
}

} // verus!
