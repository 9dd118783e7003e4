use vstd::prelude::*;

use crate::packet::{
    empty_header, header_bytes, packet_bytes, packet_writable, question_bytes, questions_bytes,
    questions_view, records_bytes, DNSHeader, DNSPacket, DNSQuestion, PacketView, QueryType,
    QuestionView, RecordView,
};
use crate::writer::{lemma_encode_name_len, valid_name, PacketWriter, WriteError};

verus! {

/// The id of every query this resolver sends.
pub const QUERY_ID: u16 = 6666;

/// The query this resolver sends for `qname` and `qtype`: id `QUERY_ID`, one
/// question of class IN, RD as given.
pub open spec fn query_for(qname: Seq<char>, qtype: QueryType, rd_flag: bool) -> PacketView {
    PacketView {
        header: DNSHeader { id: QUERY_ID, recursion_desired: rd_flag, qd_count: 1, ..empty_header() },
        questions: seq![QuestionView { qname, qtype, class: 1 }],
        answers: Seq::empty(),
        authorities: Seq::empty(),
        resources: Seq::empty(),
    }
}

/// Writes the query for `qname` and `qtype` into a datagram-sized writer; fails
/// only when the name cannot be written.
pub fn build_query(qname: &str, qtype: QueryType, rd_flag: bool) -> (r: Result<PacketWriter, WriteError>)
    ensures
        valid_name(qname@) ==> r is Ok && r->Ok_0.buffer@ == packet_bytes(query_for(qname@, qtype, rd_flag)),
        !valid_name(qname@) ==> r == Err::<PacketWriter, WriteError>(WriteError::InvalidName),
{
    let mut query_packet = DNSPacket::new();
    query_packet.header.id = QUERY_ID;
    query_packet.header.qd_count = 1;
    query_packet.header.recursion_desired = rd_flag;
    let question = DNSQuestion { qname: qname.to_owned(), qtype, class: 1 };
    let ghost qv = question@;
    query_packet.questions.push(question);
    assert(questions_view(query_packet.questions@) =~= seq![qv]);
    assert(query_packet@ == query_for(qname@, qtype, rd_flag));
    let mut req_buffer = PacketWriter::new();
    proof {
        lemma_query_fits(qname@, qtype, rd_flag);
    }
    match query_packet.write_dns_packet(&mut req_buffer) {
        Ok(()) => Ok(req_buffer),
        Err(_) => Err(WriteError::InvalidName),
    }
}

proof fn lemma_query_fits(qname: Seq<char>, qtype: QueryType, rd_flag: bool)
    ensures
        packet_writable(query_for(qname, qtype, rd_flag)) == valid_name(qname),
        valid_name(qname) ==> packet_bytes(query_for(qname, qtype, rd_flag)).len() <= 512,
{
    let pk = query_for(qname, qtype, rd_flag);
    let q = QuestionView { qname, qtype, class: 1 };
    assert(pk.questions[0] == q);
    assert(seq![q].drop_last() =~= Seq::<QuestionView>::empty());
    assert(seq![q].last() == q);
    assert(questions_bytes(Seq::<QuestionView>::empty()) == Seq::<u8>::empty());
    assert(questions_bytes(seq![q]) =~= Seq::<u8>::empty() + question_bytes(q));
    assert(questions_bytes(seq![q]) =~= question_bytes(q));
    assert(records_bytes(Seq::<RecordView>::empty()) == Seq::<u8>::empty());
    if valid_name(qname) {
        lemma_encode_name_len(qname);
        assert(header_bytes(pk.header).len() == 12);
    }
}

} // verus!
