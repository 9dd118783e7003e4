use vstd::prelude::*;

use crate::packet::{empty_header, questions_view, DNSHeader, DNSPacket, DNSQuestion, PacketView, RCode};

verus! {

/// The response code a client sees for an upstream code: a refusal is a failure.
pub open spec fn client_rcode(r: RCode) -> RCode {
    if r == RCode::REFUSED {
        RCode::SERVFAIL
    } else {
        r
    }
}

/// The response to `request`, given whether recursion is offered and what resolving
/// its first question gave (nothing on an upstream failure). The id is copied, QR,
/// RD and RA are set, and a request without a question gets FORMERR.
pub open spec fn response_to(req: PacketView, allow_recursive: bool, outcome: Option<PacketView>) -> PacketView {
    let h = DNSHeader {
        id: req.header.id,
        query: true,
        recursion_desired: true,
        recursion_available: allow_recursive,
        ..empty_header()
    };
    if req.questions.len() == 0 {
        PacketView {
            header: DNSHeader { rcode: RCode::FORMERR, ..h },
            questions: Seq::empty(),
            answers: Seq::empty(),
            authorities: Seq::empty(),
            resources: Seq::empty(),
        }
    } else {
        match outcome {
            None => PacketView {
                header: DNSHeader { rcode: RCode::SERVFAIL, ..h },
                questions: seq![req.questions[0]],
                answers: Seq::empty(),
                authorities: Seq::empty(),
                resources: Seq::empty(),
            },
            Some(p) => PacketView {
                header: DNSHeader { rcode: client_rcode(p.header.rcode), ..h },
                questions: seq![req.questions[0]],
                answers: p.answers,
                authorities: p.authorities,
                resources: p.resources,
            },
        }
    }
}

/// The question a request asks: its first one.
pub fn first_question(request: &DNSPacket) -> (r: Option<DNSQuestion>)
    ensures
        request@.questions.len() == 0 ==> r is None,
        request@.questions.len() > 0 ==> r is Some && r->Some_0@ == request@.questions[0],
{
    if request.questions.len() == 0 {
        None
    } else {
        let q = &request.questions[0];
        Some(DNSQuestion { qname: q.qname.clone(), qtype: q.qtype, class: q.class })
    }
}

/// Builds the response to `request` from what resolving its first question gave.
pub fn handle_query(request: &DNSPacket, allow_recursive: bool, outcome: Option<DNSPacket>) -> (r: DNSPacket)
    ensures
        r@ == response_to(
            request@,
            allow_recursive,
            match outcome {
                Some(p) => Some(p@),
                None => None,
            },
        ),
{
    let mut packet = DNSPacket::new();
    packet.header.id = request.header.id;
    packet.header.query = true;
    packet.header.recursion_desired = true;
    packet.header.recursion_available = allow_recursive;
    match first_question(request) {
        None => {
            packet.header.rcode = RCode::FORMERR;
            packet
        },
        Some(q) => {
            let ghost qv = q@;
            packet.questions.push(q);
            assert(questions_view(packet.questions@) =~= seq![qv]);
            match outcome {
                None => {
                    packet.header.rcode = RCode::SERVFAIL;
                    packet
                },
                Some(result) => {
                    packet.header.rcode = if result.header.rcode == RCode::REFUSED {
                        RCode::SERVFAIL
                    } else {
                        result.header.rcode
                    };
                    packet.answers = result.answers;
                    packet.authorities = result.authorities;
                    packet.resources = result.resources;
                    packet
                },
            }
        },
    }
}

} // verus!
