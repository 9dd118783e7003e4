use vstd::prelude::*;

use crate::packet::{
    delegated_address, delegated_host, first_address, DNSPacket, Ipv4Address, PacketView,
    QueryType, RCode,
};

verus! {

/// The A root name server, 198.41.0.4, where every recursive walk starts.
pub const ROOT_SERVER: u32 = 0xC629_0004;

/// Most nested lookups of name server addresses in one recursive walk.
pub const MAX_DEPTH: usize = 16;

/// What a response to a query for a name tells the walk to do next.
#[derive(Clone, Debug)]
pub enum Referral {
    /// The response is final: it answers, or says the name does not exist, or
    /// gives nothing more to follow.
    Answer,
    /// Ask the same question of the name server at this address.
    NextServer(Ipv4Address),
    /// Find the address of this name server first.
    ResolveHost(String),
}

/// What a referral says, names as text.
pub enum ReferralView {
    Answer,
    NextServer(Ipv4Address),
    ResolveHost(Seq<char>),
}

impl View for Referral {
    type V = ReferralView;

    open spec fn view(&self) -> ReferralView {
        match self {
            Referral::Answer => ReferralView::Answer,
            Referral::NextServer(a) => ReferralView::NextServer(*a),
            Referral::ResolveHost(h) => ReferralView::ResolveHost(h@),
        }
    }
}

/// The decision for a response to a query for `qname`: answers with NOERROR, or
/// NXDOMAIN, end the walk; else a glue address of a delegated name server is
/// followed; else a delegated name server's address is looked up; else the
/// response is final.
pub open spec fn referral_of(qname: Seq<char>, p: PacketView) -> ReferralView {
    if p.answers.len() > 0 && p.header.rcode == RCode::NOERROR {
        ReferralView::Answer
    } else if p.header.rcode == RCode::NXDOMAIN {
        ReferralView::Answer
    } else {
        match delegated_address(qname, p.authorities, p.resources) {
            Some(a) => ReferralView::NextServer(a),
            None => match delegated_host(qname, p.authorities) {
                Some(h) => ReferralView::ResolveHost(h),
                None => ReferralView::Answer,
            },
        }
    }
}

/// Decides what a response to a query for `qname` calls for.
pub fn classify_response(qname: &str, response: &DNSPacket) -> (r: Referral)
    ensures
        r@ == referral_of(qname@, response@),
{
    if response.answers.len() > 0 && response.header.rcode == RCode::NOERROR {
        return Referral::Answer;
    }
    if response.header.rcode == RCode::NXDOMAIN {
        return Referral::Answer;
    }
    match response.get_resolved_ns(qname) {
        Some(a) => Referral::NextServer(a),
        None => match response.get_unresolved_ns(qname) {
            Some(h) => Referral::ResolveHost(h),
            None => Referral::Answer,
        },
    }
}

/// One level of a recursive walk: the question, the server being asked, and the
/// last response while a name server's address is being looked up for it.
#[derive(Clone, Debug)]
pub struct Frame {
    pub qname: String,
    pub qtype: QueryType,
    pub server: Ipv4Address,
    pub last: Option<DNSPacket>,
}

/// What a frame holds, names as text.
pub struct FrameView {
    pub qname: Seq<char>,
    pub qtype: QueryType,
    pub server: Ipv4Address,
    pub last: Option<PacketView>,
}

impl View for Frame {
    type V = FrameView;

    open spec fn view(&self) -> FrameView {
        FrameView {
            qname: self.qname@,
            qtype: self.qtype,
            server: self.server,
            last: match self.last {
                Some(p) => Some(p@),
                None => None,
            },
        }
    }
}

/// The views of a stack of frames.
pub open spec fn frames_view(v: Seq<Frame>) -> Seq<FrameView> {
    v.map_values(|f: Frame| f@)
}

/// What the walk needs next.
#[derive(Clone, Debug)]
pub enum LookupStep {
    /// Send this query to this server and hand the response to `on_response`.
    Query { qname: String, qtype: QueryType, server: Ipv4Address },
    /// The walk is over with this packet.
    Finished(DNSPacket),
}

/// What a step says, names as text.
pub enum StepView {
    Query { qname: Seq<char>, qtype: QueryType, server: Ipv4Address },
    Finished(PacketView),
}

impl View for LookupStep {
    type V = StepView;

    open spec fn view(&self) -> StepView {
        match self {
            LookupStep::Query { qname, qtype, server } => StepView::Query {
                qname: qname@,
                qtype: *qtype,
                server: *server,
            },
            LookupStep::Finished(p) => StepView::Finished(p@),
        }
    }
}

/// A recursive walk from the root: a stack of frames, the innermost last.
#[derive(Clone, Debug)]
pub struct RecursiveLookup {
    pub frames: Vec<Frame>,
}

/// The root server's address.
pub open spec fn root() -> Ipv4Address {
    Ipv4Address { bits: ROOT_SERVER }
}

/// Hands packet `p`, the outcome of the innermost frame, to the frames below:
/// a frame that waited for a name server's address asks it when `p` gives one,
/// and otherwise ends with its own last response in turn.
pub open spec fn unwind(frames: Seq<FrameView>, p: PacketView) -> (Seq<FrameView>, StepView)
    decreases frames.len(),
{
    if frames.len() == 0 {
        (frames, StepView::Finished(p))
    } else {
        let g = frames.last();
        match first_address(p.answers) {
            Some(a) => (
                frames.drop_last().push(FrameView { server: a, last: None, ..g }),
                StepView::Query { qname: g.qname, qtype: g.qtype, server: a },
            ),
            None => unwind(
                frames.drop_last(),
                match g.last {
                    Some(l) => l,
                    None => p,
                },
            ),
        }
    }
}

/// The walk after `p` answers the innermost frame's query, and what it needs next.
pub open spec fn respond(frames: Seq<FrameView>, p: PacketView) -> (Seq<FrameView>, StepView) {
    let top = frames.last();
    let rest = frames.drop_last();
    match referral_of(top.qname, p) {
        ReferralView::NextServer(a) => (
            rest.push(FrameView { server: a, ..top }),
            StepView::Query { qname: top.qname, qtype: top.qtype, server: a },
        ),
        ReferralView::ResolveHost(h) => if frames.len() < MAX_DEPTH {
            (
                rest.push(FrameView { last: Some(p), ..top }).push(
                    FrameView { qname: h, qtype: QueryType::A, server: root(), last: None },
                ),
                StepView::Query { qname: h, qtype: QueryType::A, server: root() },
            )
        } else {
            unwind(rest, p)
        },
        ReferralView::Answer => unwind(rest, p),
    }
}

proof fn lemma_unwind_shrinks(frames: Seq<FrameView>, p: PacketView)
    ensures
        unwind(frames, p).0.len() <= frames.len(),
    decreases frames.len(),
{
    if frames.len() > 0 {
        let g = frames.last();
        let next = match g.last {
            Some(l) => l,
            None => p,
        };
        lemma_unwind_shrinks(frames.drop_last(), next);
    }
}

/// A walk never holds more than `MAX_DEPTH` frames: a response keeps a walk
/// within the limit.
pub proof fn law_depth_bounded(frames: Seq<FrameView>, p: PacketView)
    requires
        0 < frames.len() <= MAX_DEPTH,
    ensures
        respond(frames, p).0.len() <= MAX_DEPTH,
{
    lemma_unwind_shrinks(frames.drop_last(), p);
}

impl RecursiveLookup {
    /// A walk for `qname` and `qtype` from the root, and its first query.
    pub fn start(qname: &str, qtype: QueryType) -> (r: (RecursiveLookup, LookupStep))
        ensures
            frames_view(r.0.frames@) == seq![
                FrameView { qname: qname@, qtype, server: root(), last: None },
            ],
            r.1@ == (StepView::Query { qname: qname@, qtype, server: root() }),
    {
        let frame = Frame {
            qname: qname.to_owned(),
            qtype,
            server: Ipv4Address { bits: ROOT_SERVER },
            last: None,
        };
        let step = LookupStep::Query {
            qname: qname.to_owned(),
            qtype,
            server: Ipv4Address { bits: ROOT_SERVER },
        };
        let mut frames: Vec<Frame> = Vec::new();
        frames.push(frame);
        let r = (RecursiveLookup { frames }, step);
        assert(frames_view(r.0.frames@) =~= seq![
            FrameView { qname: qname@, qtype, server: root(), last: None },
        ]);
        r
    }

    /// Takes the response to the last query and gives what the walk needs next.
    pub fn on_response(&mut self, response: DNSPacket) -> (r: LookupStep)
        requires
            old(self).frames@.len() > 0,
        ensures
            (frames_view(final(self).frames@), r@) == respond(
                frames_view(old(self).frames@),
                response@,
            ),
    {
        let ghost fv = frames_view(self.frames@);
        let top = self.frames.pop().unwrap();
        assert(fv.last() == top@);
        assert(frames_view(self.frames@) =~= fv.drop_last());
        let ghost rest = frames_view(self.frames@);
        match classify_response(top.qname.as_str(), &response) {
            Referral::NextServer(a) => {
                let step = LookupStep::Query {
                    qname: top.qname.clone(),
                    qtype: top.qtype,
                    server: a,
                };
                let moved = Frame { server: a, ..top };
                let ghost mv = moved@;
                self.frames.push(moved);
                assert(frames_view(self.frames@) =~= rest.push(mv));
                step
            },
            Referral::ResolveHost(h) => {
                if self.frames.len() < MAX_DEPTH - 1 {
                    let step = LookupStep::Query {
                        qname: h.clone(),
                        qtype: QueryType::A,
                        server: Ipv4Address { bits: ROOT_SERVER },
                    };
                    let waiting = Frame { last: Some(response), ..top };
                    let inner = Frame {
                        qname: h,
                        qtype: QueryType::A,
                        server: Ipv4Address { bits: ROOT_SERVER },
                        last: None,
                    };
                    let ghost wv = waiting@;
                    let ghost iv = inner@;
                    self.frames.push(waiting);
                    self.frames.push(inner);
                    assert(frames_view(self.frames@) =~= rest.push(wv).push(iv));
                    step
                } else {
                    self.unwind(response)
                }
            },
            Referral::Answer => self.unwind(response),
        }
    }

    /// Hands `packet`, the outcome of a frame just taken off, to the frames below.
    fn unwind(&mut self, packet: DNSPacket) -> (r: LookupStep)
        ensures
            (frames_view(final(self).frames@), r@) == unwind(frames_view(old(self).frames@), packet@),
    {
        let ghost goal = unwind(frames_view(self.frames@), packet@);
        let mut p = packet;
        let mut result: Option<LookupStep> = None;
        loop
            invariant_except_break
                result is None,
                unwind(frames_view(self.frames@), p@) == goal,
            ensures
                result matches Some(step) && (frames_view(self.frames@), step@) == goal,
            decreases self.frames@.len(),
        {
            let ghost fv = frames_view(self.frames@);
            match self.frames.pop() {
                None => {
                    assert(fv.len() == 0);
                    result = Some(LookupStep::Finished(p));
                    break;
                },
                Some(g) => {
                    assert(fv.last() == g@);
                    assert(frames_view(self.frames@) =~= fv.drop_last());
                    match p.get_random_record() {
                        Some(a) => {
                            let step = LookupStep::Query {
                                qname: g.qname.clone(),
                                qtype: g.qtype,
                                server: a,
                            };
                            let moved = Frame { server: a, last: None, ..g };
                            let ghost mv = moved@;
                            let ghost rest = frames_view(self.frames@);
                            self.frames.push(moved);
                            assert(frames_view(self.frames@) =~= rest.push(mv));
                            result = Some(step);
                            break;
                        },
                        None => {
                            p = match g.last {
                                Some(l) => l,
                                None => p,
                            };
                        },
                    }
                },
            }
        }
        match result {
            Some(step) => step,
            None => LookupStep::Finished(DNSPacket::new()),
        }
    }
}

} // verus!
