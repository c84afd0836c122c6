//! What the proxy does with each client datagram: answer it locally with a
//! forged response, forward it to an upstream resolver, or drop it.
use crate::payload::{lemma_question_end, question, Payload, QUESTION_OFFSET};
use crate::trie::domain_trie::{lower_all, DomainTrie};
use crate::trie::label_trie::covers;
use vstd::prelude::*;

verus! {

/// Header of a forged response after the id: flags of a standard response
/// with no error, then one question, one answer, no authority record and one
/// additional record.
pub open spec fn forged_header() -> Seq<u8> {
    seq![0x81u8, 0x80, 0x00, 0x01, 0x00, 0x01, 0x00, 0x00, 0x00, 0x01]
}

/// Tail of a forged response after the question: an A record for the
/// question's name (a pointer to offset 12) with a 500-second time to live
/// and the address 1.2.3.4, then an OPT pseudo-record.
pub open spec fn forged_trailer() -> Seq<u8> {
    seq![
        0xc0u8, 0x0c, 0x00, 0x01, 0x00, 0x01, 0x00, 0x00, 0x01, 0xf4, 0x00, 0x04, 0x01, 0x02,
        0x03, 0x04, 0x00, 0x00, 0x29, 0x05, 0x80, 0x00, 0x00, 0x00, 0x00, 0x00, 0x00,
    ]
}

/// The forged response to the query `b` whose name ends at `end_offset`: the
/// query's id, the fixed header, the question section as it stands in the
/// query (name, type and class), and the fixed answer and OPT records.
pub open spec fn forged(b: Seq<u8>, end_offset: int) -> Seq<u8> {
    b.subrange(0, 2) + forged_header() + b.subrange(QUESTION_OFFSET as int, end_offset + 5)
        + forged_trailer()
}

/// Builds the forged "sinkhole" response to the query `buf`, whose question
/// name ends with a zero-length label at `end_offset`.
pub fn fake_response(buf: &[u8], end_offset: usize) -> (r: Vec<u8>)
    requires
        QUESTION_OFFSET <= end_offset + 5 <= buf@.len(),
    ensures
        r@ == forged(buf@, end_offset as int),
{
    let mut r: Vec<u8> = Vec::new();
    r.push(buf[0]);
    r.push(buf[1]);
    let header: Vec<u8> = vec![0x81, 0x80, 0x00, 0x01, 0x00, 0x01, 0x00, 0x00, 0x00, 0x01];
    let trailer: Vec<u8> = vec![
        0xc0, 0x0c, 0x00, 0x01, 0x00, 0x01, 0x00, 0x00, 0x01, 0xf4, 0x00, 0x04, 0x01, 0x02,
        0x03, 0x04, 0x00, 0x00, 0x29, 0x05, 0x80, 0x00, 0x00, 0x00, 0x00, 0x00, 0x00,
    ];
    assert(header@ == forged_header());
    assert(trailer@ == forged_trailer());
    let mut i: usize = 0;
    while i < header.len()
        invariant
            i <= header@.len(),
            r@ == buf@.subrange(0, 2) + header@.take(i as int),
        decreases header@.len() - i,
    {
        r.push(header[i]);
        i = i + 1;
    }
    i = QUESTION_OFFSET;
    let stop = end_offset + 5;
    while i < stop
        invariant
            QUESTION_OFFSET <= i <= stop,
            stop == end_offset + 5,
            stop <= buf@.len(),
            r@ == buf@.subrange(0, 2) + header@ + buf@.subrange(QUESTION_OFFSET as int, i as int),
        decreases stop - i,
    {
        r.push(buf[i]);
        i = i + 1;
    }
    i = 0;
    while i < trailer.len()
        invariant
            i <= trailer@.len(),
            r@ == buf@.subrange(0, 2) + header@ + buf@.subrange(QUESTION_OFFSET as int, stop as int)
                + trailer@.take(i as int),
        decreases trailer@.len() - i,
    {
        r.push(trailer[i]);
        i = i + 1;
    }
    r
}

/// The upstream resolvers a query can be forwarded to.
#[derive(Debug, Clone, Copy, PartialEq, Eq, Structural)]
pub enum Upstream {
    /// The resolver for excluded domains and for every domain no rule routes.
    Direct,
    /// The resolver for the domains of the routing ruleset.
    Routed,
}

/// The fate of one client datagram.
#[derive(Debug, Clone)]
pub enum Action {
    /// Malformed: no answer is sent.
    Drop,
    /// Answer the client at once with these bytes.
    Reply(Vec<u8>),
    /// Forward the datagram, unchanged, to this upstream.
    Forward(Upstream),
}

/// The three rulesets, in the order they are tried: excluded domains, blocked
/// domains, routed domains.
pub struct Rules {
    pub exclude: DomainTrie,
    pub block: DomainTrie,
    pub route: DomainTrie,
}

impl Rules {
    /// Each ruleset is consistent.
    pub open spec fn wf(&self) -> bool {
        self.exclude.wf() && self.block.wf() && self.route.wf()
    }
}

/// Classifies a client datagram. Its question name, in lower case, is tried
/// against the excluded, then the blocked, then the routed domains: an
/// excluded name goes to the direct resolver, a blocked one gets a forged
/// answer, a routed one goes to the routed resolver, and any other to the
/// direct resolver. A datagram whose question cannot be read is dropped, as is
/// a blocked one too short to hold the question's type and class.
pub fn dispatch(rules: &Rules, query: &Payload) -> (r: Action)
    requires
        rules.wf(),
    ensures
        match question(query@) {
            None => r == Action::Drop,
            Some((ls, end)) => {
                let d = lower_all(ls);
                if covers(rules.exclude@, d) {
                    r == Action::Forward(Upstream::Direct)
                } else if covers(rules.block@, d) {
                    if end + 5 <= query@.len() {
                        (r matches Action::Reply(v) && v@ == forged(query@, end))
                    } else {
                        r == Action::Drop
                    }
                } else if covers(rules.route@, d) {
                    r == Action::Forward(Upstream::Routed)
                } else {
                    r == Action::Forward(Upstream::Direct)
                }
            },
        },
{
    let (labels, end) = match query.domain() {
        Some(q) => q,
        None => {
            return Action::Drop;
        },
    };
    proof {
        lemma_question_end(query@);
    }
    let domain = labels.as_slice();
    if rules.exclude.domain_prefix_match(domain) {
        return Action::Forward(Upstream::Direct);
    }
    if rules.block.domain_prefix_match(domain) {
        let bytes = query.as_slice();
        if end > bytes.len() - 5 || bytes.len() < 5 {
            return Action::Drop;
        }
        return Action::Reply(fake_response(bytes, end));
    }
    if rules.route.domain_prefix_match(domain) {
        Action::Forward(Upstream::Routed)
    } else {
        Action::Forward(Upstream::Direct)
    }
}

} // verus!
