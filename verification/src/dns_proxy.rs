//! The DNS interception proxy's decision logic. For each query the service
//! forwards the raw bytes to the trusted resolver (that part is plain I/O,
//! outside this library) and hands the upstream response here: a response
//! with answers is cached under the queried name and replaced by a substitute
//! that resolves the name to the loopback address with the maximum TTL; a
//! response without answers is relayed byte-identically. Failures are
//! per-query: each query gets a reply or one distinguishable error.
use vstd::prelude::*;

use crate::text::{spec_join, join};
use crate::directive::{copy_bytes, copy_tokens};
use crate::dns_wire::{
    DnsName, DnsMessage, DnsRecord, MessageModel, RecordModel, wf_message, wf_name,
    spec_decode_message, spec_encode_message, decode_message, encode_message, record_views,
    question_views,
};
use crate::dns_cache::{DnsCache, CACHE_TTL_MS};

verus! {

/// What handling one query can fail with. Every kind is per-query: the
/// service answers or drops that query and keeps serving.
#[derive(Clone, Copy, PartialEq, Eq, Structural, Debug)]
pub enum ProxyError {
    /// The upstream response did not decode as a DNS message.
    MalformedResponse,
    /// The upstream response carried no question to answer.
    MissingQuestion,
    /// The upstream round trip timed out.
    UpstreamTimeout,
    /// The trusted resolver could not be reached.
    UpstreamUnreachable,
}

/// The substitute answer: an IPv4 host record binding the queried name to
/// the loopback address, with the maximum representable TTL so clients do
/// not re-resolve.
pub open spec fn loopback_record(name: Seq<Seq<u8>>) -> RecordModel {
    RecordModel {
        name,
        rtype: 1,
        rclass: 1,
        ttl: 0xffffffff,
        rdata: seq![127u8, 0u8, 0u8, 1u8],
    }
}

/// The substitute response: the original id, flags and question list, an
/// answer list holding exactly the loopback record for the first question's
/// name, and empty authority and additional sections.
pub open spec fn spec_substitute(m: MessageModel) -> MessageModel {
    MessageModel {
        id: m.id,
        flags: m.flags,
        questions: m.questions,
        answers: seq![loopback_record(m.questions[0].name)],
        authorities: Seq::empty(),
        additionals: Seq::empty(),
    }
}

/// The cache key of a name: its labels joined by dots.
pub open spec fn spec_dotted(name: Seq<Seq<u8>>) -> Seq<u8> {
    spec_join(name, seq![46u8])
}

/// The dotted text of a domain name, used as its cache key.
pub fn dotted_name(name: &DnsName) -> (r: Vec<u8>)
    ensures
        r@ == spec_dotted(name@),
{
    let mut dot: Vec<u8> = Vec::new();
    dot.push(46);
    proof {
        assert(dot@ =~= seq![46u8]);
    }
    join(&name.labels, &dot)
}

/// Build the substitute reply for a decoded upstream response.
pub fn local_packet(dns: &DnsMessage) -> (r: Vec<u8>)
    requires
        wf_message(dns@),
        dns.questions@.len() > 0,
    ensures
        r@ == spec_encode_message(spec_substitute(dns@)),
{
    let name = DnsName { labels: copy_tokens(&dns.questions[0].name.labels) };
    proof {
        assert(name@ == dns@.questions[0].name);
        assert(dns@.questions[0] == dns.questions@[0]@);
        assert(wf_name(name@));
    }
    let mut rdata: Vec<u8> = Vec::new();
    rdata.push(127);
    rdata.push(0);
    rdata.push(0);
    rdata.push(1);
    proof {
        assert(rdata@ =~= seq![127u8, 0u8, 0u8, 1u8]);
    }
    let record = DnsRecord { name, rtype: 1, rclass: 1, ttl: 0xffffffff, rdata };
    let mut answers: Vec<DnsRecord> = Vec::new();
    answers.push(record);
    let questions = take_questions(&dns.questions);
    let reply = DnsMessage {
        id: dns.id,
        flags: dns.flags,
        questions,
        answers,
        authorities: Vec::new(),
        additionals: Vec::new(),
    };
    proof {
        assert(record_views(reply.answers@) =~= seq![loopback_record(dns@.questions[0].name)]);
        assert(record_views(reply.authorities@) =~= Seq::<RecordModel>::empty());
        assert(record_views(reply.additionals@) =~= Seq::<RecordModel>::empty());
        assert(reply@ == spec_substitute(dns@));
    }
    encode_message(&reply)
}

/// A structurally equal copy of a question list.
fn take_questions(qs: &Vec<crate::dns_wire::DnsQuestion>) -> (r: Vec<crate::dns_wire::DnsQuestion>)
    ensures
        question_views(r@) == question_views(qs@),
{
    let n: usize = qs.len();
    let mut out: Vec<crate::dns_wire::DnsQuestion> = Vec::new();
    let mut i: usize = 0;
    while i < n
        invariant
            i <= n,
            n == qs@.len(),
            out@.len() == i,
            question_views(out@) =~= question_views(qs@).subrange(0, i as int),
        decreases n - i,
    {
        let q = &qs[i];
        let ghost pre = out@;
        out.push(
            crate::dns_wire::DnsQuestion {
                name: DnsName { labels: copy_tokens(&q.name.labels) },
                qtype: q.qtype,
                qclass: q.qclass,
            },
        );
        proof {
            assert(out@.drop_last() =~= pre);
            assert(out@.last()@ == qs@[i as int]@);
            assert(question_views(out@) =~= question_views(qs@).subrange(0, i + 1));
        }
        i = i + 1;
    }
    proof {
        assert(question_views(qs@).subrange(0, n as int) =~= question_views(qs@));
    }
    out
}

/// The generic resolver-failure reply for a raw query: the query's id with
/// response flags carrying the server-failure code and all-zero counts.
pub open spec fn spec_servfail(q: Seq<u8>) -> Seq<u8> {
    seq![q[0], q[1], 0x81u8, 0x82u8, 0u8, 0u8, 0u8, 0u8, 0u8, 0u8, 0u8, 0u8]
}

/// Build the reply that answers one failed query; `None` when the query is
/// too short to even carry a transaction id.
pub fn servfail_reply(query: &Vec<u8>) -> (r: Option<Vec<u8>>)
    ensures
        r is Some <==> query@.len() >= 2,
        r matches Some(v) ==> v@ == spec_servfail(query@),
{
    if query.len() < 2 {
        return None;
    }
    let mut out: Vec<u8> = Vec::new();
    out.push(query[0]);
    out.push(query[1]);
    out.push(0x81);
    out.push(0x82);
    let mut i: usize = 0;
    while i < 8
        invariant
            i <= 8,
            out@.len() == 4 + i,
            out@ =~= spec_servfail(query@).subrange(0, 4 + i as int),
        decreases 8 - i,
    {
        out.push(0);
        proof {
            assert(out@ =~= spec_servfail(query@).subrange(0, 4 + i + 1));
        }
        i = i + 1;
    }
    proof {
        assert(out@ =~= spec_servfail(query@));
    }
    Some(out)
}

/// The in-enclave DNS interception service: its cache and per-response
/// decision logic. The UDP listener and the TCP forwarder around it are
/// plain I/O and live outside the library.
pub struct EnclaveDns {
    pub cache: DnsCache,
}

impl EnclaveDns {
    pub fn new() -> (s: EnclaveDns)
        ensures
            s.cache.wf(),
            s.cache.entries@.len() == 0,
    {
        EnclaveDns { cache: DnsCache::new() }
    }

    /// Decide on one upstream response, at time `now_ms`.
    ///
    /// A response that does not decode, or decodes without a question, is a
    /// per-query error and leaves the cache alone. A response with no
    /// answers is relayed byte-identically and is never cached. A response
    /// with answers has its true records cached under the queried name for
    /// the cache lifetime, and the reply is the substitute message: same id,
    /// flags and question, exactly one answer resolving the name to the
    /// loopback address with the maximum TTL.
    pub fn handle_response(&mut self, upstream: &Vec<u8>, now_ms: u64) -> (r: Result<
        Vec<u8>,
        ProxyError,
    >)
        requires
            old(self).cache.wf(),
            now_ms <= u64::MAX - CACHE_TTL_MS,
        ensures
            final(self).cache.wf(),
            match spec_decode_message(upstream@) {
                Option::None => r == Err::<Vec<u8>, _>(ProxyError::MalformedResponse)
                    && final(self).cache == old(self).cache,
                Option::Some(m) => {
                    if m.questions.len() == 0 {
                        &&& r == Err::<Vec<u8>, _>(ProxyError::MissingQuestion)
                        &&& final(self).cache == old(self).cache
                    } else if m.answers.len() == 0 {
                        &&& r matches Ok(v) && v@ == upstream@
                        &&& final(self).cache == old(self).cache
                    } else {
                        &&& r matches Ok(v) && v@ == spec_encode_message(spec_substitute(m))
                        &&& forall|t: u64|
                            t < now_ms + CACHE_TTL_MS ==> final(self).cache.spec_get(
                                spec_dotted(m.questions[0].name),
                                t,
                            ) == Option::Some(m.answers)
                        &&& forall|t: u64|
                            t >= now_ms + CACHE_TTL_MS ==> final(self).cache.spec_get(
                                spec_dotted(m.questions[0].name),
                                t,
                            ) is None
                    }
                },
            },
    {
        let decoded = match decode_message(upstream.as_slice()) {
            Some(m) => m,
            None => {
                return Err(ProxyError::MalformedResponse);
            },
        };
        if decoded.questions.len() == 0 {
            return Err(ProxyError::MissingQuestion);
        }
        if decoded.answers.len() == 0 {
            return Ok(copy_bytes(upstream));
        }
        proof {
            assert(decoded@.questions[0] == decoded.questions@[0]@);
        }
        let reply = local_packet(&decoded);
        let key = dotted_name(&decoded.questions[0].name);
        let records = decoded.answers;
        proof {
            assert(record_views(records@) == decoded@.answers);
        }
        self.cache.insert(key, records, now_ms);
        Ok(reply)
    }

    /// The records cached under a dotted name at time `now_ms`, if live.
    pub fn cached(&self, key: &Vec<u8>, now_ms: u64) -> (r: Option<&Vec<DnsRecord>>)
        requires
            self.cache.wf(),
        ensures
            match (r, self.cache.spec_get(key@, now_ms)) {
                (Some(v), Some(m)) => record_views(v@) == m,
                (None, None) => true,
                _ => false,
            },
    {
        self.cache.get(key, now_ms)
    }
}

} // verus!
