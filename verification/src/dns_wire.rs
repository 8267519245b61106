//! The DNS wire codec: the standard message envelope (header, question
//! section, resource-record sections) decoded from and encoded to raw bytes.
//! Decoding resolves label compression; a pointer must target a position
//! strictly before the name it abbreviates, as every conforming encoder
//! produces. Encoding writes names uncompressed.
use vstd::prelude::*;

use crate::text::sub_vec;

verus! {

/// A domain name as its label list (`www`, `example`, `com`).
pub struct DnsName {
    pub labels: Vec<Vec<u8>>,
}

pub struct DnsQuestion {
    pub name: DnsName,
    pub qtype: u16,
    pub qclass: u16,
}

/// One resource record; `rdata` is kept as raw bytes.
pub struct DnsRecord {
    pub name: DnsName,
    pub rtype: u16,
    pub rclass: u16,
    pub ttl: u32,
    pub rdata: Vec<u8>,
}

/// The standard DNS message envelope.
pub struct DnsMessage {
    pub id: u16,
    pub flags: u16,
    pub questions: Vec<DnsQuestion>,
    pub answers: Vec<DnsRecord>,
    pub authorities: Vec<DnsRecord>,
    pub additionals: Vec<DnsRecord>,
}

pub struct QuestionModel {
    pub name: Seq<Seq<u8>>,
    pub qtype: u16,
    pub qclass: u16,
}

pub struct RecordModel {
    pub name: Seq<Seq<u8>>,
    pub rtype: u16,
    pub rclass: u16,
    pub ttl: u32,
    pub rdata: Seq<u8>,
}

pub struct MessageModel {
    pub id: u16,
    pub flags: u16,
    pub questions: Seq<QuestionModel>,
    pub answers: Seq<RecordModel>,
    pub authorities: Seq<RecordModel>,
    pub additionals: Seq<RecordModel>,
}

impl View for DnsName {
    type V = Seq<Seq<u8>>;

    open spec fn view(&self) -> Seq<Seq<u8>> {
        self.labels.deep_view()
    }
}

impl View for DnsQuestion {
    type V = QuestionModel;

    open spec fn view(&self) -> QuestionModel {
        QuestionModel { name: self.name@, qtype: self.qtype, qclass: self.qclass }
    }
}

impl View for DnsRecord {
    type V = RecordModel;

    open spec fn view(&self) -> RecordModel {
        RecordModel {
            name: self.name@,
            rtype: self.rtype,
            rclass: self.rclass,
            ttl: self.ttl,
            rdata: self.rdata@,
        }
    }
}

pub open spec fn question_views(qs: Seq<DnsQuestion>) -> Seq<QuestionModel> {
    qs.map_values(|q: DnsQuestion| q@)
}

pub open spec fn record_views(rs: Seq<DnsRecord>) -> Seq<RecordModel> {
    rs.map_values(|r: DnsRecord| r@)
}

impl View for DnsMessage {
    type V = MessageModel;

    open spec fn view(&self) -> MessageModel {
        MessageModel {
            id: self.id,
            flags: self.flags,
            questions: question_views(self.questions@),
            answers: record_views(self.answers@),
            authorities: record_views(self.authorities@),
            additionals: record_views(self.additionals@),
        }
    }
}

/// Every label fits its length byte and is non-empty.
pub open spec fn wf_name(n: Seq<Seq<u8>>) -> bool {
    forall|i: int| 0 <= i < n.len() ==> 1 <= #[trigger] n[i].len() <= 63
}

pub open spec fn wf_record(r: RecordModel) -> bool {
    wf_name(r.name) && r.rdata.len() <= 65535
}

pub open spec fn wf_records(rs: Seq<RecordModel>) -> bool {
    forall|i: int| 0 <= i < rs.len() ==> wf_record(#[trigger] rs[i])
}

pub open spec fn wf_questions(qs: Seq<QuestionModel>) -> bool {
    forall|i: int| 0 <= i < qs.len() ==> wf_name(#[trigger] qs[i].name)
}

/// An encodable message: well-formed names and section counts that fit the
/// sixteen-bit header fields.
pub open spec fn wf_message(m: MessageModel) -> bool {
    &&& wf_questions(m.questions)
    &&& wf_records(m.answers)
    &&& wf_records(m.authorities)
    &&& wf_records(m.additionals)
    &&& m.questions.len() <= 65535
    &&& m.answers.len() <= 65535
    &&& m.authorities.len() <= 65535
    &&& m.additionals.len() <= 65535
}

pub open spec fn spec_be16(x: u16) -> Seq<u8> {
    seq![(x / 256) as u8, (x % 256) as u8]
}

pub open spec fn spec_be32(x: u32) -> Seq<u8> {
    seq![
        (x / 0x1000000) as u8,
        ((x / 0x10000) % 256) as u8,
        ((x / 256) % 256) as u8,
        (x % 256) as u8,
    ]
}

/// The label sequence without the terminating null byte.
pub open spec fn spec_encode_labels(ls: Seq<Seq<u8>>) -> Seq<u8>
    decreases ls.len(),
{
    if ls.len() == 0 {
        Seq::empty()
    } else {
        seq![ls[0].len() as u8] + ls[0] + spec_encode_labels(ls.drop_first())
    }
}

/// An uncompressed name on the wire: length-prefixed labels, then null.
pub open spec fn spec_encode_name(ls: Seq<Seq<u8>>) -> Seq<u8> {
    spec_encode_labels(ls) + seq![0u8]
}

pub open spec fn spec_encode_question(q: QuestionModel) -> Seq<u8> {
    spec_encode_name(q.name) + spec_be16(q.qtype) + spec_be16(q.qclass)
}

pub open spec fn spec_encode_record(r: RecordModel) -> Seq<u8> {
    spec_encode_name(r.name) + spec_be16(r.rtype) + spec_be16(r.rclass) + spec_be32(r.ttl)
        + spec_be16(r.rdata.len() as u16) + r.rdata
}

pub open spec fn spec_encode_questions(qs: Seq<QuestionModel>) -> Seq<u8>
    decreases qs.len(),
{
    if qs.len() == 0 {
        Seq::empty()
    } else {
        spec_encode_question(qs[0]) + spec_encode_questions(qs.drop_first())
    }
}

pub open spec fn spec_encode_records(rs: Seq<RecordModel>) -> Seq<u8>
    decreases rs.len(),
{
    if rs.len() == 0 {
        Seq::empty()
    } else {
        spec_encode_record(rs[0]) + spec_encode_records(rs.drop_first())
    }
}

/// The whole message on the wire: header, then the four sections.
pub open spec fn spec_encode_message(m: MessageModel) -> Seq<u8> {
    spec_be16(m.id) + spec_be16(m.flags) + spec_be16(m.questions.len() as u16) + spec_be16(
        m.answers.len() as u16,
    ) + spec_be16(m.authorities.len() as u16) + spec_be16(m.additionals.len() as u16)
        + spec_encode_questions(m.questions) + spec_encode_records(m.answers)
        + spec_encode_records(m.authorities) + spec_encode_records(m.additionals)
}

fn push_be16(out: &mut Vec<u8>, x: u16)
    ensures
        final(out)@ == old(out)@ + spec_be16(x),
{
    out.push((x / 256) as u8);
    out.push((x % 256) as u8);
    proof {
        assert(out@ =~= old(out)@ + spec_be16(x));
    }
}

fn push_be32(out: &mut Vec<u8>, x: u32)
    ensures
        final(out)@ == old(out)@ + spec_be32(x),
{
    out.push((x / 0x1000000) as u8);
    out.push(((x / 0x10000) % 256) as u8);
    out.push(((x / 256) % 256) as u8);
    out.push((x % 256) as u8);
    proof {
        assert(out@ =~= old(out)@ + spec_be32(x));
    }
}

proof fn lemma_encode_labels_snoc(ls: Seq<Seq<u8>>)
    requires
        ls.len() >= 1,
    ensures
        spec_encode_labels(ls) == spec_encode_labels(ls.drop_last()) + seq![
            ls.last().len() as u8,
        ] + ls.last(),
    decreases ls.len(),
{
    if ls.len() == 1 {
        assert(ls.drop_last() =~= Seq::<Seq<u8>>::empty());
        assert(ls.drop_first() =~= Seq::<Seq<u8>>::empty());
        assert(spec_encode_labels(ls) =~= spec_encode_labels(ls.drop_last()) + seq![
            ls.last().len() as u8,
        ] + ls.last());
    } else {
        lemma_encode_labels_snoc(ls.drop_first());
        assert(ls.drop_first().drop_last() =~= ls.drop_last().drop_first());
        assert(ls.drop_first().last() == ls.last());
        assert(ls.drop_last().len() >= 1);
        assert(ls.drop_last()[0] == ls[0]);
        assert(spec_encode_labels(ls) =~= spec_encode_labels(ls.drop_last()) + seq![
            ls.last().len() as u8,
        ] + ls.last());
    }
}

fn push_name(out: &mut Vec<u8>, n: &DnsName)
    requires
        wf_name(n@),
    ensures
        final(out)@ == old(out)@ + spec_encode_name(n@),
{
    let k: usize = n.labels.len();
    let mut i: usize = 0;
    proof {
        assert(n@.subrange(0, 0) =~= Seq::<Seq<u8>>::empty());
        assert(out@ + spec_encode_labels(n@.subrange(0, 0)) =~= out@);
    }
    while i < k
        invariant
            i <= k,
            k == n.labels@.len(),
            wf_name(n@),
            n@.len() == k,
            out@ == old(out)@ + spec_encode_labels(n@.subrange(0, i as int)),
        decreases k - i,
    {
        let lab = &n.labels[i];
        proof {
            assert(n@[i as int] =~= n.labels@[i as int]@);
            assert(1 <= n@[i as int].len() <= 63);
        }
        out.push(lab.len() as u8);
        out.extend_from_slice(lab.as_slice());
        proof {
            lemma_encode_labels_snoc(n@.subrange(0, i + 1));
            assert(n@.subrange(0, i + 1).drop_last() =~= n@.subrange(0, i as int));
            assert(n@.subrange(0, i + 1).last() == n@[i as int]);
            assert(out@ =~= old(out)@ + spec_encode_labels(n@.subrange(0, i + 1)));
        }
        i = i + 1;
    }
    proof {
        assert(n@.subrange(0, k as int) =~= n@);
    }
    out.push(0);
    proof {
        assert(out@ =~= old(out)@ + spec_encode_name(n@));
    }
}

fn push_question(out: &mut Vec<u8>, q: &DnsQuestion)
    requires
        wf_name(q@.name),
    ensures
        final(out)@ == old(out)@ + spec_encode_question(q@),
{
    push_name(out, &q.name);
    push_be16(out, q.qtype);
    push_be16(out, q.qclass);
    proof {
        assert(out@ =~= old(out)@ + spec_encode_question(q@));
    }
}

fn push_record(out: &mut Vec<u8>, r: &DnsRecord)
    requires
        wf_record(r@),
    ensures
        final(out)@ == old(out)@ + spec_encode_record(r@),
{
    push_name(out, &r.name);
    push_be16(out, r.rtype);
    push_be16(out, r.rclass);
    push_be32(out, r.ttl);
    push_be16(out, r.rdata.len() as u16);
    out.extend_from_slice(r.rdata.as_slice());
    proof {
        assert(out@ =~= old(out)@ + spec_encode_record(r@));
    }
}

proof fn lemma_encode_questions_snoc(qs: Seq<QuestionModel>)
    requires
        qs.len() >= 1,
    ensures
        spec_encode_questions(qs) == spec_encode_questions(qs.drop_last()) + spec_encode_question(
            qs.last(),
        ),
    decreases qs.len(),
{
    if qs.len() == 1 {
        assert(qs.drop_last() =~= Seq::<QuestionModel>::empty());
        assert(qs.drop_first() =~= Seq::<QuestionModel>::empty());
        assert(spec_encode_questions(qs) =~= spec_encode_questions(qs.drop_last())
            + spec_encode_question(qs.last()));
    } else {
        lemma_encode_questions_snoc(qs.drop_first());
        assert(qs.drop_first().drop_last() =~= qs.drop_last().drop_first());
        assert(qs.drop_first().last() == qs.last());
        assert(qs.drop_last().len() >= 1);
        assert(qs.drop_last()[0] == qs[0]);
        assert(spec_encode_questions(qs) =~= spec_encode_questions(qs.drop_last())
            + spec_encode_question(qs.last()));
    }
}

proof fn lemma_encode_records_snoc(rs: Seq<RecordModel>)
    requires
        rs.len() >= 1,
    ensures
        spec_encode_records(rs) == spec_encode_records(rs.drop_last()) + spec_encode_record(
            rs.last(),
        ),
    decreases rs.len(),
{
    if rs.len() == 1 {
        assert(rs.drop_last() =~= Seq::<RecordModel>::empty());
        assert(rs.drop_first() =~= Seq::<RecordModel>::empty());
        assert(spec_encode_records(rs) =~= spec_encode_records(rs.drop_last())
            + spec_encode_record(rs.last()));
    } else {
        lemma_encode_records_snoc(rs.drop_first());
        assert(rs.drop_first().drop_last() =~= rs.drop_last().drop_first());
        assert(rs.drop_first().last() == rs.last());
        assert(rs.drop_last().len() >= 1);
        assert(rs.drop_last()[0] == rs[0]);
        assert(spec_encode_records(rs) =~= spec_encode_records(rs.drop_last())
            + spec_encode_record(rs.last()));
    }
}

fn push_records(out: &mut Vec<u8>, rs: &Vec<DnsRecord>)
    requires
        wf_records(record_views(rs@)),
    ensures
        final(out)@ == old(out)@ + spec_encode_records(record_views(rs@)),
{
    let k: usize = rs.len();
    let ghost rv = record_views(rs@);
    let mut i: usize = 0;
    proof {
        assert(rv.subrange(0, 0) =~= Seq::<RecordModel>::empty());
        assert(out@ + spec_encode_records(rv.subrange(0, 0)) =~= out@);
    }
    while i < k
        invariant
            i <= k,
            k == rs@.len(),
            rv == record_views(rs@),
            wf_records(rv),
            rv.len() == k,
            out@ == old(out)@ + spec_encode_records(rv.subrange(0, i as int)),
        decreases k - i,
    {
        proof {
            assert(rv[i as int] == rs@[i as int]@);
            assert(wf_record(rv[i as int]));
        }
        push_record(out, &rs[i]);
        proof {
            lemma_encode_records_snoc(rv.subrange(0, i + 1));
            assert(rv.subrange(0, i + 1).drop_last() =~= rv.subrange(0, i as int));
            assert(rv.subrange(0, i + 1).last() == rv[i as int]);
            assert(out@ =~= old(out)@ + spec_encode_records(rv.subrange(0, i + 1)));
        }
        i = i + 1;
    }
    proof {
        assert(rv.subrange(0, k as int) =~= rv);
    }
}

/// Encode a message onto the wire, exactly as `spec_encode_message` lays it
/// out.
pub fn encode_message(m: &DnsMessage) -> (r: Vec<u8>)
    requires
        wf_message(m@),
    ensures
        r@ == spec_encode_message(m@),
{
    let mut out: Vec<u8> = Vec::new();
    push_be16(&mut out, m.id);
    push_be16(&mut out, m.flags);
    proof {
        assert(question_views(m.questions@).len() == m.questions@.len());
        assert(record_views(m.answers@).len() == m.answers@.len());
        assert(record_views(m.authorities@).len() == m.authorities@.len());
        assert(record_views(m.additionals@).len() == m.additionals@.len());
    }
    push_be16(&mut out, m.questions.len() as u16);
    push_be16(&mut out, m.answers.len() as u16);
    push_be16(&mut out, m.authorities.len() as u16);
    push_be16(&mut out, m.additionals.len() as u16);
    let ghost qv = question_views(m.questions@);
    let k: usize = m.questions.len();
    let ghost base = out@;
    let mut i: usize = 0;
    proof {
        assert(qv.subrange(0, 0) =~= Seq::<QuestionModel>::empty());
        assert(out@ + spec_encode_questions(qv.subrange(0, 0)) =~= out@);
    }
    while i < k
        invariant
            i <= k,
            k == m.questions@.len(),
            qv == question_views(m.questions@),
            wf_questions(qv),
            qv.len() == k,
            out@ == base + spec_encode_questions(qv.subrange(0, i as int)),
        decreases k - i,
    {
        proof {
            assert(qv[i as int] == m.questions@[i as int]@);
        }
        push_question(&mut out, &m.questions[i]);
        proof {
            lemma_encode_questions_snoc(qv.subrange(0, i + 1));
            assert(qv.subrange(0, i + 1).drop_last() =~= qv.subrange(0, i as int));
            assert(qv.subrange(0, i + 1).last() == qv[i as int]);
            assert(out@ =~= base + spec_encode_questions(qv.subrange(0, i + 1)));
        }
        i = i + 1;
    }
    proof {
        assert(qv.subrange(0, k as int) =~= qv);
    }
    push_records(&mut out, &m.answers);
    push_records(&mut out, &m.authorities);
    push_records(&mut out, &m.additionals);
    proof {
        assert(out@ =~= spec_encode_message(m@));
    }
    out
}

/// Read a big-endian sixteen-bit field.
pub open spec fn spec_read_u16(s: Seq<u8>, i: int) -> Option<u16> {
    if 0 <= i && i + 2 <= s.len() {
        Some((s[i] * 256 + s[i + 1]) as u16)
    } else {
        None
    }
}

/// Read a big-endian thirty-two-bit field.
pub open spec fn spec_read_u32(s: Seq<u8>, i: int) -> Option<u32> {
    if 0 <= i && i + 4 <= s.len() {
        Some((s[i] * 0x1000000 + s[i + 1] * 0x10000 + s[i + 2] * 256 + s[i + 3]) as u32)
    } else {
        None
    }
}

/// Parse a name at `i`. A compression pointer must target a position
/// strictly below `limit`, which starts at the name's own position; the
/// returned position is where parsing continues after the name.
pub open spec fn spec_parse_name(s: Seq<u8>, i: int, limit: int) -> Option<(Seq<Seq<u8>>, int)>
    decreases limit, s.len() - i,
    when 0 <= limit <= s.len()
    via spec_parse_name_dec
{
    if i < 0 || i >= s.len() {
        None
    } else {
        let b = s[i];
        if b == 0 {
            Some((Seq::empty(), i + 1))
        } else if b < 64 {
            if i + 1 + b > s.len() {
                None
            } else {
                match spec_parse_name(s, i + 1 + b, limit) {
                    Some((ls, n)) => Some((seq![s.subrange(i + 1, i + 1 + b)] + ls, n)),
                    None => None,
                }
            }
        } else if b >= 192 {
            if i + 1 >= s.len() {
                None
            } else {
                let t = (b - 192) * 256 + s[i + 1];
                if t >= limit {
                    None
                } else {
                    match spec_parse_name(s, t, t) {
                        Some((ls, _)) => Some((ls, i + 2)),
                        None => None,
                    }
                }
            }
        } else {
            None
        }
    }
}

#[via_fn]
proof fn spec_parse_name_dec(s: Seq<u8>, i: int, limit: int) {
}

/// A parsed name is well formed and ends within the message.
pub proof fn lemma_parse_name_wf(s: Seq<u8>, i: int, limit: int)
    requires
        0 <= limit <= s.len(),
    ensures
        match spec_parse_name(s, i, limit) {
            Some((ls, n)) => wf_name(ls) && 0 <= n <= s.len() && (i >= 0 ==> n >= i + 1),
            None => true,
        },
    decreases limit, s.len() - i,
{
    if 0 <= i < s.len() {
        let b = s[i];
        if b == 0 {
        } else if b < 64 {
            if i + 1 + b <= s.len() {
                lemma_parse_name_wf(s, i + 1 + b, limit);
            }
        } else if b >= 192 {
            if i + 1 < s.len() {
                let t = (b - 192) * 256 + s[i + 1];
                if t < limit {
                    lemma_parse_name_wf(s, t, t);
                }
            }
        }
    }
}

pub open spec fn spec_parse_question(s: Seq<u8>, i: int) -> Option<(QuestionModel, int)> {
    if !(0 <= i <= s.len()) {
        None
    } else {
        match spec_parse_name(s, i, i) {
            None => None,
            Some((ls, n)) => match (spec_read_u16(s, n), spec_read_u16(s, n + 2)) {
                (Some(t), Some(c)) => Some(
                    (QuestionModel { name: ls, qtype: t, qclass: c }, n + 4),
                ),
                _ => None,
            },
        }
    }
}

pub open spec fn spec_parse_record(s: Seq<u8>, i: int) -> Option<(RecordModel, int)> {
    if !(0 <= i <= s.len()) {
        None
    } else {
        match spec_parse_name(s, i, i) {
            None => None,
            Some((ls, n)) => match (
                spec_read_u16(s, n),
                spec_read_u16(s, n + 2),
                spec_read_u32(s, n + 4),
                spec_read_u16(s, n + 8),
            ) {
                (Some(t), Some(c), Some(ttl), Some(rdlen)) => {
                    if n + 10 + rdlen <= s.len() {
                        Some(
                            (
                                RecordModel {
                                    name: ls,
                                    rtype: t,
                                    rclass: c,
                                    ttl,
                                    rdata: s.subrange(n + 10, n + 10 + rdlen),
                                },
                                n + 10 + rdlen,
                            ),
                        )
                    } else {
                        None
                    }
                },
                _ => None,
            },
        }
    }
}

pub open spec fn spec_parse_questions(s: Seq<u8>, i: int, cnt: int) -> Option<
    (Seq<QuestionModel>, int),
>
    decreases cnt,
{
    if cnt <= 0 {
        Some((Seq::empty(), i))
    } else {
        match spec_parse_question(s, i) {
            None => None,
            Some((q, n)) => match spec_parse_questions(s, n, cnt - 1) {
                None => None,
                Some((qs, e)) => Some((seq![q] + qs, e)),
            },
        }
    }
}

pub open spec fn spec_parse_records(s: Seq<u8>, i: int, cnt: int) -> Option<(Seq<RecordModel>, int)>
    decreases cnt,
{
    if cnt <= 0 {
        Some((Seq::empty(), i))
    } else {
        match spec_parse_record(s, i) {
            None => None,
            Some((r, n)) => match spec_parse_records(s, n, cnt - 1) {
                None => None,
                Some((rs, e)) => Some((seq![r] + rs, e)),
            },
        }
    }
}

/// Decode a whole message: header, questions, answers, authorities,
/// additionals. Bytes after the advertised sections are ignored.
pub open spec fn spec_decode_message(s: Seq<u8>) -> Option<MessageModel> {
    if s.len() < 12 {
        None
    } else {
        let id = (s[0] * 256 + s[1]) as u16;
        let flags = (s[2] * 256 + s[3]) as u16;
        let qd = s[4] * 256 + s[5];
        let an = s[6] * 256 + s[7];
        let ns = s[8] * 256 + s[9];
        let ar = s[10] * 256 + s[11];
        match spec_parse_questions(s, 12, qd) {
            None => None,
            Some((qs, p1)) => match spec_parse_records(s, p1, an) {
                None => None,
                Some((ans, p2)) => match spec_parse_records(s, p2, ns) {
                    None => None,
                    Some((auth, p3)) => match spec_parse_records(s, p3, ar) {
                        None => None,
                        Some((add, p4)) => Some(
                            MessageModel {
                                id,
                                flags,
                                questions: qs,
                                answers: ans,
                                authorities: auth,
                                additionals: add,
                            },
                        ),
                    },
                },
            },
        }
    }
}


/// Name-level correspondence between an exec parse result and the spec.
pub open spec fn name_match(
    r: Option<(DnsName, usize)>,
    m: Option<(Seq<Seq<u8>>, int)>,
) -> bool {
    match (r, m) {
        (Some((nm, p)), Some((ls, n))) => nm@ == ls && p == n,
        (None, None) => true,
        _ => false,
    }
}

fn parse_name(s: &[u8], i: usize, limit: usize) -> (r: Option<(DnsName, usize)>)
    requires
        limit <= s@.len(),
    ensures
        name_match(r, spec_parse_name(s@, i as int, limit as int)),
        r matches Some(p) ==> wf_name(p.0@) && p.1 <= s@.len(),
    decreases limit, s@.len() - i,
{
    proof {
        lemma_parse_name_wf(s@, i as int, limit as int);
    }
    if i >= s.len() {
        return None;
    }
    let b = s[i];
    if b == 0 {
        let nm = DnsName { labels: Vec::new() };
        proof {
            assert(nm@ =~= Seq::<Seq<u8>>::empty());
        }
        Some((nm, i + 1))
    } else if b < 64 {
        let bl = b as usize;
        if bl > s.len() - i - 1 {
            return None;
        }
        let lab = sub_vec(s, i + 1, i + 1 + bl);
        match parse_name(s, i + 1 + bl, limit) {
            Some((mut nm, p)) => {
                let ghost pre = nm@;
                proof {
                    assert(nm@.len() == nm.labels@.len());
                }
                nm.labels.insert(0, lab);
                proof {
                    assert(nm@ =~~= seq![s@.subrange(i + 1, i + 1 + bl as int)] + pre);
                }
                Some((nm, p))
            },
            None => None,
        }
    } else if b >= 192 {
        if s.len() - i < 2 {
            return None;
        }
        let t = ((b - 192) as usize) * 256 + (s[i + 1] as usize);
        if t >= limit {
            return None;
        }
        match parse_name(s, t, t) {
            Some((nm, _)) => Some((nm, i + 2)),
            None => None,
        }
    } else {
        None
    }
}

pub open spec fn question_match(
    r: Option<(DnsQuestion, usize)>,
    m: Option<(QuestionModel, int)>,
) -> bool {
    match (r, m) {
        (Some((q, p)), Some((qm, n))) => q@ == qm && p == n,
        (None, None) => true,
        _ => false,
    }
}

fn parse_question(s: &[u8], i: usize) -> (r: Option<(DnsQuestion, usize)>)
    requires
        i <= s@.len(),
    ensures
        question_match(r, spec_parse_question(s@, i as int)),
        r matches Some(p) ==> wf_name(p.0@.name) && p.1 <= s@.len(),
{
    match parse_name(s, i, i) {
        None => None,
        Some((nm, n)) => {
            if s.len() < 4 || n > s.len() - 4 {
                return None;
            }
            let qtype = (s[n] as u16) * 256 + (s[n + 1] as u16);
            let qclass = (s[n + 2] as u16) * 256 + (s[n + 3] as u16);
            Some((DnsQuestion { name: nm, qtype, qclass }, n + 4))
        },
    }
}

pub open spec fn record_match(
    r: Option<(DnsRecord, usize)>,
    m: Option<(RecordModel, int)>,
) -> bool {
    match (r, m) {
        (Some((rr, p)), Some((rm, n))) => rr@ == rm && p == n,
        (None, None) => true,
        _ => false,
    }
}

fn parse_record(s: &[u8], i: usize) -> (r: Option<(DnsRecord, usize)>)
    requires
        i <= s@.len(),
    ensures
        record_match(r, spec_parse_record(s@, i as int)),
        r matches Some(p) ==> wf_record(p.0@) && p.1 <= s@.len(),
{
    match parse_name(s, i, i) {
        None => None,
        Some((nm, n)) => {
            if s.len() < 10 || n > s.len() - 10 {
                return None;
            }
            let rtype = (s[n] as u16) * 256 + (s[n + 1] as u16);
            let rclass = (s[n + 2] as u16) * 256 + (s[n + 3] as u16);
            let ttl = (s[n + 4] as u32) * 0x1000000 + (s[n + 5] as u32) * 0x10000 + (s[n
                + 6] as u32) * 256 + (s[n + 7] as u32);
            let rdlen = (s[n + 8] as u16) * 256 + (s[n + 9] as u16);
            let rdl = rdlen as usize;
            if rdl > s.len() - (n + 10) {
                return None;
            }
            let rdata = sub_vec(s, n + 10, n + 10 + rdl);
            Some((DnsRecord { name: nm, rtype, rclass, ttl, rdata }, n + 10 + rdl))
        },
    }
}

pub open spec fn questions_result_match(
    r: Option<(Vec<DnsQuestion>, usize)>,
    m: Option<(Seq<QuestionModel>, int)>,
) -> bool {
    match (r, m) {
        (Some((qs, p)), Some((qm, n))) => question_views(qs@) == qm && p == n,
        (None, None) => true,
        _ => false,
    }
}

fn parse_questions(s: &[u8], i: usize, cnt: u16) -> (r: Option<(Vec<DnsQuestion>, usize)>)
    requires
        i <= s@.len(),
    ensures
        questions_result_match(r, spec_parse_questions(s@, i as int, cnt as int)),
        r matches Some(p) ==> wf_questions(question_views(p.0@)) && p.1 <= s@.len()
            && p.0@.len() == cnt,
{
    let mut out: Vec<DnsQuestion> = Vec::new();
    let mut pos: usize = i;
    let mut k: u16 = 0;
    proof {
        assert(question_views(out@) =~= Seq::<QuestionModel>::empty());
        match spec_parse_questions(s@, i as int, cnt as int) {
            Some((qm, n)) => {
                assert(question_views(out@) + qm =~= qm);
            },
            None => {},
        }
    }
    while k < cnt
        invariant
            k <= cnt,
            pos <= s@.len(),
            out@.len() == k,
            wf_questions(question_views(out@)),
            match spec_parse_questions(s@, pos as int, (cnt - k) as int) {
                Some((qm, n)) => spec_parse_questions(s@, i as int, cnt as int) == Some(
                    (question_views(out@) + qm, n),
                ),
                None => spec_parse_questions(s@, i as int, cnt as int) is None,
            },
        decreases cnt - k,
    {
        match parse_question(s, pos) {
            None => {
                return None;
            },
            Some((q, n)) => {
                let ghost pre = out@;
                out.push(q);
                proof {
                    assert(out@.drop_last() =~= pre);
                    assert(question_views(out@).len() == out@.len());
                    assert(question_views(out@) =~= question_views(pre) + seq![q@]);
                    match spec_parse_questions(s@, n as int, (cnt - k - 1) as int) {
                        Some((qm, e)) => {
                            assert(spec_parse_questions(s@, pos as int, (cnt - k) as int)
                                == Some((seq![q@] + qm, e)));
                            assert(question_views(pre) + (seq![q@] + qm) =~= question_views(
                                out@,
                            ) + qm);
                        },
                        None => {
                            assert(spec_parse_questions(s@, pos as int, (cnt - k) as int)
                                is None);
                        },
                    }
                }
                pos = n;
                k = k + 1;
            },
        }
    }
    Some((out, pos))
}

pub open spec fn records_result_match(
    r: Option<(Vec<DnsRecord>, usize)>,
    m: Option<(Seq<RecordModel>, int)>,
) -> bool {
    match (r, m) {
        (Some((rs, p)), Some((rm, n))) => record_views(rs@) == rm && p == n,
        (None, None) => true,
        _ => false,
    }
}

fn parse_records(s: &[u8], i: usize, cnt: u16) -> (r: Option<(Vec<DnsRecord>, usize)>)
    requires
        i <= s@.len(),
    ensures
        records_result_match(r, spec_parse_records(s@, i as int, cnt as int)),
        r matches Some(p) ==> wf_records(record_views(p.0@)) && p.1 <= s@.len()
            && p.0@.len() == cnt,
{
    let mut out: Vec<DnsRecord> = Vec::new();
    let mut pos: usize = i;
    let mut k: u16 = 0;
    proof {
        assert(record_views(out@) =~= Seq::<RecordModel>::empty());
        match spec_parse_records(s@, i as int, cnt as int) {
            Some((rm, n)) => {
                assert(record_views(out@) + rm =~= rm);
            },
            None => {},
        }
    }
    while k < cnt
        invariant
            k <= cnt,
            pos <= s@.len(),
            out@.len() == k,
            wf_records(record_views(out@)),
            match spec_parse_records(s@, pos as int, (cnt - k) as int) {
                Some((rm, n)) => spec_parse_records(s@, i as int, cnt as int) == Some(
                    (record_views(out@) + rm, n),
                ),
                None => spec_parse_records(s@, i as int, cnt as int) is None,
            },
        decreases cnt - k,
    {
        match parse_record(s, pos) {
            None => {
                return None;
            },
            Some((rr, n)) => {
                let ghost pre = out@;
                out.push(rr);
                proof {
                    assert(out@.drop_last() =~= pre);
                    assert(record_views(out@).len() == out@.len());
                    assert(record_views(out@) =~= record_views(pre) + seq![rr@]);
                    match spec_parse_records(s@, n as int, (cnt - k - 1) as int) {
                        Some((rm, e)) => {
                            assert(spec_parse_records(s@, pos as int, (cnt - k) as int)
                                == Some((seq![rr@] + rm, e)));
                            assert(record_views(pre) + (seq![rr@] + rm) =~= record_views(
                                out@,
                            ) + rm);
                        },
                        None => {
                            assert(spec_parse_records(s@, pos as int, (cnt - k) as int)
                                is None);
                        },
                    }
                }
                pos = n;
                k = k + 1;
            },
        }
    }
    Some((out, pos))
}

pub open spec fn message_match(r: Option<DnsMessage>, m: Option<MessageModel>) -> bool {
    match (r, m) {
        (Some(msg), Some(mm)) => msg@ == mm,
        (None, None) => true,
        _ => false,
    }
}

/// Decode a whole message from the wire; `None` on any malformed construct.
pub fn decode_message(s: &[u8]) -> (r: Option<DnsMessage>)
    ensures
        message_match(r, spec_decode_message(s@)),
        r matches Some(m) ==> wf_message(m@),
{
    if s.len() < 12 {
        return None;
    }
    let id = (s[0] as u16) * 256 + (s[1] as u16);
    let flags = (s[2] as u16) * 256 + (s[3] as u16);
    let qd = (s[4] as u16) * 256 + (s[5] as u16);
    let an = (s[6] as u16) * 256 + (s[7] as u16);
    let ns = (s[8] as u16) * 256 + (s[9] as u16);
    let ar = (s[10] as u16) * 256 + (s[11] as u16);
    let (questions, p1) = match parse_questions(s, 12, qd) {
        Some(x) => x,
        None => {
            return None;
        },
    };
    let (answers, p2) = match parse_records(s, p1, an) {
        Some(x) => x,
        None => {
            return None;
        },
    };
    let (authorities, p3) = match parse_records(s, p2, ns) {
        Some(x) => x,
        None => {
            return None;
        },
    };
    let (additionals, _p4) = match parse_records(s, p3, ar) {
        Some(x) => x,
        None => {
            return None;
        },
    };
    proof {
        assert(question_views(questions@).len() == questions@.len());
        assert(record_views(answers@).len() == answers@.len());
        assert(record_views(authorities@).len() == authorities@.len());
        assert(record_views(additionals@).len() == additionals@.len());
    }
    Some(DnsMessage { id, flags, questions, answers, authorities, additionals })
}

} // verus!
