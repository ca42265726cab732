use vstd::prelude::*;
use crate::error::DnsError;
use crate::name::{
    decode_name, encode_name_bytes, push_bytes, encoded_name, labels_fit, lemma_name_round_trip, name_at,
    split_labels, valid_domain,
};

verus! {

/// Record type of an IPv4 address.
pub const TYPE_A: u16 = 1;

/// Record type of an authoritative nameserver.
pub const TYPE_NS: u16 = 2;

/// Record type of a canonical-name alias.
pub const TYPE_CNAME: u16 = 5;

/// The Internet class.
pub const CLASS_IN: u16 = 1;

/// Size of the fixed header at the start of every message.
pub const HEADER_LENGTH: usize = 12;

/// Big-endian bytes of a 16-bit value.
pub open spec fn be16(x: u16) -> Seq<u8> {
    seq![(x / 256) as u8, (x % 256) as u8]
}

/// The big-endian 16-bit value at `i`.
pub open spec fn read16(buf: Seq<u8>, i: int) -> u16 {
    (buf[i] * 256 + buf[i + 1]) as u16
}

/// The big-endian 32-bit value at `i`.
pub open spec fn read32(buf: Seq<u8>, i: int) -> u32 {
    (buf[i] * 16777216 + buf[i + 1] * 65536 + buf[i + 2] * 256 + buf[i + 3]) as u32
}

fn get16(buf: &[u8], i: usize) -> (r: u16)
    requires
        i + 1 < buf@.len(),
    ensures
        r == read16(buf@, i as int),
{
    (buf[i] as u16) * 256 + buf[i + 1] as u16
}

fn get32(buf: &[u8], i: usize) -> (r: u32)
    requires
        i + 3 < buf@.len(),
    ensures
        r == read32(buf@, i as int),
{
    (buf[i] as u32) * 16777216 + (buf[i + 1] as u32) * 65536 + (buf[i + 2] as u32) * 256
        + buf[i + 3] as u32
}

fn put16(out: &mut Vec<u8>, x: u16)
    ensures
        final(out)@ == old(out)@ + be16(x),
{
    out.push((x / 256) as u8);
    out.push((x % 256) as u8);
    assert(final(out)@ =~= old(out)@ + be16(x));
}

proof fn lemma_read16_be16(pre: Seq<u8>, x: u16, post: Seq<u8>)
    ensures
        read16(pre + be16(x) + post, pre.len() as int) == x,
{
    let buf = pre + be16(x) + post;
    assert(buf[pre.len() as int] == (x / 256) as u8);
    assert(buf[pre.len() + 1int] == (x % 256) as u8);
}

/// The fixed header of a message.
#[derive(Debug, Clone, Copy, PartialEq, Eq, Structural)]
pub struct DnsHeader {
    pub id: u16,
    pub flags: u16,
    pub num_questions: u16,
    pub num_answers: u16,
    pub num_authorities: u16,
    pub num_additionals: u16,
}

/// The wire form of a header: six big-endian 16-bit fields.
pub open spec fn header_bytes(h: DnsHeader) -> Seq<u8> {
    be16(h.id) + be16(h.flags) + be16(h.num_questions) + be16(h.num_answers) + be16(
        h.num_authorities,
    ) + be16(h.num_additionals)
}

/// The header at the start of `buf`.
pub open spec fn header_at(buf: Seq<u8>) -> Result<DnsHeader, DnsError> {
    if buf.len() < HEADER_LENGTH {
        Err(DnsError::FormatError)
    } else {
        Ok(
            DnsHeader {
                id: read16(buf, 0),
                flags: read16(buf, 2),
                num_questions: read16(buf, 4),
                num_answers: read16(buf, 6),
                num_authorities: read16(buf, 8),
                num_additionals: read16(buf, 10),
            },
        )
    }
}

impl DnsHeader {
    /// Decodes the header at the start of `buf`; fails when `buf` is shorter
    /// than a header.
    pub fn parse(buf: &[u8]) -> (r: Result<DnsHeader, DnsError>)
        ensures
            r == header_at(buf@),
    {
        if buf.len() < HEADER_LENGTH {
            return Err(DnsError::FormatError);
        }
        Ok(
            DnsHeader {
                id: get16(buf, 0),
                flags: get16(buf, 2),
                num_questions: get16(buf, 4),
                num_answers: get16(buf, 6),
                num_authorities: get16(buf, 8),
                num_additionals: get16(buf, 10),
            },
        )
    }

    /// The wire form of the header.
    pub fn to_bytes(&self) -> (r: Vec<u8>)
        ensures
            r@ == header_bytes(*self),
    {
        let mut out: Vec<u8> = Vec::new();
        put16(&mut out, self.id);
        put16(&mut out, self.flags);
        put16(&mut out, self.num_questions);
        put16(&mut out, self.num_answers);
        put16(&mut out, self.num_authorities);
        put16(&mut out, self.num_additionals);
        assert(out@ =~= header_bytes(*self));
        out
    }
}

/// Decoding the wire form of any header gives it back, whatever follows it.
pub proof fn lemma_header_round_trip(h: DnsHeader, post: Seq<u8>)
    ensures
        header_at(header_bytes(h) + post) == Ok::<DnsHeader, DnsError>(h),
{
    let buf = header_bytes(h) + post;
    let e = Seq::<u8>::empty();
    assert(buf =~= e + be16(h.id) + (be16(h.flags) + be16(h.num_questions) + be16(h.num_answers)
        + be16(h.num_authorities) + be16(h.num_additionals) + post));
    lemma_read16_be16(e, h.id, buf.subrange(2, buf.len() as int));
    let p2 = be16(h.id);
    assert(buf =~= p2 + be16(h.flags) + buf.subrange(4, buf.len() as int));
    lemma_read16_be16(p2, h.flags, buf.subrange(4, buf.len() as int));
    let p4 = buf.subrange(0, 4);
    assert(buf =~= p4 + be16(h.num_questions) + buf.subrange(6, buf.len() as int));
    lemma_read16_be16(p4, h.num_questions, buf.subrange(6, buf.len() as int));
    let p6 = buf.subrange(0, 6);
    assert(buf =~= p6 + be16(h.num_answers) + buf.subrange(8, buf.len() as int));
    lemma_read16_be16(p6, h.num_answers, buf.subrange(8, buf.len() as int));
    let p8 = buf.subrange(0, 8);
    assert(buf =~= p8 + be16(h.num_authorities) + buf.subrange(10, buf.len() as int));
    lemma_read16_be16(p8, h.num_authorities, buf.subrange(10, buf.len() as int));
    let p10 = buf.subrange(0, 10);
    assert(buf =~= p10 + be16(h.num_additionals) + buf.subrange(12, buf.len() as int));
    lemma_read16_be16(p10, h.num_additionals, buf.subrange(12, buf.len() as int));
}

/// A question: a name in text form, a record type and a class.
#[derive(Debug)]
pub struct DnsQuestion {
    pub name: Vec<u8>,
    pub type_: u16,
    pub class: u16,
}

/// The model of a question.
pub struct QuestionView {
    pub name: Seq<u8>,
    pub type_: u16,
    pub class: u16,
}

impl View for DnsQuestion {
    type V = QuestionView;

    open spec fn view(&self) -> QuestionView {
        QuestionView { name: self.name@, type_: self.type_, class: self.class }
    }
}

/// The wire form of a question.
pub open spec fn question_bytes(q: QuestionView) -> Seq<u8> {
    encoded_name(q.name) + be16(q.type_) + be16(q.class)
}

/// The question at `pos`, and the position just past it.
pub open spec fn question_at(buf: Seq<u8>, pos: int) -> Result<(QuestionView, int), DnsError> {
    match name_at(buf, pos) {
        Ok((name, end)) => if end + 4 > buf.len() {
            Err(DnsError::FormatError)
        } else {
            Ok(
                (
                    QuestionView { name, type_: read16(buf, end), class: read16(buf, end + 2) },
                    end + 4,
                ),
            )
        },
        Err(e) => Err(e),
    }
}

impl DnsQuestion {
    /// Decodes the question at `cursor_start`; returns how many bytes it
    /// takes and the question.
    pub fn parse(buf: &[u8], cursor_start: usize) -> (r: Result<(usize, DnsQuestion), DnsError>)
        ensures
            match question_at(buf@, cursor_start as int) {
                Ok((q, end)) => r is Ok && r->Ok_0.0 == end - cursor_start && r->Ok_0.1@ == q,
                Err(e) => r == Err::<(usize, DnsQuestion), DnsError>(e),
            },
            r is Ok ==> cursor_start + r->Ok_0.0 <= buf@.len(),
    {
        let decoded = decode_name(buf, cursor_start);
        match decoded {
            Ok((length, name)) => {
                let n = buf.len();
                assert(cursor_start + length <= n);
                let cursor = cursor_start + length;
                if buf.len() - cursor < 4 {
                    return Err(DnsError::FormatError);
                }
                let type_ = get16(buf, cursor);
                let class = get16(buf, cursor + 2);
                Ok((cursor + 4 - cursor_start, DnsQuestion { name, type_, class }))
            },
            Err(e) => Err(e),
        }
    }

    /// The wire form of the question; fails when a label of the name is
    /// longer than 63 bytes.
    pub fn to_bytes(&self) -> (r: Result<Vec<u8>, DnsError>)
        ensures
            labels_fit(split_labels(self.name@)) ==> r is Ok && r->Ok_0@ == question_bytes(self@),
            !labels_fit(split_labels(self.name@)) ==> r == Err::<Vec<u8>, DnsError>(
                DnsError::FormatError,
            ),
    {
        match encode_name_bytes(self.name.as_slice()) {
            Ok(bytes) => {
                let mut out = bytes;
                put16(&mut out, self.type_);
                put16(&mut out, self.class);
                Ok(out)
            },
            Err(e) => Err(e),
        }
    }
}

/// Decoding the wire form of a question with a valid name gives the question
/// back, wherever the wire form stands in a buffer.
pub proof fn lemma_question_round_trip(pre: Seq<u8>, q: QuestionView, post: Seq<u8>)
    requires
        valid_domain(q.name),
    ensures
        question_at(pre + question_bytes(q) + post, pre.len() as int) == Ok::<
            (QuestionView, int),
            DnsError,
        >((q, (pre.len() + question_bytes(q).len()) as int)),
{
    let en = encoded_name(q.name);
    let buf = pre + question_bytes(q) + post;
    assert(buf =~= pre + en + (be16(q.type_) + be16(q.class) + post));
    lemma_name_round_trip(pre, q.name, be16(q.type_) + be16(q.class) + post);
    assert(buf =~= (pre + en) + be16(q.type_) + (be16(q.class) + post));
    lemma_read16_be16(pre + en, q.type_, be16(q.class) + post);
    assert(buf =~= (pre + en + be16(q.type_)) + be16(q.class) + post);
    lemma_read16_be16(pre + en + be16(q.type_), q.class, post);
}

/// The data of a record, interpreted by its type.
#[derive(Debug)]
pub enum DnsRecordData {
    /// The raw data of a record of any type but A, NS and CNAME.
    Data(Vec<u8>),
    /// The address of an A record.
    Ipv4Addr([u8; 4]),
    /// The name that an NS or CNAME record holds, in text form.
    Name(Vec<u8>),
}

/// The model of record data.
pub enum RecordDataView {
    Data(Seq<u8>),
    Ipv4Addr(Seq<u8>),
    Name(Seq<u8>),
}

impl View for DnsRecordData {
    type V = RecordDataView;

    open spec fn view(&self) -> RecordDataView {
        match self {
            DnsRecordData::Data(d) => RecordDataView::Data(d@),
            DnsRecordData::Ipv4Addr(a) => RecordDataView::Ipv4Addr(a@),
            DnsRecordData::Name(n) => RecordDataView::Name(n@),
        }
    }
}

/// A resource record of the answer, authority or additional section.
#[derive(Debug)]
pub struct DnsRecord {
    pub name: Vec<u8>,
    pub type_: u16,
    pub class: u16,
    pub ttl: u32,
    pub data: DnsRecordData,
}

/// The model of a resource record.
pub struct RecordView {
    pub name: Seq<u8>,
    pub type_: u16,
    pub class: u16,
    pub ttl: u32,
    pub data: RecordDataView,
}

impl View for DnsRecord {
    type V = RecordView;

    open spec fn view(&self) -> RecordView {
        RecordView {
            name: self.name@,
            type_: self.type_,
            class: self.class,
            ttl: self.ttl,
            data: self.data@,
        }
    }
}

/// The data of a record whose data occupies `buf[start..end]`: four address
/// bytes for A, a name for NS and CNAME (which must fill the region exactly),
/// the raw bytes for any other type.
pub open spec fn record_data_at(buf: Seq<u8>, type_: u16, start: int, end: int) -> Result<
    RecordDataView,
    DnsError,
> {
    if type_ == TYPE_A {
        if end - start != 4 {
            Err(DnsError::FormatError)
        } else {
            Ok(RecordDataView::Ipv4Addr(buf.subrange(start, end)))
        }
    } else if type_ == TYPE_CNAME || type_ == TYPE_NS {
        match name_at(buf, start) {
            Ok((name, name_end)) => if name_end != end {
                Err(DnsError::FormatError)
            } else {
                Ok(RecordDataView::Name(name))
            },
            Err(e) => Err(e),
        }
    } else {
        Ok(RecordDataView::Data(buf.subrange(start, end)))
    }
}

/// The record at `pos`, and the position just past its data.
pub open spec fn record_at(buf: Seq<u8>, pos: int) -> Result<(RecordView, int), DnsError> {
    match name_at(buf, pos) {
        Ok((name, e)) => if e + 10 > buf.len() {
            Err(DnsError::FormatError)
        } else {
            let type_ = read16(buf, e);
            let start = e + 10;
            let end = start + read16(buf, e + 8);
            if end > buf.len() {
                Err(DnsError::FormatError)
            } else {
                match record_data_at(buf, type_, start, end) {
                    Ok(data) => Ok(
                        (
                            RecordView {
                                name,
                                type_,
                                class: read16(buf, e + 2),
                                ttl: read32(buf, e + 4),
                                data,
                            },
                            end,
                        ),
                    ),
                    Err(err) => Err(err),
                }
            }
        },
        Err(e) => Err(e),
    }
}

impl DnsRecord {
    /// Decodes the record at `cursor_start`; returns how many bytes it takes
    /// and the record.
    pub fn parse(buf: &[u8], cursor_start: usize) -> (r: Result<(usize, DnsRecord), DnsError>)
        ensures
            match record_at(buf@, cursor_start as int) {
                Ok((rec, end)) => r is Ok && r->Ok_0.0 == end - cursor_start && r->Ok_0.1@ == rec,
                Err(e) => r == Err::<(usize, DnsRecord), DnsError>(e),
            },
            r is Ok ==> cursor_start + r->Ok_0.0 <= buf@.len(),
    {
        let n = buf.len();
        let decoded = decode_name(buf, cursor_start);
        let (length, name) = match decoded {
            Ok(v) => v,
            Err(e) => return Err(e),
        };
        assert(cursor_start + length <= n);
        let cursor = cursor_start + length;
        if n - cursor < 10 {
            return Err(DnsError::FormatError);
        }
        let type_ = get16(buf, cursor);
        let class = get16(buf, cursor + 2);
        let ttl = get32(buf, cursor + 4);
        let data_length = get16(buf, cursor + 8) as usize;
        let start = cursor + 10;
        if data_length > n - start {
            return Err(DnsError::FormatError);
        }
        let end = start + data_length;
        let data = if type_ == TYPE_A {
            if data_length != 4 {
                return Err(DnsError::FormatError);
            }
            let address: [u8; 4] = [buf[start], buf[start + 1], buf[start + 2], buf[start + 3]];
            assert(address@ =~= buf@.subrange(start as int, end as int));
            DnsRecordData::Ipv4Addr(address)
        } else if type_ == TYPE_CNAME || type_ == TYPE_NS {
            let target = decode_name(buf, start);
            match target {
                Ok((target_length, target_name)) => {
                    if target_length != data_length {
                        return Err(DnsError::FormatError);
                    }
                    DnsRecordData::Name(target_name)
                },
                Err(e) => return Err(e),
            }
        } else {
            let mut raw: Vec<u8> = Vec::new();
            push_bytes(&mut raw, buf, start, end);
            assert(raw@ =~= buf@.subrange(start as int, end as int));
            DnsRecordData::Data(raw)
        };
        Ok((end - cursor_start, DnsRecord { name, type_, class, ttl, data }))
    }
}

/// The first `n` questions from `pos` on, and the position just past them.
pub open spec fn questions_at(buf: Seq<u8>, pos: int, n: nat) -> Result<
    (Seq<QuestionView>, int),
    DnsError,
>
    decreases n,
{
    if n == 0 {
        Ok((Seq::empty(), pos))
    } else {
        match questions_at(buf, pos, (n - 1) as nat) {
            Ok((qs, p)) => match question_at(buf, p) {
                Ok((q, end)) => Ok((qs.push(q), end)),
                Err(e) => Err(e),
            },
            Err(e) => Err(e),
        }
    }
}

/// The first `n` records from `pos` on, and the position just past them.
pub open spec fn records_at(buf: Seq<u8>, pos: int, n: nat) -> Result<
    (Seq<RecordView>, int),
    DnsError,
>
    decreases n,
{
    if n == 0 {
        Ok((Seq::empty(), pos))
    } else {
        match records_at(buf, pos, (n - 1) as nat) {
            Ok((rs, p)) => match record_at(buf, p) {
                Ok((r, end)) => Ok((rs.push(r), end)),
                Err(e) => Err(e),
            },
            Err(e) => Err(e),
        }
    }
}

proof fn lemma_questions_err_persists(buf: Seq<u8>, pos: int, k: nat, n: nat)
    requires
        k <= n,
        questions_at(buf, pos, k) is Err,
    ensures
        questions_at(buf, pos, n) == questions_at(buf, pos, k),
    decreases n - k,
{
    if k < n {
        lemma_questions_err_persists(buf, pos, k, (n - 1) as nat);
    }
}

proof fn lemma_records_err_persists(buf: Seq<u8>, pos: int, k: nat, n: nat)
    requires
        k <= n,
        records_at(buf, pos, k) is Err,
    ensures
        records_at(buf, pos, n) == records_at(buf, pos, k),
    decreases n - k,
{
    if k < n {
        lemma_records_err_persists(buf, pos, k, (n - 1) as nat);
    }
}

/// The models of a sequence of questions.
pub open spec fn questions_view(v: Seq<DnsQuestion>) -> Seq<QuestionView> {
    v.map_values(|q: DnsQuestion| q@)
}

/// The models of a sequence of records.
pub open spec fn records_view(v: Seq<DnsRecord>) -> Seq<RecordView> {
    v.map_values(|r: DnsRecord| r@)
}

fn parse_questions(buf: &[u8], pos: usize, count: u16) -> (r: Result<
    (Vec<DnsQuestion>, usize),
    DnsError,
>)
    requires
        pos <= buf@.len(),
    ensures
        match questions_at(buf@, pos as int, count as nat) {
            Ok((qs, end)) => r is Ok && questions_view(r->Ok_0.0@) == qs && r->Ok_0.1 == end,
            Err(e) => r == Err::<(Vec<DnsQuestion>, usize), DnsError>(e),
        },
        r is Ok ==> r->Ok_0.1 <= buf@.len(),
{
    let n = buf.len();
    let mut out: Vec<DnsQuestion> = Vec::new();
    let mut cursor = pos;
    let mut i: u16 = 0;
    assert(questions_view(out@) =~= Seq::<QuestionView>::empty());
    while i < count
        invariant
            n == buf@.len(),
            i <= count,
            cursor <= buf@.len(),
            questions_at(buf@, pos as int, i as nat) == Ok::<(Seq<QuestionView>, int), DnsError>(
                (questions_view(out@), cursor as int),
            ),
        decreases count - i,
    {
        match DnsQuestion::parse(buf, cursor) {
            Ok((length, question)) => {
                let ghost before = out@;
                out.push(question);
                assert(questions_view(out@) =~= questions_view(before).push(question@));
                cursor = cursor + length;
            },
            Err(e) => {
                proof {
                    lemma_questions_err_persists(buf@, pos as int, (i + 1) as nat, count as nat);
                }
                return Err(e);
            },
        }
        i = i + 1;
    }
    Ok((out, cursor))
}

fn parse_records(buf: &[u8], pos: usize, count: u16) -> (r: Result<
    (Vec<DnsRecord>, usize),
    DnsError,
>)
    requires
        pos <= buf@.len(),
    ensures
        match records_at(buf@, pos as int, count as nat) {
            Ok((rs, end)) => r is Ok && records_view(r->Ok_0.0@) == rs && r->Ok_0.1 == end,
            Err(e) => r == Err::<(Vec<DnsRecord>, usize), DnsError>(e),
        },
        r is Ok ==> r->Ok_0.1 <= buf@.len(),
{
    let n = buf.len();
    let mut out: Vec<DnsRecord> = Vec::new();
    let mut cursor = pos;
    let mut i: u16 = 0;
    assert(records_view(out@) =~= Seq::<RecordView>::empty());
    while i < count
        invariant
            n == buf@.len(),
            i <= count,
            cursor <= buf@.len(),
            records_at(buf@, pos as int, i as nat) == Ok::<(Seq<RecordView>, int), DnsError>(
                (records_view(out@), cursor as int),
            ),
        decreases count - i,
    {
        match DnsRecord::parse(buf, cursor) {
            Ok((length, record)) => {
                let ghost before = out@;
                out.push(record);
                assert(records_view(out@) =~= records_view(before).push(record@));
                cursor = cursor + length;
            },
            Err(e) => {
                proof {
                    lemma_records_err_persists(buf@, pos as int, (i + 1) as nat, count as nat);
                }
                return Err(e);
            },
        }
        i = i + 1;
    }
    Ok((out, cursor))
}

/// A decoded message: its header and its four sections.
#[derive(Debug)]
pub struct DnsPacket {
    pub header: DnsHeader,
    pub questions: Vec<DnsQuestion>,
    pub answers: Vec<DnsRecord>,
    pub authorities: Vec<DnsRecord>,
    pub additionals: Vec<DnsRecord>,
}

/// The model of a decoded message.
pub struct PacketView {
    pub header: DnsHeader,
    pub questions: Seq<QuestionView>,
    pub answers: Seq<RecordView>,
    pub authorities: Seq<RecordView>,
    pub additionals: Seq<RecordView>,
}

impl View for DnsPacket {
    type V = PacketView;

    open spec fn view(&self) -> PacketView {
        PacketView {
            header: self.header,
            questions: questions_view(self.questions@),
            answers: records_view(self.answers@),
            authorities: records_view(self.authorities@),
            additionals: records_view(self.additionals@),
        }
    }
}

/// The message in `buf`: the header, then as many questions, answers,
/// authorities and additionals as the header counts, one after the other.
/// Bytes after the last record are ignored.
pub open spec fn packet_at(buf: Seq<u8>) -> Result<PacketView, DnsError> {
    match header_at(buf) {
        Ok(h) => match questions_at(buf, HEADER_LENGTH as int, h.num_questions as nat) {
            Ok((qs, p1)) => match records_at(buf, p1, h.num_answers as nat) {
                Ok((ans, p2)) => match records_at(buf, p2, h.num_authorities as nat) {
                    Ok((auth, p3)) => match records_at(buf, p3, h.num_additionals as nat) {
                        Ok((add, _)) => Ok(
                            PacketView {
                                header: h,
                                questions: qs,
                                answers: ans,
                                authorities: auth,
                                additionals: add,
                            },
                        ),
                        Err(e) => Err(e),
                    },
                    Err(e) => Err(e),
                },
                Err(e) => Err(e),
            },
            Err(e) => Err(e),
        },
        Err(e) => Err(e),
    }
}

impl DnsPacket {
    /// Decodes a whole message.
    pub fn parse(buf: &[u8]) -> (r: Result<DnsPacket, DnsError>)
        ensures
            match packet_at(buf@) {
                Ok(p) => r is Ok && r->Ok_0@ == p,
                Err(e) => r == Err::<DnsPacket, DnsError>(e),
            },
    {
        let header = match DnsHeader::parse(buf) {
            Ok(h) => h,
            Err(e) => return Err(e),
        };
        let (questions, cursor) = match parse_questions(buf, HEADER_LENGTH, header.num_questions) {
            Ok(v) => v,
            Err(e) => return Err(e),
        };
        let (answers, cursor) = match parse_records(buf, cursor, header.num_answers) {
            Ok(v) => v,
            Err(e) => return Err(e),
        };
        let (authorities, cursor) = match parse_records(buf, cursor, header.num_authorities) {
            Ok(v) => v,
            Err(e) => return Err(e),
        };
        let (additionals, _) = match parse_records(buf, cursor, header.num_additionals) {
            Ok(v) => v,
            Err(e) => return Err(e),
        };
        Ok(DnsPacket { header, questions, answers, authorities, additionals })
    }
}

} // verus!
