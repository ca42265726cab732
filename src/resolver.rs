use vstd::prelude::*;
use vstd::string::*;
use crate::error::DnsError;
use crate::message::{
    packet_at, records_view, DnsPacket, DnsRecord, DnsRecordData, PacketView,
    RecordView, TYPE_A, TYPE_CNAME, TYPE_NS,
};
use crate::name::{labels_fit, push_bytes, split_labels};
use crate::query::{build_query_with_id, query_bytes, random_id, ID_BOUND};

verus! {

/// How many transport failures in a row are retried before one is reported.
pub const MAX_RETRIES: usize = 2;

/// The address of a.root-servers.net, where every resolution starts.
pub open spec fn root_server() -> Seq<u8> {
    seq![198u8, 41u8, 0u8, 4u8]
}

fn root_server_exec() -> (r: [u8; 4])
    ensures
        r@ == root_server(),
{
    let r: [u8; 4] = [198, 41, 0, 4];
    assert(r@ =~= root_server());
    r
}

/// `i` is the first index of `s` whose record meets `p`.
pub open spec fn is_first(s: Seq<RecordView>, i: int, p: spec_fn(RecordView) -> bool) -> bool {
    &&& 0 <= i < s.len()
    &&& p(s[i])
    &&& forall|j: int| 0 <= j < i ==> !p(#[trigger] s[j])
}

/// The first index of `s` whose record meets `p`, if there is one.
pub open spec fn first_index(s: Seq<RecordView>, p: spec_fn(RecordView) -> bool) -> Option<int> {
    if exists|i: int| is_first(s, i, p) {
        Some(choose|i: int| is_first(s, i, p))
    } else {
        None
    }
}

proof fn lemma_first_index(s: Seq<RecordView>, p: spec_fn(RecordView) -> bool, i: int)
    requires
        is_first(s, i, p),
    ensures
        first_index(s, p) == Some(i),
{
    let k = choose|k: int| is_first(s, k, p);
    assert(is_first(s, k, p));
    if k < i {
        assert(!p(s[k]));
    }
    if i < k {
        assert(!p(s[i]));
    }
}

proof fn lemma_no_index(s: Seq<RecordView>, p: spec_fn(RecordView) -> bool)
    requires
        forall|j: int| 0 <= j < s.len() ==> !p(#[trigger] s[j]),
    ensures
        first_index(s, p) is None,
{
    if exists|i: int| is_first(s, i, p) {
        let k = choose|k: int| is_first(s, k, p);
        assert(!p(s[k]));
    }
}

/// An address record of the requested type.
pub open spec fn address_of_type(t: u16) -> spec_fn(RecordView) -> bool {
    |r: RecordView| r.type_ == t && r.data is Ipv4Addr
}

/// A CNAME record that holds a name.
pub open spec fn alias_record() -> spec_fn(RecordView) -> bool {
    |r: RecordView| r.type_ == TYPE_CNAME && r.data is Name
}

/// An NS record that holds a name.
pub open spec fn nameserver_record() -> spec_fn(RecordView) -> bool {
    |r: RecordView| r.type_ == TYPE_NS && r.data is Name
}

/// Some NS record of `authorities` names `name` as a nameserver.
pub open spec fn names_nameserver(authorities: Seq<RecordView>, name: Seq<u8>) -> bool {
    exists|k: int|
        0 <= k < authorities.len() && nameserver_record()(#[trigger] authorities[k])
            && authorities[k].data->Name_0 == name
}

/// An address record for a nameserver that `authorities` names.
pub open spec fn glue_for(authorities: Seq<RecordView>) -> spec_fn(RecordView) -> bool {
    |r: RecordView| r.type_ == TYPE_A && r.data is Ipv4Addr && names_nameserver(authorities, r.name)
}

/// What a response lets the resolver do next.
#[derive(Debug)]
pub enum Step {
    /// The answer holds an address of the requested type.
    Answer([u8; 4]),
    /// The answer holds an alias: resolve its target instead.
    FollowCname(Vec<u8>),
    /// A referral whose nameserver's address came along: the nameserver's
    /// name and address.
    UseGlue(Vec<u8>, [u8; 4]),
    /// A referral without an address: resolve the nameserver's name first.
    ResolveNameserver(Vec<u8>),
    /// Nothing in the response leads on.
    NoProgress,
}

/// The model of a [`Step`].
pub enum StepView {
    Answer(Seq<u8>),
    FollowCname(Seq<u8>),
    UseGlue(Seq<u8>, Seq<u8>),
    ResolveNameserver(Seq<u8>),
    NoProgress,
}

impl View for Step {
    type V = StepView;

    open spec fn view(&self) -> StepView {
        match self {
            Step::Answer(a) => StepView::Answer(a@),
            Step::FollowCname(n) => StepView::FollowCname(n@),
            Step::UseGlue(n, a) => StepView::UseGlue(n@, a@),
            Step::ResolveNameserver(n) => StepView::ResolveNameserver(n@),
            Step::NoProgress => StepView::NoProgress,
        }
    }
}

/// The step that a response to a query of `record_type` leads to: the first
/// address of that type among the answers; else the first alias among the
/// answers; else the first additional address of a nameserver that an
/// authority record names; else the first nameserver among the authorities.
pub open spec fn next_step(p: PacketView, record_type: u16) -> StepView {
    match first_index(p.answers, address_of_type(record_type)) {
        Some(i) => StepView::Answer(p.answers[i].data->Ipv4Addr_0),
        None => match first_index(p.answers, alias_record()) {
            Some(i) => StepView::FollowCname(p.answers[i].data->Name_0),
            None => match first_index(p.additionals, glue_for(p.authorities)) {
                Some(i) => StepView::UseGlue(
                    p.additionals[i].name,
                    p.additionals[i].data->Ipv4Addr_0,
                ),
                None => match first_index(p.authorities, nameserver_record()) {
                    Some(i) => StepView::ResolveNameserver(p.authorities[i].data->Name_0),
                    None => StepView::NoProgress,
                },
            },
        },
    }
}

fn copy_bytes(v: &Vec<u8>) -> (r: Vec<u8>)
    ensures
        r@ == v@,
{
    let mut out: Vec<u8> = Vec::new();
    push_bytes(&mut out, v.as_slice(), 0, v.len());
    assert(out@ =~= v@);
    out
}

fn same_bytes(a: &Vec<u8>, b: &Vec<u8>) -> (r: bool)
    ensures
        r == (a@ == b@),
{
    if a.len() != b.len() {
        return false;
    }
    let mut i: usize = 0;
    while i < a.len()
        invariant
            a@.len() == b@.len(),
            i <= a@.len(),
            forall|j: int| 0 <= j < i ==> a@[j] == b@[j],
        decreases a@.len() - i,
    {
        if a[i] != b[i] {
            return false;
        }
        i = i + 1;
    }
    assert(a@ =~= b@);
    true
}

/// The address of the first answer of type `record_type` that holds one.
pub fn get_answer(packet: &DnsPacket, record_type: u16) -> (r: Option<[u8; 4]>)
    ensures
        match first_index(packet@.answers, address_of_type(record_type)) {
            Some(i) => r is Some && r->Some_0@ == packet@.answers[i].data->Ipv4Addr_0,
            None => r is None,
        },
{
    let ghost s = packet@.answers;
    let ghost p = address_of_type(record_type);
    let mut i: usize = 0;
    while i < packet.answers.len()
        invariant
            s == records_view(packet.answers@),
            p == address_of_type(record_type),
            i <= s.len(),
            forall|j: int| 0 <= j < i ==> !p(#[trigger] s[j]),
        decreases s.len() - i,
    {
        let record = &packet.answers[i];
        if record.type_ == record_type {
            match &record.data {
                DnsRecordData::Ipv4Addr(a) => {
                    proof {
                        lemma_first_index(s, p, i as int);
                    }
                    return Some(*a);
                },
                _ => {},
            }
        }
        i = i + 1;
    }
    proof {
        lemma_no_index(s, p);
    }
    None
}

/// The target of the first alias among the answers.
pub fn get_cname(packet: &DnsPacket) -> (r: Option<Vec<u8>>)
    ensures
        match first_index(packet@.answers, alias_record()) {
            Some(i) => r is Some && r->Some_0@ == packet@.answers[i].data->Name_0,
            None => r is None,
        },
{
    let ghost s = packet@.answers;
    let ghost p = alias_record();
    let mut i: usize = 0;
    while i < packet.answers.len()
        invariant
            s == records_view(packet.answers@),
            p == alias_record(),
            i <= s.len(),
            forall|j: int| 0 <= j < i ==> !p(#[trigger] s[j]),
        decreases s.len() - i,
    {
        let record = &packet.answers[i];
        if record.type_ == TYPE_CNAME {
            match &record.data {
                DnsRecordData::Name(n) => {
                    proof {
                        lemma_first_index(s, p, i as int);
                    }
                    return Some(copy_bytes(n));
                },
                _ => {},
            }
        }
        i = i + 1;
    }
    proof {
        lemma_no_index(s, p);
    }
    None
}

/// The name of the first nameserver among the authorities.
pub fn get_nameserver(packet: &DnsPacket) -> (r: Option<Vec<u8>>)
    ensures
        match first_index(packet@.authorities, nameserver_record()) {
            Some(i) => r is Some && r->Some_0@ == packet@.authorities[i].data->Name_0,
            None => r is None,
        },
{
    let ghost s = packet@.authorities;
    let ghost p = nameserver_record();
    let mut i: usize = 0;
    while i < packet.authorities.len()
        invariant
            s == records_view(packet.authorities@),
            p == nameserver_record(),
            i <= s.len(),
            forall|j: int| 0 <= j < i ==> !p(#[trigger] s[j]),
        decreases s.len() - i,
    {
        let record = &packet.authorities[i];
        if record.type_ == TYPE_NS {
            match &record.data {
                DnsRecordData::Name(n) => {
                    proof {
                        lemma_first_index(s, p, i as int);
                    }
                    return Some(copy_bytes(n));
                },
                _ => {},
            }
        }
        i = i + 1;
    }
    proof {
        lemma_no_index(s, p);
    }
    None
}

fn is_named_nameserver(authorities: &Vec<DnsRecord>, name: &Vec<u8>) -> (r: bool)
    ensures
        r == names_nameserver(records_view(authorities@), name@),
{
    let ghost s = records_view(authorities@);
    let mut k: usize = 0;
    while k < authorities.len()
        invariant
            s == records_view(authorities@),
            k <= s.len(),
            forall|j: int|
                0 <= j < k ==> !(nameserver_record()(#[trigger] s[j]) && s[j].data->Name_0
                    == name@),
        decreases s.len() - k,
    {
        let record = &authorities[k];
        if record.type_ == TYPE_NS {
            match &record.data {
                DnsRecordData::Name(n) => {
                    if same_bytes(n, name) {
                        assert(nameserver_record()(s[k as int]));
                        return true;
                    }
                },
                _ => {},
            }
        }
        k = k + 1;
    }
    false
}

/// The name and address of the first additional record that gives the
/// address of a nameserver named among the authorities.
pub fn get_nameserver_ip(packet: &DnsPacket) -> (r: Option<(Vec<u8>, [u8; 4])>)
    ensures
        match first_index(packet@.additionals, glue_for(packet@.authorities)) {
            Some(i) => r is Some && r->Some_0.0@ == packet@.additionals[i].name
                && r->Some_0.1@ == packet@.additionals[i].data->Ipv4Addr_0,
            None => r is None,
        },
{
    let ghost s = packet@.additionals;
    let ghost p = glue_for(packet@.authorities);
    let mut i: usize = 0;
    while i < packet.additionals.len()
        invariant
            s == records_view(packet.additionals@),
            p == glue_for(packet@.authorities),
            i <= s.len(),
            forall|j: int| 0 <= j < i ==> !p(#[trigger] s[j]),
        decreases s.len() - i,
    {
        let record = &packet.additionals[i];
        if record.type_ == TYPE_A {
            match &record.data {
                DnsRecordData::Ipv4Addr(a) => {
                    if is_named_nameserver(&packet.authorities, &record.name) {
                        proof {
                            lemma_first_index(s, p, i as int);
                        }
                        return Some((copy_bytes(&record.name), *a));
                    }
                },
                _ => {},
            }
        }
        i = i + 1;
    }
    proof {
        lemma_no_index(s, p);
    }
    None
}

/// Decides what a response to a query of `record_type` leads to.
pub fn decide(packet: &DnsPacket, record_type: u16) -> (r: Step)
    ensures
        r@ == next_step(packet@, record_type),
{
    if let Some(a) = get_answer(packet, record_type) {
        return Step::Answer(a);
    }
    if let Some(n) = get_cname(packet) {
        return Step::FollowCname(n);
    }
    if let Some((n, a)) = get_nameserver_ip(packet) {
        return Step::UseGlue(n, a);
    }
    if let Some(n) = get_nameserver(packet) {
        return Step::ResolveNameserver(n);
    }
    Step::NoProgress
}

/// The step bound that a resolution gets when the caller has no other.
pub const DEFAULT_MAX_STEPS: usize = 64;

/// One pending resolution: the name and type looked up, and the server that
/// the next query for it goes to.
#[derive(Debug)]
pub struct Frame {
    pub name: Vec<u8>,
    pub record_type: u16,
    pub server: [u8; 4],
}

/// The model of a [`Frame`].
pub struct FrameView {
    pub name: Seq<u8>,
    pub record_type: u16,
    pub server: Seq<u8>,
}

impl View for Frame {
    type V = FrameView;

    open spec fn view(&self) -> FrameView {
        FrameView { name: self.name@, record_type: self.record_type, server: self.server@ }
    }
}

/// A resolution of `name` for `record_type` that starts at the root server.
pub open spec fn fresh_frame(name: Seq<u8>, record_type: u16) -> FrameView {
    FrameView { name, record_type, server: root_server() }
}

/// The same resolution, with its next query going to `server`.
pub open spec fn with_server(f: FrameView, server: Seq<u8>) -> FrameView {
    FrameView { name: f.name, record_type: f.record_type, server }
}

/// An iterative resolution in progress, as an explicit stack: the last frame
/// is the lookup under way, each frame below it waits for the address of the
/// nameserver that the frame above resolves. Every query spends one step, so
/// referral chains and alias chains together end after the bound.
#[derive(Debug)]
pub struct Resolver {
    pub frames: Vec<Frame>,
    pub steps_left: usize,
    pub retries_left: usize,
    pub pending_id: u16,
}

/// The model of a [`Resolver`].
pub struct ResolverView {
    pub frames: Seq<FrameView>,
    pub steps_left: usize,
    pub retries_left: usize,
    pub pending_id: u16,
}

impl View for Resolver {
    type V = ResolverView;

    open spec fn view(&self) -> ResolverView {
        ResolverView {
            frames: self.frames@.map_values(|f: Frame| f@),
            steps_left: self.steps_left,
            retries_left: self.retries_left,
            pending_id: self.pending_id,
        }
    }
}

/// What handling an event led to.
#[derive(Debug, Clone, Copy, PartialEq, Eq)]
pub enum Outcome {
    /// Send the next query.
    Continue,
    /// The name resolved to this address.
    Resolved([u8; 4]),
    /// The resolution failed.
    Failed(DnsError),
}

/// The model of an [`Outcome`].
pub enum OutcomeView {
    Continue,
    Resolved(Seq<u8>),
    Failed(DnsError),
}

impl View for Outcome {
    type V = OutcomeView;

    open spec fn view(&self) -> OutcomeView {
        match self {
            Outcome::Continue => OutcomeView::Continue,
            Outcome::Resolved(a) => OutcomeView::Resolved(a@),
            Outcome::Failed(e) => OutcomeView::Failed(*e),
        }
    }
}

/// The stack after a step of the lookup on top of `frames`: an answer ends
/// that lookup and hands its address to the frame below as its server; an
/// alias replaces the lookup by one of its target; glue redirects the lookup
/// to the nameserver's address; a nameserver without glue is resolved first.
pub open spec fn frames_after(frames: Seq<FrameView>, step: StepView) -> Seq<FrameView> {
    match step {
        StepView::Answer(a) => {
            let rest = frames.drop_last();
            if rest.len() == 0 {
                rest
            } else {
                rest.update(rest.len() - 1, with_server(rest.last(), a))
            }
        },
        StepView::FollowCname(n) => frames.update(frames.len() - 1, fresh_frame(n, TYPE_A)),
        StepView::UseGlue(_, a) => frames.update(frames.len() - 1, with_server(frames.last(), a)),
        StepView::ResolveNameserver(n) => frames.push(fresh_frame(n, TYPE_A)),
        StepView::NoProgress => frames,
    }
}

/// What a step of the lookup on top of `frames` reports: the address once
/// the outermost lookup is answered, a protocol error when nothing leads on.
pub open spec fn outcome_after(frames: Seq<FrameView>, step: StepView) -> OutcomeView {
    match step {
        StepView::Answer(a) => if frames.len() == 1 {
            OutcomeView::Resolved(a)
        } else {
            OutcomeView::Continue
        },
        StepView::NoProgress => OutcomeView::Failed(DnsError::ProtocolError),
        _ => OutcomeView::Continue,
    }
}

impl Resolver {
    /// Starts the resolution of `domain_name` for `record_type` at the root
    /// server, with at most `max_steps` queries in all.
    pub fn new(domain_name: &str, record_type: u16, max_steps: usize) -> (r: Resolver)
        ensures
            r@.frames == seq![fresh_frame(domain_name.spec_bytes(), record_type)],
            r@.steps_left == max_steps,
            r@.retries_left == MAX_RETRIES,
            r@.pending_id == 0,
    {
        let name = domain_name.as_bytes_vec();
        let mut frames: Vec<Frame> = Vec::new();
        frames.push(Frame { name, record_type, server: root_server_exec() });
        let r = Resolver { frames, steps_left: max_steps, retries_left: MAX_RETRIES, pending_id: 0 };
        assert(r@.frames =~= seq![fresh_frame(domain_name.spec_bytes(), record_type)]);
        r
    }

    /// The query to send next and the server to send it to, for the lookup
    /// on top of the stack, with a fresh random transaction id. Spends one
    /// step; fails once the steps are spent, or when the name cannot be
    /// encoded.
    pub fn next_query(&mut self) -> (r: Result<([u8; 4], Vec<u8>), DnsError>)
        ensures
            old(self)@.frames.len() == 0 ==> r == Err::<([u8; 4], Vec<u8>), DnsError>(
                DnsError::ProtocolError,
            ) && final(self)@ == old(self)@,
            old(self)@.frames.len() > 0 && old(self)@.steps_left == 0 ==> r == Err::<
                ([u8; 4], Vec<u8>),
                DnsError,
            >(DnsError::DepthExceededError) && final(self)@ == old(self)@,
            old(self)@.frames.len() > 0 && old(self)@.steps_left > 0 ==> {
                let top = old(self)@.frames.last();
                &&& final(self)@.frames == old(self)@.frames
                &&& final(self)@.steps_left == old(self)@.steps_left - 1
                &&& final(self)@.retries_left == old(self)@.retries_left
                &&& labels_fit(split_labels(top.name)) ==> r is Ok && r->Ok_0.0@ == top.server
                    && r->Ok_0.1@ == query_bytes(
                    top.name,
                    top.record_type,
                    final(self)@.pending_id,
                ) && final(self)@.pending_id < ID_BOUND
                &&& !labels_fit(split_labels(top.name)) ==> r == Err::<
                    ([u8; 4], Vec<u8>),
                    DnsError,
                >(DnsError::FormatError)
            },
    {
        let n = self.frames.len();
        if n == 0 {
            return Err(DnsError::ProtocolError);
        }
        if self.steps_left == 0 {
            return Err(DnsError::DepthExceededError);
        }
        self.steps_left = self.steps_left - 1;
        let id = random_id();
        let top = &self.frames[n - 1];
        let server = top.server;
        let query = build_query_with_id(top.name.as_slice(), top.record_type, id);
        match query {
            Ok(q) => {
                self.pending_id = id;
                Ok((server, q))
            },
            Err(e) => Err(e),
        }
    }

    /// Takes in a response to the last query: checks its transaction id,
    /// decodes it and makes the step it leads to. A response with another id
    /// changes nothing: the query is to be sent again.
    pub fn handle_response(&mut self, response: &[u8]) -> (r: Outcome)
        ensures
            old(self)@.frames.len() == 0 ==> r@ == OutcomeView::Failed(DnsError::ProtocolError)
                && final(self)@ == old(self)@,
            old(self)@.frames.len() > 0 ==> match packet_at(response@) {
                Err(e) => r@ == OutcomeView::Failed(e) && final(self)@ == old(self)@,
                Ok(p) => if p.header.id != old(self)@.pending_id {
                    r@ == OutcomeView::Continue && final(self)@ == old(self)@
                } else {
                    let frames = old(self)@.frames;
                    let step = next_step(p, frames.last().record_type);
                    &&& final(self)@.frames == frames_after(frames, step)
                    &&& r@ == outcome_after(frames, step)
                    &&& final(self)@.steps_left == old(self)@.steps_left
                    &&& final(self)@.retries_left == MAX_RETRIES
                    &&& final(self)@.pending_id == old(self)@.pending_id
                },
            },
    {
        let n = self.frames.len();
        if n == 0 {
            return Outcome::Failed(DnsError::ProtocolError);
        }
        let packet = match DnsPacket::parse(response) {
            Ok(p) => p,
            Err(e) => return Outcome::Failed(e),
        };
        if packet.header.id != self.pending_id {
            return Outcome::Continue;
        }
        self.retries_left = MAX_RETRIES;
        let ghost frames = self@.frames;
        let record_type = self.frames[n - 1].record_type;
        let step = decide(&packet, record_type);
        match step {
            Step::Answer(a) => {
                let _ = self.frames.pop();
                assert(self@.frames =~= frames.drop_last());
                if n == 1 {
                    return Outcome::Resolved(a);
                }
                let parent = self.frames.pop().unwrap();
                self.frames.push(Frame { name: parent.name, record_type: parent.record_type, server: a });
                assert(self@.frames =~= frames.drop_last().update(n - 2, with_server(frames.drop_last().last(), a@)));
                Outcome::Continue
            },
            Step::FollowCname(target) => {
                let _ = self.frames.pop();
                self.frames.push(Frame { name: target, record_type: TYPE_A, server: root_server_exec() });
                assert(self@.frames =~= frames.update(n - 1, fresh_frame(target@, TYPE_A)));
                Outcome::Continue
            },
            Step::UseGlue(_, a) => {
                let current = self.frames.pop().unwrap();
                self.frames.push(Frame { name: current.name, record_type: current.record_type, server: a });
                assert(self@.frames =~= frames.update(n - 1, with_server(frames.last(), a@)));
                Outcome::Continue
            },
            Step::ResolveNameserver(ns) => {
                self.frames.push(Frame { name: ns, record_type: TYPE_A, server: root_server_exec() });
                assert(self@.frames =~= frames.push(fresh_frame(ns@, TYPE_A)));
                Outcome::Continue
            },
            Step::NoProgress => Outcome::Failed(DnsError::ProtocolError),
        }
    }

    /// Takes in a failure to send or to receive: the query is to be sent
    /// again while retries are left, else the failure is reported.
    pub fn handle_transport_error(&mut self, e: DnsError) -> (r: Outcome)
        ensures
            old(self)@.retries_left > 0 ==> r@ == OutcomeView::Continue && final(self)@
                == (ResolverView { retries_left: (old(self)@.retries_left - 1) as usize, ..old(self)@ }),
            old(self)@.retries_left == 0 ==> r@ == OutcomeView::Failed(e) && final(self)@ == old(self)@,
    {
        if self.retries_left > 0 {
            self.retries_left = self.retries_left - 1;
            Outcome::Continue
        } else {
            Outcome::Failed(e)
        }
    }
}

} // verus!
