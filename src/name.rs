use vstd::prelude::*;
use vstd::string::*;
use crate::error::DnsError;

verus! {

/// The byte that separates labels in the text form of a name.
pub const DOT: u8 = 46;

/// The longest label that a single length byte may announce.
pub const MAX_LABEL_LEN: usize = 63;

/// The labels of a name in text form: the text split at every `.`.
/// An empty text has one empty label.
pub open spec fn split_labels(s: Seq<u8>) -> Seq<Seq<u8>>
    decreases s.len(),
{
    if s.len() == 0 {
        seq![Seq::empty()]
    } else {
        let rest = split_labels(s.drop_last());
        if s.last() == DOT {
            rest.push(Seq::empty())
        } else {
            rest.update(rest.len() - 1, rest.last().push(s.last()))
        }
    }
}

/// The text form of a label sequence: the labels joined with `.`.
pub open spec fn join_labels(ls: Seq<Seq<u8>>) -> Seq<u8>
    decreases ls.len(),
{
    if ls.len() == 0 {
        Seq::empty()
    } else if ls.len() == 1 {
        ls[0]
    } else {
        join_labels(ls.drop_last()) + seq![DOT] + ls.last()
    }
}

/// Each label prefixed by its length byte, one after the other.
pub open spec fn wire_labels(ls: Seq<Seq<u8>>) -> Seq<u8>
    decreases ls.len(),
{
    if ls.len() == 0 {
        Seq::empty()
    } else {
        wire_labels(ls.drop_last()) + seq![ls.last().len() as u8] + ls.last()
    }
}

/// No label is longer than a length byte may announce.
pub open spec fn labels_fit(ls: Seq<Seq<u8>>) -> bool {
    forall|i: int| 0 <= i < ls.len() ==> #[trigger] ls[i].len() <= MAX_LABEL_LEN
}

/// A name whose labels can be encoded and decoded back: none empty, none
/// longer than 63 bytes.
pub open spec fn valid_domain(s: Seq<u8>) -> bool {
    forall|i: int|
        0 <= i < split_labels(s).len() ==> 1 <= #[trigger] split_labels(s)[i].len()
            <= MAX_LABEL_LEN
}

/// The wire form of a name given as text: its labels, then the zero-length
/// terminator.
pub open spec fn encoded_name(s: Seq<u8>) -> Seq<u8> {
    wire_labels(split_labels(s)) + seq![0u8]
}

/// The labels of the name that starts at `pos`, and the position just past
/// its wire form (past the terminator, or past a pointer). `seg` is where the
/// name segment being read began: a pointer must lead strictly before it, so
/// that every jump goes backwards past everything read so far.
pub open spec fn parse_labels(buf: Seq<u8>, seg: int, pos: int) -> Result<
    (Seq<Seq<u8>>, int),
    DnsError,
>
    decreases seg, buf.len() - pos,
{
    if pos < 0 || seg < 0 || pos >= buf.len() {
        Err(DnsError::FormatError)
    } else {
        let b = buf[pos];
        if b == 0 {
            Ok((Seq::empty(), pos + 1))
        } else if b >= 0xC0 {
            if pos >= buf.len() - 1 {
                Err(DnsError::FormatError)
            } else {
                let target = pointer_target(buf, pos);
                if target >= seg {
                    Err(DnsError::CompressionCycleError)
                } else {
                    match parse_labels(buf, target, target) {
                        Ok((ls, _)) => Ok((ls, pos + 2)),
                        Err(e) => Err(e),
                    }
                }
            }
        } else if b >= 0x40 {
            Err(DnsError::FormatError)
        } else if pos + 1 + b >= buf.len() {
            Err(DnsError::FormatError)
        } else {
            match parse_labels(buf, seg, pos + 1 + b) {
                Ok((ls, end)) => Ok((seq![buf.subrange(pos + 1, pos + 1 + b)] + ls, end)),
                Err(e) => Err(e),
            }
        }
    }
}

/// The 14-bit offset held by the pointer at `pos`.
pub open spec fn pointer_target(buf: Seq<u8>, pos: int) -> int {
    (buf[pos] - 0xC0) * 256 + buf[pos + 1]
}

/// The name at `pos` in text form, and the position just past its wire form.
pub open spec fn name_at(buf: Seq<u8>, pos: int) -> Result<(Seq<u8>, int), DnsError> {
    match parse_labels(buf, pos, pos) {
        Ok((ls, end)) => Ok((join_labels(ls), end)),
        Err(e) => Err(e),
    }
}

pub proof fn lemma_split_nonempty(s: Seq<u8>)
    ensures
        split_labels(s).len() >= 1,
    decreases s.len(),
{
    if s.len() > 0 {
        lemma_split_nonempty(s.drop_last());
    }
}

/// Joining the labels of a text gives the text back.
pub proof fn lemma_join_split(s: Seq<u8>)
    ensures
        join_labels(split_labels(s)) == s,
    decreases s.len(),
{
    if s.len() > 0 {
        let p = s.drop_last();
        lemma_split_nonempty(p);
        lemma_join_split(p);
        let rest = split_labels(p);
        let ls = split_labels(s);
        if s.last() == DOT {
            assert(ls.drop_last() =~= rest);
        } else if rest.len() > 1 {
            assert(ls.drop_last() =~= rest.drop_last());
            assert(join_labels(rest) == join_labels(rest.drop_last()) + seq![DOT] + rest.last());
        }
        assert(s =~= p.push(s.last()));
    }
}

/// The wire form of two label sequences one after the other.
pub proof fn lemma_wire_concat(a: Seq<Seq<u8>>, b: Seq<Seq<u8>>)
    ensures
        wire_labels(a + b) == wire_labels(a) + wire_labels(b),
    decreases b.len(),
{
    if b.len() == 0 {
        assert(a + b =~= a);
    } else {
        lemma_wire_concat(a, b.drop_last());
        assert((a + b).drop_last() =~= a + b.drop_last());
    }
}

/// Plain labels followed by a terminator decode to those labels, wherever
/// they stand in a buffer.
pub proof fn lemma_parse_wire(pre: Seq<u8>, ls: Seq<Seq<u8>>, post: Seq<u8>, seg: int)
    requires
        forall|i: int| 0 <= i < ls.len() ==> 1 <= #[trigger] ls[i].len() <= MAX_LABEL_LEN,
        0 <= seg,
    ensures
        parse_labels(pre + wire_labels(ls) + seq![0u8] + post, seg, pre.len() as int) == Ok::<
            (Seq<Seq<u8>>, int),
            DnsError,
        >((ls, (pre.len() + wire_labels(ls).len() + 1) as int)),
    decreases ls.len(),
{
    let buf = pre + wire_labels(ls) + seq![0u8] + post;
    let pos = pre.len() as int;
    if ls.len() == 0 {
        assert(ls =~= Seq::<Seq<u8>>::empty());
        assert(buf[pos] == 0);
    } else {
        let first = ls[0];
        let tail = ls.drop_first();
        assert(ls =~= seq![first] + tail);
        lemma_wire_concat(seq![first], tail);
        assert(seq![first].drop_last() =~= Seq::<Seq<u8>>::empty());
        assert(wire_labels(seq![first].drop_last()) == Seq::<u8>::empty());
        assert(seq![first].last() == first);
        let head = seq![first.len() as u8] + first;
        assert(wire_labels(seq![first]) =~= head);
        assert(wire_labels(ls) == head + wire_labels(tail));
        let pre2 = pre + head;
        assert(buf =~= pre2 + wire_labels(tail) + seq![0u8] + post);
        assert(buf[pos] == first.len() as u8);
        assert(buf.subrange(pos + 1, pos + 1 + first.len()) =~= first);
        lemma_parse_wire(pre2, tail, post, seg);
        let b = buf[pos] as int;
        assert(b == first.len());
        assert(pre2.len() == pos + 1 + b);
        assert(pos + 1 + b < buf.len());
        assert(buf.len() == pre2.len() + wire_labels(tail).len() + 1 + post.len());
        assert(seq![first] + tail =~= ls);
    }
}

/// Copies `src[from..to]` onto the end of `out`.
pub(crate) fn push_bytes(out: &mut Vec<u8>, src: &[u8], from: usize, to: usize)
    requires
        from <= to <= src@.len(),
    ensures
        final(out)@ == old(out)@ + src@.subrange(from as int, to as int),
{
    let mut i = from;
    while i < to
        invariant
            from <= i <= to <= src@.len(),
            out@ == old(out)@ + src@.subrange(from as int, i as int),
        decreases to - i,
    {
        out.push(src[i]);
        assert(src@.subrange(from as int, i + 1) =~= src@.subrange(from as int, i as int).push(
            src@[i as int],
        ));
        i = i + 1;
    }
}

/// Encodes a name in text form for the wire: each label prefixed by its
/// length byte, then a zero byte. Fails when a label is longer than 63 bytes.
pub fn encode_dns_name(domain_name: &str) -> (r: Result<Vec<u8>, DnsError>)
    ensures
        labels_fit(split_labels(domain_name.spec_bytes())) ==> r is Ok && r->Ok_0@
            == encoded_name(domain_name.spec_bytes()),
        !labels_fit(split_labels(domain_name.spec_bytes())) ==> r == Err::<Vec<u8>, DnsError>(
            DnsError::FormatError,
        ),
{
    let bytes = domain_name.as_bytes_vec();
    encode_name_bytes(bytes.as_slice())
}

/// Encodes a name given as the bytes of its text form.
pub fn encode_name_bytes(s: &[u8]) -> (r: Result<Vec<u8>, DnsError>)
    ensures
        labels_fit(split_labels(s@)) ==> r is Ok && r->Ok_0@ == encoded_name(s@),
        !labels_fit(split_labels(s@)) ==> r == Err::<Vec<u8>, DnsError>(DnsError::FormatError),
{
    let mut out: Vec<u8> = Vec::new();
    let mut fits = true;
    let mut start: usize = 0;
    let mut i: usize = 0;
    while i < s.len()
        invariant
            0 <= start <= i <= s@.len(),
            split_labels(s@.take(i as int)).len() >= 1,
            split_labels(s@.take(i as int)).last() == s@.subrange(start as int, i as int),
            fits == labels_fit(split_labels(s@.take(i as int)).drop_last()),
            fits ==> out@ == wire_labels(split_labels(s@.take(i as int)).drop_last()),
        decreases s@.len() - i,
    {
        let ghost ls = split_labels(s@.take(i as int));
        let ghost next = s@.take(i + 1);
        assert(next.drop_last() =~= s@.take(i as int));
        if s[i] == DOT {
            assert(split_labels(next) == ls.push(Seq::empty()));
            assert(split_labels(next).drop_last() =~= ls);
            assert(labels_fit(ls) == (labels_fit(ls.drop_last()) && ls.last().len()
                <= MAX_LABEL_LEN)) by {
                if labels_fit(ls.drop_last()) && ls.last().len() <= MAX_LABEL_LEN {
                    assert forall|k: int| 0 <= k < ls.len() implies #[trigger] ls[k].len()
                        <= MAX_LABEL_LEN by {
                        if k < ls.len() - 1 {
                            assert(ls[k] == ls.drop_last()[k]);
                        }
                    }
                }
                if labels_fit(ls) {
                    assert forall|k: int| 0 <= k < ls.drop_last().len() implies #[trigger] ls.drop_last()[k].len()
                        <= MAX_LABEL_LEN by {
                        assert(ls[k] == ls.drop_last()[k]);
                    }
                }
            }
            if fits && i - start <= MAX_LABEL_LEN {
                out.push((i - start) as u8);
                push_bytes(&mut out, s, start, i);
            } else {
                fits = false;
            }
            start = i + 1;
        } else {
            assert(split_labels(next).drop_last() =~= ls.drop_last());
            assert(s@.subrange(start as int, i + 1) =~= s@.subrange(start as int, i as int).push(
                s@[i as int],
            ));
        }
        i = i + 1;
    }
    let ghost ls = split_labels(s@.take(i as int));
    assert(s@.take(i as int) =~= s@);
    assert(labels_fit(ls) == (labels_fit(ls.drop_last()) && ls.last().len() <= MAX_LABEL_LEN))
        by {
        if labels_fit(ls.drop_last()) && ls.last().len() <= MAX_LABEL_LEN {
            assert forall|k: int| 0 <= k < ls.len() implies #[trigger] ls[k].len()
                <= MAX_LABEL_LEN by {
                if k < ls.len() - 1 {
                    assert(ls[k] == ls.drop_last()[k]);
                }
            }
        }
        if labels_fit(ls) {
            assert forall|k: int| 0 <= k < ls.drop_last().len() implies #[trigger] ls.drop_last()[k].len()
                <= MAX_LABEL_LEN by {
                assert(ls[k] == ls.drop_last()[k]);
            }
        }
    }
    if fits && i - start <= MAX_LABEL_LEN {
        out.push((i - start) as u8);
        push_bytes(&mut out, s, start, i);
        out.push(0u8);
        assert(ls.drop_last().push(ls.last()) =~= ls);
        Ok(out)
    } else {
        Err(DnsError::FormatError)
    }
}

/// The labels of a vector of labels, as sequences.
pub open spec fn labels_view(v: Seq<Vec<u8>>) -> Seq<Seq<u8>> {
    v.map_values(|l: Vec<u8>| l@)
}

/// What a label read returned, as the model of `parse_labels` states it.
pub open spec fn labels_result(r: Result<(Vec<Vec<u8>>, usize), DnsError>) -> Result<
    (Seq<Seq<u8>>, int),
    DnsError,
> {
    match r {
        Ok((v, end)) => Ok((labels_view(v@), end as int)),
        Err(e) => Err(e),
    }
}

/// Reads the labels of the name at `pos`, following a compression pointer
/// if one ends it.
fn read_labels(buf: &[u8], seg: usize, pos: usize) -> (r: Result<(Vec<Vec<u8>>, usize), DnsError>)
    ensures
        labels_result(r) == parse_labels(buf@, seg as int, pos as int),
        r is Ok ==> pos < r->Ok_0.1 <= buf@.len(),
    decreases seg, buf@.len() - pos, 1int,
{
    if pos >= buf.len() {
        return Err(DnsError::FormatError);
    }
    let b = buf[pos];
    if b == 0 {
        let empty: Vec<Vec<u8>> = Vec::new();
        assert(labels_view(empty@) =~= Seq::<Seq<u8>>::empty());
        return Ok((empty, pos + 1));
    }
    if b >= 0xC0 {
        return decode_compressed_name(buf, seg, pos);
    }
    if b >= 0x40 {
        return Err(DnsError::FormatError);
    }
    let len = b as usize;
    if len >= buf.len() - pos - 1 {
        return Err(DnsError::FormatError);
    }
    let mut label: Vec<u8> = Vec::new();
    push_bytes(&mut label, buf, pos + 1, pos + 1 + len);
    assert(label@ =~= buf@.subrange(pos + 1, pos + 1 + len));
    match read_labels(buf, seg, pos + 1 + len) {
        Ok((rest, end)) => {
            let mut ls = rest;
            let ghost old_ls = ls@;
            ls.insert(0, label);
            assert(labels_view(ls@) =~= seq![label@] + labels_view(old_ls));
            Ok((ls, end))
        },
        Err(e) => Err(e),
    }
}

/// Follows the compression pointer at `pos` and reads the labels it leads to.
/// The pointer must lead strictly before `seg`, where the segment being read
/// began.
fn decode_compressed_name(buf: &[u8], seg: usize, pos: usize) -> (r: Result<
    (Vec<Vec<u8>>, usize),
    DnsError,
>)
    requires
        pos < buf@.len(),
        buf@[pos as int] >= 0xC0,
    ensures
        labels_result(r) == parse_labels(buf@, seg as int, pos as int),
        r is Ok ==> pos < r->Ok_0.1 <= buf@.len(),
    decreases seg, buf@.len() - pos, 0int,
{
    if pos >= buf.len() - 1 {
        return Err(DnsError::FormatError);
    }
    let target = ((buf[pos] - 0xC0) as usize) * 256 + buf[pos + 1] as usize;
    if target >= seg {
        return Err(DnsError::CompressionCycleError);
    }
    match read_labels(buf, target, target) {
        Ok((ls, _)) => Ok((ls, pos + 2)),
        Err(e) => Err(e),
    }
}

/// Joins labels with `.` into the text form of a name.
fn join_name(ls: &Vec<Vec<u8>>) -> (r: Vec<u8>)
    ensures
        r@ == join_labels(labels_view(ls@)),
{
    let mut out: Vec<u8> = Vec::new();
    let mut i: usize = 0;
    while i < ls.len()
        invariant
            i <= ls@.len(),
            out@ == join_labels(labels_view(ls@).take(i as int)),
        decreases ls@.len() - i,
    {
        let ghost all = labels_view(ls@);
        assert(all.take(i + 1).drop_last() =~= all.take(i as int));
        if i > 0 {
            out.push(DOT);
        }
        let label = &ls[i];
        push_bytes(&mut out, label.as_slice(), 0, label.len());
        assert(label@.subrange(0, label@.len() as int) =~= label@);
        if i == 0 {
            assert(out@ =~= all.take(1)[0]);
        }
        i = i + 1;
    }
    assert(labels_view(ls@).take(i as int) =~= labels_view(ls@));
    out
}

/// Decodes the name at `cursor_start`: returns how many bytes its wire form
/// takes at that position (up to a terminator or a pointer, not what the
/// pointer leads to) and the name in text form.
pub fn decode_name(buf: &[u8], cursor_start: usize) -> (r: Result<(usize, Vec<u8>), DnsError>)
    ensures
        match name_at(buf@, cursor_start as int) {
            Ok((name, end)) => r is Ok && r->Ok_0.0 == end - cursor_start && r->Ok_0.1@ == name,
            Err(e) => r == Err::<(usize, Vec<u8>), DnsError>(e),
        },
        r is Ok ==> 0 < r->Ok_0.0 && cursor_start + r->Ok_0.0 <= buf@.len(),
{
    match read_labels(buf, cursor_start, cursor_start) {
        Ok((ls, end)) => Ok((end - cursor_start, join_name(&ls))),
        Err(e) => Err(e),
    }
}

/// A name that is a pointer to an earlier name decodes exactly as that name
/// does, and takes the two bytes of the pointer.
pub proof fn lemma_pointer_same_name(buf: Seq<u8>, p: int)
    requires
        0 <= p,
        p + 1 < buf.len(),
        buf[p] >= 0xC0,
        pointer_target(buf, p) < p,
    ensures
        match name_at(buf, pointer_target(buf, p)) {
            Ok((name, _)) => name_at(buf, p) == Ok::<(Seq<u8>, int), DnsError>((name, p + 2)),
            Err(e) => name_at(buf, p) == Err::<(Seq<u8>, int), DnsError>(e),
        },
{
}

/// A pointer that leads to its own position or later is refused as a cycle.
pub proof fn lemma_forward_pointer_refused(buf: Seq<u8>, p: int)
    requires
        0 <= p,
        p + 1 < buf.len(),
        buf[p] >= 0xC0,
        pointer_target(buf, p) >= p,
    ensures
        name_at(buf, p) == Err::<(Seq<u8>, int), DnsError>(DnsError::CompressionCycleError),
{
}

/// Decoding the wire form of a valid name gives the name back, wherever the
/// wire form stands in a buffer.
pub proof fn lemma_name_round_trip(pre: Seq<u8>, s: Seq<u8>, post: Seq<u8>)
    requires
        valid_domain(s),
    ensures
        name_at(pre + encoded_name(s) + post, pre.len() as int) == Ok::<(Seq<u8>, int), DnsError>(
            (s, (pre.len() + encoded_name(s).len()) as int),
        ),
{
    let ls = split_labels(s);
    lemma_parse_wire(pre, ls, post, pre.len() as int);
    assert(pre + encoded_name(s) + post =~= pre + wire_labels(ls) + seq![0u8] + post);
    lemma_join_split(s);
}

} // verus!
