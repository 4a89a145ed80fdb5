//! The batch serializer: one fixed compact-protocol "emitBatch" message.
//!
//! The encoder writes the fixed message preamble, the service name, an empty
//! process-tag terminator and the span-list header, then for every span its
//! id, parent, operation-name, reference, flags, timing and tag fields, and
//! closes the batch. The byte layout is pinned exactly, field by field, by
//! the spec functions of this module.

use crate::properties::Properties;
use crate::properties::grouped;
use crate::properties::props_runs;
use crate::properties::props_wf;
use crate::properties::runs_view;
use crate::properties::runs_with_id;
use crate::varint::binary;
use crate::varint::encode;
use crate::varint::list_header;
use crate::varint::varint;
use crate::varint::write_list_header;
use crate::varint::write_varint;
use crate::zigzag::zigzag32;
use crate::zigzag::zigzag64;
use std::collections::HashMap;
use vstd::prelude::*;

verus! {

broadcast use vstd::std_specs::hash::group_hash_axioms;

/// The role of a span inside its batch.
#[derive(Clone, Copy, Debug, PartialEq, Eq, Structural)]
pub enum State {
    Root,
    Local,
    Spawning,
    Scheduling,
    Settle,
}

/// One timed unit of work: its id, its role, the id of the span it relates
/// to, its cycle counts, and the key its operation name is looked up by.
#[derive(Clone, Copy, Debug, PartialEq, Eq, Structural)]
pub struct Span {
    pub id: u64,
    pub state: State,
    pub related_id: u64,
    pub begin_cycles: u64,
    pub elapsed_cycles: u64,
    pub event: u32,
}

/// One batch of spans: the time base and cycle scale, the spans in order,
/// and the flat property buffer with its parallel arrays.
pub struct TraceDetails {
    pub start_time_ns: u64,
    pub cycles_per_second: u64,
    pub spans: Vec<Span>,
    pub properties: Properties,
}

/// Why an encode call aborts without writing a byte.
#[derive(Clone, Copy, Debug, PartialEq, Eq, Structural)]
pub enum EncodeError {
    /// The property id and length arrays disagree, or the runs they describe
    /// overrun the buffer.
    InvalidProperties,
    /// No span of the batch has the Root role.
    NoRootSpan,
}

/// The fixed 16-byte message prefix: protocol id, compact version with the
/// oneway bit, sequence id 0, the method name "emitBatch", the batch and
/// process struct headers, and the service-name field header.
pub open spec fn preamble() -> Seq<u8> {
    seq![
        0x82u8,
        0x81u8,
        0x00u8,
        0x09u8,
        0x65u8,
        0x6du8,
        0x69u8,
        0x74u8,
        0x42u8,
        0x61u8,
        0x74u8,
        0x63u8,
        0x68u8,
        0x1cu8,
        0x1cu8,
        0x18u8,
    ]
}

/// The operation-name suffix of a role: the ASCII bytes of
/// " (Root spawning)", " (Spawning)" or " (Scheduling)", and nothing for the
/// other roles.
pub open spec fn suffix_bytes(state: State) -> Seq<u8> {
    match state {
        State::Root => seq![
            32u8,
            40u8,
            82u8,
            111u8,
            111u8,
            116u8,
            32u8,
            115u8,
            112u8,
            97u8,
            119u8,
            110u8,
            105u8,
            110u8,
            103u8,
            41u8,
        ],
        State::Spawning => seq![
            32u8,
            40u8,
            83u8,
            112u8,
            97u8,
            119u8,
            110u8,
            105u8,
            110u8,
            103u8,
            41u8,
        ],
        State::Scheduling => seq![
            32u8,
            40u8,
            83u8,
            99u8,
            104u8,
            101u8,
            100u8,
            117u8,
            108u8,
            105u8,
            110u8,
            103u8,
            41u8,
        ],
        _ => Seq::empty(),
    }
}

/// The reference kind of a non-root span: 0 ("child of") for Local, 1
/// ("follows from") for the rest.
pub open spec fn ref_kind(state: State) -> i32 {
    match state {
        State::Local => 0,
        _ => 1,
    }
}

/// The flags field header: delta 2 for the root (the references field was
/// omitted), delta 1 otherwise.
pub open spec fn flags_header(state: State) -> u8 {
    if state is Root {
        0x25
    } else {
        0x15
    }
}

/// An i64 field: header byte `0x16`, then the zigzag code as a varint.
pub open spec fn i64_field(v: i64) -> Seq<u8> {
    seq![0x16u8] + varint(zigzag64(v))
}

/// The references list of a non-root span: one reference struct holding the
/// kind, the trace id pair and the related span id.
pub open spec fn refs_bytes(related_id: u64, state: State, low: i64, high: i64) -> Seq<u8> {
    seq![0x19u8, 0x1cu8, 0x15u8] + varint(zigzag32(ref_kind(state)) as u64) + i64_field(low)
        + i64_field(high) + i64_field(related_id as i64) + seq![0x00u8]
}

/// The index of the first colon of a run, or the run's length if it has none.
pub open spec fn first_colon(run: Seq<u8>) -> int
    decreases run.len(),
{
    if run.len() == 0 {
        0
    } else if run[0] == 58 {
        0
    } else {
        1 + first_colon(run.skip(1))
    }
}

/// The key of a `key:value` run: everything before the first colon, or the
/// whole run if it has none.
pub open spec fn tag_key(run: Seq<u8>) -> Seq<u8> {
    run.take(first_colon(run))
}

/// The value of a `key:value` run: everything after the first colon, or
/// nothing if the run has none.
pub open spec fn tag_value(run: Seq<u8>) -> Seq<u8> {
    if first_colon(run) < run.len() {
        run.skip(first_colon(run) + 1)
    } else {
        Seq::empty()
    }
}

/// One tag struct: the key, the constant "string" tag type, the value, and
/// the struct terminator.
pub open spec fn tag_bytes(run: Seq<u8>) -> Seq<u8> {
    seq![0x18u8] + binary(tag_key(run)) + seq![0x15u8, 0x00u8, 0x18u8] + binary(tag_value(run))
        + seq![0x00u8]
}

/// The tag structs of a span's runs, one after the other.
pub open spec fn tags_concat(tags: Seq<Seq<u8>>) -> Seq<u8>
    decreases tags.len(),
{
    if tags.len() == 0 {
        Seq::empty()
    } else {
        tags_concat(tags.drop_last()) + tag_bytes(tags.last())
    }
}

/// The whole tags field of a span: nothing when the span owns no runs, else
/// the field header, the list header and the tag structs.
pub open spec fn tags_section(tags: Seq<Seq<u8>>) -> Seq<u8> {
    if tags.len() == 0 {
        Seq::empty()
    } else {
        seq![0x19u8] + list_header(tags.len() as u64) + tags_concat(tags)
    }
}

/// The byte runs owned by `id`, in input order.
pub open spec fn tags_of(rs: Seq<(u64, Seq<u8>)>, id: u64) -> Seq<Seq<u8>> {
    runs_with_id(rs, id).map_values(|r: (u64, Seq<u8>)| r.1)
}

/// Cycle counts scaled to microseconds, truncated.
pub open spec fn micros(cycles: int, cps: u64) -> int {
    cycles * 1_000_000 / (cps as int)
}

/// A span's start time in microseconds: the batch's time base plus the
/// span's cycle distance from the root span, scaled.
pub open spec fn start_val(base_us: u64, begin: u64, anchor: u64, cps: u64) -> int {
    base_us + micros(begin - anchor, cps)
}

/// A span's duration in microseconds.
pub open spec fn duration_val(elapsed: u64, cps: u64) -> int {
    micros(elapsed as int, cps)
}

/// All bytes of one span struct, in field order.
pub open spec fn span_bytes(
    span: Span,
    name: Seq<u8>,
    low: i64,
    high: i64,
    sv: u64,
    dv: u64,
    tags: Seq<Seq<u8>>,
) -> Seq<u8> {
    i64_field(low) + i64_field(high) + i64_field(span.id as i64) + i64_field(
        span.related_id as i64,
    ) + seq![0x18u8] + binary(name + suffix_bytes(span.state)) + (if span.state is Root {
        Seq::<u8>::empty()
    } else {
        refs_bytes(span.related_id, span.state, low, high)
    }) + seq![flags_header(span.state)] + varint(zigzag32(1) as u64) + i64_field(sv as i64)
        + i64_field(dv as i64) + tags_section(tags) + seq![0x00u8]
}

/// Whether some span of the batch has the Root role.
pub open spec fn has_root(spans: Seq<Span>) -> bool {
    exists|i: int| 0 <= i < spans.len() && (#[trigger] spans[i]).state is Root
}

/// The index of the first Root span, or the length if there is none.
pub open spec fn first_root(spans: Seq<Span>) -> int
    decreases spans.len(),
{
    if spans.len() == 0 {
        0
    } else if spans[0].state is Root {
        0
    } else {
        1 + first_root(spans.skip(1))
    }
}

/// The cycle count of the first Root span: the batch's time anchor.
pub open spec fn anchor_cycles(spans: Seq<Span>) -> u64 {
    spans[first_root(spans)].begin_cycles
}

/// The machine-limit precondition on the batch's timing: with the root's
/// cycle count as the anchor, no span begins before it and every scaled
/// time fits an unsigned 64-bit value.
pub open spec fn timing_ok(td: TraceDetails) -> bool {
    has_root(td.spans@) ==> forall|i: int|
        #![trigger td.spans@[i]]
        0 <= i < td.spans@.len() ==> {
            &&& td.spans@[i].begin_cycles >= anchor_cycles(td.spans@)
            &&& start_val(
                (td.start_time_ns / 1000) as u64,
                td.spans@[i].begin_cycles,
                anchor_cycles(td.spans@),
                td.cycles_per_second,
            ) <= u64::MAX
            &&& duration_val(td.spans@[i].elapsed_cycles, td.cycles_per_second) <= u64::MAX
        }
}

/// The views of a vector of operation names.
pub open spec fn names_view(names: Seq<Vec<u8>>) -> Seq<Seq<u8>> {
    names.map_values(|v: Vec<u8>| v@)
}

/// The concatenated span structs of the first `n` spans.
pub open spec fn spans_prefix(
    spans: Seq<Span>,
    names: Seq<Seq<u8>>,
    low: i64,
    high: i64,
    anchor: u64,
    base_us: u64,
    cps: u64,
    rs: Seq<(u64, Seq<u8>)>,
    n: int,
) -> Seq<u8>
    decreases n,
{
    if n <= 0 {
        Seq::empty()
    } else {
        spans_prefix(spans, names, low, high, anchor, base_us, cps, rs, n - 1) + span_bytes(
            spans[n - 1],
            names[n - 1],
            low,
            high,
            start_val(base_us, spans[n - 1].begin_cycles, anchor, cps) as u64,
            duration_val(spans[n - 1].elapsed_cycles, cps) as u64,
            tags_of(rs, spans[n - 1].id),
        )
    }
}

/// The whole emitBatch message for one batch: preamble, service name, empty
/// process tags, the span list, and the closing struct terminators.
pub open spec fn batch_bytes(
    service: Seq<u8>,
    td: TraceDetails,
    names: Seq<Seq<u8>>,
    low: i64,
    high: i64,
) -> Seq<u8> {
    preamble() + binary(service) + seq![0x00u8, 0x19u8] + list_header(td.spans@.len() as u64)
        + spans_prefix(
        td.spans@,
        names,
        low,
        high,
        anchor_cycles(td.spans@),
        (td.start_time_ns / 1000) as u64,
        td.cycles_per_second,
        props_runs(td.properties),
        td.spans@.len() as int,
    ) + seq![0x00u8, 0x00u8]
}

proof fn lemma_first_colon(run: Seq<u8>)
    ensures
        0 <= first_colon(run) <= run.len(),
        first_colon(run) < run.len() ==> run[first_colon(run)] == 58,
        forall|j: int| 0 <= j < first_colon(run) ==> run[j] != 58,
    decreases run.len(),
{
    if run.len() == 0 {
    } else if run[0] == 58 {
    } else {
        lemma_first_colon(run.skip(1));
        assert forall|j: int| 0 <= j < first_colon(run) implies run[j] != 58 by {
            if j > 0 {
                assert(run.skip(1)[j - 1] == run[j]);
            }
        }
        if first_colon(run) < run.len() {
            assert(run.skip(1)[first_colon(run) - 1] == run[first_colon(run)]);
        }
    }
}

proof fn lemma_first_root(spans: Seq<Span>)
    ensures
        0 <= first_root(spans) <= spans.len(),
        first_root(spans) < spans.len() <==> has_root(spans),
        first_root(spans) < spans.len() ==> (spans[first_root(spans)].state is Root && forall|
            j: int,
        | 0 <= j < first_root(spans) ==> !((#[trigger] spans[j]).state is Root)),
    decreases spans.len(),
{
    if spans.len() == 0 {
        assert(!has_root(spans));
    } else if spans[0].state is Root {
        assert(has_root(spans));
    } else {
        lemma_first_root(spans.skip(1));
        let d = spans.skip(1);
        assert(has_root(d) <==> has_root(spans)) by {
            if has_root(d) {
                let k = choose|k: int| 0 <= k < d.len() && (#[trigger] d[k]).state is Root;
                assert(spans[k + 1] == d[k]);
                assert(has_root(spans));
            }
            if has_root(spans) {
                let k = choose|k: int| 0 <= k < spans.len() && (#[trigger] spans[k]).state is Root;
                assert(k > 0);
                assert(d[k - 1] == spans[k]);
                assert(has_root(d));
            }
        }
        if first_root(spans) < spans.len() {
            assert(d[first_root(spans) - 1] == spans[first_root(spans)]);
            assert forall|j: int| 0 <= j < first_root(spans) implies !((#[trigger] spans[j]).state
                is Root) by {
                if j > 0 {
                    assert(d[j - 1] == spans[j]);
                }
            }
        }
    }
}

/// Append an i64 field: the `0x16` header, then the zigzag code as a varint.
fn write_i64_field(buf: &mut Vec<u8>, v: i64)
    ensures
        final(buf)@ == old(buf)@ + i64_field(v),
{
    buf.push(0x16);
    write_varint(buf, crate::zigzag::from_i64(v));
    proof {
        assert(buf@ =~= old(buf)@ + i64_field(v));
    }
}

/// Append the operation-name suffix of a role.
fn write_suffix(buf: &mut Vec<u8>, state: State)
    ensures
        final(buf)@ == old(buf)@ + suffix_bytes(state),
{
    match state {
        State::Root => {
            buf.push(32);
            buf.push(40);
            buf.push(82);
            buf.push(111);
            buf.push(111);
            buf.push(116);
            buf.push(32);
            buf.push(115);
            buf.push(112);
            buf.push(97);
            buf.push(119);
            buf.push(110);
            buf.push(105);
            buf.push(110);
            buf.push(103);
            buf.push(41);
            proof {
                assert(buf@ =~= old(buf)@ + suffix_bytes(state));
            }
        },
        State::Spawning => {
            buf.push(32);
            buf.push(40);
            buf.push(83);
            buf.push(112);
            buf.push(97);
            buf.push(119);
            buf.push(110);
            buf.push(105);
            buf.push(110);
            buf.push(103);
            buf.push(41);
            proof {
                assert(buf@ =~= old(buf)@ + suffix_bytes(state));
            }
        },
        State::Scheduling => {
            buf.push(32);
            buf.push(40);
            buf.push(83);
            buf.push(99);
            buf.push(104);
            buf.push(101);
            buf.push(100);
            buf.push(117);
            buf.push(108);
            buf.push(105);
            buf.push(110);
            buf.push(103);
            buf.push(41);
            proof {
                assert(buf@ =~= old(buf)@ + suffix_bytes(state));
            }
        },
        _ => {
            proof {
                assert(buf@ =~= old(buf)@ + suffix_bytes(state));
            }
        },
    }
}

/// Append one tag struct for a `key:value` run, split at its first colon.
fn write_tag(buf: &mut Vec<u8>, run: &[u8])
    ensures
        final(buf)@ == old(buf)@ + tag_bytes(run@),
{
    let n = run.len();
    let mut c: usize = 0;
    while c < n && run[c] != 58
        invariant
            0 <= c <= n,
            n == run@.len(),
            forall|j: int| 0 <= j < c ==> run@[j] != 58,
        decreases n - c,
    {
        c = c + 1;
    }
    proof {
        lemma_first_colon(run@);
        assert(c == first_colon(run@)) by {
            if c < n {
                if c < first_colon(run@) {
                    assert(run@[c as int] != 58);
                } else if first_colon(run@) < c {
                    assert(run@[first_colon(run@)] != 58);
                }
            } else {
                if first_colon(run@) < n {
                    assert(run@[first_colon(run@)] != 58);
                }
            }
        }
    }
    let key = vstd::slice::slice_subrange(run, 0, c);
    let value = if c < n {
        vstd::slice::slice_subrange(run, c + 1, n)
    } else {
        vstd::slice::slice_subrange(run, n, n)
    };
    proof {
        assert(key@ =~= tag_key(run@));
        assert(value@ =~= tag_value(run@));
    }
    buf.push(0x18);
    encode(key, buf);
    buf.push(0x15);
    buf.push(0x00);
    buf.push(0x18);
    encode(value, buf);
    buf.push(0x00);
    proof {
        assert(buf@ =~= old(buf)@ + tag_bytes(run@));
    }
}

/// Append the references list of a non-root span.
fn write_refs(buf: &mut Vec<u8>, related_id: u64, state: State, low: i64, high: i64)
    ensures
        final(buf)@ == old(buf)@ + refs_bytes(related_id, state, low, high),
{
    buf.push(0x19);
    buf.push(0x1c);
    buf.push(0x15);
    let kind: i32 = match state {
        State::Local => 0,
        _ => 1,
    };
    write_varint(buf, crate::zigzag::from_i32(kind) as u64);
    proof {
        assert(kind == ref_kind(state));
        assert(buf@ =~= old(buf)@ + seq![0x19u8, 0x1cu8, 0x15u8] + varint(
            zigzag32(ref_kind(state)) as u64,
        ));
    }
    write_i64_field(buf, low);
    write_i64_field(buf, high);
    write_i64_field(buf, #[verifier::truncate] (related_id as i64));
    buf.push(0x00);
    proof {
        assert(buf@ =~= old(buf)@ + refs_bytes(related_id, state, low, high));
    }
}

/// Append the tags field of the span owning `id`: nothing when it owns no
/// runs, else the grouped runs as tag structs.
fn write_tags(
    buf: &mut Vec<u8>,
    id: u64,
    pairs: &Vec<(u64, Vec<u8>)>,
    index: &HashMap<u64, (usize, usize)>,
    Ghost(rs): Ghost<Seq<(u64, Seq<u8>)>>,
)
    requires
        grouped(rs, runs_view(pairs@), index@),
    ensures
        final(buf)@ == old(buf)@ + tags_section(tags_of(rs, id)),
{
    let ghost tags = tags_of(rs, id);
    match index.get(&id) {
        Some(fl) => {
            let from = fl.0;
            let limit = fl.1;
            proof {
                assert(index@.contains_key(id));
                assert((from, limit) == index@[id]);
                assert(runs_view(pairs@).subrange(from as int, from + limit) == runs_with_id(
                    rs,
                    id,
                ));
                assert(runs_view(pairs@).len() == pairs@.len());
                assert(tags.len() == limit);
            }
            buf.push(0x19);
            write_list_header(buf, limit);
            proof {
                assert(tags_concat(tags.take(0)) =~= Seq::<u8>::empty());
                assert(buf@ =~= old(buf)@ + seq![0x19u8] + list_header(limit as u64)
                    + tags_concat(tags.take(0)));
            }
            let plen = pairs.len();
            let mut t: usize = 0;
            while t < limit
                invariant
                    grouped(rs, runs_view(pairs@), index@),
                    index@.contains_key(id),
                    (from, limit) == index@[id],
                    from + limit <= plen,
                    plen == pairs@.len(),
                    runs_view(pairs@).len() == pairs@.len(),
                    tags == tags_of(rs, id),
                    tags.len() == limit,
                    0 <= t <= limit,
                    buf@ == old(buf)@ + seq![0x19u8] + list_header(limit as u64) + tags_concat(
                        tags.take(t as int),
                    ),
                decreases limit - t,
            {
                let run = &pairs[from + t].1;
                proof {
                    assert(runs_view(pairs@)[from + t] == runs_with_id(rs, id)[t as int]);
                    assert(run@ == runs_with_id(rs, id)[t as int].1);
                    assert(tags[t as int] == run@);
                }
                write_tag(buf, run.as_slice());
                proof {
                    assert(tags.take(t + 1).drop_last() =~= tags.take(t as int));
                    assert(tags.take(t + 1).last() == tags[t as int]);
                    assert(buf@ =~= old(buf)@ + seq![0x19u8] + list_header(limit as u64)
                        + tags_concat(tags.take(t + 1)));
                }
                t = t + 1;
            }
            proof {
                assert(tags.take(limit as int) =~= tags);
                assert(buf@ =~= old(buf)@ + tags_section(tags));
            }
        },
        None => {
            proof {
                assert(!index@.contains_key(id));
                assert(tags.len() == 0);
                assert(buf@ =~= old(buf)@ + tags_section(tags));
            }
        },
    }
}

/// Append one whole span struct.
fn write_span(
    buf: &mut Vec<u8>,
    span: &Span,
    name: &Vec<u8>,
    low: i64,
    high: i64,
    anchor: u64,
    base_us: u64,
    cps: u64,
    pairs: &Vec<(u64, Vec<u8>)>,
    index: &HashMap<u64, (usize, usize)>,
    Ghost(rs): Ghost<Seq<(u64, Seq<u8>)>>,
)
    requires
        grouped(rs, runs_view(pairs@), index@),
        cps > 0,
        span.begin_cycles >= anchor,
        start_val(base_us, span.begin_cycles, anchor, cps) <= u64::MAX,
        duration_val(span.elapsed_cycles, cps) <= u64::MAX,
    ensures
        final(buf)@ == old(buf)@ + span_bytes(
            *span,
            name@,
            low,
            high,
            start_val(base_us, span.begin_cycles, anchor, cps) as u64,
            duration_val(span.elapsed_cycles, cps) as u64,
            tags_of(rs, span.id),
        ),
{
    write_i64_field(buf, low);
    write_i64_field(buf, high);
    write_i64_field(buf, #[verifier::truncate] (span.id as i64));
    write_i64_field(buf, #[verifier::truncate] (span.related_id as i64));
    let ghost part1 = i64_field(low) + i64_field(high) + i64_field(span.id as i64) + i64_field(
        span.related_id as i64,
    );
    proof {
        assert(buf@ =~= old(buf)@ + part1);
    }
    buf.push(0x18);
    let mut op = vstd::slice::slice_to_vec(name.as_slice());
    write_suffix(&mut op, span.state);
    encode(op.as_slice(), buf);
    let ghost part2 = part1 + seq![0x18u8] + binary(name@ + suffix_bytes(span.state));
    proof {
        assert(op@ == name@ + suffix_bytes(span.state));
        assert(buf@ =~= old(buf)@ + part2);
    }
    if span.state != State::Root {
        write_refs(buf, span.related_id, span.state, low, high);
    }
    let ghost part3 = part2 + (if span.state is Root {
        Seq::<u8>::empty()
    } else {
        refs_bytes(span.related_id, span.state, low, high)
    });
    proof {
        assert(buf@ =~= old(buf)@ + part3);
    }
    if span.state != State::Root {
        buf.push(0x15);
    } else {
        buf.push(0x25);
    }
    write_varint(buf, crate::zigzag::from_i32(1) as u64);
    let ghost part4 = part3 + seq![flags_header(span.state)] + varint(zigzag32(1) as u64);
    proof {
        assert(buf@ =~= old(buf)@ + part4);
    }
    let delta: u64 = span.begin_cycles - anchor;
    let wide: u128 = (delta as u128) * 1_000_000 / (cps as u128);
    proof {
        vstd::arithmetic::div_mod::lemma_div_pos_is_pos((delta as int) * 1_000_000, cps as int);
        assert(wide == micros(delta as int, cps));
        assert(wide <= u64::MAX);
    }
    let sv: u64 = base_us + (wide as u64);
    write_i64_field(buf, #[verifier::truncate] (sv as i64));
    let wide2: u128 = (span.elapsed_cycles as u128) * 1_000_000 / (cps as u128);
    proof {
        vstd::arithmetic::div_mod::lemma_div_pos_is_pos(
            (span.elapsed_cycles as int) * 1_000_000,
            cps as int,
        );
        assert(wide2 == micros(span.elapsed_cycles as int, cps));
        assert(wide2 <= u64::MAX);
    }
    let dv: u64 = wide2 as u64;
    write_i64_field(buf, #[verifier::truncate] (dv as i64));
    let ghost svg = start_val(base_us, span.begin_cycles, anchor, cps) as u64;
    let ghost dvg = duration_val(span.elapsed_cycles, cps) as u64;
    let ghost part5 = part4 + i64_field(svg as i64) + i64_field(dvg as i64);
    proof {
        assert(sv == svg);
        assert(dv == dvg);
        assert(buf@ =~= old(buf)@ + part5);
    }
    write_tags(buf, span.id, pairs, index, Ghost(rs));
    buf.push(0x00);
    proof {
        assert(buf@ =~= old(buf)@ + part5 + tags_section(tags_of(rs, span.id)) + seq![0x00u8]);
        assert(buf@ =~= old(buf)@ + span_bytes(
            *span,
            name@,
            low,
            high,
            svg,
            dvg,
            tags_of(rs, span.id),
        ));
    }
}

/// Find the batch's time anchor: the cycle count of its first Root span.
fn find_anchor(spans: &Vec<Span>) -> (r: Option<u64>)
    ensures
        r == if has_root(spans@) {
            Some(anchor_cycles(spans@))
        } else {
            None::<u64>
        },
{
    let n = spans.len();
    let mut i: usize = 0;
    while i < n
        invariant
            n == spans@.len(),
            0 <= i <= n,
            forall|j: int| 0 <= j < i ==> !((#[trigger] spans@[j]).state is Root),
        decreases n - i,
    {
        if spans[i].state == State::Root {
            proof {
                lemma_first_root(spans@);
                assert(spans@[i as int].state is Root);
                assert(has_root(spans@));
                assert(first_root(spans@) == i) by {
                    if first_root(spans@) < i {
                        assert(!(spans@[first_root(spans@)].state is Root));
                    } else if i < first_root(spans@) {
                        assert(!(spans@[i as int].state is Root));
                    }
                }
            }
            return Some(spans[i].begin_cycles);
        }
        i = i + 1;
    }
    proof {
        if has_root(spans@) {
            let k = choose|k: int| 0 <= k < spans@.len() && (#[trigger] spans@[k]).state is Root;
            assert(!(spans@[k].state is Root));
        }
    }
    None
}

/// Encode one batch as a complete emitBatch message, appended to `buf`.
///
/// `operation_names[i]` is the externally resolved operation name of span
/// `i`, before its role suffix. The trace-id pair is supplied by the caller
/// and written unchanged into every span and reference. On success the
/// appended bytes are exactly `batch_bytes`; a batch whose property arrays
/// disagree or which has no Root span aborts the call with nothing written.
pub fn thrift_encode(
    buf: &mut Vec<u8>,
    service_name: &[u8],
    td: &TraceDetails,
    operation_names: &Vec<Vec<u8>>,
    trace_id_low: i64,
    trace_id_high: i64,
) -> (r: Result<(), EncodeError>)
    requires
        td.cycles_per_second > 0,
        operation_names@.len() == td.spans@.len(),
        timing_ok(*td),
    ensures
        r is Ok <==> props_wf(td.properties) && has_root(td.spans@),
        r is Ok ==> final(buf)@ == old(buf)@ + batch_bytes(
            service_name@,
            *td,
            names_view(operation_names@),
            trace_id_low,
            trace_id_high,
        ),
        r is Err ==> final(buf)@ == old(buf)@,
        !props_wf(td.properties) ==> r == Err::<(), EncodeError>(EncodeError::InvalidProperties),
        props_wf(td.properties) && !has_root(td.spans@) ==> r == Err::<(), EncodeError>(
            EncodeError::NoRootSpan,
        ),
{
    if !crate::properties::check_props(&td.properties) {
        return Err(EncodeError::InvalidProperties);
    }
    let anchor: u64;
    match find_anchor(&td.spans) {
        Some(a) => {
            anchor = a;
        },
        None => {
            return Err(EncodeError::NoRootSpan);
        },
    }
    let pair = crate::properties::reorder_properties(&td.properties);
    let pairs = pair.0;
    let index = pair.1;
    let ghost rs = props_runs(td.properties);
    let start_time_us: u64 = td.start_time_ns / 1000;
    let nspans = td.spans.len();
    let ghost names = names_view(operation_names@);

    buf.push(0x82);
    buf.push(0x81);
    buf.push(0x00);
    buf.push(0x09);
    buf.push(0x65);
    buf.push(0x6d);
    buf.push(0x69);
    buf.push(0x74);
    buf.push(0x42);
    buf.push(0x61);
    buf.push(0x74);
    buf.push(0x63);
    buf.push(0x68);
    buf.push(0x1c);
    buf.push(0x1c);
    buf.push(0x18);
    proof {
        assert(buf@ =~= old(buf)@ + preamble());
    }
    encode(service_name, buf);
    buf.push(0x00);
    buf.push(0x19);
    write_list_header(buf, nspans);
    let ghost head = preamble() + binary(service_name@) + seq![0x00u8, 0x19u8] + list_header(
        nspans as u64,
    );
    proof {
        assert(buf@ =~= old(buf)@ + head);
    }
    let mut i: usize = 0;
    while i < nspans
        invariant
            nspans == td.spans@.len(),
            operation_names@.len() == nspans,
            names == names_view(operation_names@),
            td.cycles_per_second > 0,
            timing_ok(*td),
            has_root(td.spans@),
            anchor == anchor_cycles(td.spans@),
            start_time_us == (td.start_time_ns / 1000) as u64,
            grouped(rs, runs_view(pairs@), index@),
            rs == props_runs(td.properties),
            0 <= i <= nspans,
            buf@ == old(buf)@ + head + spans_prefix(
                td.spans@,
                names,
                trace_id_low,
                trace_id_high,
                anchor,
                start_time_us,
                td.cycles_per_second,
                rs,
                i as int,
            ),
        decreases nspans - i,
    {
        let span = td.spans[i];
        let name = &operation_names[i];
        proof {
            assert(td.spans@[i as int] == span);
            assert(names[i as int] == name@);
        }
        write_span(
            buf,
            &span,
            name,
            trace_id_low,
            trace_id_high,
            anchor,
            start_time_us,
            td.cycles_per_second,
            &pairs,
            &index,
            Ghost(rs),
        );
        proof {
            assert(buf@ =~= old(buf)@ + head + spans_prefix(
                td.spans@,
                names,
                trace_id_low,
                trace_id_high,
                anchor,
                start_time_us,
                td.cycles_per_second,
                rs,
                i + 1,
            ));
        }
        i = i + 1;
    }
    buf.push(0x00);
    buf.push(0x00);
    proof {
        assert(buf@ =~= old(buf)@ + batch_bytes(
            service_name@,
            *td,
            names_view(operation_names@),
            trace_id_low,
            trace_id_high,
        ));
    }
    Ok(())
}

/// Encoding is deterministic: equal batches, service names, name tables and
/// externally supplied trace-id pairs give byte-identical output.
pub proof fn lemma_encode_deterministic(
    service1: Seq<u8>,
    td1: TraceDetails,
    names1: Seq<Seq<u8>>,
    low1: i64,
    high1: i64,
    service2: Seq<u8>,
    td2: TraceDetails,
    names2: Seq<Seq<u8>>,
    low2: i64,
    high2: i64,
)
    requires
        service1 == service2,
        td1 == td2,
        names1 == names2,
        low1 == low2,
        high1 == high2,
    ensures
        batch_bytes(service1, td1, names1, low1, high1) == batch_bytes(
            service2,
            td2,
            names2,
            low2,
            high2,
        ),
{
}

} // verus!
