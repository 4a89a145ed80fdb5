//! End-to-end tests of the batch encoder.

use jaeger_thrift::encoder::EncodeError;
use jaeger_thrift::encoder::Span;
use jaeger_thrift::encoder::State;
use jaeger_thrift::encoder::TraceDetails;
use jaeger_thrift::identity::IdentityContext;
use jaeger_thrift::properties::Properties;
use jaeger_thrift::thrift_encode;

fn push_varint(v: &mut Vec<u8>, mut n: u64) {
    loop {
        let mut b = (n & 0x7f) as u8;
        n >>= 7;
        if n != 0 {
            b |= 0x80;
        }
        v.push(b);
        if n == 0 {
            break;
        }
    }
}

fn zig64(n: i64) -> u64 {
    ((n << 1) ^ (n >> 63)) as u64
}

fn sample_batch() -> TraceDetails {
    TraceDetails {
        start_time_ns: 3_000_000,
        cycles_per_second: 1_000_000,
        spans: vec![
            Span {
                id: 30,
                state: State::Root,
                related_id: 0,
                begin_cycles: 0,
                elapsed_cycles: 0,
                event: 0,
            },
            Span {
                id: 40,
                state: State::Local,
                related_id: 30,
                begin_cycles: 1000,
                elapsed_cycles: 0,
                event: 1,
            },
        ],
        properties: Properties {
            span_ids: vec![40],
            property_lens: vec![3],
            payload: b"k:v".to_vec(),
        },
    }
}

fn names() -> Vec<Vec<u8>> {
    vec![b"Parent".to_vec(), b"Child".to_vec()]
}

#[test]
fn end_to_end_two_span_batch() {
    let td = sample_batch();
    let mut buf = Vec::new();
    let r = thrift_encode(&mut buf, b"svc", &td, &names(), 5, 7);
    assert!(r.is_ok());

    let mut want: Vec<u8> = vec![
        0x82, 0x81, 0x00, 0x09, 0x65, 0x6d, 0x69, 0x74, 0x42, 0x61, 0x74, 0x63, 0x68, 0x1c,
        0x1c, 0x18,
    ];
    // Service name, empty process tags, span list of two struct elements.
    want.push(3);
    want.extend_from_slice(b"svc");
    want.push(0x00);
    want.push(0x19);
    want.push(0x2c);

    // Span A: Root, flags header 0x25, no references sub-struct.
    want.push(0x16);
    push_varint(&mut want, zig64(5));
    want.push(0x16);
    push_varint(&mut want, zig64(7));
    want.push(0x16);
    push_varint(&mut want, zig64(30));
    want.push(0x16);
    push_varint(&mut want, zig64(0));
    want.push(0x18);
    want.push(22);
    want.extend_from_slice(b"Parent (Root spawning)");
    want.push(0x25);
    push_varint(&mut want, zig64(1));
    want.push(0x16);
    push_varint(&mut want, zig64(3000)); // start_time_ns/1000 + 0 us
    want.push(0x16);
    push_varint(&mut want, zig64(0));
    want.push(0x00);

    // Span B: Local, a references sub-struct whose kind decodes to 0
    // ("child of"), flags header 0x15, start time start_time_ns/1000 + 1000
    // us, one k/v tag.
    want.push(0x16);
    push_varint(&mut want, zig64(5));
    want.push(0x16);
    push_varint(&mut want, zig64(7));
    want.push(0x16);
    push_varint(&mut want, zig64(40));
    want.push(0x16);
    push_varint(&mut want, zig64(30));
    want.push(0x18);
    want.push(5);
    want.extend_from_slice(b"Child");
    want.push(0x19);
    want.push(0x1c);
    want.push(0x15);
    push_varint(&mut want, zig64(0)); // ChildOf
    want.push(0x16);
    push_varint(&mut want, zig64(5));
    want.push(0x16);
    push_varint(&mut want, zig64(7));
    want.push(0x16);
    push_varint(&mut want, zig64(30));
    want.push(0x00);
    want.push(0x15);
    push_varint(&mut want, zig64(1));
    want.push(0x16);
    push_varint(&mut want, zig64(4000)); // start_time_ns/1000 + 1000 us
    want.push(0x16);
    push_varint(&mut want, zig64(0));
    want.push(0x19);
    want.push(0x1c); // tags list of count 1
    want.push(0x18);
    want.push(1);
    want.push(b'k');
    want.push(0x15);
    want.push(0x00);
    want.push(0x18);
    want.push(1);
    want.push(b'v');
    want.push(0x00);
    want.push(0x00);

    // Span list and batch struct terminators.
    want.push(0x00);
    want.push(0x00);

    assert_eq!(buf, want);
}

#[test]
fn encoding_twice_is_byte_identical() {
    let td = sample_batch();
    let ns = names();
    let mut first = Vec::new();
    let mut second = Vec::new();
    assert!(thrift_encode(&mut first, b"svc", &td, &ns, 21, -9).is_ok());
    assert!(thrift_encode(&mut second, b"svc", &td, &ns, 21, -9).is_ok());
    assert_eq!(first, second);
}

#[test]
fn missing_root_span_aborts_without_output() {
    let mut td = sample_batch();
    td.spans[0].state = State::Settle;
    let mut buf = Vec::new();
    let r = thrift_encode(&mut buf, b"svc", &td, &names(), 5, 7);
    assert_eq!(r, Err(EncodeError::NoRootSpan));
    assert!(buf.is_empty());
}

#[test]
fn mismatched_property_arrays_abort_without_output() {
    let mut td = sample_batch();
    td.properties.span_ids = vec![40, 30];
    let mut buf = vec![0xaa];
    let r = thrift_encode(&mut buf, b"svc", &td, &names(), 5, 7);
    assert_eq!(r, Err(EncodeError::InvalidProperties));
    assert_eq!(buf, vec![0xaa]);

    // Runs that overrun the buffer are rejected the same way.
    let mut td = sample_batch();
    td.properties.property_lens = vec![99];
    let mut buf = Vec::new();
    let r = thrift_encode(&mut buf, b"svc", &td, &names(), 5, 7);
    assert_eq!(r, Err(EncodeError::InvalidProperties));
    assert!(buf.is_empty());
}

#[test]
fn encoding_appends_to_existing_buffer() {
    let td = sample_batch();
    let mut buf = vec![0x01, 0x02];
    assert!(thrift_encode(&mut buf, b"svc", &td, &names(), 5, 7).is_ok());
    assert_eq!(&buf[..2], &[0x01, 0x02]);
    assert_eq!(buf[2], 0x82);
}

#[test]
fn extended_span_list_header_past_fourteen_spans() {
    let mut td = sample_batch();
    let mut ns = names();
    for k in 0..14u64 {
        td.spans.push(Span {
            id: 100 + k,
            state: State::Spawning,
            related_id: 30,
            begin_cycles: 10,
            elapsed_cycles: 1,
            event: 2,
        });
        ns.push(b"W".to_vec());
    }
    let mut buf = Vec::new();
    assert!(thrift_encode(&mut buf, b"s", &td, &ns, 1, 2).is_ok());
    // 16 spans: extended list header 0xfc then varint count.
    let at = 16 + 2 + 2; // preamble, service name, process tail + list field
    assert_eq!(buf[at], 0xfc);
    assert_eq!(buf[at + 1], 16);
}

#[test]
fn identity_context_counts_up_from_zero() {
    let mut ctx = IdentityContext::new(77);
    assert_eq!(ctx.high, 77);
    assert_eq!(ctx.low, 0);
    assert_eq!(ctx.next_low(), 1);
    assert_eq!(ctx.next_low(), 2);
    assert_eq!(ctx.high, 77);

    let fresh = IdentityContext::from_entropy();
    assert_eq!(fresh.low, 0);
}

#[test]
fn tag_split_takes_first_colon_only() {
    // One root span owning three runs: no colon at all, a trailing colon,
    // and two colons of which only the first splits.
    let td = TraceDetails {
        start_time_ns: 0,
        cycles_per_second: 1_000_000,
        spans: vec![Span {
            id: 30,
            state: State::Root,
            related_id: 0,
            begin_cycles: 0,
            elapsed_cycles: 0,
            event: 0,
        }],
        properties: Properties {
            span_ids: vec![30, 30, 30],
            property_lens: vec![7, 2, 5],
            payload: b"nocolonk:a:b:c".to_vec(),
        },
    };
    let mut buf = Vec::new();
    assert!(thrift_encode(&mut buf, b"s", &td, &vec![b"R".to_vec()], 0, 0).is_ok());

    let mut tags: Vec<u8> = vec![0x19, 0x3c];
    for (key, value) in [(&b"nocolon"[..], &b""[..]), (b"k", b""), (b"a", b"b:c")] {
        tags.push(0x18);
        tags.push(key.len() as u8);
        tags.extend_from_slice(key);
        tags.push(0x15);
        tags.push(0x00);
        tags.push(0x18);
        tags.push(value.len() as u8);
        tags.extend_from_slice(value);
        tags.push(0x00);
    }
    assert!(
        buf.windows(tags.len()).any(|w| w == &tags[..]),
        "tags section not found in encoded batch"
    );
}

#[test]
fn role_suffixes_in_operation_names() {
    let mk = |id: u64, state: State| Span {
        id,
        state,
        related_id: 30,
        begin_cycles: 0,
        elapsed_cycles: 0,
        event: 0,
    };
    let td = TraceDetails {
        start_time_ns: 0,
        cycles_per_second: 1,
        spans: vec![
            mk(30, State::Root),
            mk(31, State::Spawning),
            mk(32, State::Scheduling),
            mk(33, State::Settle),
        ],
        properties: Properties { span_ids: vec![], property_lens: vec![], payload: vec![] },
    };
    let ns: Vec<Vec<u8>> = vec![b"W".to_vec(); 4];
    let mut buf = Vec::new();
    assert!(thrift_encode(&mut buf, b"s", &td, &ns, 0, 0).is_ok());
    let has = |needle: &[u8]| buf.windows(needle.len()).any(|w| w == needle);
    assert!(has(b"\x11W (Root spawning)"));
    assert!(has(b"\x0cW (Spawning)"));
    assert!(has(b"\x0eW (Scheduling)"));
    assert!(has(b"\x01W\x19")); // Settle: bare name, references list follows
}
