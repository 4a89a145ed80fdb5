//! Regrouping of free-form `key:value` property byte runs by owning span id.
//!
//! A batch's properties arrive as one flat byte buffer plus two parallel
//! arrays giving, for each contiguous run in the buffer, its owning span id
//! and its length. The regrouper slices the buffer into runs, groups the runs
//! by span id (keeping input order inside a group), and builds an index from
//! span id to the group's position in the grouped sequence.

use std::collections::HashMap;
use vstd::prelude::*;

verus! {

broadcast use vstd::std_specs::hash::group_hash_axioms;

/// A flat buffer of concatenated `key:value` byte runs: run `i` is owned by
/// span `span_ids[i]` and is `property_lens[i]` bytes long.
pub struct Properties {
    pub span_ids: Vec<u64>,
    pub property_lens: Vec<u64>,
    pub payload: Vec<u8>,
}

/// The sum of a sequence of run lengths.
pub open spec fn sum_lens(lens: Seq<u64>) -> int
    decreases lens.len(),
{
    if lens.len() == 0 {
        0
    } else {
        sum_lens(lens.drop_last()) + lens.last()
    }
}

/// An empty id or length array: the regrouper gives empty outputs.
pub open spec fn props_trivial(p: Properties) -> bool {
    p.span_ids@.len() == 0 || p.property_lens@.len() == 0
}

/// The regrouper's precondition: empty inputs aside, the parallel arrays have
/// equal length and the runs they describe fit in the buffer.
pub open spec fn props_wf(p: Properties) -> bool {
    props_trivial(p) || (p.span_ids@.len() == p.property_lens@.len() && sum_lens(
        p.property_lens@,
    ) <= p.payload@.len())
}

/// Run `i` of the buffer: its owning span id and its bytes.
pub open spec fn run_at(p: Properties, i: int) -> (u64, Seq<u8>) {
    (
        p.span_ids@[i],
        p.payload@.subrange(
            sum_lens(p.property_lens@.take(i)),
            sum_lens(p.property_lens@.take(i + 1)),
        ),
    )
}

/// All runs of the buffer, in input order.
pub open spec fn props_runs(p: Properties) -> Seq<(u64, Seq<u8>)> {
    if props_trivial(p) {
        Seq::empty()
    } else {
        Seq::new(p.span_ids@.len(), |i: int| run_at(p, i))
    }
}

/// Whether some run of `s` is owned by `id`.
pub open spec fn has_id(s: Seq<(u64, Seq<u8>)>, id: u64) -> bool {
    exists|k: int| 0 <= k < s.len() && (#[trigger] s[k]).0 == id
}

/// The runs owned by `id`, keeping their input order.
pub open spec fn runs_with_id(s: Seq<(u64, Seq<u8>)>, id: u64) -> Seq<(u64, Seq<u8>)>
    decreases s.len(),
{
    if s.len() == 0 {
        Seq::empty()
    } else if s.last().0 == id {
        runs_with_id(s.drop_last(), id) + seq![s.last()]
    } else {
        runs_with_id(s.drop_last(), id)
    }
}

/// The runs not owned by `id`, keeping their input order.
pub open spec fn runs_without_id(s: Seq<(u64, Seq<u8>)>, id: u64) -> Seq<(u64, Seq<u8>)>
    decreases s.len(),
{
    if s.len() == 0 {
        Seq::empty()
    } else if s.last().0 == id {
        runs_without_id(s.drop_last(), id)
    } else {
        runs_without_id(s.drop_last(), id) + seq![s.last()]
    }
}

/// The groups for the ids of `ids`, one after the other.
pub open spec fn concat_groups(s: Seq<(u64, Seq<u8>)>, ids: Seq<u64>) -> Seq<(u64, Seq<u8>)>
    decreases ids.len(),
{
    if ids.len() == 0 {
        Seq::empty()
    } else {
        concat_groups(s, ids.drop_last()) + runs_with_id(s, ids.last())
    }
}

/// The pairs of a run vector as mathematical values.
pub open spec fn runs_view(s: Seq<(u64, Vec<u8>)>) -> Seq<(u64, Seq<u8>)> {
    s.map_values(|r: (u64, Vec<u8>)| (r.0, r.1@))
}

/// What the regrouper promises of its grouped sequence `rv` and index `m`,
/// given the input runs `rs`: the grouped sequence is ordered by span id and
/// holds exactly the input's runs; each indexed group is exactly the input's
/// runs for that id, in input order; the groups' index ranges cover the
/// grouped sequence with no overlap or gap.
pub open spec fn grouped(
    rs: Seq<(u64, Seq<u8>)>,
    rv: Seq<(u64, Seq<u8>)>,
    m: Map<u64, (usize, usize)>,
) -> bool {
    &&& forall|i: int, j: int|
        #![trigger rv[i], rv[j]]
        0 <= i < j < rv.len() ==> rv[i].0 <= rv[j].0
    &&& forall|id: u64| #[trigger] m.contains_key(id) <==> runs_with_id(rs, id).len() > 0
    &&& forall|id: u64| #[trigger]
        m.contains_key(id) ==> {
            &&& m[id].0 + m[id].1 <= rv.len()
            &&& m[id].1 > 0
            &&& rv.subrange(m[id].0 as int, m[id].0 + m[id].1) == runs_with_id(rs, id)
        }
    &&& forall|k: int|
        #![trigger rv[k]]
        0 <= k < rv.len() ==> {
            &&& m.contains_key(rv[k].0)
            &&& m[rv[k].0].0 <= k < m[rv[k].0].0 + m[rv[k].0].1
        }
    &&& rv.to_multiset() == rs.to_multiset()
}

proof fn lemma_sum_take_succ(lens: Seq<u64>, i: int)
    requires
        0 <= i < lens.len(),
    ensures
        sum_lens(lens.take(i + 1)) == sum_lens(lens.take(i)) + lens[i],
{
    assert(lens.take(i + 1).drop_last() =~= lens.take(i));
}

proof fn lemma_sum_nonneg(lens: Seq<u64>)
    ensures
        sum_lens(lens) >= 0,
    decreases lens.len(),
{
    if lens.len() > 0 {
        lemma_sum_nonneg(lens.drop_last());
    }
}

proof fn lemma_sum_take_le(lens: Seq<u64>, i: int)
    requires
        0 <= i <= lens.len(),
    ensures
        sum_lens(lens.take(i)) <= sum_lens(lens),
    decreases lens.len() - i,
{
    if i == lens.len() {
        assert(lens.take(i) =~= lens);
    } else {
        lemma_sum_take_succ(lens, i);
        lemma_sum_take_le(lens, i + 1);
    }
}

/// An id found in a prefix is still found in a longer prefix.
proof fn lemma_has_id_take_grow(s: Seq<(u64, Seq<u8>)>, j1: int, j2: int, id: u64)
    requires
        0 <= j1 <= j2 <= s.len(),
        has_id(s.take(j1), id),
    ensures
        has_id(s.take(j2), id),
{
    let k = choose|k: int| 0 <= k < s.take(j1).len() && (#[trigger] s.take(j1)[k]).0 == id;
    assert(s.take(j2)[k] == s.take(j1)[k]);
}

/// Every run is in its own id's group or in the rest: the two parts together
/// hold exactly the input's runs.
proof fn lemma_runs_partition(s: Seq<(u64, Seq<u8>)>, id: u64)
    ensures
        s.to_multiset() == runs_with_id(s, id).to_multiset().add(
            runs_without_id(s, id).to_multiset(),
        ),
    decreases s.len(),
{
    broadcast use vstd::seq_lib::group_to_multiset_ensures;

    if s.len() == 0 {
        assert(s.to_multiset() =~= runs_with_id(s, id).to_multiset().add(
            runs_without_id(s, id).to_multiset(),
        ));
    } else {
        let d = s.drop_last();
        let x = s.last();
        lemma_runs_partition(d, id);
        assert(s =~= d.push(x));
        if x.0 == id {
            assert(runs_with_id(s, id) =~= runs_with_id(d, id).push(x));
            assert(s.to_multiset() =~= runs_with_id(s, id).to_multiset().add(
                runs_without_id(s, id).to_multiset(),
            ));
        } else {
            assert(runs_without_id(s, id) =~= runs_without_id(d, id).push(x));
            assert(s.to_multiset() =~= runs_with_id(s, id).to_multiset().add(
                runs_without_id(s, id).to_multiset(),
            ));
        }
    }
}

/// Removing the runs of one id leaves any other id's group unchanged.
proof fn lemma_runs_with_id_without(s: Seq<(u64, Seq<u8>)>, keep: u64, drop: u64)
    requires
        keep != drop,
    ensures
        runs_with_id(runs_without_id(s, drop), keep) == runs_with_id(s, keep),
    decreases s.len(),
{
    if s.len() == 0 {
    } else {
        let d = s.drop_last();
        let x = s.last();
        lemma_runs_with_id_without(d, keep, drop);
        if x.0 == drop {
        } else {
            let t = runs_without_id(d, drop);
            assert((t + seq![x]).drop_last() =~= t);
        }
    }
}

/// Every run in `runs_without_id` comes from the input and has another id.
proof fn lemma_runs_without_id_elts(s: Seq<(u64, Seq<u8>)>, id: u64)
    ensures
        forall|k: int|
            0 <= k < runs_without_id(s, id).len() ==> (#[trigger] runs_without_id(s, id)[k]).0 != id
                && s.contains(runs_without_id(s, id)[k]),
    decreases s.len(),
{
    if s.len() == 0 {
    } else {
        let d = s.drop_last();
        let x = s.last();
        lemma_runs_without_id_elts(d, id);
        assert(forall|e: (u64, Seq<u8>)| d.contains(e) ==> s.contains(e)) by {
            assert(forall|k: int| 0 <= k < d.len() ==> d[k] == s[k]);
        }
        if x.0 != id {
            let t = runs_without_id(d, id);
            assert(runs_without_id(s, id) =~= t.push(x));
            assert(s.contains(x)) by {
                assert(s[s.len() - 1] == x);
            }
        }
    }
}

/// Every run in a group carries the group's id.
proof fn lemma_runs_with_id_elts(s: Seq<(u64, Seq<u8>)>, id: u64)
    ensures
        forall|k: int|
            0 <= k < runs_with_id(s, id).len() ==> (#[trigger] runs_with_id(s, id)[k]).0 == id,
    decreases s.len(),
{
    if s.len() == 0 {
    } else {
        let d = s.drop_last();
        let x = s.last();
        lemma_runs_with_id_elts(d, id);
        if x.0 == id {
            assert forall|k: int| 0 <= k < runs_with_id(s, id).len() implies (#[trigger] runs_with_id(
                s,
                id,
            )[k]).0 == id by {
                if k < runs_with_id(d, id).len() {
                    assert(runs_with_id(s, id)[k] == runs_with_id(d, id)[k]);
                } else {
                    assert(runs_with_id(s, id)[k] == x);
                }
            }
        }
    }
}

/// A group is non-empty exactly when some input run has its id.
proof fn lemma_runs_with_id_nonempty(s: Seq<(u64, Seq<u8>)>, id: u64)
    ensures
        runs_with_id(s, id).len() > 0 <==> has_id(s, id),
    decreases s.len(),
{
    if s.len() == 0 {
    } else {
        let d = s.drop_last();
        let x = s.last();
        lemma_runs_with_id_nonempty(d, id);
        if x.0 == id {
            assert(s[s.len() - 1].0 == id);
            assert(has_id(s, id));
        } else {
            if has_id(d, id) {
                let k = choose|k: int| 0 <= k < d.len() && (#[trigger] d[k]).0 == id;
                assert(s[k].0 == id);
                assert(has_id(s, id));
            }
            if has_id(s, id) {
                let k = choose|k: int| 0 <= k < s.len() && (#[trigger] s[k]).0 == id;
                assert(k < s.len() - 1);
                assert(d[k].0 == id);
                assert(has_id(d, id));
            }
        }
    }
}

/// Concatenating the groups of a set of distinct ids that covers every run's
/// id gives back exactly the input's runs: each run lands in exactly one
/// group.
proof fn lemma_concat_groups_multiset(s: Seq<(u64, Seq<u8>)>, ids: Seq<u64>)
    requires
        forall|i: int, j: int| 0 <= i < j < ids.len() ==> ids[i] != ids[j],
        forall|k: int| 0 <= k < s.len() ==> ids.contains((#[trigger] s[k]).0),
    ensures
        concat_groups(s, ids).to_multiset() == s.to_multiset(),
    decreases ids.len(),
{
    broadcast use vstd::seq_lib::group_to_multiset_ensures;

    if ids.len() == 0 {
        assert(s.len() == 0) by {
            if s.len() > 0 {
                assert(ids.contains(s[0].0));
            }
        }
        assert(concat_groups(s, ids).to_multiset() =~= s.to_multiset());
    } else {
        let idl = ids.last();
        let rest = ids.drop_last();
        let s2 = runs_without_id(s, idl);
        assert(!rest.contains(idl)) by {
            if rest.contains(idl) {
                let k = choose|k: int| 0 <= k < rest.len() && rest[k] == idl;
                assert(ids[k] == ids[ids.len() - 1]);
            }
        }
        lemma_concat_groups_without(s, idl, rest);
        lemma_runs_without_id_elts(s, idl);
        assert forall|k: int| 0 <= k < s2.len() implies rest.contains((#[trigger] s2[k]).0) by {
            let e = s2[k];
            assert(s.contains(e) && e.0 != idl);
            let t = choose|t: int| 0 <= t < s.len() && s[t] == e;
            assert(ids.contains(s[t].0));
            let u = choose|u: int| 0 <= u < ids.len() && ids[u] == e.0;
            assert(u < ids.len() - 1) by {
                assert(ids[ids.len() - 1] == idl);
            }
            assert(rest[u] == e.0);
        }
        lemma_concat_groups_multiset(s2, rest);
        vstd::seq_lib::lemma_multiset_commutative(concat_groups(s, rest), runs_with_id(s, idl));
        lemma_runs_partition(s, idl);
        assert(concat_groups(s, ids).to_multiset() =~= s.to_multiset());
    }
}

/// Groups for ids other than `drop` are unchanged by removing `drop`'s runs.
proof fn lemma_concat_groups_without(s: Seq<(u64, Seq<u8>)>, drop: u64, ids: Seq<u64>)
    requires
        !ids.contains(drop),
    ensures
        concat_groups(runs_without_id(s, drop), ids) == concat_groups(s, ids),
    decreases ids.len(),
{
    if ids.len() == 0 {
    } else {
        let rest = ids.drop_last();
        assert(!rest.contains(drop)) by {
            if rest.contains(drop) {
                let k = choose|k: int| 0 <= k < rest.len() && rest[k] == drop;
                assert(ids[k] == drop);
            }
        }
        lemma_concat_groups_without(s, drop, rest);
        assert(ids.last() != drop) by {
            assert(ids[ids.len() - 1] == ids.last());
        }
        lemma_runs_with_id_without(s, ids.last(), drop);
    }
}

/// Slice the buffer into its runs, in input order.
fn slice_runs(p: &Properties) -> (runs: Vec<(u64, Vec<u8>)>)
    requires
        props_wf(*p),
        !props_trivial(*p),
    ensures
        runs_view(runs@) == props_runs(*p),
{
    let ghost rs = props_runs(*p);
    let rs_len = p.span_ids.len();
    let payload_len = p.payload.len();
    let mut runs: Vec<(u64, Vec<u8>)> = Vec::new();
    let mut pos: usize = 0;
    let mut i: usize = 0;
    proof {
        assert(p.property_lens@.take(0) =~= Seq::<u64>::empty());
        assert(runs_view(runs@) =~= rs.take(0));
    }
    while i < rs_len
        invariant
            rs == props_runs(*p),
            !props_trivial(*p),
            props_wf(*p),
            rs_len == p.span_ids@.len(),
            p.span_ids@.len() == p.property_lens@.len(),
            0 <= i <= rs_len,
            pos == sum_lens(p.property_lens@.take(i as int)),
            payload_len == p.payload@.len(),
            pos <= payload_len,
            runs_view(runs@) == rs.take(i as int),
        decreases rs_len - i,
    {
        let len64: u64 = p.property_lens[i];
        proof {
            lemma_sum_take_succ(p.property_lens@, i as int);
            lemma_sum_take_le(p.property_lens@, i + 1);
            lemma_sum_nonneg(p.property_lens@.take(i as int));
            assert(pos + len64 <= payload_len);
        }
        let len: usize = len64 as usize;
        let bytes = vstd::slice::slice_to_vec(
            vstd::slice::slice_subrange(p.payload.as_slice(), pos, pos + len),
        );
        let ghost bv = bytes@;
        let id = p.span_ids[i];
        let ghost runs_before = runs@;
        runs.push((id, bytes));
        proof {
            assert(rs[i as int] == run_at(*p, i as int));
            assert(runs_view(runs_before) == rs.take(i as int));
            assert(runs_view(runs_before).len() == i);
            assert(runs_before.len() == i);
            assert(runs@.len() == i + 1);
            assert(bv == p.payload@.subrange(
                sum_lens(p.property_lens@.take(i as int)),
                sum_lens(p.property_lens@.take(i + 1)),
            ));
            assert forall|k: int| 0 <= k < runs@.len() implies runs_view(runs@)[k] == rs.take(
                i + 1,
            )[k] by {
                if k < i {
                    assert(runs@[k] == runs_before[k]);
                    assert(runs_view(runs_before)[k] == rs.take(i as int)[k]);
                } else {
                    assert(runs@[k].0 == id && runs@[k].1@ == bv);
                }
            }
            assert(runs_view(runs@) =~= rs.take(i + 1));
        }
        pos = pos + len;
        i = i + 1;
    }
    proof {
        assert(rs.take(rs_len as int) =~= rs);
    }
    runs
}

/// Collect the distinct span ids of the runs, in ascending order.
fn collect_ids(runs: &Vec<(u64, Vec<u8>)>) -> (ids: Vec<u64>)
    ensures
        forall|a: int, b: int| 0 <= a < b < ids@.len() ==> ids@[a] < ids@[b],
        forall|a: int| 0 <= a < ids@.len() ==> has_id(runs_view(runs@), #[trigger] ids@[a]),
        forall|k: int|
            0 <= k < runs_view(runs@).len() ==> ids@.contains((#[trigger] runs_view(runs@)[k]).0),
{
    let ghost rs = runs_view(runs@);
    let rs_len = runs.len();
    let mut ids: Vec<u64> = Vec::new();
    let mut i: usize = 0;
    while i < rs_len
        invariant
            rs == runs_view(runs@),
            rs.len() == rs_len,
            runs@.len() == rs_len,
            0 <= i <= rs_len,
            forall|a: int, b: int| 0 <= a < b < ids@.len() ==> ids@[a] < ids@[b],
            forall|a: int| 0 <= a < ids@.len() ==> has_id(rs.take(i as int), #[trigger] ids@[a]),
            forall|k: int| 0 <= k < i ==> ids@.contains((#[trigger] rs[k]).0),
        decreases rs_len - i,
    {
        let id = runs[i].0;
        proof {
            assert(rs[i as int].0 == id);
        }
        let mut t: usize = 0;
        while t < ids.len() && ids[t] < id
            invariant
                0 <= t <= ids@.len(),
                forall|a: int, b: int| 0 <= a < b < ids@.len() ==> ids@[a] < ids@[b],
                forall|a: int| 0 <= a < t ==> ids@[a] < id,
            decreases ids@.len() - t,
        {
            t = t + 1;
        }
        if t == ids.len() || ids[t] > id {
            let ghost ids_before = ids@;
            ids.insert(t, id);
            proof {
                ids_before.insert_ensures(t as int, id);
                assert(ids@ == ids_before.insert(t as int, id));
                assert(ids@[t as int] == id);
                assert forall|a: int, b: int| 0 <= a < b < ids@.len() implies ids@[a]
                    < ids@[b] by {
                    if b < t {
                        assert(ids@[a] == ids_before[a] && ids@[b] == ids_before[b]);
                    } else if a > t {
                        assert(ids@[a] == ids_before[a - 1] && ids@[b] == ids_before[b - 1]);
                    } else if a < t && b == t {
                        assert(ids@[a] == ids_before[a] && ids_before[a] < id);
                    } else if a == t && b > t {
                        assert(ids@[b] == ids_before[b - 1] && b - 1 >= t);
                        assert(t < ids_before.len() && ids_before[t as int] > id);
                    } else {
                        assert(ids@[a] == ids_before[a] && ids@[b] == ids_before[b - 1]);
                        assert(ids_before[a] < id);
                        assert(t < ids_before.len() && ids_before[t as int] > id);
                    }
                }
                assert forall|k: int| 0 <= k < i + 1 implies ids@.contains(
                    (#[trigger] rs[k]).0,
                ) by {
                    if k < i {
                        assert(ids_before.contains(rs[k].0));
                        let a = choose|a: int|
                            0 <= a < ids_before.len() && ids_before[a] == rs[k].0;
                        if a < t {
                            assert(ids@[a] == rs[k].0);
                        } else {
                            assert(ids@[a + 1] == rs[k].0);
                        }
                    } else {
                        assert(ids@[t as int] == rs[k].0);
                    }
                }
                assert forall|a: int| 0 <= a < ids@.len() implies has_id(
                    rs.take(i + 1),
                    #[trigger] ids@[a],
                ) by {
                    if a == t {
                        assert(rs.take(i + 1)[i as int].0 == id);
                        assert(has_id(rs.take(i + 1), id));
                    } else {
                        let a0 = if a < t {
                            a
                        } else {
                            a - 1
                        };
                        assert(ids@[a] == ids_before[a0]);
                        assert(has_id(rs.take(i as int), ids_before[a0]));
                        lemma_has_id_take_grow(rs, i as int, i + 1, ids_before[a0]);
                    }
                }
            }
        } else {
            proof {
                assert(ids@[t as int] == id);
                assert forall|k: int| 0 <= k < i + 1 implies ids@.contains(
                    (#[trigger] rs[k]).0,
                ) by {
                    if k == i {
                        assert(ids@[t as int] == rs[k].0);
                    }
                }
                assert forall|a: int| 0 <= a < ids@.len() implies has_id(
                    rs.take(i + 1),
                    #[trigger] ids@[a],
                ) by {
                    lemma_has_id_take_grow(rs, i as int, i + 1, ids@[a]);
                }
            }
        }
        i = i + 1;
    }
    proof {
        assert(rs.take(rs_len as int) =~= rs);
        assert forall|a: int| 0 <= a < ids@.len() implies has_id(
            runs_view(runs@),
            #[trigger] ids@[a],
        ) by {
            assert(has_id(rs.take(rs_len as int), ids@[a]));
        }
    }
    ids
}

/// Emit the group of each id in ascending id order, recording where each
/// group starts and how long it is.
#[verifier::rlimit(60)]
fn emit_groups(runs: &Vec<(u64, Vec<u8>)>, ids: &Vec<u64>) -> (r: (
    Vec<(u64, Vec<u8>)>,
    HashMap<u64, (usize, usize)>,
))
    requires
        forall|a: int, b: int| 0 <= a < b < ids@.len() ==> ids@[a] < ids@[b],
        forall|a: int| 0 <= a < ids@.len() ==> has_id(runs_view(runs@), #[trigger] ids@[a]),
        forall|k: int|
            0 <= k < runs_view(runs@).len() ==> ids@.contains((#[trigger] runs_view(runs@)[k]).0),
    ensures
        grouped(runs_view(runs@), runs_view(r.0@), r.1@),
{
    let ghost rs = runs_view(runs@);
    let rs_len = runs.len();
    let mut pairs: Vec<(u64, Vec<u8>)> = Vec::new();
    let mut index: HashMap<u64, (usize, usize)> = HashMap::new();
    let mut g: usize = 0;
    proof {
        assert(ids@.take(0) =~= Seq::<u64>::empty());
        assert(runs_view(pairs@) =~= concat_groups(rs, ids@.take(0)));
        assert forall|k: int| 0 <= k < rs.len() implies ids@.contains((#[trigger] rs[k]).0) by {
            assert(ids@.contains(runs_view(runs@)[k].0));
        }
    }
    while g < ids.len()
        invariant
            rs == runs_view(runs@),
            rs.len() == rs_len,
            runs@.len() == rs_len,
            0 <= g <= ids@.len(),
            forall|a: int, b: int| 0 <= a < b < ids@.len() ==> ids@[a] < ids@[b],
            forall|a: int| 0 <= a < ids@.len() ==> has_id(rs, #[trigger] ids@[a]),
            forall|k: int| 0 <= k < rs.len() ==> ids@.contains((#[trigger] rs[k]).0),
            runs_view(pairs@) == concat_groups(rs, ids@.take(g as int)),
            forall|id: u64| #[trigger]
                index@.contains_key(id) <==> ids@.take(g as int).contains(id),
            forall|id: u64| #[trigger]
                index@.contains_key(id) ==> {
                    &&& index@[id].0 + index@[id].1 <= runs_view(pairs@).len()
                    &&& index@[id].1 > 0
                    &&& runs_view(pairs@).subrange(
                        index@[id].0 as int,
                        index@[id].0 + index@[id].1,
                    ) == runs_with_id(rs, id)
                },
            forall|k: int|
                #![trigger runs_view(pairs@)[k]]
                0 <= k < runs_view(pairs@).len() ==> {
                    &&& index@.contains_key(runs_view(pairs@)[k].0)
                    &&& index@[runs_view(pairs@)[k].0].0 <= k < index@[runs_view(pairs@)[k].0].0
                        + index@[runs_view(pairs@)[k].0].1
                },
            forall|k: int|
                #![trigger runs_view(pairs@)[k]]
                0 <= k < runs_view(pairs@).len() ==> exists|a: int|
                    0 <= a < g && runs_view(pairs@)[k].0 == ids@[a],
            forall|a: int, b: int|
                #![trigger runs_view(pairs@)[a], runs_view(pairs@)[b]]
                0 <= a < b < runs_view(pairs@).len() ==> runs_view(pairs@)[a].0 <= runs_view(
                    pairs@,
                )[b].0,
        decreases ids@.len() - g,
    {
        let id = ids[g];
        let start = pairs.len();
        let ghost pairs_before = runs_view(pairs@);
        let mut j: usize = 0;
        while j < rs_len
            invariant
                rs == runs_view(runs@),
                rs.len() == rs_len,
                runs@.len() == rs_len,
                0 <= j <= rs_len,
                start <= pairs@.len(),
                pairs_before == runs_view(pairs@).take(start as int),
                pairs_before.len() == start,
                runs_view(pairs@).skip(start as int) == runs_with_id(rs.take(j as int), id),
            decreases rs_len - j,
        {
            if runs[j].0 == id {
                let b = vstd::slice::slice_to_vec(runs[j].1.as_slice());
                let ghost pairs_mid = runs_view(pairs@);
                pairs.push((id, b));
                proof {
                    assert(rs[j as int].0 == id);
                    assert(rs.take(j + 1).drop_last() =~= rs.take(j as int));
                    assert(rs.take(j + 1).last() == rs[j as int]);
                    assert forall|k: int| 0 <= k < runs_view(pairs@).len() implies runs_view(
                        pairs@,
                    )[k] == pairs_mid.push(rs[j as int])[k] by {
                        if k < pairs_mid.len() {
                            assert(pairs@[k] == pairs@.drop_last()[k]);
                        } else {
                            assert(runs_view(pairs@)[k] == (rs[j as int].0, rs[j as int].1));
                        }
                    }
                    assert(runs_view(pairs@) =~= pairs_mid.push(rs[j as int]));
                    assert(runs_view(pairs@).take(start as int) =~= pairs_before);
                    assert(runs_view(pairs@).skip(start as int) =~= runs_with_id(
                        rs.take(j as int),
                        id,
                    ).push(rs[j as int]));
                    assert(runs_with_id(rs.take(j + 1), id) =~= runs_with_id(
                        rs.take(j as int),
                        id,
                    ).push(rs[j as int]));
                }
            } else {
                proof {
                    assert(rs.take(j + 1).drop_last() =~= rs.take(j as int));
                    assert(rs.take(j + 1).last() == rs[j as int]);
                }
            }
            j = j + 1;
        }
        proof {
            assert(rs.take(rs_len as int) =~= rs);
        }
        let count = pairs.len() - start;
        proof {
            lemma_runs_with_id_nonempty(rs, id);
            assert(has_id(rs, id)) by {
                assert(has_id(rs, ids@[g as int]));
            }
        }
        index.insert(id, (start, count));
        proof {
            let rvp = runs_view(pairs@);
            assert(ids@.take(g + 1).drop_last() =~= ids@.take(g as int));
            assert(ids@.take(g + 1).last() == id);
            assert(rvp.take(start as int) =~= pairs_before);
            assert(rvp.skip(start as int) == runs_with_id(rs, id));
            assert(rvp =~= concat_groups(rs, ids@.take(g + 1)));
            assert(rvp.subrange(start as int, start + count) =~= rvp.skip(start as int));
            assert forall|id2: u64| #[trigger] index@.contains_key(id2) implies ids@.take(
                g + 1,
            ).contains(id2) by {
                if id2 == id {
                    assert(ids@.take(g + 1)[g as int] == id);
                } else {
                    assert(ids@.take(g as int).contains(id2));
                    let a = choose|a: int|
                        0 <= a < ids@.take(g as int).len() && ids@.take(g as int)[a] == id2;
                    assert(ids@.take(g + 1)[a] == id2);
                }
            }
            let ghost idsg1 = ids@.take(g + 1);
            assert forall|id2: u64|
                #![trigger index@.contains_key(id2)]
                idsg1.contains(id2) implies index@.contains_key(id2) by {
                let a = choose|a: int| 0 <= a < idsg1.len() && idsg1[a] == id2;
                if a < g {
                    assert(ids@.take(g as int)[a] == id2);
                }
            }
            assert(forall|id2: u64| #[trigger]
                index@.contains_key(id2) <==> ids@.take(g + 1).contains(id2));
            // Ranges recorded for earlier ids are prefixes of the grown
            // sequence and keep their meaning.
            assert forall|id2: u64| #[trigger] index@.contains_key(id2) implies {
                &&& index@[id2].0 + index@[id2].1 <= rvp.len()
                &&& index@[id2].1 > 0
                &&& rvp.subrange(index@[id2].0 as int, index@[id2].0 + index@[id2].1)
                    == runs_with_id(rs, id2)
            } by {
                if id2 == id {
                } else {
                    assert(pairs_before.subrange(
                        index@[id2].0 as int,
                        index@[id2].0 + index@[id2].1,
                    ) == runs_with_id(rs, id2));
                    assert(rvp.subrange(index@[id2].0 as int, index@[id2].0 + index@[id2].1)
                        =~= pairs_before.subrange(
                        index@[id2].0 as int,
                        index@[id2].0 + index@[id2].1,
                    ));
                }
            }
            assert forall|k: int| 0 <= k < rvp.len() implies {
                &&& index@.contains_key((#[trigger] rvp[k]).0)
                &&& index@[rvp[k].0].0 <= k < index@[rvp[k].0].0 + index@[rvp[k].0].1
            } by {
                if k < start {
                    assert(pairs_before[k] == rvp[k]);
                    assert(exists|a: int| 0 <= a < g && pairs_before[k].0 == ids@[a]);
                    let a = choose|a: int| 0 <= a < g && pairs_before[k].0 == ids@[a];
                    assert(ids@[a] < id);
                } else {
                    assert(rvp.skip(start as int)[k - start] == rvp[k]);
                    assert(rvp[k].0 == id) by {
                        lemma_runs_with_id_elts(rs, id);
                    }
                }
            }
            assert forall|k: int| 0 <= k < rvp.len() implies exists|a: int|
                0 <= a < g + 1 && (#[trigger] rvp[k]).0 == ids@[a] by {
                if k < start {
                    assert(pairs_before[k] == rvp[k]);
                    let a = choose|a: int| 0 <= a < g && pairs_before[k].0 == ids@[a];
                    assert(0 <= a < g + 1 && rvp[k].0 == ids@[a]);
                } else {
                    assert(rvp.skip(start as int)[k - start] == rvp[k]);
                    assert(rvp[k].0 == id) by {
                        lemma_runs_with_id_elts(rs, id);
                    }
                    assert(ids@[g as int] == id);
                }
            }
            // Runs of earlier ids stand before runs of this id.
            assert forall|a: int, b: int|
                #![trigger rvp[a], rvp[b]]
                0 <= a < b < rvp.len() implies rvp[a].0 <= rvp[b].0 by {
                if b >= start {
                    assert(rvp.skip(start as int)[b - start] == rvp[b]);
                    assert(rvp[b].0 == id) by {
                        lemma_runs_with_id_elts(rs, id);
                    }
                    if a < start {
                        assert(pairs_before[a] == rvp[a]);
                        let t = choose|t: int| 0 <= t < g && pairs_before[a].0 == ids@[t];
                        assert(ids@[t] < ids@[g as int]);
                    } else {
                        assert(rvp.skip(start as int)[a - start] == rvp[a]);
                        assert(rvp[a].0 == id) by {
                            lemma_runs_with_id_elts(rs, id);
                        }
                    }
                } else {
                    assert(pairs_before[a] == rvp[a]);
                    assert(pairs_before[b] == rvp[b]);
                }
            }
        }
        g = g + 1;
    }
    proof {
        assert(ids@.take(ids@.len() as int) =~= ids@);
        assert forall|id: u64| #[trigger] index@.contains_key(id) <==> runs_with_id(
            rs,
            id,
        ).len() > 0 by {
            lemma_runs_with_id_nonempty(rs, id);
            if runs_with_id(rs, id).len() > 0 {
                let k = choose|k: int| 0 <= k < rs.len() && (#[trigger] rs[k]).0 == id;
                assert(ids@.contains(rs[k].0));
            }
        }
        // Every run's id has a group, so the groups together hold every run
        // exactly once.
        lemma_concat_groups_multiset(rs, ids@);
    }
    (pairs, index)
}

/// Decide whether the parallel property arrays are well-formed: either one
/// of them is empty, or they have equal length and the runs they describe
/// fit in the buffer.
pub fn check_props(p: &Properties) -> (r: bool)
    ensures
        r == props_wf(*p),
{
    if p.span_ids.len() == 0 || p.property_lens.len() == 0 {
        return true;
    }
    if p.span_ids.len() != p.property_lens.len() {
        return false;
    }
    let n = p.property_lens.len();
    let payload_len = p.payload.len();
    let mut acc: usize = 0;
    let mut i: usize = 0;
    proof {
        assert(p.property_lens@.take(0) =~= Seq::<u64>::empty());
    }
    while i < n
        invariant
            n == p.property_lens@.len(),
            p.span_ids@.len() == p.property_lens@.len(),
            p.span_ids@.len() > 0,
            payload_len == p.payload@.len(),
            0 <= i <= n,
            acc == sum_lens(p.property_lens@.take(i as int)),
            acc <= payload_len,
        decreases n - i,
    {
        let len64 = p.property_lens[i];
        proof {
            lemma_sum_take_succ(p.property_lens@, i as int);
        }
        if len64 > ((payload_len - acc) as u64) {
            proof {
                lemma_sum_take_le(p.property_lens@, i + 1);
            }
            return false;
        }
        acc = acc + (len64 as usize);
        i = i + 1;
    }
    proof {
        assert(p.property_lens@.take(n as int) =~= p.property_lens@);
    }
    true
}

/// Slice the property buffer into runs and group them by owning span id.
///
/// Gives the sequence of `(span_id, bytes)` pairs ordered by span id (runs of
/// one span keep their input order), and a map from each span id that owns at
/// least one run to the position `(start, count)` of its group in that
/// sequence. Every input run appears in exactly one group; the groups' ranges
/// cover the grouped sequence with no overlap or gap. Empty id or length
/// arrays give empty outputs.
pub fn reorder_properties(p: &Properties) -> (r: (
    Vec<(u64, Vec<u8>)>,
    HashMap<u64, (usize, usize)>,
))
    requires
        props_wf(*p),
    ensures
        grouped(props_runs(*p), runs_view(r.0@), r.1@),
{
    if p.span_ids.len() == 0 || p.property_lens.len() == 0 {
        let pairs: Vec<(u64, Vec<u8>)> = Vec::new();
        let index: HashMap<u64, (usize, usize)> = HashMap::new();
        proof {
            assert forall|id: u64| !(runs_with_id(props_runs(*p), id).len() > 0) by {
                assert(props_runs(*p) =~= Seq::<(u64, Seq<u8>)>::empty());
            }
            assert(runs_view(pairs@) =~= Seq::<(u64, Seq<u8>)>::empty());
            assert(runs_view(pairs@).to_multiset() =~= props_runs(*p).to_multiset());
        }
        return (pairs, index);
    }
    let runs = slice_runs(p);
    let ids = collect_ids(&runs);
    emit_groups(&runs, &ids)
}

} // verus!
