//! Coordinate mapping between two consensus derivations of one profile.
//!
//! A full pairwise alignment of the two consensus sequences arrives as a
//! step sequence; walking it yields, for every column of the first (source)
//! sequence, the corresponding column of the second (destination) sequence.
//! Index `0` is reserved: no alignment column precedes the start, so a
//! mapped start boundary is clamped to at least `1` on lookup.

use vstd::prelude::*;

verus! {

/// One step of a global pairwise alignment of source against destination.
#[derive(Clone, Copy, Debug, PartialEq, Eq, Structural)]
pub enum TraceStep {
    /// Consumes one symbol of both sequences.
    Diagonal,
    /// Consumes one symbol of the source sequence only.
    Up,
    /// Consumes one symbol of the destination sequence only.
    Left,
}

/// How many source symbols one step consumes.
pub open spec fn step_src(st: TraceStep) -> int {
    match st {
        TraceStep::Diagonal => 1,
        TraceStep::Up => 1,
        TraceStep::Left => 0,
    }
}

/// How many destination symbols one step consumes.
pub open spec fn step_dst(st: TraceStep) -> int {
    match st {
        TraceStep::Diagonal => 1,
        TraceStep::Up => 0,
        TraceStep::Left => 1,
    }
}

/// Total source symbols a trace consumes.
pub open spec fn src_steps(tr: Seq<TraceStep>) -> int
    decreases tr.len(),
{
    if tr.len() == 0 {
        0
    } else {
        src_steps(tr.drop_last()) + step_src(tr.last())
    }
}

/// Total destination symbols a trace consumes.
pub open spec fn dst_steps(tr: Seq<TraceStep>) -> int
    decreases tr.len(),
{
    if tr.len() == 0 {
        0
    } else {
        dst_steps(tr.drop_last()) + step_dst(tr.last())
    }
}

pub proof fn lemma_steps_nonneg(tr: Seq<TraceStep>)
    ensures
        0 <= src_steps(tr) <= tr.len(),
        0 <= dst_steps(tr) <= tr.len(),
    decreases tr.len(),
{
    if tr.len() > 0 {
        lemma_steps_nonneg(tr.drop_last());
    }
}

pub proof fn lemma_steps_take_succ(tr: Seq<TraceStep>, i: int)
    requires
        0 <= i < tr.len(),
    ensures
        src_steps(tr.take(i + 1)) == src_steps(tr.take(i)) + step_src(tr[i]),
        dst_steps(tr.take(i + 1)) == dst_steps(tr.take(i)) + step_dst(tr[i]),
{
    assert(tr.take(i + 1).drop_last() =~= tr.take(i));
    assert(tr.take(i + 1).last() == tr[i]);
}

/// A prefix never consumes more than the whole trace.
pub proof fn lemma_steps_prefix_le(tr: Seq<TraceStep>, i: int)
    requires
        0 <= i <= tr.len(),
    ensures
        src_steps(tr.take(i)) <= src_steps(tr),
        dst_steps(tr.take(i)) <= dst_steps(tr),
    decreases tr.len() - i,
{
    if i == tr.len() {
        assert(tr.take(i) =~= tr);
    } else {
        lemma_steps_take_succ(tr, i);
        lemma_steps_prefix_le(tr, i + 1);
    }
}

/// The walk of the trace: after every step, the destination cursor is
/// recorded at the current source cursor's entry. A cursor outside the
/// entry range records nothing; a covering trace keeps it inside.
pub open spec fn walk_entries(tr: Seq<TraceStep>, e: Seq<int>, s: int, d: int) -> Seq<int>
    decreases tr.len(),
{
    if tr.len() == 0 {
        e
    } else {
        let st = tr[0];
        let s2 = s + step_src(st);
        let d2 = d + step_dst(st);
        let e2 = if 0 <= s2 < e.len() {
            e.update(s2, d2)
        } else {
            e
        };
        walk_entries(tr.skip(1), e2, s2, d2)
    }
}

pub open spec fn zero_entries(n: int) -> Seq<int> {
    Seq::new(n as nat, |i: int| 0)
}

pub proof fn lemma_walk_entries_len(tr: Seq<TraceStep>, e: Seq<int>, s: int, d: int)
    ensures
        walk_entries(tr, e, s, d).len() == e.len(),
    decreases tr.len(),
{
    if tr.len() > 0 {
        let st = tr[0];
        let s2 = s + step_src(st);
        let d2 = d + step_dst(st);
        let e2 = if 0 <= s2 < e.len() {
            e.update(s2, d2)
        } else {
            e
        };
        lemma_walk_entries_len(tr.skip(1), e2, s2, d2);
    }
}

/// The trace did not cover both sequences end to end.
#[derive(Clone, Copy, Debug, PartialEq, Eq, Structural)]
pub struct CoordinateCoverageError;

/// A translation table from source columns to destination columns.
/// `entries[i]` is the destination column recorded for source column `i`;
/// entry `0` never carries useful information.
#[derive(Debug)]
pub struct CoordinateMap {
    pub entries: Vec<usize>,
}

impl CoordinateMap {
    /// The entries as mathematical integers.
    pub open spec fn view_int(&self) -> Seq<int> {
        self.entries@.map_values(|v: usize| v as int)
    }

    pub open spec fn wf(&self) -> bool {
        self.entries@.len() >= 1
    }

    /// Number of source columns the map covers (entries minus the reserved
    /// index `0`).
    pub fn source_len(&self) -> (n: usize)
        requires
            self.wf(),
        ensures
            n == self.entries@.len() - 1,
    {
        self.entries.len() - 1
    }

    /// Build the map by walking a full global alignment trace. Fails exactly
    /// when the trace does not consume `source_len` source symbols and
    /// `dest_len` destination symbols: the alignment must cover both
    /// sequences end to end.
    pub fn from_trace(trace: &Vec<TraceStep>, source_len: usize, dest_len: usize) -> (r: Result<
        CoordinateMap,
        CoordinateCoverageError,
    >)
        requires
            source_len < usize::MAX,
        ensures
            (r is Ok) <==> (src_steps(trace@) == source_len && dst_steps(trace@) == dest_len),
            r matches Ok(m) ==> {
                &&& m.entries@.len() == source_len + 1
                &&& m.view_int() == walk_entries(trace@, zero_entries(source_len + 1), 0, 0)
            },
            r matches Err(e) ==> e == CoordinateCoverageError,
    {
        // first pass: how much does the trace consume in each space?
        let mut s_total: usize = 0;
        let mut d_total: usize = 0;
        let mut i: usize = 0;
        while i < trace.len()
            invariant
                i <= trace@.len(),
                s_total == src_steps(trace@.take(i as int)),
                d_total == dst_steps(trace@.take(i as int)),
                s_total <= i && d_total <= i,
            decreases trace@.len() - i,
        {
            proof {
                lemma_steps_take_succ(trace@, i as int);
            }
            match trace[i] {
                TraceStep::Diagonal => {
                    s_total += 1;
                    d_total += 1;
                },
                TraceStep::Up => {
                    s_total += 1;
                },
                TraceStep::Left => {
                    d_total += 1;
                },
            }
            i += 1;
        }
        proof {
            assert(trace@.take(trace@.len() as int) =~= trace@);
        }
        if s_total != source_len || d_total != dest_len {
            return Err(CoordinateCoverageError);
        }
        // second pass: the walk itself
        let mut entries: Vec<usize> = Vec::new();
        let mut k: usize = 0;
        while k < source_len + 1
            invariant
                source_len < usize::MAX,
                k <= source_len + 1,
                entries@.len() == k,
                forall|j: int| 0 <= j < k ==> entries@[j] == 0,
            decreases source_len + 1 - k,
        {
            entries.push(0);
            k += 1;
        }
        proof {
            assert(entries@.map_values(|v: usize| v as int) =~= zero_entries(source_len + 1));
        }
        let mut s: usize = 0;
        let mut d: usize = 0;
        let mut i: usize = 0;
        while i < trace.len()
            invariant
                i <= trace@.len(),
                source_len < usize::MAX,
                src_steps(trace@) == source_len && dst_steps(trace@) == dest_len,
                s == src_steps(trace@.take(i as int)),
                d == dst_steps(trace@.take(i as int)),
                entries@.len() == source_len + 1,
                walk_entries(trace@, zero_entries(source_len + 1), 0, 0) == walk_entries(
                    trace@.skip(i as int),
                    entries@.map_values(|v: usize| v as int),
                    s as int,
                    d as int,
                ),
            decreases trace@.len() - i,
        {
            proof {
                lemma_steps_take_succ(trace@, i as int);
                lemma_steps_prefix_le(trace@, i + 1);
                lemma_steps_nonneg(trace@.take(i as int));
                lemma_steps_nonneg(trace@.take(i + 1));
            }
            let ghost pre_entries = entries@.map_values(|v: usize| v as int);
            let ghost pre_s = s as int;
            let ghost pre_d = d as int;
            let st = trace[i];
            match st {
                TraceStep::Diagonal => {
                    s += 1;
                    d += 1;
                },
                TraceStep::Up => {
                    s += 1;
                },
                TraceStep::Left => {
                    d += 1;
                },
            }
            entries[s] = d;
            proof {
                assert(entries@.map_values(|v: usize| v as int) =~= pre_entries.update(
                    pre_s + step_src(trace@[i as int]),
                    pre_d + step_dst(trace@[i as int]),
                ));
                assert(trace@.skip(i as int).skip(1) =~= trace@.skip(i + 1));
                assert(trace@.skip(i as int)[0] == trace@[i as int]);
            }
            i += 1;
        }
        proof {
            assert(trace@.skip(trace@.len() as int) =~= Seq::<TraceStep>::empty());
        }
        Ok(CoordinateMap { entries })
    }

    /// Destination column for source column `i`, as a start boundary:
    /// a resolved `0` is clamped to `1`.
    pub fn map_start(&self, i: usize) -> (v: usize)
        requires
            i < self.entries@.len(),
        ensures
            v == (if self.entries@[i as int] < 1 {
                1int
            } else {
                self.entries@[i as int] as int
            }),
    {
        let e = self.entries[i];
        if e < 1 {
            1
        } else {
            e
        }
    }

    /// Destination column for source column `i`, as an end boundary:
    /// used as resolved.
    pub fn map_end(&self, i: usize) -> (v: usize)
        requires
            i < self.entries@.len(),
        ensures
            v == self.entries@[i as int],
    {
        self.entries[i]
    }
}

/// One profile's two consensus derivations, aligned end to end by the
/// pairwise-alignment collaborator: the trace maps the coarse filter's
/// column space (source) onto the profile's own column space
/// (destination).
pub struct ProfilePairAlignment {
    pub accession: Vec<u8>,
    pub trace: Vec<TraceStep>,
    pub source_length: usize,
    pub dest_length: usize,
}

/// Does the trace consume both sequences exactly?
pub open spec fn alignment_covers(a: &ProfilePairAlignment) -> bool {
    src_steps(a.trace@) == a.source_length && dst_steps(a.trace@) == a.dest_length
}

/// A profile whose pairwise alignment did not cover both consensus
/// sequences end to end.
#[derive(Debug)]
pub struct ProfileCoverageError {
    pub accession: Vec<u8>,
}

/// Build one coordinate map per profile, keyed by accession. Fails loudly
/// on the first profile whose alignment does not cover both sequences.
pub fn map_p7_to_mmseqs_profiles(alignments: &Vec<ProfilePairAlignment>) -> (r: Result<
    Vec<(Vec<u8>, CoordinateMap)>,
    ProfileCoverageError,
>)
    requires
        forall|k: int|
            0 <= k < alignments@.len() ==> (#[trigger] alignments@[k]).source_length < usize::MAX,
    ensures
        (r is Ok) <==> (forall|k: int|
            0 <= k < alignments@.len() ==> alignment_covers(&#[trigger] alignments@[k])),
        r matches Ok(v) ==> {
            &&& v@.len() == alignments@.len()
            &&& forall|k: int|
                0 <= k < alignments@.len() ==> {
                    &&& (#[trigger] v@[k]).0@ == alignments@[k].accession@
                    &&& v@[k].1.entries@.len() == alignments@[k].source_length + 1
                    &&& v@[k].1.view_int() == walk_entries(
                        alignments@[k].trace@,
                        zero_entries(alignments@[k].source_length + 1),
                        0,
                        0,
                    )
                }
        },
        r matches Err(e) ==> exists|k: int|
            {
                &&& 0 <= k < alignments@.len()
                &&& !alignment_covers(&#[trigger] alignments@[k])
                &&& e.accession@ == alignments@[k].accession@
                &&& forall|j: int| 0 <= j < k ==> alignment_covers(&#[trigger] alignments@[j])
            },
{
    let mut out: Vec<(Vec<u8>, CoordinateMap)> = Vec::new();
    let mut k: usize = 0;
    while k < alignments.len()
        invariant
            k <= alignments@.len(),
            forall|i: int|
                0 <= i < alignments@.len() ==> (#[trigger] alignments@[i]).source_length
                    < usize::MAX,
            out@.len() == k,
            forall|i: int| 0 <= i < k ==> alignment_covers(&#[trigger] alignments@[i]),
            forall|i: int|
                0 <= i < k ==> {
                    &&& (#[trigger] out@[i]).0@ == alignments@[i].accession@
                    &&& out@[i].1.entries@.len() == alignments@[i].source_length + 1
                    &&& out@[i].1.view_int() == walk_entries(
                        alignments@[i].trace@,
                        zero_entries(alignments@[i].source_length + 1),
                        0,
                        0,
                    )
                },
        decreases alignments@.len() - k,
    {
        let a = &alignments[k];
        let cm = match CoordinateMap::from_trace(&a.trace, a.source_length, a.dest_length) {
            Ok(cm) => cm,
            Err(_) => {
                let acc = crate::bytes::copy_bytes(&a.accession);
                proof {
                    assert(!alignment_covers(&alignments@[k as int]));
                }
                return Err(ProfileCoverageError { accession: acc });
            },
        };
        let acc = crate::bytes::copy_bytes(&a.accession);
        out.push((acc, cm));
        k += 1;
    }
    Ok(out)
}

/// The walk only rewrites entries between the starting and final source
/// cursors, keeps them sorted, and never exceeds the final destination
/// cursor there.
proof fn lemma_walk_sorted(tr: Seq<TraceStep>, e: Seq<int>, s: int, d: int)
    requires
        0 <= s < e.len(),
        s + src_steps(tr) < e.len(),
        forall|i: int, j: int| 0 <= i <= j <= s ==> e[i] <= e[j],
        e[s] <= d,
    ensures
        ({
            let res = walk_entries(tr, e, s, d);
            let s_end = s + src_steps(tr);
            let d_end = d + dst_steps(tr);
            &&& forall|i: int, j: int| 0 <= i <= j <= s_end ==> res[i] <= res[j]
            &&& res[s_end] <= d_end
            &&& forall|i: int| 0 <= i < s ==> res[i] == e[i]
            &&& forall|i: int| s_end < i < e.len() ==> res[i] == e[i]
        }),
    decreases tr.len(),
{
    lemma_steps_nonneg(tr);
    lemma_walk_entries_len(tr, e, s, d);
    if tr.len() == 0 {
    } else {
        let st = tr[0];
        let s2 = s + step_src(st);
        let d2 = d + step_dst(st);
        let e2 = e.update(s2, d2);
        lemma_steps_skip_first(tr);
        lemma_steps_nonneg(tr.skip(1));
        assert(forall|i: int, j: int| 0 <= i <= j <= s2 ==> e2[i] <= e2[j]);
        lemma_walk_sorted(tr.skip(1), e2, s2, d2);
    }
}

/// Consumption splits around the first step.
proof fn lemma_steps_skip_first(tr: Seq<TraceStep>)
    requires
        tr.len() > 0,
    ensures
        src_steps(tr) == step_src(tr[0]) + src_steps(tr.skip(1)),
        dst_steps(tr) == step_dst(tr[0]) + dst_steps(tr.skip(1)),
    decreases tr.len(),
{
    if tr.len() == 1 {
        assert(tr.skip(1) =~= Seq::<TraceStep>::empty());
        assert(tr.drop_last() =~= Seq::<TraceStep>::empty());
        assert(tr.last() == tr[0]);
    } else {
        lemma_steps_skip_first(tr.drop_last());
        assert(tr.drop_last()[0] == tr[0]);
        assert(tr.skip(1).drop_last() =~= tr.drop_last().skip(1));
        assert(tr.skip(1).last() == tr.last());
    }
}

/// The finished map is monotone: a later source column never resolves to an
/// earlier destination column, and no entry exceeds the destination length.
pub proof fn lemma_map_monotone(tr: Seq<TraceStep>, source_len: int, dest_len: int)
    requires
        src_steps(tr) == source_len,
        dst_steps(tr) == dest_len,
        source_len >= 0,
    ensures
        ({
            let res = walk_entries(tr, zero_entries(source_len + 1), 0, 0);
            &&& forall|i: int, j: int| 0 <= i <= j <= source_len ==> res[i] <= res[j]
            &&& forall|i: int| 0 <= i <= source_len ==> res[i] <= dest_len
        }),
{
    let e = zero_entries(source_len + 1);
    lemma_walk_sorted(tr, e, 0, 0);
    let res = walk_entries(tr, e, 0, 0);
    assert forall|i: int| 0 <= i <= source_len implies res[i] <= dest_len by {
        assert(res[i] <= res[source_len]);
    }
}

/// A trace of diagonal steps alone maps every source column to itself:
/// two identical sequences yield the identity map, with entry `0` left at
/// `0`.
pub proof fn lemma_identity_trace_identity_map(tr: Seq<TraceStep>, n: int)
    requires
        tr.len() == n,
        forall|i: int| 0 <= i < n ==> tr[i] == TraceStep::Diagonal,
    ensures
        forall|k: int|
            0 <= k <= n ==> #[trigger] walk_entries(tr, zero_entries(n + 1), 0, 0)[k] == k,
{
    lemma_walk_diagonal(tr, zero_entries(n + 1), 0, 0);
    lemma_steps_all_diag(tr);
    assert forall|k: int| 0 <= k <= n implies #[trigger] walk_entries(
        tr,
        zero_entries(n + 1),
        0,
        0,
    )[k] == k by {
        if k == 0 {
            assert(walk_entries(tr, zero_entries(n + 1), 0, 0)[0] == zero_entries(n + 1)[0]);
        }
    }
}

/// All-diagonal traces consume one symbol of each sequence per step.
pub proof fn lemma_steps_all_diag(tr: Seq<TraceStep>)
    requires
        forall|i: int| 0 <= i < tr.len() ==> tr[i] == TraceStep::Diagonal,
    ensures
        src_steps(tr) == tr.len(),
        dst_steps(tr) == tr.len(),
    decreases tr.len(),
{
    if tr.len() > 0 {
        lemma_steps_all_diag(tr.drop_last());
    }
}

/// Walking an all-diagonal trace writes `k` at every entry the cursor
/// reaches, and touches nothing else.
proof fn lemma_walk_diagonal(tr: Seq<TraceStep>, e: Seq<int>, s: int, d: int)
    requires
        forall|i: int| 0 <= i < tr.len() ==> tr[i] == TraceStep::Diagonal,
        0 <= s,
        s == d,
        s + tr.len() < e.len(),
    ensures
        ({
            let res = walk_entries(tr, e, s, d);
            &&& forall|k: int| s < k <= s + tr.len() ==> res[k] == k
            &&& forall|k: int| 0 <= k <= s ==> res[k] == e[k]
            &&& forall|k: int| s + tr.len() < k < e.len() ==> res[k] == e[k]
        }),
    decreases tr.len(),
{
    lemma_walk_entries_len(tr, e, s, d);
    if tr.len() > 0 {
        let e2 = e.update(s + 1, d + 1);
        assert(forall|i: int| 0 <= i < tr.skip(1).len() ==> tr.skip(1)[i] == TraceStep::Diagonal);
        lemma_walk_diagonal(tr.skip(1), e2, s + 1, d + 1);
        let res = walk_entries(tr, e, s, d);
        assert(tr[0] == TraceStep::Diagonal);
        assert(res == walk_entries(tr.skip(1), e2, s + 1, d + 1));
        assert forall|k: int| s < k <= s + tr.len() implies res[k] == k by {
            if k == s + 1 {
                assert(res[k] == e2[k]);
            }
        }
    }
}

} // verus!
