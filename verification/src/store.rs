//! Indexed flat-store reader: a data buffer paired with a text index whose
//! lines are `id offset length` triples. The index places every record id in
//! the contiguous range `0..n`; a record's bytes are exactly
//! `data[offset .. offset + length]`.

use vstd::prelude::*;

use crate::bytes::{all_digits, dec_value, parse_u64, tokenize, tokens_of};

verus! {

/// One record's placement in the data buffer.
#[derive(Clone, Copy, Debug, PartialEq, Eq, Structural)]
pub struct IndexEntry {
    pub offset: u64,
    pub length: u32,
}

/// Errors of index parsing and record reading. Line numbers are 1-based;
/// the caller supplies the file context.
#[derive(Clone, Copy, Debug, PartialEq, Eq, Structural)]
pub enum StoreError {
    /// The line does not hold exactly three unsigned decimal fields in range.
    MalformedIndexLine { line_number: usize },
    /// The line's record id is outside `0..n` for an index of `n` lines.
    RecordIdOutOfRange { line_number: usize },
    /// The line's record id was already given by an earlier line.
    DuplicateRecordId { line_number: usize },
    /// A record id at or past the end of the index was asked for.
    NoSuchRecord { record_id: usize },
    /// The record's span does not lie inside the data buffer.
    ShortRead { record_id: usize },
}

/// Does this index line hold exactly three unsigned decimal fields,
/// each in range for its place (`id` a usize, `offset` a u64, `length` a u32)?
pub open spec fn index_line_ok(l: Seq<u8>) -> bool {
    let ts = tokens_of(l);
    &&& ts.len() == 3
    &&& ts[0].len() > 0 && all_digits(ts[0]) && dec_value(ts[0]) <= usize::MAX
    &&& ts[1].len() > 0 && all_digits(ts[1]) && dec_value(ts[1]) <= u64::MAX
    &&& ts[2].len() > 0 && all_digits(ts[2]) && dec_value(ts[2]) <= u32::MAX
}

pub open spec fn line_id(l: Seq<u8>) -> int {
    dec_value(tokens_of(l)[0])
}

pub open spec fn line_offset(l: Seq<u8>) -> int {
    dec_value(tokens_of(l)[1])
}

pub open spec fn line_length(l: Seq<u8>) -> int {
    dec_value(tokens_of(l)[2])
}

/// Line `k` clashes in the placement pass: its id is out of range, or a
/// previous line already claimed the same id.
pub open spec fn placement_clash(ls: Seq<Seq<u8>>, k: int) -> bool {
    line_id(ls[k]) >= ls.len() || exists|j: int| 0 <= j < k && line_id(ls[j]) == line_id(ls[k])
}

pub open spec fn all_index_lines_ok(ls: Seq<Seq<u8>>) -> bool {
    forall|k: int| 0 <= k < ls.len() ==> index_line_ok(#[trigger] ls[k])
}

pub open spec fn no_placement_clash(ls: Seq<Seq<u8>>) -> bool {
    forall|k: int| 0 <= k < ls.len() ==> !placement_clash(ls, k)
}

/// A well-formed index file: every line holds a valid triple and the ids
/// place every record without clashing, so they form exactly `0..n`.
pub open spec fn index_lines_wf(ls: Seq<Seq<u8>>) -> bool {
    all_index_lines_ok(ls) && no_placement_clash(ls)
}

/// Some line carries record id `id`.
pub open spec fn id_covered(ls: Seq<Seq<u8>>, id: int) -> bool {
    exists|k: int| 0 <= k < ls.len() && line_id(#[trigger] ls[k]) == id
}

/// The entry that a well-formed index assigns to record `id`: the offset and
/// length of the line carrying that id.
pub open spec fn index_entry_of(ls: Seq<Seq<u8>>, id: int) -> IndexEntry {
    let j = choose|j: int| 0 <= j < ls.len() && line_id(ls[j]) == id;
    IndexEntry { offset: line_offset(ls[j]) as u64, length: line_length(ls[j]) as u32 }
}

/// What each parse error says of the lines: the named line truly offends,
/// and every earlier line is clean for that pass.
pub open spec fn parse_error_witness(ls: Seq<Seq<u8>>, e: StoreError) -> bool {
    match e {
        StoreError::MalformedIndexLine { line_number } => {
            &&& 1 <= line_number <= ls.len()
            &&& !index_line_ok(ls[line_number - 1])
            &&& forall|k: int| 0 <= k < line_number - 1 ==> index_line_ok(#[trigger] ls[k])
        },
        StoreError::RecordIdOutOfRange { line_number } => {
            &&& all_index_lines_ok(ls)
            &&& 1 <= line_number <= ls.len()
            &&& line_id(ls[line_number - 1]) >= ls.len()
            &&& forall|k: int| 0 <= k < line_number - 1 ==> !placement_clash(ls, k)
        },
        StoreError::DuplicateRecordId { line_number } => {
            &&& all_index_lines_ok(ls)
            &&& 1 <= line_number <= ls.len()
            &&& line_id(ls[line_number - 1]) < ls.len()
            &&& exists|j: int|
                0 <= j < line_number - 1 && line_id(#[trigger] ls[j]) == line_id(
                    ls[line_number - 1],
                )
            &&& forall|k: int| 0 <= k < line_number - 1 ==> !placement_clash(ls, k)
        },
        _ => false,
    }
}

/// The index of a flat store: entry `id` places record `id` in the data buffer.
#[derive(Debug)]
pub struct FlatStoreIndex {
    pub entries: Vec<IndexEntry>,
}

/// A read is determined by the index entry and the data alone: any two
/// reads of the same record return byte-identical results of exactly the
/// entry's length, since each equals the record's slice.
pub proof fn lemma_read_record_deterministic(e: IndexEntry, data: Seq<u8>, r1: Seq<u8>, r2: Seq<u8>)
    requires
        record_in_bounds(e, data),
        r1 == record_slice(e, data),
        r2 == record_slice(e, data),
    ensures
        r1 == r2,
        r1.len() == e.length,
{
}

/// Does the entry's span lie inside the data buffer?
pub open spec fn record_in_bounds(e: IndexEntry, data: Seq<u8>) -> bool {
    e.offset + e.length <= data.len()
}

/// The bytes of a record: exactly `length` bytes starting at `offset`.
pub open spec fn record_slice(e: IndexEntry, data: Seq<u8>) -> Seq<u8> {
    data.subrange(e.offset as int, e.offset + e.length)
}

impl FlatStoreIndex {
    pub open spec fn len_spec(&self) -> int {
        self.entries@.len() as int
    }

    /// Number of records the index describes.
    pub fn len(&self) -> (n: usize)
        ensures
            n == self.len_spec(),
    {
        self.entries.len()
    }

    /// Parse an index from its lines. Each line must hold `id offset length`;
    /// the ids must form exactly the range `0..n`. Entry `id` receives the
    /// offset and length of the line carrying that id, whatever order the
    /// lines arrive in.
    pub fn parse(lines: &Vec<Vec<u8>>) -> (r: Result<FlatStoreIndex, StoreError>)
        ensures
            (r is Ok) <==> index_lines_wf(lines.deep_view()),
            r matches Ok(ix) ==> {
                &&& ix.entries@.len() == lines@.len()
                &&& forall|id: int|
                    0 <= id < lines@.len() ==> #[trigger] id_covered(lines.deep_view(), id)
                &&& forall|id: int|
                    0 <= id < lines@.len() ==> #[trigger] ix.entries@[id] == index_entry_of(
                        lines.deep_view(),
                        id,
                    )
            },
            r matches Err(e) ==> parse_error_witness(lines.deep_view(), e),
    {
        let ghost ls = lines.deep_view();
        let n = lines.len();
        let mut ids: Vec<usize> = Vec::new();
        let mut offs: Vec<u64> = Vec::new();
        let mut lens: Vec<u32> = Vec::new();
        let mut k: usize = 0;
        while k < n
            invariant
                ls == lines.deep_view(),
                n == lines@.len(),
                k <= n,
                ids@.len() == k && offs@.len() == k && lens@.len() == k,
                forall|j: int| 0 <= j < k ==> index_line_ok(#[trigger] ls[j]),
                forall|j: int| 0 <= j < k ==> ids@[j] == line_id(#[trigger] ls[j]),
                forall|j: int| 0 <= j < k ==> offs@[j] == line_offset(#[trigger] ls[j]),
                forall|j: int| 0 <= j < k ==> lens@[j] == line_length(#[trigger] ls[j]),
            decreases n - k,
        {
            proof {
                assert(ls[k as int] =~= lines@[k as int]@);
            }
            let toks = tokenize(&lines[k]);
            let ghost ts = tokens_of(ls[k as int]);
            if toks.len() != 3 {
                return Err(StoreError::MalformedIndexLine { line_number: k + 1 });
            }
            proof {
                assert(toks@[0]@ == ts[0] && toks@[1]@ == ts[1] && toks@[2]@ == ts[2]);
            }
            let id64 = match parse_u64(&toks[0]) {
                Some(v) => v,
                None => {
                    return Err(StoreError::MalformedIndexLine { line_number: k + 1 });
                },
            };
            if id64 > usize::MAX as u64 {
                return Err(StoreError::MalformedIndexLine { line_number: k + 1 });
            }
            let off = match parse_u64(&toks[1]) {
                Some(v) => v,
                None => {
                    return Err(StoreError::MalformedIndexLine { line_number: k + 1 });
                },
            };
            let len64 = match parse_u64(&toks[2]) {
                Some(v) => v,
                None => {
                    return Err(StoreError::MalformedIndexLine { line_number: k + 1 });
                },
            };
            if len64 > u32::MAX as u64 {
                return Err(StoreError::MalformedIndexLine { line_number: k + 1 });
            }
            ids.push(id64 as usize);
            offs.push(off);
            lens.push(len64 as u32);
            k += 1;
        }
        let mut entries: Vec<IndexEntry> = Vec::new();
        let mut seen: Vec<bool> = Vec::new();
        let mut i: usize = 0;
        while i < n
            invariant
                i <= n,
                entries@.len() == i,
                seen@.len() == i,
                forall|j: int| 0 <= j < i ==> !(#[trigger] seen@[j]),
            decreases n - i,
        {
            entries.push(IndexEntry { offset: 0, length: 0 });
            seen.push(false);
            i += 1;
        }
        let mut k: usize = 0;
        while k < n
            invariant
                ls == lines.deep_view(),
                n == lines@.len(),
                k <= n,
                ids@.len() == n && offs@.len() == n && lens@.len() == n,
                entries@.len() == n && seen@.len() == n,
                all_index_lines_ok(ls),
                forall|j: int| 0 <= j < n ==> ids@[j] == line_id(#[trigger] ls[j]),
                forall|j: int| 0 <= j < n ==> offs@[j] == line_offset(#[trigger] ls[j]),
                forall|j: int| 0 <= j < n ==> lens@[j] == line_length(#[trigger] ls[j]),
                forall|j: int| 0 <= j < k ==> !placement_clash(ls, j),
                forall|j: int| 0 <= j < k ==> ids@[j] < n,
                forall|i2: int|
                    0 <= i2 < n ==> ((#[trigger] seen@[i2]) <==> exists|j: int|
                        0 <= j < k && ids@[j] == i2),
                forall|j: int|
                    0 <= j < k ==> {
                        &&& (#[trigger] entries@[ids@[j] as int]).offset == line_offset(ls[j])
                        &&& entries@[ids@[j] as int].length == line_length(ls[j])
                    },
            decreases n - k,
        {
            let id = ids[k];
            if id >= n {
                proof {
                    assert(line_id(ls[k as int]) >= ls.len());
                    assert(placement_clash(ls, k as int));
                }
                return Err(StoreError::RecordIdOutOfRange { line_number: k + 1 });
            }
            if seen[id] {
                proof {
                    let j = choose|j: int| 0 <= j < k && ids@[j] == id as int;
                    assert(line_id(ls[j]) == line_id(ls[k as int]));
                    assert(placement_clash(ls, k as int));
                }
                return Err(StoreError::DuplicateRecordId { line_number: k + 1 });
            }
            proof {
                assert(!placement_clash(ls, k as int));
            }
            seen[id] = true;
            entries[id] = IndexEntry { offset: offs[k], length: lens[k] };
            k += 1;
        }
        proof {
            let n_int = n as int;
            // the ids are distinct and lie in 0..n, so they cover 0..n
            let idseq: Seq<int> = Seq::new(n as nat, |j: int| line_id(ls[j]));
            assert(idseq.no_duplicates()) by {
                assert forall|j1: int, j2: int|
                    0 <= j1 < n_int && 0 <= j2 < n_int && j1 != j2 implies idseq[j1]
                    != idseq[j2] by {
                    if j1 < j2 {
                        assert(!placement_clash(ls, j2));
                    } else {
                        assert(!placement_clash(ls, j1));
                    }
                }
            }
            idseq.unique_seq_to_set();
            assert(idseq.to_set().subset_of(vstd::set_lib::set_int_range(0, n_int))) by {
                assert forall|v: int| idseq.to_set().contains(v) implies 0 <= v < n_int by {
                    let j = choose|j: int| 0 <= j < idseq.len() && idseq[j] == v;
                    assert(all_digits(tokens_of(ls[j])[0]));
                    crate::bytes::lemma_dec_value_nonneg(tokens_of(ls[j])[0]);
                    assert(!placement_clash(ls, j));
                }
            }
            vstd::set_lib::lemma_int_range(0, n_int);
            vstd::set_lib::lemma_len_subset(
                idseq.to_set(),
                vstd::set_lib::set_int_range(0, n_int),
            );
            vstd::set_lib::lemma_subset_equality(
                idseq.to_set(),
                vstd::set_lib::set_int_range(0, n_int),
            );
            assert forall|id: int| 0 <= id < n_int implies #[trigger] id_covered(ls, id) by {
                assert(idseq.to_set().contains(id));
                let j = choose|j: int| 0 <= j < idseq.len() && idseq[j] == id;
                assert(line_id(ls[j]) == id);
            }
            assert forall|id: int| 0 <= id < n_int implies #[trigger] entries@[id]
                == index_entry_of(ls, id) by {
                assert(id_covered(ls, id));
                let k0 = choose|j: int| 0 <= j < ls.len() && line_id(#[trigger] ls[j]) == id;
                let j0 = choose|j: int| 0 <= j < ls.len() && line_id(ls[j]) == id;
                if j0 != k0 {
                    if j0 < k0 {
                        assert(placement_clash(ls, k0));
                    } else {
                        assert(placement_clash(ls, j0));
                    }
                }
                assert(ids@[k0] == line_id(ls[k0]));
                assert(entries@[ids@[k0] as int].offset == line_offset(ls[k0]));
                assert(entries@[ids@[k0] as int].length == line_length(ls[k0]));
            }
        }
        Ok(FlatStoreIndex { entries })
    }

    /// Read one record out of the data buffer: exactly `length` bytes
    /// starting at `offset`. An id outside the index or a span that leaves
    /// the buffer is an error.
    pub fn read_record(&self, data: &Vec<u8>, id: usize) -> (r: Result<Vec<u8>, StoreError>)
        ensures
            id >= self.entries@.len() ==> r == Err::<Vec<u8>, StoreError>(
                StoreError::NoSuchRecord { record_id: id },
            ),
            id < self.entries@.len() && !record_in_bounds(self.entries@[id as int], data@) ==> r
                == Err::<Vec<u8>, StoreError>(StoreError::ShortRead { record_id: id }),
            id < self.entries@.len() && record_in_bounds(self.entries@[id as int], data@) ==> {
                &&& r is Ok
                &&& r matches Ok(bytes) ==> bytes@ == record_slice(self.entries@[id as int], data@)
            },
    {
        if id >= self.entries.len() {
            return Err(StoreError::NoSuchRecord { record_id: id });
        }
        let e = self.entries[id];
        let off64 = e.offset;
        let len32 = e.length;
        if off64 > data.len() as u64 || (len32 as u64) > data.len() as u64 - off64 {
            return Err(StoreError::ShortRead { record_id: id });
        }
        let off = off64 as usize;
        let l = len32 as usize;
        let mut out: Vec<u8> = Vec::new();
        let mut j: usize = 0;
        while j < l
            invariant
                j <= l,
                off + l <= data@.len(),
                data@.len() <= usize::MAX,
                out@ == data@.subrange(off as int, off + j),
            decreases l - j,
        {
            let b = data[off + j];
            out.push(b);
            proof {
                assert(out@ =~= data@.subrange(off as int, off + j + 1));
            }
            j += 1;
        }
        Ok(out)
    }
}

} // verus!
