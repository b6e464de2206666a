//! Consensus extraction from a pair of positionally correlated flat stores:
//! a header store whose records begin with an accession terminated by the
//! first whitespace byte, and a primary store whose records pack one residue
//! per fixed-size stride.

use vstd::prelude::*;

use crate::bytes::{is_ws, lemma_run_len_is, run_len, ws_byte};
use crate::store::{
    index_entry_of, index_lines_wf, record_in_bounds, record_slice, FlatStoreIndex, StoreError,
    id_covered, parse_error_witness,
};

verus! {

/// Errors of consensus extraction. Store errors carry which of the two
/// stores they came from.
#[derive(Clone, Copy, Debug, PartialEq, Eq, Structural)]
pub enum ExtractError {
    /// The header store's index or data is at fault.
    Header(StoreError),
    /// The primary store's index or data is at fault.
    Primary(StoreError),
    /// A header record holds no whitespace byte, so no accession ends in it.
    HeaderWithoutWhitespace { record_id: usize },
    /// The two stores do not describe the same number of records.
    RecordCountMismatch { header_records: usize, primary_records: usize },
}

/// The accession carried by a header record: its prefix up to (excluding)
/// the first whitespace byte. Meaningful only when such a byte exists,
/// that is when `run_len(record) < record.len()`.
pub open spec fn accession_spec(record: Seq<u8>) -> Seq<u8> {
    record.take(run_len(record) as int)
}

/// The residues packed into a primary record: one byte per whole 23-byte
/// stride, at offset 21 within its stride; a trailing partial stride is
/// discarded.
pub open spec fn stride_decode(record: Seq<u8>) -> Seq<u8> {
    Seq::new((record.len() / 23) as nat, |i: int| record[23 * i + 21])
}

/// Extract the accession from a header record: the exact prefix up to the
/// first whitespace byte. `None` when no byte of the record is whitespace.
pub fn accession_of(record: &Vec<u8>) -> (r: Option<Vec<u8>>)
    ensures
        (r is Some) <==> run_len(record@) < record@.len(),
        r matches Some(a) ==> a@ == accession_spec(record@),
{
    let mut i: usize = 0;
    while i < record.len() && !ws_byte(record[i])
        invariant
            i <= record.len(),
            forall|j: int| 0 <= j < i ==> !is_ws(record@[j]),
        decreases record.len() - i,
    {
        i += 1;
    }
    proof {
        lemma_run_len_is(record@, i as int);
    }
    if i == record.len() {
        return None;
    }
    let mut acc: Vec<u8> = Vec::new();
    let mut k: usize = 0;
    while k < i
        invariant
            k <= i <= record.len(),
            acc@ == record@.subrange(0, k as int),
        decreases i - k,
    {
        let b = record[k];
        acc.push(b);
        proof {
            assert(acc@ =~= record@.subrange(0, k + 1));
        }
        k += 1;
    }
    proof {
        assert(acc@ =~= accession_spec(record@));
    }
    Some(acc)
}

/// Decode the residues of a primary record: byte `23*i + 21` for each whole
/// stride `i`; exactly `len / 23` residues come out.
pub fn decode_stride_record(record: &Vec<u8>) -> (out: Vec<u8>)
    ensures
        out@ == stride_decode(record@),
        out@.len() == record@.len() / 23,
{
    let n = record.len() / 23;
    proof {
        assert(23 * (record@.len() / 23) <= record@.len());
    }
    let mut out: Vec<u8> = Vec::new();
    let mut i: usize = 0;
    while i < n
        invariant
            i <= n,
            n == record@.len() / 23,
            23 * n <= record@.len(),
            record@.len() <= usize::MAX,
            out@.len() == i,
            forall|j: int| 0 <= j < i ==> out@[j] == record@[23 * j + 21],
        decreases n - i,
    {
        proof {
            assert(23 * i + 21 < 23 * n) by (nonlinear_arith)
                requires
                    i < n,
            {}
        }
        let b = record[23 * i + 21];
        out.push(b);
        i += 1;
    }
    proof {
        assert(out@ =~= stride_decode(record@));
    }
    out
}

/// Every record of a well-formed header store lies in its data buffer and
/// holds a whitespace byte.
pub open spec fn headers_decodable(hl: Seq<Seq<u8>>, hdata: Seq<u8>) -> bool {
    forall|id: int|
        0 <= id < hl.len() ==> {
            &&& record_in_bounds(#[trigger] index_entry_of(hl, id), hdata)
            &&& run_len(record_slice(index_entry_of(hl, id), hdata)) < record_slice(
                index_entry_of(hl, id),
                hdata,
            ).len()
        }
}

/// Every record of a well-formed primary store lies in its data buffer.
pub open spec fn primaries_readable(pl: Seq<Seq<u8>>, pdata: Seq<u8>) -> bool {
    forall|id: int|
        0 <= id < pl.len() ==> record_in_bounds(#[trigger] index_entry_of(pl, id), pdata)
}

/// The accession of header record `id`.
pub open spec fn accession_at(hl: Seq<Seq<u8>>, hdata: Seq<u8>, id: int) -> Seq<u8> {
    accession_spec(record_slice(index_entry_of(hl, id), hdata))
}

/// The decoded residues of primary record `id`.
pub open spec fn residues_at(pl: Seq<Seq<u8>>, pdata: Seq<u8>, id: int) -> Seq<u8> {
    stride_decode(record_slice(index_entry_of(pl, id), pdata))
}

/// Recover, per record id, the accession named by the header store and the
/// residue sequence decoded from the primary store. Record id `i` of the
/// header store corresponds to record id `i` of the primary store.
pub fn extract_mmseqs_profile_consensus_sequences(
    header_index_lines: &Vec<Vec<u8>>,
    header_data: &Vec<u8>,
    primary_index_lines: &Vec<Vec<u8>>,
    primary_data: &Vec<u8>,
) -> (r: Result<Vec<(Vec<u8>, Vec<u8>)>, ExtractError>)
    ensures
        (r is Ok) <==> {
            &&& index_lines_wf(header_index_lines.deep_view())
            &&& index_lines_wf(primary_index_lines.deep_view())
            &&& header_index_lines@.len() == primary_index_lines@.len()
            &&& headers_decodable(header_index_lines.deep_view(), header_data@)
            &&& primaries_readable(primary_index_lines.deep_view(), primary_data@)
        },
        r matches Ok(out) ==> {
            &&& out@.len() == header_index_lines@.len()
            &&& forall|id: int|
                0 <= id < out@.len() ==> (#[trigger] out@[id]).0@ == accession_at(
                    header_index_lines.deep_view(),
                    header_data@,
                    id,
                ) && out@[id].1@ == residues_at(
                    primary_index_lines.deep_view(),
                    primary_data@,
                    id,
                )
        },
        r matches Err(e) ==> match e {
            ExtractError::Header(se) => match se {
                StoreError::ShortRead { record_id } => {
                    &&& record_id < header_index_lines@.len()
                    &&& !record_in_bounds(
                        index_entry_of(header_index_lines.deep_view(), record_id as int),
                        header_data@,
                    )
                },
                StoreError::NoSuchRecord { .. } => false,
                _ => parse_error_witness(header_index_lines.deep_view(), se),
            },
            ExtractError::Primary(se) => match se {
                StoreError::ShortRead { record_id } => {
                    &&& record_id < primary_index_lines@.len()
                    &&& !record_in_bounds(
                        index_entry_of(primary_index_lines.deep_view(), record_id as int),
                        primary_data@,
                    )
                },
                StoreError::NoSuchRecord { .. } => false,
                _ => index_lines_wf(header_index_lines.deep_view()) && parse_error_witness(
                    primary_index_lines.deep_view(),
                    se,
                ),
            },
            ExtractError::HeaderWithoutWhitespace { record_id } => {
                &&& record_id < header_index_lines@.len()
                &&& run_len(
                    record_slice(
                        index_entry_of(header_index_lines.deep_view(), record_id as int),
                        header_data@,
                    ),
                ) >= record_slice(
                    index_entry_of(header_index_lines.deep_view(), record_id as int),
                    header_data@,
                ).len()
            },
            ExtractError::RecordCountMismatch { header_records, primary_records } => {
                &&& index_lines_wf(header_index_lines.deep_view())
                &&& index_lines_wf(primary_index_lines.deep_view())
                &&& header_records == header_index_lines@.len()
                &&& primary_records == primary_index_lines@.len()
                &&& header_records != primary_records
            },
        },
{
    let ghost hl = header_index_lines.deep_view();
    let ghost pl = primary_index_lines.deep_view();
    let hix = match FlatStoreIndex::parse(header_index_lines) {
        Ok(ix) => ix,
        Err(e) => {
            return Err(ExtractError::Header(e));
        },
    };
    let pix = match FlatStoreIndex::parse(primary_index_lines) {
        Ok(ix) => ix,
        Err(e) => {
            return Err(ExtractError::Primary(e));
        },
    };
    let n = hix.len();
    if pix.len() != n {
        return Err(
            ExtractError::RecordCountMismatch {
                header_records: n,
                primary_records: pix.len(),
            },
        );
    }
    let mut out: Vec<(Vec<u8>, Vec<u8>)> = Vec::new();
    let mut id: usize = 0;
    while id < n
        invariant
            hl == header_index_lines.deep_view(),
            pl == primary_index_lines.deep_view(),
            id <= n,
            n == hl.len() && n == pl.len(),
            hix.entries@.len() == n && pix.entries@.len() == n,
            forall|i: int| 0 <= i < n ==> #[trigger] hix.entries@[i] == index_entry_of(hl, i),
            forall|i: int| 0 <= i < n ==> #[trigger] pix.entries@[i] == index_entry_of(pl, i),
            out@.len() == id,
            forall|i: int|
                0 <= i < id ==> {
                    &&& record_in_bounds(#[trigger] index_entry_of(hl, i), header_data@)
                    &&& run_len(record_slice(index_entry_of(hl, i), header_data@)) < record_slice(
                        index_entry_of(hl, i),
                        header_data@,
                    ).len()
                },
            forall|i: int|
                0 <= i < id ==> record_in_bounds(#[trigger] index_entry_of(pl, i), primary_data@),
            forall|i: int|
                0 <= i < id ==> (#[trigger] out@[i]).0@ == accession_at(hl, header_data@, i)
                    && out@[i].1@ == residues_at(pl, primary_data@, i),
        decreases n - id,
    {
        let hrec = match hix.read_record(header_data, id) {
            Ok(b) => b,
            Err(e) => {
                return Err(ExtractError::Header(e));
            },
        };
        let acc = match accession_of(&hrec) {
            Some(a) => a,
            None => {
                return Err(ExtractError::HeaderWithoutWhitespace { record_id: id });
            },
        };
        let prec = match pix.read_record(primary_data, id) {
            Ok(b) => b,
            Err(e) => {
                return Err(ExtractError::Primary(e));
            },
        };
        let res = decode_stride_record(&prec);
        out.push((acc, res));
        id += 1;
    }
    proof {
        assert(headers_decodable(hl, header_data@));
        assert(primaries_readable(pl, primary_data@));
    }
    Ok(out)
}

} // verus!
