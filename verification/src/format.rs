//! Query-file format detection and the pipeline stage selector.

use vstd::prelude::*;

verus! {

/// The pipeline stage asked for on the command line.
#[derive(Clone, Copy, Debug, PartialEq, Eq, Structural)]
pub enum Command {
    Prep,
    Seed,
    Align,
    Search,
    NotSet,
}

impl Default for Command {
    fn default() -> (r: Self)
        ensures
            r is NotSet,
    {
        Command::NotSet
    }
}

/// The format of a query file.
#[derive(Clone, Copy, Debug, PartialEq, Eq, Structural)]
pub enum FileFormat {
    Fasta,
    Stockholm,
    Hmm,
    Unset,
}

impl Default for FileFormat {
    fn default() -> (r: Self)
        ensures
            r is Unset,
    {
        FileFormat::Unset
    }
}

/// The first line of the query file matches none of the known formats.
#[derive(Clone, Copy, Debug, PartialEq, Eq, Structural)]
pub struct UnrecognizedFileFormatError;

/// The query database carries a type code this pipeline does not support.
#[derive(Clone, Copy, Debug, PartialEq, Eq, Structural)]
pub struct UnsupportedMmseqsDbError {
    pub code: u8,
}

/// `>`: a fasta file's first byte.
pub open spec fn fasta_first_line(l: Seq<u8>) -> bool {
    l.len() >= 1 && l[0] == 62
}

/// `# STOCKHOLM`: a stockholm file's first bytes.
pub open spec fn stockholm_first_line(l: Seq<u8>) -> bool {
    l.len() >= 11 && l.subrange(0, 11) =~= seq![35u8, 32, 83, 84, 79, 67, 75, 72, 79, 76, 77]
}

/// `HMMER`: a profile HMM file's first bytes.
pub open spec fn hmm_first_line(l: Seq<u8>) -> bool {
    l.len() >= 5 && l.subrange(0, 5) =~= seq![72u8, 77, 77, 69, 82]
}

/// Classify a query file by its first line: `>` opens a fasta file,
/// `# STOCKHOLM` a stockholm file, `HMMER` a profile HMM file. Anything
/// else is unrecognized.
pub fn guess_query_format_from_first_line(line: &Vec<u8>) -> (r: Result<
    FileFormat,
    UnrecognizedFileFormatError,
>)
    ensures
        r == Ok::<FileFormat, UnrecognizedFileFormatError>(FileFormat::Fasta) <==> fasta_first_line(
            line@,
        ),
        r == Ok::<FileFormat, UnrecognizedFileFormatError>(FileFormat::Stockholm)
            <==> stockholm_first_line(line@),
        r == Ok::<FileFormat, UnrecognizedFileFormatError>(FileFormat::Hmm) <==> hmm_first_line(
            line@,
        ),
        (r is Err) <==> (!fasta_first_line(line@) && !stockholm_first_line(line@)
            && !hmm_first_line(line@)),
{
    if line.len() >= 1 && line[0] == 62 {
        return Ok(FileFormat::Fasta);
    }
    if line.len() >= 11 && line[0] == 35 && line[1] == 32 && line[2] == 83 && line[3] == 84
        && line[4] == 79 && line[5] == 67 && line[6] == 75 && line[7] == 72 && line[8] == 79
        && line[9] == 76 && line[10] == 77 {
        proof {
            assert(line@.subrange(0, 11) =~= seq![35u8, 32, 83, 84, 79, 67, 75, 72, 79, 76, 77]);
        }
        return Ok(FileFormat::Stockholm);
    }
    if line.len() >= 5 && line[0] == 72 && line[1] == 77 && line[2] == 77 && line[3] == 69
        && line[4] == 82 {
        proof {
            assert(line@.subrange(0, 5) =~= seq![72u8, 77, 77, 69, 82]);
        }
        return Ok(FileFormat::Hmm);
    }
    proof {
        if stockholm_first_line(line@) {
            assert(line@[0] == 35 && line@[1] == 32 && line@[2] == 83 && line@[3] == 84
                && line@[4] == 79 && line@[5] == 67 && line@[6] == 75 && line@[7] == 72
                && line@[8] == 79 && line@[9] == 76 && line@[10] == 77);
        }
        if hmm_first_line(line@) {
            assert(line@[0] == 72 && line@[1] == 77 && line@[2] == 77 && line@[3] == 69
                && line@[4] == 82);
        }
    }
    Err(UnrecognizedFileFormatError)
}

/// Classify a query database by the leading byte of its type file:
/// `0` marks an amino-acid database built from a fasta query, `2` a profile
/// database built from a stockholm query. Any other code is unsupported.
pub fn get_query_format_from_mmseqs_dbtype(code: u8) -> (r: Result<
    FileFormat,
    UnsupportedMmseqsDbError,
>)
    ensures
        code == 0 ==> r == Ok::<FileFormat, UnsupportedMmseqsDbError>(FileFormat::Fasta),
        code == 2 ==> r == Ok::<FileFormat, UnsupportedMmseqsDbError>(FileFormat::Stockholm),
        code != 0 && code != 2 ==> r == Err::<FileFormat, UnsupportedMmseqsDbError>(
            UnsupportedMmseqsDbError { code },
        ),
{
    if code == 0 {
        Ok(FileFormat::Fasta)
    } else if code == 2 {
        Ok(FileFormat::Stockholm)
    } else {
        Err(UnsupportedMmseqsDbError { code })
    }
}

} // verus!
