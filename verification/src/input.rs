use vstd::prelude::*;

use crate::counts::Base;
use crate::counts::BaseCounts;
use crate::fastq::count_bases;
use crate::fastq::lemma_stream_bytes;
use crate::fastq::seq_bytes;
use crate::fastq::stream_count;
use crate::fastq::stream_records;

verus! {

/// Whether an input file's bytes are to be read as they are or decompressed
/// first, as its file name's extension announces.
#[derive(Clone, Copy, Debug, PartialEq, Eq, Structural)]
pub enum InputKind {
    Plain,
    Gzipped,
}

/// What a gzip stream decodes to, or nothing when it is not a valid gzip
/// stream; decoding is a function of the input bytes alone.
pub uninterp spec fn gunzip_of(data: Seq<u8>) -> Option<Seq<u8>>;

/// Relies on flate2's read::GzDecoder: reading it to the end decodes the
/// gzip stream held by the byte slice, and fails exactly on streams that do
/// not decode.
#[verifier::external_body]
fn gunzip(data: &[u8]) -> (r: Option<Vec<u8>>)
    ensures
        match r {
            Some(v) => gunzip_of(data@) == Some(v@),
            None => gunzip_of(data@) is None,
        },
{
    let mut decoder = flate2::read::GzDecoder::new(data);
    let mut out: Vec<u8> = Vec::new();
    match std::io::Read::read_to_end(&mut decoder, &mut out) {
        Ok(_) => Some(out),
        Err(_) => None,
    }
}

/// Whether a file name carries an extension: a dot after its first byte, as
/// a leading dot alone marks a hidden file rather than an extension.
pub open spec fn has_extension(name: Seq<u8>) -> bool {
    exists|i: int| 1 <= i < name.len() && name[i] == 46
}

/// Whether a file name's extension is exactly "gz": it ends in ".gz" with
/// the dot after its first byte.
pub open spec fn is_gz_name(name: Seq<u8>) -> bool {
    name.len() >= 4 && name[name.len() - 3] == 46 && name[name.len() - 2] == 103 && name[name.len()
        - 1] == 122
}

/// Reads the extension off a file name: nothing when the name has none,
/// otherwise whether that extension calls for decompression.
pub fn resolve_kind(name: &[u8]) -> (r: Option<InputKind>)
    ensures
        match r {
            Some(k) => has_extension(name@) && ((k == InputKind::Gzipped) <==> is_gz_name(name@)),
            None => !has_extension(name@),
        },
{
    let n = name.len();
    let mut i: usize = n;
    while i > 1
        invariant
            i <= n,
            n == name@.len(),
            forall|j: int| i <= j < n ==> name@[j] != 46,
        decreases i,
    {
        if name[i - 1] == 46 {
            let gz = n >= 3 && i - 1 == n - 3 && name[n - 2] == 103 && name[n - 1] == 122;
            if gz {
                return Some(InputKind::Gzipped);
            } else {
                return Some(InputKind::Plain);
            }
        }
        i = i - 1;
    }
    None
}

/// The byte stream an input file stands for: its own bytes when plain, what
/// they decode to when gzipped.
pub open spec fn decoded_of(data: Seq<u8>, kind: InputKind) -> Option<Seq<u8>> {
    match kind {
        InputKind::Plain => Some(data),
        InputKind::Gzipped => gunzip_of(data),
    }
}

/// Turns an input file's bytes into the byte stream they stand for, or
/// nothing when a gzipped input does not decode.
pub fn decode_input(data: &[u8], kind: InputKind) -> (r: Option<Vec<u8>>)
    ensures
        match r {
            Some(v) => decoded_of(data@, kind) == Some(v@),
            None => decoded_of(data@, kind) is None,
        },
{
    match kind {
        InputKind::Plain => Some(vstd::slice::slice_to_vec(data)),
        InputKind::Gzipped => gunzip(data),
    }
}

/// Counts the bases of both input files of a sample: each file is decoded as
/// its kind directs, parsed into records, and every sequence byte added to
/// the counter of its bucket. Fails exactly when a file does not decode or
/// the combined decoded size outruns the counters' range.
pub fn count_fq_bases(
    forward: &[u8],
    forward_kind: InputKind,
    reverse: &[u8],
    reverse_kind: InputKind,
) -> (r: Option<BaseCounts>)
    ensures
        ({
            let df = decoded_of(forward@, forward_kind);
            let dr = decoded_of(reverse@, reverse_kind);
            match r {
                Some(c) => df is Some && dr is Some && (forall|k: Base|
                    c.get(k) == stream_count(df->0, k) + stream_count(dr->0, k)) && c.total()
                    == seq_bytes(stream_records(df->0)) + seq_bytes(stream_records(dr->0)),
                None => df is None || dr is None || df->0.len() + dr->0.len() > u64::MAX,
            }
        }),
{
    let fwd = decode_input(forward, forward_kind);
    let rev = decode_input(reverse, reverse_kind);
    match (fwd, rev) {
        (Some(f), Some(v)) => {
            if u64::MAX - (f.len() as u64) < (v.len() as u64) {
                None
            } else {
                let mut basecounts = BaseCounts::default();
                count_bases(&mut basecounts, f.as_slice());
                proof {
                    lemma_stream_bytes(f@);
                }
                count_bases(&mut basecounts, v.as_slice());
                Some(basecounts)
            }
        },
        _ => None,
    }
}

/// Law: a compressed input and the plain content it decodes to stand for the
/// same byte stream, so they yield identical counts in every bucket.
pub proof fn lemma_compressed_matches_plain(data: Seq<u8>, content: Seq<u8>)
    requires
        gunzip_of(data) == Some(content),
    ensures
        decoded_of(data, InputKind::Gzipped) == decoded_of(content, InputKind::Plain),
        forall|k: Base|
            stream_count(decoded_of(data, InputKind::Gzipped)->0, k) == stream_count(content, k),
{
}

} // verus!
