use basecount::counts::Base;
use basecount::counts::BaseCounts;
use basecount::counts::classify_byte;
use basecount::fastq::count_bases;
use basecount::fastq::split_lines;
use basecount::input::InputKind;
use basecount::input::count_fq_bases;
use basecount::input::decode_input;
use basecount::input::resolve_kind;
use basecount::report::csv_header;
use basecount::report::csv_line;
use basecount::report::report_line;
use basecount::report::u64_to_decimal;
use std::io::Write;

fn gzip(data: &[u8]) -> Vec<u8> {
    let mut enc = flate2::write::GzEncoder::new(Vec::new(), flate2::Compression::default());
    enc.write_all(data).unwrap();
    enc.finish().unwrap()
}

fn counted(data: &[u8]) -> BaseCounts {
    let mut c = BaseCounts::default();
    count_bases(&mut c, data);
    c
}

#[test]
fn classify_all_bases() {
    assert_eq!(classify_byte(b'a'), Base::A);
    assert_eq!(classify_byte(b'A'), Base::A);
    assert_eq!(classify_byte(b't'), Base::T);
    assert_eq!(classify_byte(b'T'), Base::T);
    assert_eq!(classify_byte(b'c'), Base::C);
    assert_eq!(classify_byte(b'C'), Base::C);
    assert_eq!(classify_byte(b'g'), Base::G);
    assert_eq!(classify_byte(b'G'), Base::G);
    assert_eq!(classify_byte(b'N'), Base::Ambig);
    assert_eq!(classify_byte(b'n'), Base::Ambig);
    assert_eq!(classify_byte(b'U'), Base::Ambig);
    assert_eq!(classify_byte(b'-'), Base::Ambig);
}

#[test]
fn default_is_zero() {
    let c = BaseCounts::default();
    assert_eq!(c.a, 0);
    assert_eq!(c.t, 0);
    assert_eq!(c.c, 0);
    assert_eq!(c.g, 0);
    assert_eq!(c.ambig, 0);
}

#[test]
fn tally_mixed_bytes() {
    let mut c = BaseCounts::default();
    c.tally(b"ACGTacgtNn");
    assert_eq!(c.a, 2);
    assert_eq!(c.c, 2);
    assert_eq!(c.g, 2);
    assert_eq!(c.t, 2);
    assert_eq!(c.ambig, 2);
}

#[test]
fn split_lines_strips_cr_and_final_newline() {
    let lines = split_lines(b"ab\r\ncd\n\nef");
    let views: Vec<&[u8]> = lines.iter().map(|l| l.as_slice()).collect();
    assert_eq!(views, vec![b"ab".as_slice(), b"cd".as_slice(), b"".as_slice(), b"ef".as_slice()]);
}

#[test]
fn counts_two_records() {
    let c = counted(b"@r1\nACGTacgtNn\n+\nIIIIIIIIII\n@r2\nAAAA\n+\nIIII\n");
    assert_eq!(c.a, 6);
    assert_eq!(c.c, 2);
    assert_eq!(c.g, 2);
    assert_eq!(c.t, 2);
    assert_eq!(c.ambig, 2);
}

#[test]
fn counts_accumulate_across_calls() {
    let mut c = BaseCounts::default();
    count_bases(&mut c, b"@r1\nAC\n+\nII\n");
    count_bases(&mut c, b"@r2\nGT\n+\nII\n");
    assert_eq!((c.a, c.c, c.g, c.t, c.ambig), (1, 1, 1, 1, 0));
}

#[test]
fn sum_of_counters_is_total_sequence_bytes() {
    let c = counted(b"@r1\nACGTacgtNn\n+\nIIIIIIIIII\n@r2\nAAAA\n+\nIIII\n");
    assert_eq!(c.a + c.c + c.g + c.t + c.ambig, 14);
}

#[test]
fn processing_twice_doubles_every_counter() {
    let data = b"@r1\nACGTN\n+\nIIIII\n";
    let once = counted(data);
    let mut twice = BaseCounts::default();
    count_bases(&mut twice, data);
    count_bases(&mut twice, data);
    assert_eq!(twice.a, 2 * once.a);
    assert_eq!(twice.c, 2 * once.c);
    assert_eq!(twice.g, 2 * once.g);
    assert_eq!(twice.t, 2 * once.t);
    assert_eq!(twice.ambig, 2 * once.ambig);
}

#[test]
fn lowercase_counts_match_uppercase() {
    let lower = counted(b"@r\nacgtn\n+\nIIIII\n");
    let upper = counted(b"@r\nACGTN\n+\nIIIII\n");
    assert_eq!(lower, upper);
}

#[test]
fn empty_sequence_record_contributes_nothing() {
    let c = counted(b"@r\n\n+\n\n");
    assert_eq!((c.a, c.c, c.g, c.t, c.ambig), (0, 0, 0, 0, 0));
}

#[test]
fn all_n_record_is_entirely_ambiguous() {
    let c = counted(b"@r\nNNNNN\n+\nIIIII\n");
    assert_eq!((c.a, c.c, c.g, c.t, c.ambig), (0, 0, 0, 0, 5));
}

#[test]
fn record_without_at_sign_is_dropped() {
    let c = counted(b"r1\nCCCC\n+\nIIII\n@r2\nGG\n+\nII\n");
    assert_eq!((c.a, c.c, c.g, c.t, c.ambig), (0, 0, 2, 0, 0));
}

#[test]
fn record_with_bad_separator_is_dropped() {
    let c = counted(b"@r1\nCCCC\nx\nIIII\n@r2\nGG\n+\nII\n");
    assert_eq!((c.a, c.c, c.g, c.t, c.ambig), (0, 0, 2, 0, 0));
}

#[test]
fn record_with_quality_length_mismatch_is_dropped() {
    let c = counted(b"@r1\nCCCC\n+\nIII\n@r2\nGG\n+\nII\n");
    assert_eq!((c.a, c.c, c.g, c.t, c.ambig), (0, 0, 2, 0, 0));
}

#[test]
fn incomplete_trailing_record_is_dropped() {
    let c = counted(b"@r1\nAA\n+\nII\n@r2\nGG\n+\n");
    assert_eq!((c.a, c.c, c.g, c.t, c.ambig), (2, 0, 0, 0, 0));
}

#[test]
fn record_without_final_newline_still_counts() {
    let c = counted(b"@r1\nACGT\n+\nIIII");
    assert_eq!((c.a, c.c, c.g, c.t, c.ambig), (1, 1, 1, 1, 0));
}

#[test]
fn crlf_records_count_like_lf_records() {
    let crlf = counted(b"@r\r\nACGT\r\n+\r\nIIII\r\n");
    let lf = counted(b"@r\nACGT\n+\nIIII\n");
    assert_eq!(crlf, lf);
}

#[test]
fn resolve_kind_reads_extensions() {
    assert_eq!(resolve_kind(b"reads_1.fq"), Some(InputKind::Plain));
    assert_eq!(resolve_kind(b"reads_2.fq.gz"), Some(InputKind::Gzipped));
    assert_eq!(resolve_kind(b"a.gz"), Some(InputKind::Gzipped));
    assert_eq!(resolve_kind(b"archive.tar.gz"), Some(InputKind::Gzipped));
    assert_eq!(resolve_kind(b"trailing."), Some(InputKind::Plain));
    assert_eq!(resolve_kind(b"gz"), None);
    assert_eq!(resolve_kind(b"reads"), None);
    assert_eq!(resolve_kind(b".gz"), None);
    assert_eq!(resolve_kind(b""), None);
}

#[test]
fn decode_input_passes_plain_bytes_through() {
    let out = decode_input(b"@r\nAC\n+\nII\n", InputKind::Plain).unwrap();
    assert_eq!(out.as_slice(), b"@r\nAC\n+\nII\n");
}

#[test]
fn decode_input_decompresses_gzip() {
    let data = b"@r\nACGT\n+\nIIII\n";
    let out = decode_input(&gzip(data), InputKind::Gzipped).unwrap();
    assert_eq!(out.as_slice(), data.as_slice());
}

#[test]
fn decode_input_rejects_corrupt_gzip() {
    assert!(decode_input(b"not gzip at all", InputKind::Gzipped).is_none());
}

#[test]
fn compressed_and_plain_inputs_count_alike() {
    let fwd = b"@r1\nACGTacgtNn\n+\nIIIIIIIIII\n";
    let rev = b"@r2\nGGCC\n+\nIIII\n";
    let plain = count_fq_bases(fwd, InputKind::Plain, rev, InputKind::Plain).unwrap();
    let mixed = count_fq_bases(&gzip(fwd), InputKind::Gzipped, &gzip(rev), InputKind::Gzipped)
        .unwrap();
    assert_eq!(plain, mixed);
}

#[test]
fn count_fq_bases_adds_both_files() {
    let c = count_fq_bases(b"@r1\nAC\n+\nII\n", InputKind::Plain, b"@r2\nGTN\n+\nIII\n", InputKind::Plain)
        .unwrap();
    assert_eq!((c.a, c.c, c.g, c.t, c.ambig), (1, 1, 1, 1, 1));
}

#[test]
fn count_fq_bases_fails_on_corrupt_gzip() {
    let r = count_fq_bases(b"junk", InputKind::Gzipped, b"@r\nA\n+\nI\n", InputKind::Plain);
    assert!(r.is_none());
    let r = count_fq_bases(b"@r\nA\n+\nI\n", InputKind::Plain, b"junk", InputKind::Gzipped);
    assert!(r.is_none());
}

#[test]
fn decimal_rendering_is_exact() {
    assert_eq!(u64_to_decimal(0).as_slice(), b"0");
    assert_eq!(u64_to_decimal(7).as_slice(), b"7");
    assert_eq!(u64_to_decimal(10).as_slice(), b"10");
    assert_eq!(u64_to_decimal(256319).as_slice(), b"256319");
    assert_eq!(u64_to_decimal(u64::MAX).as_slice(), b"18446744073709551615");
}

#[test]
fn csv_line_renders_counts_in_order() {
    let c = BaseCounts { a: 1, t: 22, c: 333, g: 0, ambig: 4 };
    assert_eq!(csv_line(&c).as_slice(), b"1,22,333,0,4");
}

#[test]
fn csv_header_is_fixed() {
    assert_eq!(csv_header().as_slice(), b"Sample,A,T,C,G,Ambig");
}

#[test]
fn report_line_prefixes_sample_name() {
    let c = BaseCounts { a: 5, t: 4, c: 3, g: 2, ambig: 1 };
    assert_eq!(report_line(b"sample1", &c).as_slice(), b"sample1,5,4,3,2,1");
}
