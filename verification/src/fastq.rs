use vstd::prelude::*;

use crate::counts::Base;
use crate::counts::BaseCounts;
use crate::counts::count_class;
use crate::counts::lemma_class_sum;

verus! {

/// A line with a single trailing carriage return removed, so that input with
/// CRLF line endings reads the same as input with LF endings.
pub open spec fn strip_cr(line: Seq<u8>) -> Seq<u8> {
    if line.len() > 0 && line.last() == 13 {
        line.drop_last()
    } else {
        line
    }
}

/// The position of the first newline byte of `s`, or `s.len()` when there is
/// none.
pub open spec fn line_break(s: Seq<u8>) -> nat
    decreases s.len(),
{
    if s.len() == 0 {
        0
    } else if s[0] == 10 {
        0
    } else {
        1 + line_break(s.skip(1))
    }
}

/// The lines of a byte stream: split at newline bytes, each line stripped of
/// a trailing carriage return; a final newline opens no further line.
pub open spec fn lines_of(s: Seq<u8>) -> Seq<Seq<u8>>
    decreases s.len(),
{
    if s.len() == 0 {
        Seq::empty()
    } else {
        let i = line_break(s) as int;
        if i >= s.len() {
            seq![strip_cr(s)]
        } else {
            seq![strip_cr(s.take(i))] + lines_of(s.skip(i + 1))
        }
    }
}

/// A well-formed record: the identifier line starts with '@', the separator
/// line starts with '+', and the quality line is as long as the sequence
/// line.
pub open spec fn well_formed(id: Seq<u8>, bases: Seq<u8>, sep: Seq<u8>, qual: Seq<u8>) -> bool {
    id.len() > 0 && id[0] == 64 && sep.len() > 0 && sep[0] == 43 && bases.len() == qual.len()
}

/// The sequence lines of the well-formed records among consecutive groups of
/// four lines; a malformed group is dropped, as is an incomplete group at the
/// end.
pub open spec fn records_of(lines: Seq<Seq<u8>>) -> Seq<Seq<u8>>
    decreases lines.len(),
{
    if lines.len() < 4 {
        Seq::empty()
    } else {
        let rest = records_of(lines.skip(4));
        if well_formed(lines[0], lines[1], lines[2], lines[3]) {
            seq![lines[1]] + rest
        } else {
            rest
        }
    }
}

/// The sequence lines of the records that a byte stream parses to.
pub open spec fn stream_records(data: Seq<u8>) -> Seq<Seq<u8>> {
    records_of(lines_of(data))
}

/// The total number of bytes held by a sequence of byte sequences.
pub open spec fn seq_bytes(rs: Seq<Seq<u8>>) -> nat
    decreases rs.len(),
{
    if rs.len() == 0 {
        0
    } else {
        seq_bytes(rs.drop_last()) + rs.last().len()
    }
}

/// The number of bytes in bucket `k` over a sequence of byte sequences.
pub open spec fn class_total(rs: Seq<Seq<u8>>, k: Base) -> nat
    decreases rs.len(),
{
    if rs.len() == 0 {
        0
    } else {
        class_total(rs.drop_last(), k) + count_class(rs.last(), k)
    }
}

/// The number of bytes in bucket `k` over every record of a byte stream.
pub open spec fn stream_count(data: Seq<u8>, k: Base) -> nat {
    class_total(stream_records(data), k)
}

/// `line_break` is pinned down by its characterisation: no newline before
/// `n`, and a newline (or the end of the stream) at `n`.
proof fn lemma_line_break_at(s: Seq<u8>, n: int)
    requires
        0 <= n <= s.len(),
        forall|j: int| 0 <= j < n ==> s[j] != 10,
        n < s.len() ==> s[n] == 10,
    ensures
        line_break(s) == n,
    decreases n,
{
    if n == 0 {
    } else {
        assert(s[0] != 10);
        assert(forall|j: int| 0 <= j < n - 1 ==> s.skip(1)[j] == s[1 + j]);
        assert(n - 1 < s.skip(1).len() ==> s.skip(1)[n - 1] == s[n]);
        lemma_line_break_at(s.skip(1), n - 1);
    }
}

/// Byte totals add over a concatenation.
proof fn lemma_seq_bytes_concat(x: Seq<Seq<u8>>, y: Seq<Seq<u8>>)
    ensures
        seq_bytes(x + y) == seq_bytes(x) + seq_bytes(y),
    decreases y.len(),
{
    if y.len() == 0 {
        assert(x + y =~= x);
    } else {
        lemma_seq_bytes_concat(x, y.drop_last());
        assert((x + y).drop_last() =~= x + y.drop_last());
        assert((x + y).last() == y.last());
    }
}

/// The byte total of a single sequence.
proof fn lemma_seq_bytes_singleton(r: Seq<u8>)
    ensures
        seq_bytes(seq![r]) == r.len(),
{
    assert(seq![r].drop_last() =~= Seq::<Seq<u8>>::empty());
    assert(seq![r].last() == r);
    assert(seq_bytes(Seq::<Seq<u8>>::empty()) == 0);
}

/// Per-bucket totals add over a concatenation.
pub proof fn lemma_class_total_concat(x: Seq<Seq<u8>>, y: Seq<Seq<u8>>)
    ensures
        forall|k: Base| class_total(x + y, k) == class_total(x, k) + class_total(y, k),
    decreases y.len(),
{
    if y.len() == 0 {
        assert(x + y =~= x);
        assert forall|k: Base|
            class_total(x + y, k) == class_total(x, k) + class_total(y, k) by {
            assert(class_total(y, k) == 0);
        }
    } else {
        lemma_class_total_concat(x, y.drop_last());
        assert((x + y).drop_last() =~= x + y.drop_last());
        assert((x + y).last() == y.last());
        assert forall|k: Base|
            class_total(x + y, k) == class_total(x, k) + class_total(y, k) by {
            assert(class_total(x + y, k) == class_total(x + y.drop_last(), k) + count_class(
                y.last(),
                k,
            ));
            assert(class_total(y, k) == class_total(y.drop_last(), k) + count_class(y.last(), k));
        }
    }
}

/// The per-bucket totals of a single sequence.
proof fn lemma_class_total_singleton(r: Seq<u8>)
    ensures
        forall|k: Base| class_total(seq![r], k) == count_class(r, k),
{
    assert(seq![r].drop_last() =~= Seq::<Seq<u8>>::empty());
    assert(seq![r].last() == r);
    assert forall|k: Base| class_total(seq![r], k) == count_class(r, k) by {
        assert(class_total(seq![r], k) == class_total(seq![r].drop_last(), k) + count_class(
            seq![r].last(),
            k,
        ));
        assert(class_total(Seq::<Seq<u8>>::empty(), k) == 0);
    }
}

/// Law: the five per-bucket totals of any record list sum to the number of
/// bytes its sequences hold.
pub proof fn lemma_class_total_sum(rs: Seq<Seq<u8>>)
    ensures
        class_total(rs, Base::A) + class_total(rs, Base::T) + class_total(rs, Base::C)
            + class_total(rs, Base::G) + class_total(rs, Base::Ambig) == seq_bytes(rs),
    decreases rs.len(),
{
    if rs.len() > 0 {
        lemma_class_total_sum(rs.drop_last());
        lemma_class_sum(rs.last());
    }
}

/// The byte total of a group of four lines.
proof fn lemma_seq_bytes4(ls: Seq<Seq<u8>>)
    requires
        ls.len() == 4,
    ensures
        seq_bytes(ls) == ls[0].len() + ls[1].len() + ls[2].len() + ls[3].len(),
{
    assert(ls.drop_last() =~= ls.take(3));
    assert(ls.take(3).drop_last() =~= ls.take(2));
    assert(ls.take(2).drop_last() =~= ls.take(1));
    assert(ls.take(1).drop_last() =~= ls.take(0));
    assert(ls.last() == ls[3]);
    assert(ls.take(3).last() == ls[2]);
    assert(ls.take(2).last() == ls[1]);
    assert(ls.take(1).last() == ls[0]);
    assert(seq_bytes(ls.take(0)) == 0);
    assert(seq_bytes(ls.take(1)) == ls[0].len());
    assert(seq_bytes(ls.take(2)) == ls[0].len() + ls[1].len());
    assert(seq_bytes(ls.take(3)) == ls[0].len() + ls[1].len() + ls[2].len());
}

/// The lines of a stream hold no more bytes than the stream itself.
proof fn lemma_lines_bytes(s: Seq<u8>)
    ensures
        seq_bytes(lines_of(s)) <= s.len(),
    decreases s.len(),
{
    if s.len() > 0 {
        let i = line_break(s) as int;
        if i >= s.len() {
            lemma_seq_bytes_singleton(strip_cr(s));
            assert(strip_cr(s).len() <= s.len());
        } else {
            lemma_lines_bytes(s.skip(i + 1));
            lemma_seq_bytes_concat(seq![strip_cr(s.take(i))], lines_of(s.skip(i + 1)));
            lemma_seq_bytes_singleton(strip_cr(s.take(i)));
            assert(strip_cr(s.take(i)).len() <= i);
            assert(s.skip(i + 1).len() == s.len() - i - 1);
        }
    }
}

/// The records drawn from a list of lines hold no more bytes than the lines.
proof fn lemma_records_bytes(lines: Seq<Seq<u8>>)
    ensures
        seq_bytes(records_of(lines)) <= seq_bytes(lines),
    decreases lines.len(),
{
    if lines.len() >= 4 {
        lemma_records_bytes(lines.skip(4));
        assert(lines =~= lines.take(4) + lines.skip(4));
        lemma_seq_bytes_concat(lines.take(4), lines.skip(4));
        lemma_seq_bytes4(lines.take(4));
        if well_formed(lines[0], lines[1], lines[2], lines[3]) {
            lemma_seq_bytes_concat(seq![lines[1]], records_of(lines.skip(4)));
            lemma_seq_bytes_singleton(lines[1]);
            assert(records_of(lines) == seq![lines[1]] + records_of(lines.skip(4)));
        } else {
            assert(records_of(lines) == records_of(lines.skip(4)));
        }
    }
}

/// Law: counting the records of the same byte stream twice doubles every
/// per-bucket total exactly.
pub proof fn lemma_double_stream(data: Seq<u8>)
    ensures
        forall|k: Base|
            class_total(stream_records(data) + stream_records(data), k) == 2 * stream_count(
                data,
                k,
            ),
{
    lemma_class_total_concat(stream_records(data), stream_records(data));
}

/// The records of a byte stream hold no more bytes than the stream itself.
pub proof fn lemma_stream_bytes(data: Seq<u8>)
    ensures
        seq_bytes(stream_records(data)) <= data.len(),
{
    lemma_records_bytes(lines_of(data));
    lemma_lines_bytes(data);
}

/// The position of the first newline at or after `start`, or the length of
/// the slice when there is none.
fn find_line_end(s: &[u8], start: usize) -> (r: usize)
    requires
        start <= s@.len(),
    ensures
        start <= r <= s@.len(),
        forall|j: int| start <= j < r ==> s@[j] != 10,
        r < s@.len() ==> s@[r as int] == 10,
{
    let n = s.len();
    let mut i: usize = start;
    while i < n
        invariant
            start <= i <= n,
            n == s@.len(),
            forall|j: int| start <= j < i ==> s@[j] != 10,
        decreases n - i,
    {
        if s[i] == 10 {
            return i;
        }
        i = i + 1;
    }
    i
}

/// Splits a byte stream into its lines, as `lines_of` describes them.
pub fn split_lines(data: &[u8]) -> (r: Vec<Vec<u8>>)
    ensures
        r@.map_values(|v: Vec<u8>| v@) == lines_of(data@),
{
    let n = data.len();
    let mut lines: Vec<Vec<u8>> = Vec::new();
    let mut pos: usize = 0;
    proof {
        assert(data@.skip(0) =~= data@);
        assert(lines@.map_values(|v: Vec<u8>| v@) + lines_of(data@) =~= lines_of(data@));
    }
    while pos < n
        invariant
            pos <= n,
            n == data@.len(),
            lines_of(data@) == lines@.map_values(|v: Vec<u8>| v@) + lines_of(
                data@.skip(pos as int),
            ),
        decreases n - pos,
    {
        let ghost rem = data@.skip(pos as int);
        let ghost mapped = lines@.map_values(|v: Vec<u8>| v@);
        let e = find_line_end(data, pos);
        let le = if e > pos && data[e - 1] == 13 {
            e - 1
        } else {
            e
        };
        let line = vstd::slice::slice_to_vec(vstd::slice::slice_subrange(data, pos, le));
        proof {
            assert(forall|j: int| 0 <= j < rem.len() ==> rem[j] == data@[pos + j]);
            lemma_line_break_at(rem, e - pos);
            if e == n {
                assert(strip_cr(rem) =~= data@.subrange(pos as int, le as int));
            } else {
                assert(rem.take(e - pos) =~= data@.subrange(pos as int, e as int));
                assert(strip_cr(rem.take(e - pos)) =~= data@.subrange(pos as int, le as int));
                assert(rem.skip(e - pos + 1) =~= data@.skip(e as int + 1));
            }
        }
        lines.push(line);
        proof {
            assert(lines@.map_values(|v: Vec<u8>| v@) =~= mapped + seq![line@]);
            if e == n {
                assert(lines_of(rem) == seq![line@]);
                assert(mapped + seq![line@] =~= mapped + seq![line@] + lines_of(
                    data@.skip(n as int),
                ));
            } else {
                assert(lines_of(rem) == seq![line@] + lines_of(data@.skip(e as int + 1)));
                assert(mapped + (seq![line@] + lines_of(data@.skip(e as int + 1))) =~= (mapped
                    + seq![line@]) + lines_of(data@.skip(e as int + 1)));
            }
        }
        if e < n {
            pos = e + 1;
        } else {
            pos = n;
        }
        proof {
            assert(lines_of(data@) == lines@.map_values(|v: Vec<u8>| v@) + lines_of(
                data@.skip(pos as int),
            ));
        }
    }
    proof {
        assert(data@.skip(n as int).len() == 0);
        assert(lines_of(data@.skip(n as int)) == Seq::<Seq<u8>>::empty());
        assert(lines@.map_values(|v: Vec<u8>| v@) + Seq::<Seq<u8>>::empty() =~= lines@.map_values(
            |v: Vec<u8>| v@,
        ));
    }
    lines
}

/// Parses `data` as a stream of four-line records and adds every byte of
/// every well-formed record's sequence line to the counter of its bucket;
/// malformed and incomplete record groups contribute nothing.
pub fn count_bases(basecounts: &mut BaseCounts, data: &[u8])
    requires
        old(basecounts).total() + data@.len() <= u64::MAX,
    ensures
        forall|k: Base|
            final(basecounts).get(k) == old(basecounts).get(k) + stream_count(data@, k),
        forall|k: Base| final(basecounts).get(k) >= old(basecounts).get(k),
        final(basecounts).total() == old(basecounts).total() + seq_bytes(stream_records(data@)),
{
    let lines = split_lines(data);
    let ghost all = lines@.map_values(|v: Vec<u8>| v@);
    proof {
        lemma_stream_bytes(data@);
        assert(all.skip(0) =~= all);
    }
    let n = lines.len();
    let mut j: usize = 0;
    let ghost mut done: Seq<Seq<u8>> = Seq::empty();
    proof {
        assert(done + records_of(all) =~= records_of(all));
    }
    while n - j >= 4
        invariant
            j <= n,
            n == lines@.len(),
            all == lines@.map_values(|v: Vec<u8>| v@),
            all == lines_of(data@),
            old(basecounts).total() + data@.len() <= u64::MAX,
            seq_bytes(records_of(all)) <= data@.len(),
            records_of(all) == done + records_of(all.skip(j as int)),
            seq_bytes(records_of(all)) == seq_bytes(done) + seq_bytes(
                records_of(all.skip(j as int)),
            ),
            forall|k: Base| basecounts.get(k) == old(basecounts).get(k) + class_total(done, k),
            basecounts.total() == old(basecounts).total() + seq_bytes(done),
        decreases n - j,
    {
        let ghost rem = all.skip(j as int);
        let ghost done_old = done;
        let ghost prev = *basecounts;
        proof {
            assert(rem.len() == n - j);
            assert(forall|m: int| 0 <= m < rem.len() ==> rem[m] == all[j + m]);
            assert(forall|m: int| 0 <= m < all.len() ==> all[m] == lines@[m]@);
        }
        let ok = lines[j].len() > 0 && lines[j][0] == 64 && lines[j + 2].len() > 0 && lines[j
            + 2][0] == 43 && lines[j + 1].len() == lines[j + 3].len();
        proof {
            assert(ok == well_formed(rem[0], rem[1], rem[2], rem[3]));
            assert(rem.skip(4) =~= all.skip(j as int + 4));
        }
        if ok {
            proof {
                assert(records_of(rem) == seq![rem[1]] + records_of(rem.skip(4)));
                lemma_seq_bytes_concat(seq![rem[1]], records_of(rem.skip(4)));
                lemma_seq_bytes_singleton(rem[1]);
                lemma_seq_bytes_concat(done_old, seq![rem[1]]);
                lemma_class_total_concat(done_old, seq![rem[1]]);
                lemma_class_total_singleton(rem[1]);
            }
            let bases = &lines[j + 1];
            basecounts.tally(bases.as_slice());
            proof {
                done = done_old + seq![rem[1]];
                assert(done_old + (seq![rem[1]] + records_of(rem.skip(4))) =~= done + records_of(
                    rem.skip(4),
                ));
                assert forall|k: Base|
                    basecounts.get(k) == old(basecounts).get(k) + class_total(done, k) by {
                    assert(prev.get(k) == old(basecounts).get(k) + class_total(done_old, k));
                    assert(class_total(done, k) == class_total(done_old, k) + class_total(
                        seq![rem[1]],
                        k,
                    ));
                    assert(class_total(seq![rem[1]], k) == count_class(rem[1], k));
                    assert(basecounts.get(k) == prev.get(k) + count_class(rem[1], k));
                }
            }
        } else {
            proof {
                assert(records_of(rem) == records_of(rem.skip(4)));
            }
        }
        j = j + 4;
        proof {
            assert(all.skip(j as int) =~= rem.skip(4));
        }
    }
    proof {
        assert(all.skip(j as int).len() == n - j < 4);
        assert(records_of(all.skip(j as int)) == Seq::<Seq<u8>>::empty());
        assert(done + Seq::<Seq<u8>>::empty() =~= done);
        assert(records_of(all) == done);
        assert(stream_records(data@) == records_of(all));
    }
}

} // verus!
