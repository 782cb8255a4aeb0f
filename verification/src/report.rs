use vstd::prelude::*;

use crate::counts::BaseCounts;

verus! {

/// The decimal digits of `n` as ASCII bytes, most significant first.
pub open spec fn dec_digits(n: nat) -> Seq<u8>
    decreases n,
{
    if n < 10 {
        seq![(48 + n) as u8]
    } else {
        dec_digits(n / 10) + seq![(48 + n % 10) as u8]
    }
}

/// A vector with the bytes of `v` in reverse order.
fn reversed(v: &Vec<u8>) -> (r: Vec<u8>)
    ensures
        r@ == v@.reverse(),
{
    let n = v.len();
    let mut out: Vec<u8> = Vec::new();
    let mut i: usize = 0;
    while i < n
        invariant
            i <= n,
            n == v@.len(),
            out@.len() == i,
            forall|j: int| 0 <= j < i ==> out@[j] == v@[n - 1 - j],
        decreases n - i,
    {
        out.push(v[n - 1 - i]);
        i = i + 1;
    }
    proof {
        assert(out@ =~= v@.reverse());
    }
    out
}

/// Renders `x` in decimal, as `dec_digits` describes it.
pub fn u64_to_decimal(x: u64) -> (r: Vec<u8>)
    ensures
        r@ == dec_digits(x as nat),
{
    let mut digits: Vec<u8> = Vec::new();
    let mut m: u64 = x;
    proof {
        assert(dec_digits(x as nat) + digits@.reverse() =~= dec_digits(x as nat));
    }
    while m >= 10
        invariant
            dec_digits(x as nat) == dec_digits(m as nat) + digits@.reverse(),
        decreases m,
    {
        let ghost rev_old = digits@.reverse();
        let d: u8 = 48 + (m % 10) as u8;
        digits.push(d);
        m = m / 10;
        proof {
            assert(digits@.reverse() =~= seq![d] + rev_old);
            assert(dec_digits((m * 10 + d - 48) as nat) == dec_digits(m as nat) + seq![d]) by {
                assert((m * 10 + d - 48) as nat / 10 == m as nat);
                assert((m * 10 + d - 48) as nat % 10 == (d - 48) as nat);
            }
            assert((dec_digits(m as nat) + seq![d]) + rev_old =~= dec_digits(m as nat) + (seq![d]
                + rev_old));
        }
    }
    let ghost rev_old = digits@.reverse();
    let d: u8 = 48 + m as u8;
    digits.push(d);
    proof {
        assert(dec_digits(m as nat) == seq![d]);
        assert(digits@.reverse() =~= seq![d] + rev_old);
        assert(seq![d] + rev_old =~= dec_digits(m as nat) + rev_old);
    }
    reversed(&digits)
}

/// The five counters in output order, comma-separated, in decimal.
pub open spec fn csv_of(c: BaseCounts) -> Seq<u8> {
    dec_digits(c.a as nat) + seq![44u8] + dec_digits(c.t as nat) + seq![44u8] + dec_digits(
        c.c as nat,
    ) + seq![44u8] + dec_digits(c.g as nat) + seq![44u8] + dec_digits(c.ambig as nat)
}

/// Renders the counters as the counts part of an output row.
pub fn csv_line(basecounts: &BaseCounts) -> (r: Vec<u8>)
    ensures
        r@ == csv_of(*basecounts),
{
    let mut out = u64_to_decimal(basecounts.a);
    out.push(44);
    let mut part = u64_to_decimal(basecounts.t);
    out.append(&mut part);
    out.push(44);
    let mut part = u64_to_decimal(basecounts.c);
    out.append(&mut part);
    out.push(44);
    let mut part = u64_to_decimal(basecounts.g);
    out.append(&mut part);
    out.push(44);
    let mut part = u64_to_decimal(basecounts.ambig);
    out.append(&mut part);
    proof {
        assert(out@ =~= csv_of(*basecounts));
    }
    out
}

/// The fixed header row of the output: `Sample,A,T,C,G,Ambig`.
pub open spec fn header_bytes() -> Seq<u8> {
    seq![
        83u8,
        97u8,
        109u8,
        112u8,
        108u8,
        101u8,
        44u8,
        65u8,
        44u8,
        84u8,
        44u8,
        67u8,
        44u8,
        71u8,
        44u8,
        65u8,
        109u8,
        98u8,
        105u8,
        103u8,
    ]
}

/// Renders the fixed header row.
pub fn csv_header() -> (r: Vec<u8>)
    ensures
        r@ == header_bytes(),
{
    let mut out: Vec<u8> = Vec::new();
    out.push(83);
    out.push(97);
    out.push(109);
    out.push(112);
    out.push(108);
    out.push(101);
    out.push(44);
    out.push(65);
    out.push(44);
    out.push(84);
    out.push(44);
    out.push(67);
    out.push(44);
    out.push(71);
    out.push(44);
    out.push(65);
    out.push(109);
    out.push(98);
    out.push(105);
    out.push(103);
    proof {
        assert(out@ =~= header_bytes());
    }
    out
}

/// Renders one output row: the sample name, a comma, and the five counts.
pub fn report_line(name: &[u8], basecounts: &BaseCounts) -> (r: Vec<u8>)
    ensures
        r@ == name@ + seq![44u8] + csv_of(*basecounts),
{
    let mut out = vstd::slice::slice_to_vec(name);
    out.push(44);
    let mut rest = csv_line(basecounts);
    out.append(&mut rest);
    proof {
        assert(out@ =~= name@ + seq![44u8] + csv_of(*basecounts));
    }
    out
}

} // verus!
