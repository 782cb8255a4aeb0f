use vstd::prelude::*;

verus! {

/// The five buckets that a sequence byte can fall into: the four nucleotide
/// bases and one bucket for every other symbol.
#[derive(Clone, Copy, Debug, PartialEq, Eq, Structural)]
pub enum Base {
    A,
    T,
    C,
    G,
    Ambig,
}

/// The fixed, case-insensitive mapping from a byte to its bucket.
pub open spec fn classify(b: u8) -> Base {
    if b == 97 || b == 65 {
        Base::A
    } else if b == 116 || b == 84 {
        Base::T
    } else if b == 99 || b == 67 {
        Base::C
    } else if b == 103 || b == 71 {
        Base::G
    } else {
        Base::Ambig
    }
}

/// How many bytes of `s` fall into bucket `k` under `classify`.
pub open spec fn count_class(s: Seq<u8>, k: Base) -> nat
    decreases s.len(),
{
    if s.len() == 0 {
        0
    } else {
        count_class(s.drop_last(), k) + (if classify(s.last()) == k {
            1nat
        } else {
            0nat
        })
    }
}

/// Executable form of `classify`.
pub fn classify_byte(b: u8) -> (r: Base)
    ensures
        r == classify(b),
{
    if b == 97 || b == 65 {
        Base::A
    } else if b == 116 || b == 84 {
        Base::T
    } else if b == 99 || b == 67 {
        Base::C
    } else if b == 103 || b == 71 {
        Base::G
    } else {
        Base::Ambig
    }
}

/// The accumulator: one counter per bucket, summed over every sequence
/// handed to it.
#[derive(Clone, Copy, Debug, PartialEq, Eq, Structural)]
pub struct BaseCounts {
    pub a: u64,
    pub t: u64,
    pub c: u64,
    pub g: u64,
    pub ambig: u64,
}

impl BaseCounts {
    /// The counter that belongs to bucket `k`.
    pub open spec fn get(self, k: Base) -> u64 {
        match k {
            Base::A => self.a,
            Base::T => self.t,
            Base::C => self.c,
            Base::G => self.g,
            Base::Ambig => self.ambig,
        }
    }

    /// The sum of all five counters.
    pub open spec fn total(self) -> int {
        self.a + self.t + self.c + self.g + self.ambig
    }

    /// Adds every byte of `s` to the counter of its bucket.
    pub fn tally(&mut self, s: &[u8])
        requires
            old(self).total() + s@.len() <= u64::MAX,
        ensures
            forall|k: Base| final(self).get(k) == old(self).get(k) + count_class(s@, k),
            forall|k: Base| final(self).get(k) >= old(self).get(k),
            final(self).total() == old(self).total() + s@.len(),
    {
        let n = s.len();
        let mut i: usize = 0;
        while i < n
            invariant
                i <= n,
                n == s@.len(),
                old(self).total() + n <= u64::MAX,
                self.total() == old(self).total() + i,
                forall|k: Base| self.get(k) == old(self).get(k) + count_class(s@.take(i as int), k),
            decreases n - i,
        {
            let ghost prev = *self;
            let b = s[i];
            match classify_byte(b) {
                Base::A => self.a = self.a + 1,
                Base::T => self.t = self.t + 1,
                Base::C => self.c = self.c + 1,
                Base::G => self.g = self.g + 1,
                Base::Ambig => self.ambig = self.ambig + 1,
            }
            proof {
                assert(s@.take(i as int + 1).drop_last() =~= s@.take(i as int));
                assert(s@.take(i as int + 1).last() == s@[i as int]);
                assert forall|k: Base|
                    self.get(k) == old(self).get(k) + count_class(s@.take(i as int + 1), k) by {
                    assert(prev.get(k) == old(self).get(k) + count_class(s@.take(i as int), k));
                    assert(count_class(s@.take(i as int + 1), k) == count_class(
                        s@.take(i as int),
                        k,
                    ) + (if classify(s@[i as int]) == k {
                        1nat
                    } else {
                        0nat
                    }));
                    assert(self.get(k) == prev.get(k) + (if classify(s@[i as int]) == k {
                        1nat
                    } else {
                        0nat
                    }));
                }
            }
            i = i + 1;
        }
        proof {
            assert(s@.take(n as int) =~= s@);
            lemma_class_sum(s@);
        }
    }
}

impl Default for BaseCounts {
    /// All five counters start at zero.
    fn default() -> (r: Self)
        ensures
            forall|k: Base| r.get(k) == 0,
            r.total() == 0,
    {
        BaseCounts { a: 0, t: 0, c: 0, g: 0, ambig: 0 }
    }
}

/// Law: classification is total, so the five per-bucket counts of any byte
/// sequence sum to its length.
pub proof fn lemma_class_sum(s: Seq<u8>)
    ensures
        count_class(s, Base::A) + count_class(s, Base::T) + count_class(s, Base::C) + count_class(
            s,
            Base::G,
        ) + count_class(s, Base::Ambig) == s.len(),
    decreases s.len(),
{
    if s.len() > 0 {
        lemma_class_sum(s.drop_last());
    }
}

/// Per-bucket counts split over a concatenation of two byte sequences.
pub proof fn lemma_count_class_concat(s1: Seq<u8>, s2: Seq<u8>)
    ensures
        forall|k: Base| count_class(s1 + s2, k) == count_class(s1, k) + count_class(s2, k),
    decreases s2.len(),
{
    if s2.len() == 0 {
        assert(s1 + s2 =~= s1);
        assert forall|k: Base|
            count_class(s1 + s2, k) == count_class(s1, k) + count_class(s2, k) by {
            assert(count_class(s2, k) == 0);
        }
    } else {
        lemma_count_class_concat(s1, s2.drop_last());
        assert((s1 + s2).drop_last() =~= s1 + s2.drop_last());
        assert((s1 + s2).last() == s2.last());
        assert forall|k: Base|
            count_class(s1 + s2, k) == count_class(s1, k) + count_class(s2, k) by {
            assert(count_class(s1 + s2, k) == count_class(s1 + s2.drop_last(), k) + (if classify(
                s2.last(),
            ) == k {
                1nat
            } else {
                0nat
            }));
            assert(count_class(s2, k) == count_class(s2.drop_last(), k) + (if classify(s2.last())
                == k {
                1nat
            } else {
                0nat
            }));
        }
    }
}

/// Law: classifying the same byte sequence twice doubles every per-bucket
/// count exactly.
pub proof fn lemma_double_count(s: Seq<u8>)
    ensures
        forall|k: Base| count_class(s + s, k) == 2 * count_class(s, k),
{
    lemma_count_class_concat(s, s);
}

/// The byte that upper-cases an ASCII lower-case letter, and leaves every
/// other byte alone.
pub open spec fn upper_byte(b: u8) -> u8 {
    if 97 <= b <= 122 {
        (b - 32) as u8
    } else {
        b
    }
}

/// The byte sequence with every ASCII lower-case letter upper-cased.
pub open spec fn upper_of(s: Seq<u8>) -> Seq<u8> {
    s.map_values(|b: u8| upper_byte(b))
}

/// Law: upper-casing a byte sequence leaves every per-bucket count unchanged.
pub proof fn lemma_case_insensitive(s: Seq<u8>)
    ensures
        forall|k: Base| count_class(upper_of(s), k) == count_class(s, k),
    decreases s.len(),
{
    if s.len() == 0 {
        assert(upper_of(s) =~= Seq::<u8>::empty());
        assert forall|k: Base| count_class(upper_of(s), k) == count_class(s, k) by {
            assert(count_class(upper_of(s), k) == 0);
            assert(count_class(s, k) == 0);
        }
    } else {
        lemma_case_insensitive(s.drop_last());
        assert(upper_of(s).drop_last() =~= upper_of(s.drop_last()));
        assert(upper_of(s).last() == upper_byte(s.last()));
        assert forall|k: Base| count_class(upper_of(s), k) == count_class(s, k) by {
            assert(count_class(upper_of(s), k) == count_class(upper_of(s.drop_last()), k) + (
            if classify(upper_byte(s.last())) == k {
                1nat
            } else {
                0nat
            }));
            assert(count_class(s, k) == count_class(s.drop_last(), k) + (if classify(s.last())
                == k {
                1nat
            } else {
                0nat
            }));
            assert(classify(upper_byte(s.last())) == classify(s.last()));
        }
    }
}

/// Law: an empty byte sequence contributes zero to every bucket.
pub proof fn lemma_empty_counts(k: Base)
    ensures
        count_class(Seq::<u8>::empty(), k) == 0,
{
}

/// Law: a byte sequence whose bytes all classify as ambiguous contributes its
/// whole length to the ambiguous bucket and nothing to the other four.
pub proof fn lemma_all_ambiguous(s: Seq<u8>)
    requires
        forall|i: int| 0 <= i < s.len() ==> classify(s[i]) == Base::Ambig,
    ensures
        count_class(s, Base::Ambig) == s.len(),
        forall|k: Base| k != Base::Ambig ==> count_class(s, k) == 0,
    decreases s.len(),
{
    if s.len() > 0 {
        assert(forall|i: int| 0 <= i < s.drop_last().len() ==> s.drop_last()[i] == s[i]);
        lemma_all_ambiguous(s.drop_last());
        assert(s.last() == s[s.len() - 1]);
        assert(classify(s.last()) == Base::Ambig);
        assert(count_class(s, Base::Ambig) == count_class(s.drop_last(), Base::Ambig) + 1);
        assert forall|k: Base| k != Base::Ambig implies count_class(s, k) == 0 by {
            assert(count_class(s, k) == count_class(s.drop_last(), k) + (if classify(s.last())
                == k {
                1nat
            } else {
                0nat
            }));
        }
    }
}

} // verus!
