//! Helpers over assembled sequences: numbering and complementing the
//! nucleotide letters, and locating exact occurrences of a pattern in
//! a numbered sequence. The rolling-hash search reports only verified
//! positions: every hash candidate is re-checked literally.

use vstd::prelude::*;

use crate::rolling_hash::RollingHasher;

verus! {

/// Whether `c` is one of the four nucleotide letters.
pub open spec fn is_nucleotide(c: char) -> bool {
    c == 'A' || c == 'C' || c == 'G' || c == 'T'
}

/// The numeral of a nucleotide letter, from 1 for A to 4 for T.
pub fn letter_to_number(letter: char) -> (r: u64)
    requires
        is_nucleotide(letter),
    ensures
        letter == 'A' ==> r == 1,
        letter == 'C' ==> r == 2,
        letter == 'G' ==> r == 3,
        letter == 'T' ==> r == 4,
{
    match letter {
        'A' => 1,
        'C' => 2,
        'G' => 3,
        _ => 4,
    }
}

/// The Watson-Crick partner of a nucleotide letter.
pub open spec fn complement_of(c: char) -> char {
    if c == 'A' {
        'T'
    } else if c == 'T' {
        'A'
    } else if c == 'C' {
        'G'
    } else {
        'C'
    }
}

/// The Watson-Crick complement of a nucleotide letter.
pub fn letter_complement(letter: char) -> (r: char)
    requires
        is_nucleotide(letter),
    ensures
        r == complement_of(letter),
{
    match letter {
        'A' => 'T',
        'T' => 'A',
        'C' => 'G',
        _ => 'C',
    }
}

/// The reverse complement of a nucleotide sequence: the complements
/// of its letters, read back to front.
pub fn reverse_complement(seq: &Vec<char>) -> (r: Vec<char>)
    requires
        forall|i: int| 0 <= i < seq@.len() ==> is_nucleotide(#[trigger] seq@[i]),
    ensures
        r@.len() == seq@.len(),
        forall|i: int|
            0 <= i < r@.len() ==> #[trigger] r@[i] == complement_of(seq@[seq@.len() - 1 - i]),
{
    let mut r: Vec<char> = Vec::new();
    let len = seq.len();
    let mut k: usize = len;
    while k > 0
        invariant
            k <= len,
            len == seq@.len(),
            forall|i: int| 0 <= i < seq@.len() ==> is_nucleotide(#[trigger] seq@[i]),
            r@.len() + k == len,
            forall|i: int|
                0 <= i < r@.len() ==> #[trigger] r@[i] == complement_of(seq@[len - 1 - i]),
        decreases k,
    {
        k = k - 1;
        r.push(letter_complement(seq[k]));
    }
    r
}

/// All the length-`k` windows of the sequence, in order of their
/// start positions, the final alignment included; empty when the
/// sequence is shorter than `k`.
pub fn kmer_windows(seq: &Vec<u64>, k: usize) -> (r: Vec<Vec<u64>>)
    requires
        0 < k,
    ensures
        seq@.len() < k ==> r@.len() == 0,
        seq@.len() >= k ==> r@.len() == seq@.len() - k + 1,
        forall|i: int| 0 <= i < r@.len() ==> (#[trigger] r@[i])@ == seq@.subrange(i, i + k),
{
    let mut r: Vec<Vec<u64>> = Vec::new();
    let len = seq.len();
    if len < k {
        return r;
    }
    let count = len - k + 1;
    let mut i: usize = 0;
    while i < count
        invariant
            0 < k <= len,
            len == seq@.len(),
            count == len - k + 1,
            i <= count,
            r@.len() == i,
            forall|j: int| 0 <= j < r@.len() ==> (#[trigger] r@[j])@ == seq@.subrange(j, j + k),
        decreases count - i,
    {
        let mut w: Vec<u64> = Vec::new();
        let mut p: usize = 0;
        while p < k
            invariant
                0 < k <= len,
                len == seq@.len(),
                i + k <= len,
                p <= k,
                w@ == seq@.subrange(i as int, i + p),
            decreases k - p,
        {
            w.push(seq[i + p]);
            proof {
                assert(w@ =~= seq@.subrange(i as int, i + p + 1));
            }
            p += 1;
        }
        r.push(w);
        i += 1;
    }
    r
}

/// The pattern occurs literally at position `i` of the sequence.
pub open spec fn occurs_at(sequence: Seq<u64>, pattern: Seq<u64>, i: int) -> bool {
    &&& 0 <= i
    &&& i + pattern.len() <= sequence.len()
    &&& sequence.subrange(i, i + pattern.len()) == pattern
}

/// Whether the pattern matches the sequence starting at `i`.
fn matches_at(sequence: &[u64], pattern: &[u64], i: usize) -> (r: bool)
    requires
        i + pattern@.len() <= sequence@.len(),
    ensures
        r == occurs_at(sequence@, pattern@, i as int),
{
    let plen = pattern.len();
    let slen = sequence.len();
    let mut k: usize = 0;
    while k < plen
        invariant
            k <= plen,
            plen == pattern@.len(),
            slen == sequence@.len(),
            i + plen <= slen,
            forall|j: int| 0 <= j < k ==> sequence@[i + j] == pattern@[j],
        decreases plen - k,
    {
        if sequence[i + k] != pattern[k] {
            proof {
                assert(sequence@.subrange(i as int, i + pattern@.len())[k as int] != pattern@[
                k as int]);
            }
            return false;
        }
        k += 1;
    }
    proof {
        assert(sequence@.subrange(i as int, i + pattern@.len()) =~= pattern@);
    }
    true
}

/// Every alignment of the pattern against the sequence, the final
/// start position included, is checked literally; position `i` is
/// reported exactly when the pattern occurs there.
pub fn compute_sequence_occurrences_naive(sequence: &[u64], pattern: &[u64]) -> (r: Vec<usize>)
    requires
        pattern@.len() <= sequence@.len(),
    ensures
        forall|k: int|
            0 <= k < r@.len() ==> occurs_at(sequence@, pattern@, #[trigger] r@[k] as int),
        forall|i: int| occurs_at(sequence@, pattern@, i) ==> r@.contains(i as usize),
{
    let mut r: Vec<usize> = Vec::new();
    let bound = sequence.len() - pattern.len();
    let mut i: usize = 0;
    loop
        invariant
            bound == sequence@.len() - pattern@.len(),
            i <= bound,
            forall|k: int|
                0 <= k < r@.len() ==> occurs_at(sequence@, pattern@, #[trigger] r@[k] as int),
            forall|j: int|
                0 <= j < i && occurs_at(sequence@, pattern@, j) ==> r@.contains(j as usize),
        ensures
            bound == sequence@.len() - pattern@.len(),
            forall|k: int|
                0 <= k < r@.len() ==> occurs_at(sequence@, pattern@, #[trigger] r@[k] as int),
            forall|j: int|
                0 <= j <= bound && occurs_at(sequence@, pattern@, j) ==> r@.contains(j as usize),
        decreases bound - i,
    {
        let ghost r_pre = r@;
        if matches_at(sequence, pattern, i) {
            r.push(i);
        }
        proof {
            assert forall|j: int| 0 <= j < i + 1 && occurs_at(sequence@, pattern@, j)
                implies r@.contains(j as usize) by {
                if j < i {
                    assert(r_pre.contains(j as usize));
                    let k = choose|k: int| 0 <= k < r_pre.len() && r_pre[k] == j as usize;
                    assert(r@[k] == j as usize);
                } else {
                    assert(r@[r@.len() - 1] == j as usize);
                }
            }
        }
        if i == bound {
            break;
        }
        i += 1;
    }
    proof {
        assert forall|i2: int| occurs_at(sequence@, pattern@, i2) implies r@.contains(
            i2 as usize,
        ) by {
            assert(0 <= i2 <= bound);
        }
    }
    r
}

/// Locates the pattern with the rolling hash as a candidate filter:
/// the window slides across every alignment, a hash agreement
/// nominates a position, and a literal re-check admits it. A position
/// is reported exactly when the pattern occurs there: the hash filter
/// never misses an occurrence, because the un-reduced pattern hash
/// re-aligns compatibly with the wrap-around of the accumulation.
pub fn compute_sequence_occurrences(
    sequence: &[u64],
    pattern: &[u64],
    modulus: u64,
    alphabet_size: u64,
) -> (r: Vec<usize>)
    requires
        modulus >= 1,
        0 < pattern@.len() <= sequence@.len(),
        sequence@.len() < u64::MAX,
    ensures
        forall|k: int|
            0 <= k < r@.len() ==> occurs_at(sequence@, pattern@, #[trigger] r@[k] as int),
        forall|i: int| occurs_at(sequence@, pattern@, i) ==> r@.contains(i as usize),
{
    let mut r: Vec<usize> = Vec::new();
    let plen = pattern.len();
    let slen = sequence.len();
    let mut rl = RollingHasher::new(modulus, alphabet_size);
    let pattern_hash = rl.hash_pattern(pattern);
    let mut i: usize = 0;
    proof {
        assert(rl.spec_word() =~= sequence@.subrange(0, 0));
    }
    while i < plen
        invariant
            rl.wf(),
            i <= plen,
            plen <= slen,
            slen == sequence@.len(),
            slen < u64::MAX,
            rl.spec_word() == sequence@.subrange(0, i as int),
            rl.spec_offset() == 0,
            rl.spec_modulus() == modulus,
            rl.spec_base() == alphabet_size,
        decreases plen - i,
    {
        rl.add_last(sequence[i]);
        proof {
            assert(rl.spec_word() =~= sequence@.subrange(0, i + 1));
        }
        i += 1;
    }
    let last = slen - plen;
    let mut a: usize = 0;
    loop
        invariant
            rl.wf(),
            a <= last,
            last == slen - plen,
            plen == pattern@.len(),
            slen == sequence@.len(),
            slen < u64::MAX,
            0 < plen,
            rl.spec_word() == sequence@.subrange(a as int, a + plen),
            rl.spec_offset() == a as int,
            rl.spec_modulus() == modulus,
            rl.spec_base() == alphabet_size,
            pattern_hash.spec_offset() == 0,
            pattern_hash.spec_hash() as int == crate::rolling_hash::poly_hash(
                pattern@,
                alphabet_size,
                0,
            ) % crate::rolling_hash::m64(),
            forall|k: int|
                0 <= k < r@.len() ==> occurs_at(sequence@, pattern@, #[trigger] r@[k] as int),
            forall|j: int|
                0 <= j < a && occurs_at(sequence@, pattern@, j) ==> r@.contains(j as usize),
        ensures
            forall|k: int|
                0 <= k < r@.len() ==> occurs_at(sequence@, pattern@, #[trigger] r@[k] as int),
            forall|j: int|
                0 <= j <= slen - plen && occurs_at(sequence@, pattern@, j) ==> r@.contains(
                    j as usize,
                ),
        decreases last - a,
    {
        let ghost r_pre = r@;
        let h = rl.hash();
        proof {
            if occurs_at(sequence@, pattern@, a as int) {
                // the window holds exactly the pattern, so the hashes
                // must agree after re-alignment
                assert(rl.spec_word() == pattern@);
                crate::rolling_hash::lemma_pattern_matches_window(
                    pattern@,
                    alphabet_size,
                    modulus,
                    pattern_hash,
                    h,
                );
            }
        }
        if rl.compare(&h, &pattern_hash) {
            // a candidate match: admit it only after the literal check
            if matches_at(sequence, pattern, a) {
                r.push(a);
            }
        }
        proof {
            assert forall|k: int|
                0 <= k < r@.len() implies occurs_at(
                sequence@,
                pattern@,
                #[trigger] r@[k] as int,
            ) by {
                if k < r_pre.len() {
                    assert(r@[k] == r_pre[k]);
                }
            }
            assert forall|j: int| 0 <= j < a + 1 && occurs_at(sequence@, pattern@, j)
                implies r@.contains(j as usize) by {
                if j < a {
                    assert(r_pre.contains(j as usize));
                    let k = choose|k: int| 0 <= k < r_pre.len() && r_pre[k] == j as usize;
                    assert(r@[k] == j as usize);
                } else {
                    assert(r@[r@.len() - 1] == j as usize);
                }
            }
        }
        if a == last {
            break;
        }
        rl.advance(sequence[a + plen]);
        proof {
            assert(rl.spec_word() =~= sequence@.subrange(a + 1, a + 1 + plen));
        }
        a += 1;
    }
    proof {
        assert forall|i2: int| occurs_at(sequence@, pattern@, i2) implies r@.contains(
            i2 as usize,
        ) by {
            assert(0 <= i2 <= slen - plen);
        }
    }
    r
}

} // verus!
