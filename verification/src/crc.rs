//! CRC-32/ISO-HDLC checksum: bit-reversed algorithm with polynomial
//! 0xEDB88320, initial register 0xFFFFFFFF and final complement.

use vstd::prelude::*;

verus! {

/// One round of the shift register: fold the low bit of `c` into `crc`.
pub open spec fn crc32_round(crc: u32, c: u32) -> u32 {
    if (c ^ crc) & 1 == 1 {
        (crc >> 1) ^ 0xEDB88320u32
    } else {
        crc >> 1
    }
}

/// `n` rounds of the shift register, consuming the low `n` bits of `c`.
pub open spec fn crc32_rounds(crc: u32, c: u32, n: nat) -> u32
    decreases n,
{
    if n == 0 {
        crc
    } else {
        crc32_rounds(crc32_round(crc, c), c >> 1, (n - 1) as nat)
    }
}

/// Folding one byte into the running checksum register.
pub open spec fn crc32_byte(crc: u32, ch: u8) -> u32 {
    crc32_rounds(crc, ch as u32, 8)
}

/// Folding a byte sequence into the register, front to back.
pub open spec fn crc32_fold(crc: u32, s: Seq<u8>) -> u32
    decreases s.len(),
{
    if s.len() == 0 {
        crc
    } else {
        crc32_fold(crc32_byte(crc, s[0]), s.subrange(1, s.len() as int))
    }
}

/// The CRC-32 checksum of a byte sequence.
pub open spec fn spec_crc32(s: Seq<u8>) -> u32 {
    !crc32_fold(0xFFFFFFFFu32, s)
}

proof fn lemma_fold_push(a: u32, s: Seq<u8>, b: u8)
    ensures
        crc32_fold(a, s.push(b)) == crc32_byte(crc32_fold(a, s), b),
    decreases s.len(),
{
    if s.len() == 0 {
        assert(s.push(b)[0] == b);
        assert(s.push(b).subrange(1, 1) =~= Seq::<u8>::empty());
        assert(crc32_fold(a, s.push(b)) == crc32_fold(crc32_byte(a, b), s.push(b).subrange(1, 1)));
        assert(crc32_fold(crc32_byte(a, b), Seq::<u8>::empty()) == crc32_byte(a, b));
    } else {
        let rest = s.subrange(1, s.len() as int);
        assert(s.push(b)[0] == s[0]);
        assert(s.push(b).subrange(1, s.len() as int + 1) =~= rest.push(b));
        assert(crc32_fold(a, s.push(b)) == crc32_fold(crc32_byte(a, s[0]), rest.push(b)));
        lemma_fold_push(crc32_byte(a, s[0]), rest, b);
        assert(crc32_fold(a, s) == crc32_fold(crc32_byte(a, s[0]), rest));
    }
}

proof fn lemma_byte_injective_in_state(crc1: u32, crc2: u32, ch: u8)
    requires
        crc1 != crc2,
    ensures
        crc32_byte(crc1, ch) != crc32_byte(crc2, ch),
{
    let c = ch as u32;
    assert(crc32_rounds(crc1, c, 8) != crc32_rounds(crc2, c, 8)) by (bit_vector)
        requires
            crc1 != crc2,
            c < 256,
    ;
}

proof fn lemma_byte_injective_in_input(crc: u32, ch1: u8, ch2: u8)
    requires
        ch1 != ch2,
    ensures
        crc32_byte(crc, ch1) != crc32_byte(crc, ch2),
{
    let c1 = ch1 as u32;
    let c2 = ch2 as u32;
    assert(crc32_rounds(crc, c1, 8) != crc32_rounds(crc, c2, 8)) by (bit_vector)
        requires
            c1 != c2,
            c1 < 256,
            c2 < 256,
    ;
}

proof fn lemma_fold_injective_in_state(a1: u32, a2: u32, s: Seq<u8>)
    requires
        a1 != a2,
    ensures
        crc32_fold(a1, s) != crc32_fold(a2, s),
    decreases s.len(),
{
    if s.len() > 0 {
        lemma_byte_injective_in_state(a1, a2, s[0]);
        lemma_fold_injective_in_state(
            crc32_byte(a1, s[0]),
            crc32_byte(a2, s[0]),
            s.subrange(1, s.len() as int),
        );
    }
}

proof fn lemma_fold_concat(a: u32, s: Seq<u8>, t: Seq<u8>)
    ensures
        crc32_fold(a, s + t) == crc32_fold(crc32_fold(a, s), t),
    decreases s.len(),
{
    if s.len() == 0 {
        assert(s + t =~= t);
    } else {
        assert((s + t)[0] == s[0]);
        assert((s + t).subrange(1, (s + t).len() as int) =~= s.subrange(1, s.len() as int) + t);
        lemma_fold_concat(crc32_byte(a, s[0]), s.subrange(1, s.len() as int), t);
    }
}

/// Splitting a sequence at a byte: the checksum register after the whole
/// sequence is the register after the prefix, fed that byte, fed the suffix.
proof fn lemma_fold_split_at(a: u32, s: Seq<u8>, i: int)
    requires
        0 <= i < s.len(),
    ensures
        crc32_fold(a, s) == crc32_fold(
            crc32_byte(crc32_fold(a, s.subrange(0, i)), s[i]),
            s.subrange(i + 1, s.len() as int),
        ),
{
    let prefix = s.subrange(0, i);
    let mid = s.subrange(i, i + 1);
    let suffix = s.subrange(i + 1, s.len() as int);
    assert(s =~= prefix + (mid + suffix));
    lemma_fold_concat(a, prefix, mid + suffix);
    lemma_fold_concat(crc32_fold(a, prefix), mid, suffix);
    assert(mid[0] == s[i]);
    assert(mid.subrange(1, 1) =~= Seq::<u8>::empty());
    assert(crc32_fold(crc32_fold(a, prefix), mid) == crc32_fold(
        crc32_byte(crc32_fold(a, prefix), s[i]),
        mid.subrange(1, 1),
    ));
}

/// Changing exactly one byte of a sequence always changes its CRC-32
/// checksum: the framer's checksum test catches every single-byte
/// corruption of the checksummed region.
pub proof fn lemma_crc32_detects_single_byte_change(s1: Seq<u8>, s2: Seq<u8>, i: int)
    requires
        s1.len() == s2.len(),
        0 <= i < s1.len(),
        s1[i] != s2[i],
        forall|j: int| 0 <= j < s1.len() && j != i ==> s1[j] == s2[j],
    ensures
        spec_crc32(s1) != spec_crc32(s2),
{
    lemma_fold_split_at(0xFFFFFFFFu32, s1, i);
    lemma_fold_split_at(0xFFFFFFFFu32, s2, i);
    assert(s1.subrange(0, i) =~= s2.subrange(0, i));
    assert(s1.subrange(i + 1, s1.len() as int) =~= s2.subrange(i + 1, s2.len() as int));
    let state = crc32_fold(0xFFFFFFFFu32, s1.subrange(0, i));
    lemma_byte_injective_in_input(state, s1[i], s2[i]);
    lemma_fold_injective_in_state(
        crc32_byte(state, s1[i]),
        crc32_byte(state, s2[i]),
        s1.subrange(i + 1, s1.len() as int),
    );
    let f1 = crc32_fold(0xFFFFFFFFu32, s1);
    let f2 = crc32_fold(0xFFFFFFFFu32, s2);
    assert(f1 != f2 ==> !f1 != !f2) by (bit_vector);
}

/// Compute the CRC-32 checksum of `seq`.
pub fn crc32(seq: &[u8]) -> (r: u32)
    ensures
        r == spec_crc32(seq@),
{
    let mut crc: u32 = 0xFFFFFFFF;
    let n = seq.len();
    let mut i: usize = 0;
    while i < n
        invariant
            n == seq@.len(),
            i <= n,
            crc == crc32_fold(0xFFFFFFFFu32, seq@.subrange(0, i as int)),
        decreases n - i,
    {
        let ghost crc0 = crc;
        let mut c: u32 = seq[i] as u32;
        let ghost c0 = c;
        let mut j: usize = 0;
        while j < 8
            invariant
                j <= 8,
                crc32_rounds(crc, c, (8 - j) as nat) == crc32_rounds(crc0, c0, 8),
            decreases 8 - j,
        {
            let b = (c ^ crc) & 1;
            let ghost crc_in = crc;
            let ghost c_in = c;
            crc >>= 1;
            if b > 0 {
                crc ^= 0xEDB88320;
            }
            c >>= 1;
            proof {
                assert((c_in ^ crc_in) & 1 == 1 || (c_in ^ crc_in) & 1 == 0) by (bit_vector);
                assert(crc == crc32_round(crc_in, c_in));
            }
            j += 1;
        }
        proof {
            assert(crc == crc32_byte(crc0, seq@[i as int]));
            lemma_fold_push(0xFFFFFFFFu32, seq@.subrange(0, i as int), seq[i as int]);
            assert(seq@.subrange(0, i + 1).drop_last() =~= seq@.subrange(0, i as int));
            assert(seq@.subrange(0, i as int).push(seq@[i as int]) =~= seq@.subrange(0, i + 1));
        }
        i += 1;
    }
    proof {
        assert(seq@.subrange(0, n as int) =~= seq@);
    }
    !crc
}

} // verus!
