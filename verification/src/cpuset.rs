//! A fixed-capacity, word-packed CPU bitset, bit-for-bit compatible with the
//! kernel's affinity-mask layout: `CPU_MAXSIZE` bits stored least-significant
//! bit first in an array of machine words.

use vstd::prelude::*;

verus! {

/// Width in bits of one storage word (the platform's unsigned long width).
pub const _BITSET_BITS: usize = 64;

/// Maximum number of addressable CPUs: the nominal bit capacity of a
/// [`CpuSet`].
pub const CPU_MAXSIZE: usize = 256;

/// The capacity used for every CPU-set operation; equal to [`CPU_MAXSIZE`].
pub const CPU_SETSIZE: usize = CPU_MAXSIZE;

/// Number of storage words in a [`CpuSet`]:
/// `ceil(CPU_SETSIZE / _BITSET_BITS)`.
pub const CPU_WORDS: usize = (CPU_SETSIZE + _BITSET_BITS - 1) / _BITSET_BITS;

/// `ceil(s / _BITSET_BITS)`: how many words a bitset of `s` bits occupies.
pub open spec fn spec_bitset_words(s: nat) -> nat {
    (s + _BITSET_BITS - 1) as nat / _BITSET_BITS as nat
}

/// Index of the word that holds bit `n` of a bitset of `s` bits.
///
/// When the whole bitset fits in a single word, the word index is `0`
/// directly, mirroring the kernel's own single-word special case.
pub open spec fn spec_bitset_word(s: nat, n: nat) -> nat {
    if spec_bitset_words(s) == 1 {
        0
    } else {
        n / _BITSET_BITS as nat
    }
}

/// Offset of bit `n` within its word, for a bitset of `s` bits.
///
/// In the single-word case the offset is `n` itself, mirroring the kernel's
/// own single-word special case.
pub open spec fn spec_bitset_offset(s: nat, n: nat) -> nat {
    if spec_bitset_words(s) == 1 {
        n
    } else {
        n % _BITSET_BITS as nat
    }
}

/// The single-bit word mask that addresses bit `n` of a bitset of `s` bits.
pub open spec fn spec_bitset_mask(s: nat, n: nat) -> u64 {
    1u64 << (spec_bitset_offset(s, n) as u64)
}

/// Whether bit `n` is set in the word sequence `w`, read as a bitset of `s`
/// bits.
pub open spec fn spec_bit_is_set(w: Seq<u64>, s: nat, n: nat) -> bool {
    w[spec_bitset_word(s, n) as int] & spec_bitset_mask(s, n) != 0
}

/// The word sequence `w`, read as a bitset of `s` bits, with bit `n` set: the
/// addressed word ored with the addressed single-bit mask.
pub open spec fn spec_with_bit_set(w: Seq<u64>, s: nat, n: nat) -> Seq<u64> {
    w.update(
        spec_bitset_word(s, n) as int,
        w[spec_bitset_word(s, n) as int] | spec_bitset_mask(s, n),
    )
}

/// A CPU set: `CPU_SETSIZE` bits packed into `CPU_WORDS` machine words, the
/// same layout the kernel reads and writes through its affinity calls.
pub struct CpuSet {
    words: Vec<u64>,
}

impl CpuSet {
    /// The storage size invariant: exactly `ceil(CPU_SETSIZE / _BITSET_BITS)`
    /// words, which is what the kernel ABI expects of an affinity mask.
    pub open spec fn wf(self) -> bool {
        self@.len() == CPU_WORDS
    }

    /// Whether CPU `n` is a member of this set.
    pub open spec fn spec_has(self, n: nat) -> bool {
        spec_bit_is_set(self@, CPU_SETSIZE as nat, n)
    }

    /// A fresh, zeroed CPU set.
    pub fn new() -> (s: CpuSet)
        ensures
            s.wf(),
            s@ =~= Seq::new(CPU_WORDS as nat, |i: int| 0u64),
            forall|n: nat| n < CPU_SETSIZE ==> !s.spec_has(n),
    {
        let mut words: Vec<u64> = Vec::new();
        let mut i: usize = 0;
        while i < CPU_WORDS
            invariant
                i <= CPU_WORDS,
                words@.len() == i,
                forall|j: int| 0 <= j < i ==> words@[j] == 0u64,
            decreases CPU_WORDS - i,
        {
            words.push(0u64);
            i = i + 1;
        }
        let s = CpuSet { words };
        proof {
            lemma_zeroed_has_no_bits(s.words@, CPU_SETSIZE as nat);
        }
        s
    }

    /// The words of the set, lowest-indexed word first. This is the exact
    /// buffer, `CPU_WORDS * (_BITSET_BITS / 8)` bytes, that a native affinity
    /// call consumes or produces.
    pub fn words(&self) -> (w: &Vec<u64>)
        ensures
            w@ == self@,
    {
        &self.words
    }

    /// Rebuilds a set from raw words, as returned by a native affinity call.
    /// Yields `None` when the buffer is not exactly `CPU_WORDS` words long.
    pub fn from_words(words: Vec<u64>) -> (r: Option<CpuSet>)
        ensures
            words@.len() == CPU_WORDS ==> (r matches Some(s) && s.wf() && s@ == words@),
            words@.len() != CPU_WORDS ==> r is None,
    {
        if words.len() == CPU_WORDS {
            Some(CpuSet { words })
        } else {
            None
        }
    }
}

impl View for CpuSet {
    type V = Seq<u64>;

    closed spec fn view(&self) -> Seq<u64> {
        self.words@
    }
}

/// In an all-zero word sequence no bit is set.
pub proof fn lemma_zeroed_has_no_bits(w: Seq<u64>, s: nat)
    requires
        forall|j: int| 0 <= j < w.len() ==> w[j] == 0u64,
        spec_bitset_words(s) <= w.len(),
    ensures
        forall|n: nat| n < s ==> !spec_bit_is_set(w, s, n),
{
    assert forall|n: nat| n < s implies !spec_bit_is_set(w, s, n) by {
        lemma_bitset_addressing_in_range(s, n);
        let wi = spec_bitset_word(s, n) as int;
        assert(w[wi] == 0u64);
        let off = spec_bitset_offset(s, n) as u64;
        assert(0u64 & (1u64 << off) == 0) by (bit_vector);
    }
}

/// For `n < s`, the computed word index lies inside the `ceil(s / word_bits)`
/// words of storage and the bit offset lies inside one word.
pub proof fn lemma_bitset_addressing_in_range(s: nat, n: nat)
    requires
        n < s,
    ensures
        spec_bitset_word(s, n) < spec_bitset_words(s),
        spec_bitset_offset(s, n) < _BITSET_BITS,
{
    let b = _BITSET_BITS as nat;
    if spec_bitset_words(s) == 1 {
        assert((s + b - 1) as nat / b == 1 ==> s <= b) by (nonlinear_arith)
            requires
                b == 64,
                s >= 1,
        ;
    } else {
        assert(n / b < (s + b - 1) as nat / b) by (nonlinear_arith)
            requires
                b == 64,
                n < s,
        ;
        assert(n % b < b) by (nonlinear_arith)
            requires
                b == 64,
        ;
    }
}

/// Two distinct in-range bit indices address distinct (word, offset) pairs,
/// so their single-bit masks never collide within one word.
pub proof fn lemma_bitset_addressing_injective(s: nat, n: nat, m: nat)
    requires
        n < s,
        m < s,
        n != m,
    ensures
        spec_bitset_word(s, n) != spec_bitset_word(s, m) || spec_bitset_offset(s, n)
            != spec_bitset_offset(s, m),
{
    let b = _BITSET_BITS as nat;
    if spec_bitset_words(s) != 1 {
        if spec_bitset_word(s, n) == spec_bitset_word(s, m) && spec_bitset_offset(s, n)
            == spec_bitset_offset(s, m) {
            assert(n == b * (n / b) + n % b) by (nonlinear_arith)
                requires
                    b == 64,
            ;
            assert(m == b * (m / b) + m % b) by (nonlinear_arith)
                requires
                    b == 64,
            ;
        }
    }
}

/// Oring a single-bit mask into a word makes that bit read back as set.
proof fn lemma_or_mask_sets_bit(x: u64, b: u64)
    by (bit_vector)
    requires
        b < 64,
    ensures
        (x | (1u64 << b)) & (1u64 << b) != 0,
{
}

/// Oring a single-bit mask into a word leaves every other bit as it was.
proof fn lemma_or_mask_preserves_other(x: u64, b: u64, c: u64)
    by (bit_vector)
    requires
        b < 64,
        c < 64,
        b != c,
    ensures
        ((x | (1u64 << b)) & (1u64 << c) != 0) == (x & (1u64 << c) != 0),
{
}

/// Bit addressing is correct: setting bit `n` of a bitset of `s` bits makes
/// bit `n` read back as set, and leaves every other in-range bit reading back
/// exactly as it did before. In particular, on a freshly zeroed bitset every
/// other bit still reads back false (see [`lemma_zeroed_has_no_bits`]).
pub proof fn lemma_set_bit_round_trip(w: Seq<u64>, s: nat, n: nat)
    requires
        spec_bitset_words(s) <= w.len(),
        n < s,
    ensures
        spec_bit_is_set(spec_with_bit_set(w, s, n), s, n),
        forall|m: nat|
            m < s && m != n ==> spec_bit_is_set(spec_with_bit_set(w, s, n), s, m)
                == spec_bit_is_set(w, s, m),
{
    lemma_bitset_addressing_in_range(s, n);
    let w2 = spec_with_bit_set(w, s, n);
    let wi = spec_bitset_word(s, n) as int;
    lemma_or_mask_sets_bit(w[wi], spec_bitset_offset(s, n) as u64);
    assert forall|m: nat| m < s && m != n implies spec_bit_is_set(w2, s, m) == spec_bit_is_set(
        w,
        s,
        m,
    ) by {
        lemma_bitset_addressing_in_range(s, m);
        lemma_bitset_addressing_injective(s, n, m);
        if spec_bitset_word(s, m) == spec_bitset_word(s, n) {
            lemma_or_mask_preserves_other(
                w[wi],
                spec_bitset_offset(s, n) as u64,
                spec_bitset_offset(s, m) as u64,
            );
        }
    }
}

/// Setting a bit twice leaves the very same words as setting it once.
pub proof fn lemma_set_bit_idempotent(w: Seq<u64>, s: nat, n: nat)
    requires
        spec_bitset_words(s) <= w.len(),
        n < s,
    ensures
        spec_with_bit_set(spec_with_bit_set(w, s, n), s, n) =~= spec_with_bit_set(w, s, n),
{
    lemma_bitset_addressing_in_range(s, n);
    let off = spec_bitset_offset(s, n) as u64;
    let wi = spec_bitset_word(s, n) as int;
    let x = w[wi];
    assert((x | (1u64 << off)) | (1u64 << off) == x | (1u64 << off)) by (bit_vector);
}

/// When the whole bitset fits in one storage word, the addressing degenerates
/// to word `0` and offset `n` for every in-range index, exactly as the
/// kernel's single-word special case prescribes.
pub proof fn lemma_single_word_addressing(s: nat, n: nat)
    requires
        1 <= s <= _BITSET_BITS,
        n < s,
    ensures
        spec_bitset_words(s) == 1,
        spec_bitset_word(s, n) == 0,
        spec_bitset_offset(s, n) == n,
{
    let b = _BITSET_BITS as nat;
    assert((s + b - 1) as nat / b == 1) by (nonlinear_arith)
        requires
            b == 64,
            1 <= s <= b,
    ;
}

/// Computes `ceil(x / y)`.
fn __howmany(x: usize, y: usize) -> (r: usize)
    requires
        y > 0,
        x + y - 1 <= usize::MAX,
    ensures
        r == (x + y - 1) / y as int,
{
    (x + (y - 1)) / y
}

/// Number of storage words a bitset of `_s` bits occupies.
fn __bitset_words(_s: usize) -> (r: usize)
    requires
        _s + _BITSET_BITS - 1 <= usize::MAX,
    ensures
        r == spec_bitset_words(_s as nat),
{
    __howmany(_s, _BITSET_BITS)
}

/// The single-bit mask addressing bit `n` of a bitset of `_s` bits.
fn __bitset_mask(_s: usize, n: usize) -> (r: u64)
    requires
        n < _s,
        _s + _BITSET_BITS - 1 <= usize::MAX,
    ensures
        r == spec_bitset_mask(_s as nat, n as nat),
{
    let relative_bit: usize = if __bitset_words(_s) == 1 {
        n
    } else {
        n % _BITSET_BITS
    };
    proof {
        lemma_bitset_addressing_in_range(_s as nat, n as nat);
    }
    let bit: u64 = 1;
    bit << (relative_bit as u64)
}

/// The index of the storage word holding bit `n` of a bitset of `_s` bits.
fn __bitset_word(_s: usize, n: usize) -> (r: usize)
    requires
        n < _s,
        _s + _BITSET_BITS - 1 <= usize::MAX,
    ensures
        r == spec_bitset_word(_s as nat, n as nat),
{
    if __bitset_words(_s) == 1 {
        0
    } else {
        n / _BITSET_BITS
    }
}

/// Sets bit `n` of `p`, read as a bitset of `_s` bits: ors the addressed
/// single-bit mask into the addressed word. Every other bit, of this word and
/// of the others, is untouched.
pub fn BIT_SET(_s: usize, n: usize, p: &mut CpuSet)
    requires
        n < _s,
        _s + _BITSET_BITS - 1 <= usize::MAX,
        spec_bitset_words(_s as nat) <= old(p)@.len(),
    ensures
        final(p)@ == spec_with_bit_set(old(p)@, _s as nat, n as nat),
        spec_bit_is_set(final(p)@, _s as nat, n as nat),
        forall|m: nat|
            m < _s && m != n ==> spec_bit_is_set(final(p)@, _s as nat, m) == spec_bit_is_set(
                old(p)@,
                _s as nat,
                m,
            ),
{
    proof {
        lemma_bitset_addressing_in_range(_s as nat, n as nat);
    }
    let wi = __bitset_word(_s, n);
    let mask = __bitset_mask(_s, n);
    let w = p.words[wi];
    p.words[wi] = w | mask;
    proof {
        let s = _s as nat;
        let nn = n as nat;
        lemma_or_mask_sets_bit(w, spec_bitset_offset(s, nn) as u64);
        assert forall|m: nat| m < s && m != nn implies spec_bit_is_set(p@, s, m)
            == spec_bit_is_set(old(p)@, s, m) by {
            lemma_bitset_addressing_in_range(s, m);
            lemma_bitset_addressing_injective(s, nn, m);
            if spec_bitset_word(s, m) == spec_bitset_word(s, nn) {
                lemma_or_mask_preserves_other(
                    w,
                    spec_bitset_offset(s, nn) as u64,
                    spec_bitset_offset(s, m) as u64,
                );
            }
        }
    }
}

/// Tests bit `n` of `p`, read as a bitset of `_s` bits, by the same word/bit
/// addressing that `BIT_SET` uses.
pub fn BIT_ISSET(_s: usize, n: usize, p: &CpuSet) -> (r: bool)
    requires
        n < _s,
        _s + _BITSET_BITS - 1 <= usize::MAX,
        spec_bitset_words(_s as nat) <= p@.len(),
    ensures
        r == spec_bit_is_set(p@, _s as nat, n as nat),
{
    proof {
        lemma_bitset_addressing_in_range(_s as nat, n as nat);
    }
    (p.words[__bitset_word(_s, n)] & __bitset_mask(_s, n)) != 0
}

/// Marks CPU `n` as a member of the set.
pub fn CPU_SET(n: usize, p: &mut CpuSet)
    requires
        n < CPU_SETSIZE,
        old(p).wf(),
    ensures
        final(p).wf(),
        final(p)@ == spec_with_bit_set(old(p)@, CPU_SETSIZE as nat, n as nat),
        final(p).spec_has(n as nat),
        forall|m: nat|
            m < CPU_SETSIZE && m != n ==> final(p).spec_has(m) == old(p).spec_has(m),
{
    BIT_SET(CPU_SETSIZE, n, p);
}

/// Tests whether CPU `n` is a member of the set.
pub fn CPU_ISSET(n: usize, p: &CpuSet) -> (r: bool)
    requires
        n < CPU_SETSIZE,
        p.wf(),
    ensures
        r == p.spec_has(n as nat),
{
    BIT_ISSET(CPU_SETSIZE, n, p)
}

/// Clears every storage word of the set to zero; afterwards no CPU is a
/// member.
pub fn CPU_ZERO(p: &mut CpuSet)
    requires
        old(p).wf(),
    ensures
        final(p).wf(),
        final(p)@ =~= Seq::new(CPU_WORDS as nat, |i: int| 0u64),
        forall|n: nat| n < CPU_SETSIZE ==> !final(p).spec_has(n),
{
    let mut idx: usize = 0;
    while idx < CPU_WORDS
        invariant
            old(p)@.len() == CPU_WORDS,
            p@.len() == CPU_WORDS,
            idx <= CPU_WORDS,
            forall|j: int| 0 <= j < idx ==> p@[j] == 0u64,
        decreases CPU_WORDS - idx,
    {
        p.words[idx] = 0;
        idx = idx + 1;
    }
    proof {
        lemma_zeroed_has_no_bits(p@, CPU_SETSIZE as nat);
    }
}

} // verus!

