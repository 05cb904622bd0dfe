use crate::tables::{
    cc_bits, cc_bits_s, data_bits_s, data_codewords, lemma_block_table_bounds, mode_indicator,
    mode_indicator_s,
};
use crate::types::{EcLevel, SegMode};
use vstd::prelude::*;

verus! {

/// Bit `k` of `v`, counting from the least significant end.
pub open spec fn bit_of(v: u32, k: u32) -> bool {
    (v >> k) & 1 == 1
}

/// The low `n` bits of `v`, most significant first, as the engine writes
/// every field into the bit stream.
pub open spec fn bseq(v: u32, n: int) -> Seq<bool> {
    Seq::new(n as nat, |i: int| bit_of(v, (n - 1 - i) as u32))
}

/// Appends the low `n` bits of `val` to `buf`, most significant first.
pub fn push_bits(buf: &mut Vec<bool>, val: u32, n: usize)
    requires
        n <= 32,
    ensures
        final(buf)@ == old(buf)@ + bseq(val, n as int),
{
    let mut i: usize = 0;
    while i < n
        invariant
            i <= n <= 32,
            buf@ == old(buf)@ + bseq(val, n as int).subrange(0, i as int),
        decreases n - i,
    {
        let sh: u32 = (n - 1 - i) as u32;
        buf.push(((val >> sh) & 1) == 1);
        proof {
            assert(buf@ =~= old(buf)@ + bseq(val, n as int).subrange(0, i + 1));
        }
        i += 1;
    }
    proof {
        assert(bseq(val, n as int).subrange(0, n as int) =~= bseq(val, n as int));
    }
}

/// Whether `b` is an ASCII decimal digit, the character set of Numeric mode.
pub open spec fn is_digit_s(b: u8) -> bool {
    48 <= b <= 57
}

/// Value of `b` in the Alphanumeric mode character table, or -1 when `b` is
/// not in that set (digits, upper-case letters, space, $ % * + - . / :).
pub open spec fn alnum_val_s(b: u8) -> int {
    if 48 <= b <= 57 {
        b - 48
    } else if 65 <= b <= 90 {
        b - 55
    } else if b == 32 {
        36
    } else if b == 36 {
        37
    } else if b == 37 {
        38
    } else if b == 42 {
        39
    } else if b == 43 {
        40
    } else if b == 45 {
        41
    } else if b == 46 {
        42
    } else if b == 47 {
        43
    } else if b == 58 {
        44
    } else {
        -1
    }
}

pub open spec fn is_alnum_s(b: u8) -> bool {
    alnum_val_s(b) >= 0
}

/// Executable Alphanumeric table value.
pub fn alnum_val(b: u8) -> (r: u8)
    requires
        is_alnum_s(b),
    ensures
        r == alnum_val_s(b),
{
    if 48 <= b && b <= 57 {
        b - 48
    } else if 65 <= b && b <= 90 {
        b - 55
    } else if b == 32 {
        36
    } else if b == 36 {
        37
    } else if b == 37 {
        38
    } else if b == 42 {
        39
    } else if b == 43 {
        40
    } else if b == 45 {
        41
    } else if b == 46 {
        42
    } else if b == 47 {
        43
    } else {
        44
    }
}

/// Whether every byte of `s` is representable in mode `m`.
pub open spec fn mode_fits_s(s: Seq<u8>, m: SegMode) -> bool {
    match m {
        SegMode::Numeric => forall|i: int| 0 <= i < s.len() ==> is_digit_s(s[i]),
        SegMode::Alphanumeric => forall|i: int| 0 <= i < s.len() ==> is_alnum_s(s[i]),
        SegMode::Byte => true,
    }
}

/// Executable test of `mode_fits_s`.
pub fn mode_fits(s: &Vec<u8>, m: SegMode) -> (r: bool)
    ensures
        r == mode_fits_s(s@, m),
{
    match m {
        SegMode::Byte => true,
        SegMode::Numeric => {
            let mut i: usize = 0;
            while i < s.len()
                invariant
                    m == SegMode::Numeric,
                    i <= s@.len(),
                    forall|j: int| 0 <= j < i ==> is_digit_s(s@[j]),
                decreases s@.len() - i,
            {
                let b = s[i];
                if !(48 <= b && b <= 57) {
                    assert(m == SegMode::Numeric);
                    assert(!mode_fits_s(s@, SegMode::Numeric)) by {
                        assert(0 <= (i as int) && (i as int) < s@.len());
                        assert(!is_digit_s(s@[i as int]));
                    }
                    return false;
                }
                i += 1;
            }
            true
        },
        SegMode::Alphanumeric => {
            let mut i: usize = 0;
            while i < s.len()
                invariant
                    m == SegMode::Alphanumeric,
                    i <= s@.len(),
                    forall|j: int| 0 <= j < i ==> is_alnum_s(s@[j]),
                decreases s@.len() - i,
            {
                let b = s[i];
                let ok = (48 <= b && b <= 57) || (65 <= b && b <= 90) || b == 32 || b == 36 || b
                    == 37 || b == 42 || b == 43 || b == 45 || b == 46 || b == 47 || b == 58;
                if !ok {
                    assert(m == SegMode::Alphanumeric);
                    assert(!mode_fits_s(s@, SegMode::Alphanumeric)) by {
                        assert(0 <= (i as int) && (i as int) < s@.len());
                        assert(!is_alnum_s(s@[i as int]));
                    }
                    return false;
                }
                i += 1;
            }
            true
        },
    }
}

/// The narrowest mode that represents all of `s`.
pub open spec fn narrowest_mode_s(s: Seq<u8>) -> SegMode {
    if mode_fits_s(s, SegMode::Numeric) {
        SegMode::Numeric
    } else if mode_fits_s(s, SegMode::Alphanumeric) {
        SegMode::Alphanumeric
    } else {
        SegMode::Byte
    }
}

/// Executable copy of `narrowest_mode_s`.
pub fn narrowest_mode(s: &Vec<u8>) -> (r: SegMode)
    ensures
        r == narrowest_mode_s(s@),
{
    if mode_fits(s, SegMode::Numeric) {
        SegMode::Numeric
    } else if mode_fits(s, SegMode::Alphanumeric) {
        SegMode::Alphanumeric
    } else {
        SegMode::Byte
    }
}

/// Bit length of the packed character data of `n` payload characters in mode
/// `m`: 10 bits per 3 digits with a 4 or 7 bit remainder, 11 bits per 2
/// alphanumeric characters with a 6 bit remainder, 8 bits per byte.
pub open spec fn payload_bits_len_s(m: SegMode, n: int) -> int {
    match m {
        SegMode::Numeric => 10 * (n / 3) + (
        if n % 3 == 0 {
            0int
        } else if n % 3 == 1 {
            4int
        } else {
            7int
        }),
        SegMode::Alphanumeric => 11 * (n / 2) + 6 * (n % 2),
        SegMode::Byte => 8 * n,
    }
}

/// Bit length of a whole segment: mode indicator, character count, data.
pub open spec fn seg_bits_len_s(m: SegMode, n: int, v: usize) -> int {
    4 + cc_bits_s(m, v) + payload_bits_len_s(m, n)
}

/// Whether one segment of `n` characters in mode `m` fits into the data
/// capacity of version `v` at level `l`.
pub open spec fn fits_s(m: SegMode, n: int, v: usize, l: EcLevel) -> bool {
    seg_bits_len_s(m, n, v) <= data_bits_s(v, l)
}

/// Executable test of `fits_s`; exact for payloads of any length.
pub fn fits(m: SegMode, n: usize, v: usize, l: EcLevel) -> (r: bool)
    requires
        1 <= v <= 40,
    ensures
        r == fits_s(m, n as int, v, l),
{
    proof {
        lemma_block_table_bounds(v, l);
    }
    let cc: u128 = cc_bits(m, v) as u128;
    let nn: u128 = n as u128;
    let body: u128 = match m {
        SegMode::Numeric => 10 * (nn / 3) + (
        if nn % 3 == 0 {
            0
        } else if nn % 3 == 1 {
            4
        } else {
            7
        }),
        SegMode::Alphanumeric => 11 * (nn / 2) + 6 * (nn % 2),
        SegMode::Byte => 8 * nn,
    };
    4 + cc + body <= (8 * data_codewords(v, l)) as u128
}

/// A payload that fits any version is never longer than 23912 characters;
/// this keeps all later bit arithmetic inside `usize`.
pub proof fn lemma_fits_payload_bound(m: SegMode, n: int, v: usize, l: EcLevel)
    requires
        1 <= v <= 40,
        0 <= n,
        fits_s(m, n, v, l),
    ensures
        n <= 23912,
{
    lemma_block_table_bounds(v, l);
    assert(data_bits_s(v, l) <= 79704);
    match m {
        SegMode::Numeric => {
            assert(10 * (n / 3) <= 79704);
            assert(n <= 3 * (n / 3) + 2);
        },
        SegMode::Alphanumeric => {
            assert(11 * (n / 2) <= 79704);
            assert(n <= 2 * (n / 2) + 1);
        },
        SegMode::Byte => {
            assert(8 * n <= 79704);
        },
    }
}

/// The smallest version whose capacity holds `n` characters of mode `m` at
/// level `l`, or `None` when even version 40 is too small.
pub fn smallest_version(m: SegMode, n: usize, l: EcLevel) -> (r: Option<usize>)
    ensures
        match r {
            Some(v) => 1 <= v <= 40 && fits_s(m, n as int, v, l) && forall|v2: usize|
                1 <= v2 < v ==> !fits_s(m, n as int, v2, l),
            None => forall|v2: usize| 1 <= v2 <= 40 ==> !fits_s(m, n as int, v2, l),
        },
{
    let mut v: usize = 1;
    while v <= 40
        invariant
            1 <= v <= 41,
            forall|v2: usize| 1 <= v2 < v ==> !fits_s(m, n as int, v2, l),
        decreases 41 - v,
    {
        if fits(m, n, v, l) {
            return Some(v);
        }
        v += 1;
    }
    None
}

/// Value of the three digits of `s` that start at `i`.
pub open spec fn num_val3_s(s: Seq<u8>, i: int) -> u32 {
    (100 * (s[i] - 48) + 10 * (s[i + 1] - 48) + (s[i + 2] - 48)) as u32
}

/// Packed Numeric mode data bits of `s` from position `i` on.
pub open spec fn num_bits_from_s(s: Seq<u8>, i: int) -> Seq<bool>
    decreases s.len() - i,
{
    if i + 3 <= s.len() {
        bseq(num_val3_s(s, i), 10) + num_bits_from_s(s, i + 3)
    } else if i + 2 == s.len() {
        bseq((10 * (s[i] - 48) + (s[i + 1] - 48)) as u32, 7)
    } else if i + 1 == s.len() {
        bseq((s[i] - 48) as u32, 4)
    } else {
        Seq::empty()
    }
}

/// Packed Alphanumeric mode data bits of `s` from position `i` on.
pub open spec fn alnum_bits_from_s(s: Seq<u8>, i: int) -> Seq<bool>
    decreases s.len() - i,
{
    if i + 2 <= s.len() {
        bseq((45 * alnum_val_s(s[i]) + alnum_val_s(s[i + 1])) as u32, 11) + alnum_bits_from_s(
            s,
            i + 2,
        )
    } else if i + 1 == s.len() {
        bseq(alnum_val_s(s[i]) as u32, 6)
    } else {
        Seq::empty()
    }
}

/// Packed Byte mode data bits of `s` from position `i` on.
pub open spec fn byte_bits_from_s(s: Seq<u8>, i: int) -> Seq<bool>
    decreases s.len() - i,
{
    if i < s.len() {
        bseq(s[i] as u32, 8) + byte_bits_from_s(s, i + 1)
    } else {
        Seq::empty()
    }
}

/// Packed character data bits of the whole payload `s` in mode `m`.
pub open spec fn seg_data_bits_s(s: Seq<u8>, m: SegMode) -> Seq<bool> {
    match m {
        SegMode::Numeric => num_bits_from_s(s, 0),
        SegMode::Alphanumeric => alnum_bits_from_s(s, 0),
        SegMode::Byte => byte_bits_from_s(s, 0),
    }
}

/// The complete segment bit stream of payload `s` in mode `m` at version
/// `v`: mode indicator, character count, packed data.
pub open spec fn seg_bits_s(s: Seq<u8>, m: SegMode, v: usize) -> Seq<bool> {
    bseq(mode_indicator_s(m), 4) + bseq(s.len() as u32, cc_bits_s(m, v) as int) + seg_data_bits_s(
        s,
        m,
    )
}

/// Appends the packed character data of `s` in mode `m`.
pub fn push_seg_data(buf: &mut Vec<bool>, s: &Vec<u8>, m: SegMode)
    requires
        mode_fits_s(s@, m),
        s@.len() < 100000,
    ensures
        final(buf)@ == old(buf)@ + seg_data_bits_s(s@, m),
{
    let n = s.len();
    match m {
        SegMode::Numeric => {
            let mut i: usize = 0;
            while i + 3 <= n
                invariant
                    i <= n,
                    n == s@.len(),
                    n < 100000,
                    mode_fits_s(s@, SegMode::Numeric),
                    old(buf)@ + num_bits_from_s(s@, 0) == buf@ + num_bits_from_s(s@, i as int),
                decreases n - i,
            {
                assert(is_digit_s(s@[i as int]));
                assert(is_digit_s(s@[i + 1]));
                assert(is_digit_s(s@[i + 2]));
                let val: u32 = 100 * ((s[i] - 48) as u32) + 10 * ((s[i + 1] - 48) as u32) + ((s[i
                    + 2] - 48) as u32);
                let ghost pre = buf@;
                push_bits(buf, val, 10);
                proof {
                    assert(pre + (bseq(val, 10) + num_bits_from_s(s@, i + 3)) =~= buf@
                        + num_bits_from_s(s@, i + 3));
                }
                i += 3;
            }
            if i + 2 == n {
                assert(is_digit_s(s@[i as int]));
                assert(is_digit_s(s@[i + 1]));
                let val: u32 = 10 * ((s[i] - 48) as u32) + ((s[i + 1] - 48) as u32);
                push_bits(buf, val, 7);
            } else if i + 1 == n {
                assert(is_digit_s(s@[i as int]));
                let val: u32 = (s[i] - 48) as u32;
                push_bits(buf, val, 4);
            } else {
                assert(buf@ =~= buf@ + Seq::<bool>::empty());
            }
        },
        SegMode::Alphanumeric => {
            let mut i: usize = 0;
            while i + 2 <= n
                invariant
                    i <= n,
                    n == s@.len(),
                    n < 100000,
                    mode_fits_s(s@, SegMode::Alphanumeric),
                    old(buf)@ + alnum_bits_from_s(s@, 0) == buf@ + alnum_bits_from_s(s@, i as int),
                decreases n - i,
            {
                assert(is_alnum_s(s@[i as int]));
                assert(is_alnum_s(s@[i + 1]));
                let val: u32 = 45 * (alnum_val(s[i]) as u32) + (alnum_val(s[i + 1]) as u32);
                let ghost pre = buf@;
                push_bits(buf, val, 11);
                proof {
                    assert(pre + (bseq(val, 11) + alnum_bits_from_s(s@, i + 2)) =~= buf@
                        + alnum_bits_from_s(s@, i + 2));
                }
                i += 2;
            }
            if i + 1 == n {
                assert(is_alnum_s(s@[i as int]));
                let val: u32 = alnum_val(s[i]) as u32;
                push_bits(buf, val, 6);
            } else {
                assert(buf@ =~= buf@ + Seq::<bool>::empty());
            }
        },
        SegMode::Byte => {
            let mut i: usize = 0;
            while i < n
                invariant
                    i <= n,
                    n == s@.len(),
                    old(buf)@ + byte_bits_from_s(s@, 0) == buf@ + byte_bits_from_s(s@, i as int),
                decreases n - i,
            {
                let val: u32 = s[i] as u32;
                let ghost pre = buf@;
                push_bits(buf, val, 8);
                proof {
                    assert(pre + (bseq(val, 8) + byte_bits_from_s(s@, i + 1)) =~= buf@
                        + byte_bits_from_s(s@, i + 1));
                }
                i += 1;
            }
            assert(buf@ =~= buf@ + Seq::<bool>::empty());
        },
    }
}

/// Appends the whole segment for payload `s` in mode `m` at version `v`.
pub fn push_segment(buf: &mut Vec<bool>, s: &Vec<u8>, m: SegMode, v: usize)
    requires
        mode_fits_s(s@, m),
        s@.len() < 100000,
    ensures
        final(buf)@ == old(buf)@ + seg_bits_s(s@, m, v),
{
    let cc = cc_bits(m, v);
    push_bits(buf, mode_indicator(m), 4);
    push_bits(buf, s.len() as u32, cc);
    push_seg_data(buf, s, m);
    proof {
        assert(buf@ =~= old(buf)@ + seg_bits_s(s@, m, v));
    }
}

/// A run of `k` light (zero) bits.
pub open spec fn zeros_s(k: int) -> Seq<bool> {
    Seq::new(k as nat, |i: int| false)
}

/// The alternating 0xEC / 0x11 pad codewords, `k` of them, starting with
/// 0xEC when `first` holds.
pub open spec fn pad_words_s(k: int, first: bool) -> Seq<bool>
    decreases k,
{
    if k <= 0 {
        Seq::empty()
    } else {
        bseq(if first {
            0xec
        } else {
            0x11
        }, 8) + pad_words_s(k - 1, !first)
    }
}

pub proof fn lemma_pad_words_len(k: int, first: bool)
    requires
        k >= 0,
    ensures
        pad_words_s(k, first).len() == 8 * k,
    decreases k,
{
    if k > 0 {
        lemma_pad_words_len(k - 1, !first);
    }
}

/// The finished data bit stream: `bits`, then a terminator of up to four
/// zeros, then zeros to the next codeword boundary, then alternating pad
/// codewords, exactly filling `cap` bits.
pub open spec fn padded_s(bits: Seq<bool>, cap: int) -> Seq<bool> {
    let term = if cap - bits.len() < 4 {
        cap - bits.len()
    } else {
        4
    };
    let a = bits.len() + term;
    let align = (8 - a % 8) % 8;
    bits + zeros_s(term) + zeros_s(align) + pad_words_s((cap - a - align) / 8, true)
}

/// Appends terminator, alignment zeros and pad codewords until `buf` holds
/// exactly `cap` bits.
pub fn add_padding(buf: &mut Vec<bool>, cap: usize)
    requires
        old(buf)@.len() <= cap,
        cap % 8 == 0,
    ensures
        final(buf)@ == padded_s(old(buf)@, cap as int),
        final(buf)@.len() == cap,
{
    let len0 = buf.len();
    let term: usize = if cap - len0 < 4 {
        cap - len0
    } else {
        4
    };
    let mut i: usize = 0;
    while i < term
        invariant
            i <= term,
            buf@ == old(buf)@ + zeros_s(i as int),
        decreases term - i,
    {
        buf.push(false);
        proof {
            assert(buf@ =~= old(buf)@ + zeros_s(i + 1));
        }
        i += 1;
    }
    let a = len0 + term;
    let align: usize = (8 - a % 8) % 8;
    assert(a + align <= cap) by {
        assert(a % 8 == 0 ==> align == 0);
        assert(a % 8 != 0 ==> term == 4);
    };
    let ghost mid = buf@;
    let mut j: usize = 0;
    while j < align
        invariant
            j <= align,
            buf@ == mid + zeros_s(j as int),
        decreases align - j,
    {
        buf.push(false);
        proof {
            assert(buf@ =~= mid + zeros_s(j + 1));
        }
        j += 1;
    }
    let k: usize = (cap - a - align) / 8;
    proof {
        lemma_pad_words_len(k as int, true);
    }
    let ghost base = buf@;
    let mut w: usize = 0;
    let mut first: bool = true;
    while w < k
        invariant
            w <= k,
            base + pad_words_s(k as int, true) == buf@ + pad_words_s(k - w, first),
        decreases k - w,
    {
        let ghost pre = buf@;
        push_bits(buf, if first {
            0xec
        } else {
            0x11
        }, 8);
        proof {
            assert(pre + (bseq(if first {
                0xec
            } else {
                0x11
            }, 8) + pad_words_s(k - w - 1, !first)) =~= buf@ + pad_words_s(k - w - 1, !first));
        }
        first = !first;
        w += 1;
    }
    proof {
        assert(buf@ + pad_words_s(0, first) =~= buf@);
        assert(buf@ =~= padded_s(old(buf)@, cap as int));
        lemma_pad_words_len((cap - a - align) / 8, true);
    }
}

/// Value of the byte formed by bits `8i .. 8i + k` of `bits`.
pub open spec fn byte_prefix_s(bits: Seq<bool>, i: int, k: int) -> int
    decreases k,
{
    if k <= 0 {
        0
    } else {
        2 * byte_prefix_s(bits, i, k - 1) + (if bits[8 * i + k - 1] {
            1int
        } else {
            0int
        })
    }
}

pub open spec fn pow2small_s(k: int) -> int
    decreases k,
{
    if k <= 0 {
        1
    } else {
        2 * pow2small_s(k - 1)
    }
}

pub proof fn lemma_byte_prefix_bound(bits: Seq<bool>, i: int, k: int)
    ensures
        0 <= byte_prefix_s(bits, i, k) < pow2small_s(k),
    decreases k,
{
    if k > 0 {
        lemma_byte_prefix_bound(bits, i, k - 1);
    }
}

/// Codeword `i` of the bit stream.
pub open spec fn byte_at_s(bits: Seq<bool>, i: int) -> u8 {
    byte_prefix_s(bits, i, 8) as u8
}

/// The bit stream regrouped as codewords, eight bits each, high bit first.
pub open spec fn bytes_of_bits_s(bits: Seq<bool>) -> Seq<u8> {
    Seq::new((bits.len() / 8) as nat, |i: int| byte_at_s(bits, i))
}

/// Executable regrouping of a bit stream into codewords.
pub fn to_bytes(bits: &Vec<bool>) -> (r: Vec<u8>)
    ensures
        r@ == bytes_of_bits_s(bits@),
{
    let n = bits.len() / 8;
    let mut out: Vec<u8> = Vec::new();
    let mut i: usize = 0;
    while i < n
        invariant
            i <= n,
            n == bits@.len() / 8,
            out@.len() == i,
            forall|j: int| 0 <= j < i ==> out@[j] == byte_at_s(bits@, j),
        decreases n - i,
    {
        let mut acc: u32 = 0;
        let mut k: usize = 0;
        while k < 8
            invariant
                k <= 8,
                i < n,
                n == bits@.len() / 8,
                acc == byte_prefix_s(bits@, i as int, k as int),
                0 <= acc < pow2small_s(k as int),
            decreases 8 - k,
        {
            proof {
                lemma_byte_prefix_bound(bits@, i as int, k + 1);
                assert(pow2small_s(8) == 256) by {
                    reveal_with_fuel(pow2small_s, 9);
                };
                assert(pow2small_s(k as int) <= pow2small_s(8)) by {
                    reveal_with_fuel(pow2small_s, 9);
                };
            }
            let blen: usize = bits.len();
            assert(8 * i + k < blen);
            acc = 2 * acc + (if bits[8 * i + k] {
                1
            } else {
                0
            });
            k += 1;
        }
        proof {
            assert(pow2small_s(8) == 256) by {
                reveal_with_fuel(pow2small_s, 9);
            };
        }
        out.push(acc as u8);
        i += 1;
    }
    proof {
        assert(out@ =~= bytes_of_bits_s(bits@));
    }
    out
}


pub proof fn lemma_num_bits_len(s: Seq<u8>, i: int)
    requires
        0 <= i <= s.len(),
    ensures
        num_bits_from_s(s, i).len() == payload_bits_len_s(SegMode::Numeric, s.len() - i),
    decreases s.len() - i,
{
    if i + 3 <= s.len() {
        lemma_num_bits_len(s, i + 3);
        let k = s.len() - i;
        assert(k / 3 == (k - 3) / 3 + 1);
        assert(k % 3 == (k - 3) % 3);
    }
}

pub proof fn lemma_alnum_bits_len(s: Seq<u8>, i: int)
    requires
        0 <= i <= s.len(),
    ensures
        alnum_bits_from_s(s, i).len() == payload_bits_len_s(SegMode::Alphanumeric, s.len() - i),
    decreases s.len() - i,
{
    if i + 2 <= s.len() {
        lemma_alnum_bits_len(s, i + 2);
        let k = s.len() - i;
        assert(k / 2 == (k - 2) / 2 + 1);
        assert(k % 2 == (k - 2) % 2);
    }
}

pub proof fn lemma_byte_bits_len(s: Seq<u8>, i: int)
    requires
        0 <= i <= s.len(),
    ensures
        byte_bits_from_s(s, i).len() == payload_bits_len_s(SegMode::Byte, s.len() - i),
    decreases s.len() - i,
{
    if i < s.len() {
        lemma_byte_bits_len(s, i + 1);
    }
}

/// The segment bit stream is exactly as long as the length formula says.
pub proof fn lemma_seg_bits_len(s: Seq<u8>, m: SegMode, v: usize)
    ensures
        seg_bits_s(s, m, v).len() == seg_bits_len_s(m, s.len() as int, v),
{
    match m {
        SegMode::Numeric => lemma_num_bits_len(s, 0),
        SegMode::Alphanumeric => lemma_alnum_bits_len(s, 0),
        SegMode::Byte => lemma_byte_bits_len(s, 0),
    }
}

/// Rank of a mode by the breadth of its character set; a wider set never
/// packs a character in fewer bits.
pub open spec fn mode_rank_s(m: SegMode) -> int {
    match m {
        SegMode::Numeric => 0,
        SegMode::Alphanumeric => 1,
        SegMode::Byte => 2,
    }
}

/// The narrowest mode that holds one byte.
pub open spec fn byte_mode_s(b: u8) -> SegMode {
    if is_digit_s(b) {
        SegMode::Numeric
    } else if is_alnum_s(b) {
        SegMode::Alphanumeric
    } else {
        SegMode::Byte
    }
}

/// Executable copy of `byte_mode_s`.
pub fn byte_mode(b: u8) -> (m: SegMode)
    ensures
        m == byte_mode_s(b),
{
    if 48 <= b && b <= 57 {
        SegMode::Numeric
    } else if (65 <= b && b <= 90) || b == 32 || b == 36 || b == 37 || b == 42 || b == 43 || b
        == 45 || b == 46 || b == 47 || b == 58 {
        SegMode::Alphanumeric
    } else {
        SegMode::Byte
    }
}

/// The wider of two modes.
pub open spec fn mode_join_s(a: SegMode, b: SegMode) -> SegMode {
    if mode_rank_s(a) >= mode_rank_s(b) {
        a
    } else {
        b
    }
}

/// A byte representable in every mode of at least its own rank.
pub proof fn lemma_rank_fits(b: u8, m: SegMode)
    requires
        mode_rank_s(byte_mode_s(b)) <= mode_rank_s(m),
    ensures
        match m {
            SegMode::Numeric => is_digit_s(b),
            SegMode::Alphanumeric => is_alnum_s(b),
            SegMode::Byte => true,
        },
{
}

/// Length of the maximal run of bytes of one narrowest mode starting at `i`.
pub open spec fn run_len_s(p: Seq<u8>, i: int) -> int
    decreases p.len() - i,
{
    if i < 0 || i >= p.len() {
        0
    } else if i + 1 < p.len() && byte_mode_s(p[i + 1]) == byte_mode_s(p[i]) {
        1 + run_len_s(p, i + 1)
    } else {
        1
    }
}

pub proof fn lemma_run_len_props(p: Seq<u8>, i: int)
    requires
        0 <= i < p.len(),
    ensures
        1 <= run_len_s(p, i) <= p.len() - i,
        forall|k: int|
            i <= k < i + run_len_s(p, i) ==> byte_mode_s(#[trigger] p[k]) == byte_mode_s(p[i]),
    decreases p.len() - i,
{
    if i + 1 < p.len() && byte_mode_s(p[i + 1]) == byte_mode_s(p[i]) {
        lemma_run_len_props(p, i + 1);
    }
}

/// Executable run length.
pub fn run_length(p: &Vec<u8>, i: usize) -> (r: usize)
    requires
        i < p@.len(),
    ensures
        r == run_len_s(p@, i as int),
{
    let n = p.len();
    let mut k: usize = i;
    while k + 1 < n && byte_mode(p[k + 1]) == byte_mode(p[k])
        invariant
            i <= k < n == p@.len(),
            run_len_s(p@, i as int) == (k - i) + run_len_s(p@, k as int),
        decreases n - k,
    {
        k += 1;
    }
    k + 1 - i
}

/// The greedy segmentation of spec: runs of one character class are
/// attached to the open segment when widening it costs no more bits than a
/// fresh segment header would, else the open segment is closed. Segments
/// are (mode, start, end) over the payload; costs follow the character
/// count widths of version `v`.
pub open spec fn segs_from_s(p: Seq<u8>, v: usize, i: int, cm: SegMode, cs: int) -> Seq<
    (SegMode, int, int),
>
    decreases p.len() - i,
    via segs_from_s_dec
{
    if i < 0 || i >= p.len() {
        seq![(cm, cs, p.len() as int)]
    } else {
        let rl = run_len_s(p, i);
        let rm = byte_mode_s(p[i]);
        let jm = mode_join_s(cm, rm);
        let sep = 4 + cc_bits_s(rm, v) + payload_bits_len_s(rm, rl);
        if payload_bits_len_s(jm, i - cs + rl) <= sep + payload_bits_len_s(cm, i - cs) {
            segs_from_s(p, v, i + rl, jm, cs)
        } else {
            seq![(cm, cs, i)] + segs_from_s(p, v, i + rl, rm, i)
        }
    }
}

#[via_fn]
proof fn segs_from_s_dec(p: Seq<u8>, v: usize, i: int, cm: SegMode, cs: int) {
    if 0 <= i && i < p.len() {
        lemma_run_len_props(p, i);
    }
}

/// The whole payload's segment list; an empty payload has no segments.
pub open spec fn segs_s(p: Seq<u8>, v: usize) -> Seq<(SegMode, int, int)> {
    if p.len() == 0 {
        Seq::empty()
    } else {
        segs_from_s(p, v, run_len_s(p, 0), byte_mode_s(p[0]), 0)
    }
}

/// Shape of the greedy's output: the segments tile `[cs, len)` in order and
/// every byte of a segment is representable in the segment's mode.
pub proof fn lemma_segs_from_props(p: Seq<u8>, v: usize, i: int, cm: SegMode, cs: int)
    requires
        0 <= cs < i <= p.len(),
        forall|k: int| cs <= k < i ==> mode_rank_s(byte_mode_s(#[trigger] p[k])) <= mode_rank_s(cm),
    ensures
        segs_from_s(p, v, i, cm, cs).len() >= 1,
        segs_from_s(p, v, i, cm, cs)[0].1 == cs,
        segs_from_s(p, v, i, cm, cs).last().2 == p.len(),
        forall|j: int|
            0 <= j < segs_from_s(p, v, i, cm, cs).len() ==> {
                let sg = #[trigger] segs_from_s(p, v, i, cm, cs)[j];
                0 <= sg.1 < sg.2 <= p.len() && (forall|k: int|
                    sg.1 <= k < sg.2 ==> mode_rank_s(byte_mode_s(#[trigger] p[k])) <= mode_rank_s(
                        sg.0,
                    ))
            },
        forall|j: int|
            0 <= j < segs_from_s(p, v, i, cm, cs).len() - 1 ==> (#[trigger] segs_from_s(
                p,
                v,
                i,
                cm,
                cs,
            )[j]).2 == segs_from_s(p, v, i, cm, cs)[j + 1].1,
    decreases p.len() - i,
{
    if i < p.len() {
        lemma_run_len_props(p, i);
        let rl = run_len_s(p, i);
        let rm = byte_mode_s(p[i]);
        let jm = mode_join_s(cm, rm);
        let sep = 4 + cc_bits_s(rm, v) + payload_bits_len_s(rm, rl);
        if payload_bits_len_s(jm, i - cs + rl) <= sep + payload_bits_len_s(cm, i - cs) {
            assert forall|k: int| cs <= k < i + rl implies mode_rank_s(
                byte_mode_s(#[trigger] p[k]),
            ) <= mode_rank_s(jm) by {
                if k >= i {
                    assert(byte_mode_s(p[k]) == rm);
                }
            }
            lemma_segs_from_props(p, v, i + rl, jm, cs);
        } else {
            assert forall|k: int| i <= k < i + rl implies mode_rank_s(byte_mode_s(#[trigger] p[k]))
                <= mode_rank_s(rm) by {
                assert(byte_mode_s(p[k]) == rm);
            }
            lemma_segs_from_props(p, v, i + rl, rm, i);
            let rest = segs_from_s(p, v, i + rl, rm, i);
            let whole = seq![(cm, cs, i)] + rest;
            assert(whole.last() == rest.last());
        }
    }
}

/// The bit streams of a segment list, concatenated in order.
pub open spec fn segs_bits_s(p: Seq<u8>, v: usize, list: Seq<(SegMode, int, int)>, j: int) -> Seq<
    bool,
>
    decreases list.len() - j,
{
    if j < 0 || j >= list.len() {
        Seq::empty()
    } else {
        seg_bits_s(p.subrange(list[j].1, list[j].2), list[j].0, v) + segs_bits_s(p, v, list, j + 1)
    }
}

/// The complete data bit stream of the greedy segmentation.
pub open spec fn auto_bits_s(p: Seq<u8>, v: usize) -> Seq<bool> {
    segs_bits_s(p, v, segs_s(p, v), 0)
}

/// Whether the greedy segmentation of `p` fits the data capacity of
/// version `v` at level `l`.
pub open spec fn fits_auto_s(p: Seq<u8>, v: usize, l: EcLevel) -> bool {
    auto_bits_s(p, v).len() <= data_bits_s(v, l)
}

/// Packed character data is never shorter than one bit per character, so a
/// payload that fits any version is bounded.
pub proof fn lemma_payload_bits_min(m: SegMode, n: int)
    requires
        0 <= n,
    ensures
        payload_bits_len_s(m, n) >= n,
{
    match m {
        SegMode::Numeric => {
            assert(3 * (n / 3) <= n);
        },
        SegMode::Alphanumeric => {
            assert(2 * (n / 2) <= n);
        },
        SegMode::Byte => {
        },
    }
}

pub proof fn lemma_segs_bits_min(p: Seq<u8>, v: usize, list: Seq<(SegMode, int, int)>, j: int)
    requires
        0 <= j <= list.len(),
        forall|j2: int|
            0 <= j2 < list.len() ==> 0 <= (#[trigger] list[j2]).1 < list[j2].2 <= p.len(),
        forall|j2: int| 0 <= j2 < list.len() - 1 ==> (#[trigger] list[j2]).2 == list[j2 + 1].1,
        list.len() >= 1 ==> list.last().2 == p.len(),
    ensures
        j < list.len() ==> segs_bits_s(p, v, list, j).len() >= p.len() - list[j].1,
    decreases list.len() - j,
{
    if j < list.len() {
        lemma_segs_bits_min(p, v, list, j + 1);
        lemma_seg_bits_len(p.subrange(list[j].1, list[j].2), list[j].0, v);
        lemma_payload_bits_min(list[j].0, list[j].2 - list[j].1);
    }
}

/// A payload whose greedy encoding fits some version has fewer bytes than
/// bits, so fewer than the largest capacity.
pub proof fn lemma_fits_auto_payload_bound(p: Seq<u8>, v: usize, l: EcLevel)
    requires
        1 <= v <= 40,
        fits_auto_s(p, v, l),
    ensures
        p.len() <= 79704,
{
    lemma_block_table_bounds(v, l);
    if p.len() > 0 {
        lemma_segs_props(p, v);
        lemma_segs_bits_min(p, v, segs_s(p, v), 0);
    }
}

/// Executable greedy segmentation.
pub fn compute_segments(p: &Vec<u8>, v: usize) -> (r: Vec<(SegMode, usize, usize)>)
    requires
        p@.len() >= 1,
    ensures
        r@.len() == segs_s(p@, v).len(),
        forall|j: int|
            0 <= j < r@.len() ==> (#[trigger] r@[j]).0 == segs_s(p@, v)[j].0 && r@[j].1 == segs_s(
                p@,
                v,
            )[j].1 && r@[j].2 == segs_s(p@, v)[j].2,
{
    let n = p.len();
    let mut out: Vec<(SegMode, usize, usize)> = Vec::new();
    let mut i: usize = run_length(p, 0);
    let mut cm: SegMode = byte_mode(p[0]);
    let mut cs: usize = 0;
    proof {
        lemma_run_len_props(p@, 0);
        assert(Seq::<(SegMode, usize, usize)>::empty().map_values(
            |t: (SegMode, usize, usize)| (t.0, t.1 as int, t.2 as int),
        ) + segs_from_s(p@, v, i as int, cm, cs as int) =~= segs_from_s(
            p@,
            v,
            i as int,
            cm,
            cs as int,
        ));
    }
    while i < n
        invariant
            0 <= cs < i <= n == p@.len(),
            segs_s(p@, v) == out@.map_values(
                |t: (SegMode, usize, usize)| (t.0, t.1 as int, t.2 as int),
            ) + segs_from_s(p@, v, i as int, cm, cs as int),
        decreases n - i,
    {
        let rl = run_length(p, i);
        proof {
            lemma_run_len_props(p@, i as int);
        }
        let rm = byte_mode(p[i]);
        let jm = if mode_rank(cm) >= mode_rank(rm) {
            cm
        } else {
            rm
        };
        let sep: u128 = 4 + (cc_bits(rm, v) as u128) + payload_bits_u128(rm, rl as u128);
        let keep: bool = payload_bits_u128(jm, (i - cs + rl) as u128) <= sep + payload_bits_u128(
            cm,
            (i - cs) as u128,
        );
        if keep {
            cm = jm;
        } else {
            let ghost pre = out@;
            out.push((cm, cs, i));
            proof {
                assert(pre.map_values(|t: (SegMode, usize, usize)| (t.0, t.1 as int, t.2 as int))
                    + (seq![(cm, cs as int, i as int)] + segs_from_s(p@, v, i + rl, rm, i as int))
                    =~= out@.map_values(
                    |t: (SegMode, usize, usize)| (t.0, t.1 as int, t.2 as int),
                ) + segs_from_s(p@, v, i + rl, rm, i as int));
            }
            cs = i;
            cm = rm;
        }
        i += rl;
    }
    let ghost pre = out@;
    out.push((cm, cs, n));
    proof {
        assert(pre.map_values(|t: (SegMode, usize, usize)| (t.0, t.1 as int, t.2 as int)) + seq![
            (cm, cs as int, n as int),
        ] =~= out@.map_values(|t: (SegMode, usize, usize)| (t.0, t.1 as int, t.2 as int)));
        assert(segs_from_s(p@, v, n as int, cm, cs as int) =~= seq![(cm, cs as int, n as int)]);
        assert forall|j: int| 0 <= j < out@.len() implies (#[trigger] out@[j]).0 == segs_s(
            p@,
            v,
        )[j].0 && out@[j].1 == segs_s(p@, v)[j].1 && out@[j].2 == segs_s(p@, v)[j].2 by {
            assert(segs_s(p@, v)[j] == out@.map_values(
                |t: (SegMode, usize, usize)| (t.0, t.1 as int, t.2 as int),
            )[j]);
        }
    }
    out
}

/// Executable mode rank.
pub fn mode_rank(m: SegMode) -> (r: u32)
    ensures
        r == mode_rank_s(m),
{
    match m {
        SegMode::Numeric => 0,
        SegMode::Alphanumeric => 1,
        SegMode::Byte => 2,
    }
}

/// Packed character bit count in wide arithmetic, exact for any length.
pub fn payload_bits_u128(m: SegMode, n: u128) -> (r: u128)
    requires
        n < 0x1_0000_0000_0000_0000,
    ensures
        r == payload_bits_len_s(m, n as int),
{
    match m {
        SegMode::Numeric => 10 * (n / 3) + (
        if n % 3 == 0 {
            0
        } else if n % 3 == 1 {
            4
        } else {
            7
        }),
        SegMode::Alphanumeric => 11 * (n / 2) + 6 * (n % 2),
        SegMode::Byte => 8 * n,
    }
}

/// Shape of the whole payload's segment list.
pub proof fn lemma_segs_props(p: Seq<u8>, v: usize)
    requires
        p.len() >= 1,
    ensures
        segs_s(p, v).len() >= 1,
        segs_s(p, v)[0].1 == 0,
        segs_s(p, v).last().2 == p.len(),
        forall|j: int|
            0 <= j < segs_s(p, v).len() ==> {
                let sg = #[trigger] segs_s(p, v)[j];
                0 <= sg.1 < sg.2 <= p.len() && (forall|k: int|
                    sg.1 <= k < sg.2 ==> mode_rank_s(byte_mode_s(#[trigger] p[k])) <= mode_rank_s(
                        sg.0,
                    ))
            },
        forall|j: int|
            0 <= j < segs_s(p, v).len() - 1 ==> (#[trigger] segs_s(p, v)[j]).2 == segs_s(
                p,
                v,
            )[j + 1].1,
{
    lemma_run_len_props(p, 0);
    assert forall|k: int| 0 <= k < run_len_s(p, 0) implies mode_rank_s(
        byte_mode_s(#[trigger] p[k]),
    ) <= mode_rank_s(byte_mode_s(p[0])) by {
        assert(byte_mode_s(p[k]) == byte_mode_s(p[0]));
    }
    lemma_segs_from_props(p, v, run_len_s(p, 0), byte_mode_s(p[0]), 0);
}

/// Emits the complete greedy-segmented data bit stream of `p` for version
/// `v`: each segment's mode indicator, character count and packed data in
/// order.
pub fn push_auto_segments(buf: &mut Vec<bool>, p: &Vec<u8>, v: usize)
    requires
        p@.len() < 100000,
    ensures
        final(buf)@ == old(buf)@ + auto_bits_s(p@, v),
{
    if p.len() == 0 {
        proof {
            assert(auto_bits_s(p@, v) =~= Seq::<bool>::empty());
            assert(buf@ + Seq::<bool>::empty() =~= buf@);
        }
        return ;
    }
    proof {
        lemma_segs_props(p@, v);
    }
    let segs = compute_segments(p, v);
    let ghost list = segs_s(p@, v);
    let mut j: usize = 0;
    while j < segs.len()
        invariant
            j <= segs@.len(),
            segs@.len() == list.len(),
            list == segs_s(p@, v),
            p@.len() < 100000,
            forall|j2: int|
                0 <= j2 < list.len() ==> (#[trigger] segs@[j2]).0 == list[j2].0 && segs@[j2].1
                    == list[j2].1 && segs@[j2].2 == list[j2].2,
            forall|j2: int|
                0 <= j2 < list.len() ==> {
                    let sg = #[trigger] list[j2];
                    0 <= sg.1 < sg.2 <= p@.len() && (forall|k: int|
                        sg.1 <= k < sg.2 ==> mode_rank_s(byte_mode_s(#[trigger] p@[k]))
                            <= mode_rank_s(sg.0))
                },
            old(buf)@ + auto_bits_s(p@, v) == buf@ + segs_bits_s(p@, v, list, j as int),
        decreases segs@.len() - j,
    {
        let seg = segs[j];
        let m = seg.0;
        let a = seg.1;
        let b = seg.2;
        let mut sub: Vec<u8> = Vec::new();
        let mut k: usize = a;
        while k < b
            invariant
                a <= k <= b,
                b <= p@.len(),
                sub@.len() == k - a,
                forall|u: int| 0 <= u < k - a ==> sub@[u] == p@[a + u],
            decreases b - k,
        {
            sub.push(p[k]);
            k += 1;
        }
        proof {
            assert(sub@ =~= p@.subrange(a as int, b as int));
            match m {
                SegMode::Numeric => {
                    assert forall|u: int| 0 <= u < sub@.len() implies is_digit_s(
                        #[trigger] sub@[u],
                    ) by {
                        assert(sub@[u] == p@[a + u]);
                        lemma_rank_fits(sub@[u], SegMode::Numeric);
                    }
                },
                SegMode::Alphanumeric => {
                    assert forall|u: int| 0 <= u < sub@.len() implies is_alnum_s(
                        #[trigger] sub@[u],
                    ) by {
                        assert(sub@[u] == p@[a + u]);
                        lemma_rank_fits(sub@[u], SegMode::Alphanumeric);
                    }
                },
                SegMode::Byte => {},
            }
            assert(mode_fits_s(sub@, m));
        }
        let ghost pre = buf@;
        push_segment(buf, &sub, m, v);
        proof {
            assert(pre + (seg_bits_s(
                p@.subrange(list[j as int].1, list[j as int].2),
                list[j as int].0,
                v,
            ) + segs_bits_s(p@, v, list, j + 1)) =~= buf@ + segs_bits_s(p@, v, list, j + 1));
        }
        j += 1;
    }
    proof {
        assert(segs_bits_s(p@, v, list, list.len() as int) =~= Seq::<bool>::empty());
        assert(buf@ + Seq::<bool>::empty() =~= buf@);
    }
}

/// Executable test of `fits_auto_s`: builds the greedy bit stream (the
/// payload is small once the size guards pass) and measures it.
pub fn fits_auto(p: &Vec<u8>, v: usize, l: EcLevel) -> (r: bool)
    requires
        1 <= v <= 40,
    ensures
        r == fits_auto_s(p@, v, l),
{
    proof {
        lemma_block_table_bounds(v, l);
    }
    let cap: usize = 8 * data_codewords(v, l);
    if p.len() == 0 {
        proof {
            assert(auto_bits_s(p@, v) =~= Seq::<bool>::empty());
        }
        return true;
    }
    if p.len() > 79704 {
        proof {
            if fits_auto_s(p@, v, l) {
                lemma_fits_auto_payload_bound(p@, v, l);
            }
        }
        return false;
    }
    let mut buf: Vec<bool> = Vec::new();
    push_auto_segments(&mut buf, p, v);
    buf.len() <= cap
}

/// The smallest version whose capacity holds the greedy segmentation of
/// `p` at level `l`, or `None` when even version 40 is too small.
pub fn smallest_version_auto(p: &Vec<u8>, l: EcLevel) -> (r: Option<usize>)
    ensures
        match r {
            Some(v) => 1 <= v <= 40 && fits_auto_s(p@, v, l) && forall|v2: usize|
                1 <= v2 < v ==> !fits_auto_s(p@, v2, l),
            None => forall|v2: usize| 1 <= v2 <= 40 ==> !fits_auto_s(p@, v2, l),
        },
{
    let mut v: usize = 1;
    while v <= 40
        invariant
            1 <= v <= 41,
            forall|v2: usize| 1 <= v2 < v ==> !fits_auto_s(p@, v2, l),
        decreases 41 - v,
    {
        if fits_auto(p, v, l) {
            return Some(v);
        }
        v += 1;
    }
    None
}

} // verus!
