use vstd::arithmetic::div_mod::{
    lemma_add_mod_noop, lemma_fundamental_div_mod_converse_mod, lemma_mod_add_multiples_vanish,
    lemma_small_mod,
};
use vstd::prelude::*;

verus! {

/// Size in bytes of each of the two sampled blocks (head and tail).
pub const BLOCK_SIZE: usize = 65536;

/// Number of 8-byte words in one block.
pub const WORDS_PER_BLOCK: usize = 8192;

/// The modulus of the 64-bit accumulator.
pub open spec fn word_modulus() -> int {
    0x1_0000_0000_0000_0000
}

/// The unsigned little-endian value of the 8 bytes of `s` starting at `i`.
pub open spec fn le_word(s: Seq<u8>, i: int) -> int {
    s[i] as int + 0x100 * s[i + 1] + 0x1_0000 * s[i + 2] + 0x100_0000 * s[i + 3]
        + 0x1_0000_0000 * s[i + 4] + 0x100_0000_0000 * s[i + 5] + 0x1_0000_0000_0000 * s[
        i + 6] + 0x100_0000_0000_0000 * s[i + 7]
}

/// The (unbounded) sum of the first `n` consecutive little-endian words of `s` from `start`.
pub open spec fn words_sum(s: Seq<u8>, start: int, n: nat) -> int
    decreases n,
{
    if n == 0 {
        0
    } else {
        words_sum(s, start, (n - 1) as nat) + le_word(s, start + 8 * (n - 1))
    }
}

/// The fingerprint value of a file of `size` bytes whose first and last blocks are
/// `head` and `tail`.
pub open spec fn fingerprint_of_blocks(size: nat, head: Seq<u8>, tail: Seq<u8>) -> u64 {
    ((size + words_sum(head, 0, 8192) + words_sum(tail, 0, 8192)) % word_modulus()) as u64
}

/// The fingerprint value of a whole file's contents (at least one block long).
pub open spec fn fingerprint_of(data: Seq<u8>) -> u64 {
    ((data.len() + words_sum(data, 0, 8192) + words_sum(data, data.len() - 65536, 8192))
        % word_modulus()) as u64
}

/// The hexadecimal digit for `d < 16`, lowercase.
pub open spec fn hex_char(d: nat) -> char {
    seq!['0', '1', '2', '3', '4', '5', '6', '7', '8', '9', 'a', 'b', 'c', 'd', 'e', 'f'][d as int]
}

/// The last `n` hexadecimal digits of `v`, most significant first, zero-padded.
pub open spec fn hex_digits(v: nat, n: nat) -> Seq<char>
    decreases n,
{
    if n == 0 {
        Seq::empty()
    } else {
        hex_digits(v / 16, (n - 1) as nat).push(hex_char(v % 16))
    }
}

/// A 64-bit content fingerprint of a file.
#[derive(Clone, Copy, Debug, PartialEq, Eq, Structural)]
pub struct FileFingerprint {
    pub value: u64,
}

/// Why a fingerprint could not be computed.
#[derive(Clone, Copy, Debug, PartialEq, Eq, Structural)]
pub enum FingerprintError {
    /// The file is smaller than one block.
    Precondition,
    /// A sampled block does not hold exactly one block of bytes (a short read).
    ShortBlock,
}

impl FileFingerprint {
    /// The fingerprint as 16 lowercase, zero-padded hexadecimal digits.
    pub fn to_hex(&self) -> (r: String)
        ensures
            r@ == hex_digits(self.value as nat, 16),
    {
        hex16(self.value)
    }
}

/// Relies on std's `format!` with `{:016x}`: lowercase hexadecimal, zero-padded to 16 digits.
#[verifier::external_body]
fn hex16(v: u64) -> (r: String)
    ensures
        r@ == hex_digits(v as nat, 16),
{
    format!("{:016x}", v)
}

proof fn lemma_wrapping_step(a: u64, w: u64, s: int)
    requires
        a as int == s % word_modulus(),
    ensures
        a.wrapping_add(w) as int == (s + w) % word_modulus(),
{
    let m = word_modulus();
    lemma_add_mod_noop(s, w as int, m);
    lemma_small_mod(w as nat, m as nat);
    if a + w < m {
        lemma_small_mod((a + w) as nat, m as nat);
    } else {
        lemma_mod_add_multiples_vanish(a + w - m, m);
        lemma_small_mod((a + w - m) as nat, m as nat);
    }
}

fn word_at(data: &[u8], i: usize) -> (r: u64)
    requires
        i + 8 <= data@.len(),
    ensures
        r as int == le_word(data@, i as int),
{
    data[i] as u64 + (data[i + 1] as u64) * 0x100 + (data[i + 2] as u64) * 0x1_0000 + (data[i
        + 3] as u64) * 0x100_0000 + (data[i + 4] as u64) * 0x1_0000_0000 + (data[i + 5] as u64)
        * 0x100_0000_0000 + (data[i + 6] as u64) * 0x1_0000_0000_0000 + (data[i + 7] as u64)
        * 0x100_0000_0000_0000
}

/// Wraparound sum of the block of 8192 little-endian words of `data` starting at `start`.
fn block_sum(data: &[u8], start: usize) -> (r: u64)
    requires
        start + BLOCK_SIZE <= data@.len(),
    ensures
        r as int == words_sum(data@, start as int, 8192) % word_modulus(),
{
    let n = data.len();
    let mut acc: u64 = 0;
    let mut k: usize = 0;
    while k < WORDS_PER_BLOCK
        invariant
            k <= WORDS_PER_BLOCK,
            start + BLOCK_SIZE <= data@.len(),
            n == data@.len(),
            acc as int == words_sum(data@, start as int, k as nat) % word_modulus(),
        decreases WORDS_PER_BLOCK - k,
    {
        assert(8 * k + 8 <= BLOCK_SIZE);
        let w = word_at(data, start + 8 * k);
        proof {
            lemma_wrapping_step(acc, w, words_sum(data@, start as int, k as nat));
        }
        acc = acc.wrapping_add(w);
        k += 1;
    }
    acc
}

/// Fingerprints a file of `file_size` bytes from its first block `head` and its last
/// block `tail`: the size plus every little-endian word of both blocks, modulo 2^64.
pub fn fingerprint_blocks(file_size: u64, head: &[u8], tail: &[u8]) -> (r: Result<
    FileFingerprint,
    FingerprintError,
>)
    ensures
        file_size < 65536 ==> r == Err::<FileFingerprint, FingerprintError>(
            FingerprintError::Precondition,
        ),
        file_size >= 65536 && (head@.len() != 65536 || tail@.len() != 65536) ==> r == Err::<
            FileFingerprint,
            FingerprintError,
        >(FingerprintError::ShortBlock),
        file_size >= 65536 && head@.len() == 65536 && tail@.len() == 65536 ==> r == Ok::<
            FileFingerprint,
            FingerprintError,
        >(FileFingerprint { value: fingerprint_of_blocks(file_size as nat, head@, tail@) }),
{
    if file_size < BLOCK_SIZE as u64 {
        return Err(FingerprintError::Precondition);
    }
    if head.len() != BLOCK_SIZE || tail.len() != BLOCK_SIZE {
        return Err(FingerprintError::ShortBlock);
    }
    let h = block_sum(head, 0);
    let t = block_sum(tail, 0);
    proof {
        lemma_small_mod(file_size as nat, word_modulus() as nat);
        lemma_wrapping_step(file_size, h, file_size as int);
    }
    let acc = file_size.wrapping_add(h);
    proof {
        lemma_add_mod_noop(file_size as int, words_sum(head@, 0, 8192), word_modulus());
        lemma_small_mod(file_size as nat, word_modulus() as nat);
        lemma_wrapping_step(acc, t, file_size + words_sum(head@, 0, 8192));
        lemma_add_mod_noop(
            file_size + words_sum(head@, 0, 8192),
            words_sum(tail@, 0, 8192),
            word_modulus(),
        );
    }
    let value = acc.wrapping_add(t);
    Ok(FileFingerprint { value })
}

/// Fingerprints a whole file's contents; fails where it is shorter than one block.
pub fn fingerprint_bytes(data: &[u8]) -> (r: Result<FileFingerprint, FingerprintError>)
    ensures
        data@.len() < 65536 ==> r == Err::<FileFingerprint, FingerprintError>(
            FingerprintError::Precondition,
        ),
        data@.len() >= 65536 ==> r == Ok::<FileFingerprint, FingerprintError>(
            FileFingerprint { value: fingerprint_of(data@) },
        ),
{
    if data.len() < BLOCK_SIZE {
        return Err(FingerprintError::Precondition);
    }
    let size = data.len() as u64;
    let h = block_sum(data, 0);
    let t = block_sum(data, data.len() - BLOCK_SIZE);
    proof {
        lemma_small_mod(size as nat, word_modulus() as nat);
        lemma_wrapping_step(size, h, size as int);
    }
    let acc = size.wrapping_add(h);
    proof {
        let hs = words_sum(data@, 0, 8192);
        let ts = words_sum(data@, data@.len() - 65536, 8192);
        lemma_add_mod_noop(size as int, hs, word_modulus());
        lemma_small_mod(size as nat, word_modulus() as nat);
        lemma_wrapping_step(acc, t, size + hs);
        lemma_add_mod_noop(size + hs, ts, word_modulus());
    }
    let value = acc.wrapping_add(t);
    Ok(FileFingerprint { value })
}

} // verus!

verus! {

/// Fingerprinting is deterministic: equal contents give equal fingerprints.
pub proof fn lemma_fingerprint_deterministic(a: Seq<u8>, b: Seq<u8>)
    requires
        a == b,
        a.len() >= 65536,
    ensures
        fingerprint_of(a) == fingerprint_of(b),
        hex_digits(fingerprint_of(a) as nat, 16) == hex_digits(fingerprint_of(b) as nat, 16),
{
}

} // verus!

verus! {

/// The weight of the byte at offset `k` (0 to 7) of a little-endian word.
pub open spec fn byte_weight(k: int) -> int {
    if k == 0 {
        1
    } else if k == 1 {
        0x100
    } else if k == 2 {
        0x1_0000
    } else if k == 3 {
        0x100_0000
    } else if k == 4 {
        0x1_0000_0000
    } else if k == 5 {
        0x100_0000_0000
    } else if k == 6 {
        0x1_0000_0000_0000
    } else {
        0x100_0000_0000_0000
    }
}

proof fn lemma_word_update(s: Seq<u8>, i: int, p: int, b: u8)
    requires
        0 <= i,
        i + 8 <= s.len(),
        0 <= p < s.len(),
    ensures
        le_word(s.update(p, b), i) == le_word(s, i) + if i <= p < i + 8 {
            (b - s[p]) * byte_weight(p - i)
        } else {
            0
        },
{
    let t = s.update(p, b);
    let d = b - s[p];
    assert(t[p] == b);
    assert(forall|j: int| 0 <= j < s.len() && j != p ==> t[j] == s[j]);
    if p == i {
        assert(le_word(t, i) == le_word(s, i) + d);
    } else if p == i + 1 {
        assert(le_word(t, i) == le_word(s, i) + d * 0x100);
    } else if p == i + 2 {
        assert(le_word(t, i) == le_word(s, i) + d * 0x1_0000);
    } else if p == i + 3 {
        assert(le_word(t, i) == le_word(s, i) + d * 0x100_0000);
    } else if p == i + 4 {
        assert(le_word(t, i) == le_word(s, i) + d * 0x1_0000_0000);
    } else if p == i + 5 {
        assert(le_word(t, i) == le_word(s, i) + d * 0x100_0000_0000);
    } else if p == i + 6 {
        assert(le_word(t, i) == le_word(s, i) + d * 0x1_0000_0000_0000);
    } else if p == i + 7 {
        assert(le_word(t, i) == le_word(s, i) + d * 0x100_0000_0000_0000);
    }
}

proof fn lemma_sum_update(s: Seq<u8>, start: int, n: nat, p: int, b: u8)
    requires
        0 <= start,
        start + 8 * n <= s.len(),
        0 <= p < s.len(),
    ensures
        words_sum(s.update(p, b), start, n) == words_sum(s, start, n) + if start <= p < start
            + 8 * n {
            (b - s[p]) * byte_weight((p - start) % 8)
        } else {
            0
        },
    decreases n,
{
    if n > 0 {
        let m = (n - 1) as nat;
        let j = start + 8 * m;
        lemma_sum_update(s, start, m, p, b);
        lemma_word_update(s, j, p, b);
        if j <= p < j + 8 {
            lemma_fundamental_div_mod_converse_mod(p - start, 8, m as int, p - j);
        }
    }
}

proof fn lemma_weighted(d: int, k: int)
    requires
        -255 <= d <= 255,
        0 <= k < 8,
    ensures
        d > 0 ==> 0 < d * byte_weight(k) <= 255 * 0x100_0000_0000_0000,
        d < 0 ==> -255 * 0x100_0000_0000_0000 <= d * byte_weight(k) < 0,
        k < 7 ==> -255 * 0x1_0000_0000_0000 <= d * byte_weight(k) <= 255 * 0x1_0000_0000_0000,
        k == 7 ==> d * byte_weight(k) == d * 0x100_0000_0000_0000,
{
    if k == 0 {
    } else if k == 1 {
    } else if k == 2 {
    } else if k == 3 {
    } else if k == 4 {
    } else if k == 5 {
    } else if k == 6 {
    } else {
    }
}

proof fn lemma_nonzero_residue(x: int)
    requires
        -2 * word_modulus() < x < 2 * word_modulus(),
        x != 0,
        x != word_modulus(),
        x != -word_modulus(),
    ensures
        x % word_modulus() != 0,
{
    let m = word_modulus();
    if x > m {
        lemma_fundamental_div_mod_converse_mod(x, m, 1, x - m);
    } else if x > 0 {
        lemma_fundamental_div_mod_converse_mod(x, m, 0, x);
    } else if x > -m {
        lemma_fundamental_div_mod_converse_mod(x, m, -1, x + m);
    } else {
        lemma_fundamental_div_mod_converse_mod(x, m, -2, x + 2 * m);
    }
}

proof fn lemma_shift_changes_residue(x: int, delta: int)
    requires
        delta % word_modulus() != 0,
    ensures
        (x + delta) % word_modulus() != x % word_modulus(),
{
    let m = word_modulus();
    let a = x % m;
    let r = delta % m;
    lemma_add_mod_noop(x, delta, m);
    if a + r < m {
        lemma_fundamental_div_mod_converse_mod(a + r, m, 0, a + r);
    } else {
        lemma_fundamental_div_mod_converse_mod(a + r, m, 1, a + r - m);
    }
}

/// Changing one byte of the sampled head or tail changes the fingerprint. The one
/// exception: a byte that lies in both blocks (a file under two blocks long) at the same
/// word offset, as the word's top byte, changed by exactly 128 — it is then counted twice,
/// and twice 2^63 vanishes modulo 2^64.
pub proof fn lemma_sampled_byte_change(data: Seq<u8>, p: int, b: u8)
    requires
        data.len() >= 65536,
        0 <= p < data.len(),
        p < 65536 || p >= data.len() - 65536,
        b != data[p],
        !(p < 65536 && p >= data.len() - 65536 && (data.len() - 65536) % 8 == 0 && p % 8 == 7
            && (b - data[p] == 128 || b - data[p] == -128)),
    ensures
        fingerprint_of(data.update(p, b)) != fingerprint_of(data),
{
    let m = word_modulus();
    let t0 = data.len() - 65536;
    let d = b - data[p];
    let u = data.update(p, b);
    assert(u.len() == data.len());
    lemma_sum_update(data, 0, 8192, p, b);
    lemma_sum_update(data, t0, 8192, p, b);
    let k1 = p % 8;
    let k2 = (p - t0) % 8;
    let dh = if p < 65536 {
        d * byte_weight(k1)
    } else {
        0
    };
    let dt = if p >= t0 {
        d * byte_weight(k2)
    } else {
        0
    };
    let x = data.len() + words_sum(data, 0, 8192) + words_sum(data, t0, 8192);
    assert(data.len() + words_sum(u, 0, 8192) + words_sum(u, t0, 8192) == x + (dh + dt));
    lemma_weighted(d, k1);
    lemma_weighted(d, k2);
    if p < 65536 && p >= t0 && k1 == 7 && k2 == 7 {
        lemma_fundamental_div_mod_converse_mod(p, 8, p / 8, 7);
        lemma_fundamental_div_mod_converse_mod(p - t0, 8, (p - t0) / 8, 7);
        lemma_fundamental_div_mod_converse_mod(t0, 8, p / 8 - (p - t0) / 8, 0);
        assert(dh + dt == d * 0x200_0000_0000_0000);
        if d > 128 {
            lemma_fundamental_div_mod_converse_mod(dh + dt, m, 1, (d - 128) * 0x200_0000_0000_0000);
        } else if d > 0 {
            lemma_fundamental_div_mod_converse_mod(dh + dt, m, 0, d * 0x200_0000_0000_0000);
        } else if d > -128 {
            lemma_fundamental_div_mod_converse_mod(dh + dt, m, -1, (d + 128) * 0x200_0000_0000_0000);
        } else {
            lemma_fundamental_div_mod_converse_mod(dh + dt, m, -2, (d + 256) * 0x200_0000_0000_0000);
        }
    } else {
        lemma_nonzero_residue(dh + dt);
    }
    lemma_shift_changes_residue(x, dh + dt);
    lemma_fundamental_div_mod_converse_mod(x, m, x / m, x % m);
    lemma_fundamental_div_mod_converse_mod(x + (dh + dt), m, (x + (dh + dt)) / m, (x + (dh + dt)) % m);
}

/// With the same sampled blocks, two different file sizes give different fingerprints.
pub proof fn lemma_size_change(n1: u64, n2: u64, head: Seq<u8>, tail: Seq<u8>)
    requires
        n1 != n2,
    ensures
        fingerprint_of_blocks(n1 as nat, head, tail) != fingerprint_of_blocks(n2 as nat, head, tail),
{
    let m = word_modulus();
    let s = words_sum(head, 0, 8192) + words_sum(tail, 0, 8192);
    let delta = n2 - n1;
    lemma_nonzero_residue(delta);
    lemma_shift_changes_residue(n1 + s, delta);
    assert(n2 + s == (n1 + s) + delta);
}

} // verus!
