//! Conversion between bytes and upper-case ASCII hexadecimal text.
use vstd::prelude::*;

verus! {

/// The ASCII character for a nibble: `0`-`9`, then `A`-`F`.
pub open spec fn nibble_char(n: u8) -> u8 {
    if n < 10 {
        (n + 48) as u8
    } else {
        (n + 55) as u8
    }
}

/// Whether `c` is an ASCII hexadecimal digit, in either case.
pub open spec fn is_hex_digit(c: u8) -> bool {
    (48 <= c && c <= 57) || (65 <= c && c <= 70) || (97 <= c && c <= 102)
}

/// The value of the hexadecimal digit `c`.
pub open spec fn digit_value(c: u8) -> u8 {
    if c <= 57 {
        (c - 48) as u8
    } else if c <= 70 {
        (c - 55) as u8
    } else {
        (c - 87) as u8
    }
}

/// The hex text of `b`: two characters per byte, high nibble first.
pub open spec fn encode_spec(b: Seq<u8>) -> Seq<u8> {
    Seq::new(
        2 * b.len(),
        |i: int|
            if i % 2 == 0 {
                nibble_char(b[i / 2] / 16)
            } else {
                nibble_char(b[i / 2] % 16)
            },
    )
}

/// What one pair of characters decodes to: one byte if both are hex digits,
/// nothing otherwise.
pub open spec fn pair_spec(hi: u8, lo: u8) -> Seq<u8> {
    if is_hex_digit(hi) && is_hex_digit(lo) {
        seq![(digit_value(hi) * 16 + digit_value(lo)) as u8]
    } else {
        Seq::empty()
    }
}

/// The bytes decoded from the first `n` pairs of `h`.
pub open spec fn decode_pairs(h: Seq<u8>, n: nat) -> Seq<u8>
    decreases n,
{
    if n == 0 {
        Seq::empty()
    } else {
        decode_pairs(h, (n - 1) as nat) + pair_spec(h[2 * n - 2], h[2 * n - 1])
    }
}

/// The bytes decoded from the hex text `h`: each complete pair of hex digits
/// gives one byte, any other pair and a trailing lone character give nothing.
pub open spec fn decode_spec(h: Seq<u8>) -> Seq<u8> {
    decode_pairs(h, h.len() / 2)
}

/// The ASCII hex character for a nibble.
pub fn hex_char(n: u8) -> (r: u8)
    requires
        n < 16,
    ensures
        r == nibble_char(n),
{
    if n < 10 {
        n + 48
    } else {
        n + 55
    }
}

/// The value of an ASCII hex digit (either case), or `None` for any other byte.
pub fn char_to_hex_digit(c: u8) -> (r: Option<u8>)
    ensures
        r == (if is_hex_digit(c) {
            Some(digit_value(c))
        } else {
            None::<u8>
        }),
{
    if 48 <= c && c <= 57 {
        Some(c - 48)
    } else if 65 <= c && c <= 70 {
        Some(c - 55)
    } else if 97 <= c && c <= 102 {
        Some(c - 87)
    } else {
        None
    }
}

/// Writes the hex text of `input` into `output`, pair by pair, as far as whole
/// pairs fit; the rest of `output` is left as it was.
pub fn bytes_to_hex(input: &[u8], output: &mut [u8])
    ensures
        final(output)@.len() == old(output)@.len(),
        forall|j: int|
            0 <= j < old(output)@.len() ==> #[trigger] final(output)@[j] == if j < 2 * input@.len()
                && j < old(output)@.len() - old(output)@.len() % 2 {
                encode_spec(input@)[j]
            } else {
                old(output)@[j]
            },
{
    let ghost out0 = output@;
    let ghost enc = encode_spec(input@);
    let half = output.len() / 2;
    let mut i: usize = 0;
    while i < input.len() && i < half
        invariant
            i <= input@.len(),
            i <= half,
            half == out0.len() / 2,
            out0.len() <= usize::MAX,
            output@.len() == out0.len(),
            enc == encode_spec(input@),
            forall|j: int|
                0 <= j < out0.len() ==> #[trigger] output@[j] == if j < 2 * i {
                    enc[j]
                } else {
                    out0[j]
                },
        decreases input@.len() - i,
    {
        assert(2 * i + 1 < out0.len());
        let byte = input[i];
        let hi = byte >> 4;
        let lo = byte & 0x0F;
        assert(hi == byte / 16 && lo == byte % 16) by (bit_vector)
            requires
                hi == byte >> 4,
                lo == byte & 0x0F,
        ;
        output[2 * i] = hex_char(hi);
        output[2 * i + 1] = hex_char(lo);
        i = i + 1;
        assert forall|j: int| 0 <= j < out0.len() implies #[trigger] output@[j] == if j < 2 * i {
            enc[j]
        } else {
            out0[j]
        } by {
            if j == 2 * i - 2 || j == 2 * i - 1 {
                assert(j / 2 == i - 1);
            }
        }
    }
    assert forall|j: int| 0 <= j < out0.len() implies #[trigger] output@[j] == if j < 2
        * input@.len() && j < out0.len() - out0.len() % 2 {
        enc[j]
    } else {
        out0[j]
    } by {
        assert(2 * half == out0.len() - out0.len() % 2);
    }
}

/// Decodes the hex text `hex_data` into `output`, pair by pair, skipping pairs
/// that are not two hex digits and a trailing lone character, and stopping once
/// `output` is full. Returns the number of bytes written; the rest of `output`
/// is left as it was.
pub fn hex_to_bytes(hex_data: &[u8], output: &mut [u8]) -> (r: usize)
    ensures
        final(output)@.len() == old(output)@.len(),
        r as int == if decode_spec(hex_data@).len() < old(output)@.len() {
            decode_spec(hex_data@).len() as int
        } else {
            old(output)@.len() as int
        },
        forall|j: int| 0 <= j < r ==> #[trigger] final(output)@[j] == decode_spec(hex_data@)[j],
        forall|j: int| r <= j < old(output)@.len() ==> #[trigger] final(output)@[j] == old(output)@[j],
{
    let ghost h = hex_data@;
    let ghost out0 = output@;
    let pairs = hex_data.len() / 2;
    let mut bytes_written: usize = 0;
    let mut k: usize = 0;
    while k < pairs
        invariant
            pairs == h.len() / 2,
            h == hex_data@,
            h.len() <= usize::MAX,
            k <= pairs,
            output@.len() == out0.len(),
            bytes_written as int == if decode_pairs(h, k as nat).len() < out0.len() {
                decode_pairs(h, k as nat).len() as int
            } else {
                out0.len() as int
            },
            forall|j: int| 0 <= j < bytes_written ==> #[trigger] output@[j] == decode_pairs(h, k as nat)[j],
            forall|j: int| bytes_written <= j < out0.len() ==> #[trigger] output@[j] == out0[j],
        decreases pairs - k,
    {
        let ghost prev = decode_pairs(h, k as nat);
        let hi = hex_data[2 * k];
        let lo = hex_data[2 * k + 1];
        assert(decode_pairs(h, (k + 1) as nat) == prev + pair_spec(hi, lo));
        if bytes_written < output.len() {
            let high = char_to_hex_digit(hi);
            let low = char_to_hex_digit(lo);
            if let (Some(a), Some(b)) = (high, low) {
                let v = (a << 4) | b;
                assert(v == a * 16 + b) by (bit_vector)
                    requires
                        a < 16,
                        b < 16,
                        v == (a << 4) | b,
                ;
                output[bytes_written] = v;
                bytes_written = bytes_written + 1;
            }
        }
        k = k + 1;
    }
    bytes_written
}

/// The hex text of `bytes`, two upper-case characters per byte.
pub fn encode_hex(bytes: &[u8]) -> (r: Vec<u8>)
    requires
        2 * bytes@.len() <= usize::MAX,
    ensures
        r@ == encode_spec(bytes@),
{
    let mut out: Vec<u8> = vec![0u8; 2 * bytes.len()];
    bytes_to_hex(bytes, out.as_mut_slice());
    assert(out@ =~= encode_spec(bytes@));
    out
}

/// The bytes that the hex text `hex` decodes to (see `decode_spec`).
pub fn decode_hex(hex: &[u8]) -> (r: Vec<u8>)
    ensures
        r@ == decode_spec(hex@),
{
    proof {
        lemma_decode_pairs_len(hex@, hex@.len() / 2);
    }
    let mut out: Vec<u8> = vec![0u8; hex.len() / 2];
    let n = hex_to_bytes(hex, out.as_mut_slice());
    out.truncate(n);
    assert(out@ =~= decode_spec(hex@));
    out
}

/// The first `n` pairs decode to at most `n` bytes.
pub proof fn lemma_decode_pairs_len(h: Seq<u8>, n: nat)
    ensures
        decode_pairs(h, n).len() <= n,
    decreases n,
{
    if n > 0 {
        lemma_decode_pairs_len(h, (n - 1) as nat);
    }
}

proof fn lemma_nibble(n: u8)
    requires
        n < 16,
    ensures
        is_hex_digit(nibble_char(n)),
        digit_value(nibble_char(n)) == n,
{
}

/// Decoding the first `k` pairs of the encoding of `b` gives the first `k` bytes.
proof fn lemma_decode_encoded_prefix(b: Seq<u8>, k: nat)
    requires
        k <= b.len(),
    ensures
        decode_pairs(encode_spec(b), k) == b.take(k as int),
    decreases k,
{
    if k > 0 {
        lemma_decode_encoded_prefix(b, (k - 1) as nat);
        let e = encode_spec(b);
        let x = b[k - 1];
        assert((2 * k - 2) / 2 == k - 1 && (2 * k - 1) / 2 == k - 1);
        assert(e[2 * k - 2] == nibble_char(x / 16));
        assert(e[2 * k - 1] == nibble_char(x % 16));
        lemma_nibble(x / 16);
        lemma_nibble(x % 16);
        assert((x / 16) * 16 + x % 16 == x);
        assert(b.take(k as int) =~= b.take(k - 1) + seq![x]);
    }
}

/// Decoding the encoding of any byte sequence gives the sequence back.
pub proof fn lemma_round_trip(b: Seq<u8>)
    ensures
        decode_spec(encode_spec(b)) == b,
{
    lemma_decode_encoded_prefix(b, b.len());
    assert(encode_spec(b).len() / 2 == b.len());
    assert(b.take(b.len() as int) =~= b);
}

/// Decoding the first `n` pairs reads only the first `2 * n` characters.
proof fn lemma_decode_pairs_local(h1: Seq<u8>, h2: Seq<u8>, n: nat)
    requires
        2 * n <= h1.len(),
        2 * n <= h2.len(),
        forall|i: int| 0 <= i < 2 * n ==> h1[i] == h2[i],
    ensures
        decode_pairs(h1, n) == decode_pairs(h2, n),
    decreases n,
{
    if n > 0 {
        lemma_decode_pairs_local(h1, h2, (n - 1) as nat);
    }
}

/// When the first `n` pairs are all hex digits, they give `n` bytes.
proof fn lemma_decode_pairs_all_hex(h: Seq<u8>, n: nat)
    requires
        2 * n <= h.len(),
        forall|i: int| 0 <= i < 2 * n ==> is_hex_digit(#[trigger] h[i]),
    ensures
        decode_pairs(h, n).len() == n,
    decreases n,
{
    if n > 0 {
        lemma_decode_pairs_all_hex(h, (n - 1) as nat);
        assert(is_hex_digit(h[2 * n - 2]) && is_hex_digit(h[2 * n - 1]));
    }
}

/// Decoding hex text of odd length never reads the trailing lone character.
pub proof fn lemma_odd_length(h: Seq<u8>)
    requires
        h.len() % 2 == 1,
    ensures
        decode_spec(h) == decode_spec(h.take(h.len() - 1)),
{
    let t = h.take(h.len() - 1);
    assert(t.len() / 2 == h.len() / 2);
    lemma_decode_pairs_local(h, t, h.len() / 2);
}

/// Hex text of odd length whose characters before the last are hex digits
/// decodes to `floor(len / 2)` bytes.
pub proof fn lemma_odd_length_count(h: Seq<u8>)
    requires
        h.len() % 2 == 1,
        forall|i: int| 0 <= i < h.len() - 1 ==> is_hex_digit(#[trigger] h[i]),
    ensures
        decode_spec(h).len() == h.len() / 2,
{
    lemma_decode_pairs_all_hex(h, h.len() / 2);
}

/// Decoding an even-length text followed by another decodes each and joins them.
pub proof fn lemma_decode_concat(a: Seq<u8>, b: Seq<u8>)
    requires
        a.len() % 2 == 0,
    ensures
        decode_spec(a + b) == decode_spec(a) + decode_spec(b),
{
    lemma_decode_concat_pairs(a, b, b.len() / 2);
    assert((a + b).len() / 2 == a.len() / 2 + b.len() / 2);
}

proof fn lemma_decode_concat_pairs(a: Seq<u8>, b: Seq<u8>, m: nat)
    requires
        a.len() % 2 == 0,
        2 * m <= b.len(),
    ensures
        decode_pairs(a + b, a.len() / 2 + m) == decode_pairs(a, a.len() / 2) + decode_pairs(b, m),
    decreases m,
{
    let n = a.len() / 2;
    if m == 0 {
        lemma_decode_pairs_local(a + b, a, n);
        assert(decode_pairs(a, n) + Seq::<u8>::empty() =~= decode_pairs(a, n));
    } else {
        lemma_decode_concat_pairs(a, b, (m - 1) as nat);
        let ab = a + b;
        assert(ab[2 * (n + m) - 2] == b[2 * m - 2]);
        assert(ab[2 * (n + m) - 1] == b[2 * m - 1]);
        assert((n + m - 1) as nat == (n + (m - 1) as nat));
        assert(decode_pairs(ab, n + m) == decode_pairs(ab, (n + m - 1) as nat) + pair_spec(
            b[2 * m - 2],
            b[2 * m - 1],
        ));
        assert(decode_pairs(a, n) + decode_pairs(b, m) =~= decode_pairs(a, n) + decode_pairs(
            b,
            (m - 1) as nat,
        ) + pair_spec(b[2 * m - 2], b[2 * m - 1]));
    }
}

/// A pair holding a character that is not a hex digit gives no byte, and
/// decoding goes on with the next pair.
pub proof fn lemma_skip_bad_pair(h: Seq<u8>, k: int)
    requires
        0 <= k,
        2 * k + 2 <= h.len(),
        !is_hex_digit(h[2 * k]) || !is_hex_digit(h[2 * k + 1]),
    ensures
        decode_spec(h) == decode_spec(h.take(2 * k)) + decode_spec(h.skip(2 * k + 2)),
{
    let front = h.take(2 * k);
    let pair = h.subrange(2 * k, 2 * k + 2);
    let rest = h.skip(2 * k + 2);
    assert(h =~= front + (pair + rest));
    lemma_decode_concat(front, pair + rest);
    lemma_decode_concat(pair, rest);
    assert(decode_pairs(pair, 0) == Seq::<u8>::empty());
    assert(decode_pairs(pair, 1) == decode_pairs(pair, 0) + pair_spec(pair[0], pair[1]));
    assert(decode_pairs(pair, 1) =~= pair_spec(pair[0], pair[1]));
    assert(decode_spec(pair) =~= Seq::<u8>::empty());
    assert(decode_spec(pair) + decode_spec(rest) =~= decode_spec(rest));
}

} // verus!
