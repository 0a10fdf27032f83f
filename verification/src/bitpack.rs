//! Bit packing for the binary bitmap format: one byte per pixel on the
//! unpacked side, eight pixels per byte on the packed side, rows padded
//! to a whole byte so that no byte spans two rows.

use vstd::prelude::*;

use vstd::arithmetic::div_mod::lemma_fundamental_div_mod;
use vstd::arithmetic::div_mod::lemma_fundamental_div_mod_converse_div;
use vstd::arithmetic::div_mod::lemma_fundamental_div_mod_converse_mod;
use vstd::arithmetic::div_mod::lemma_mod_add_multiples_vanish;
use vstd::arithmetic::div_mod::lemma_mod_multiples_basic;
use vstd::arithmetic::div_mod::lemma_mod_self_0;
use vstd::arithmetic::div_mod::lemma_small_mod;

verus! {

/// Two to the power `e`.
pub open spec fn pow2(e: nat) -> nat
    decreases e,
{
    if e == 0 {
        1
    } else {
        2 * pow2((e - 1) as nat)
    }
}

/// The value of a bit string read most-significant bit first.
pub open spec fn pack_bits(bits: Seq<u8>) -> nat
    decreases bits.len(),
{
    if bits.len() == 0 {
        0
    } else {
        (pack_bits(bits.drop_last()) * 2 + bits.last()) as nat
    }
}

/// `n` zero bits.
pub open spec fn zero_bits(n: nat) -> Seq<u8> {
    Seq::new(n, |i: int| 0u8)
}

/// The byte that encodes up to eight pixel bits, the first pixel in the
/// most significant position and missing low bits padded with zeros.
pub open spec fn pack_byte(bits: Seq<u8>) -> u8 {
    pack_bits(bits + zero_bits((8 - bits.len()) as nat)) as u8
}

/// The `k`-bit binary rendering of `v`, most significant bit first.
pub open spec fn spec_bits_of(v: nat, k: nat) -> Seq<u8>
    decreases k,
{
    if k == 0 {
        seq![]
    } else {
        spec_bits_of(v / 2, (k - 1) as nat).push((v % 2) as u8)
    }
}

/// The topmost `k` bits of a byte, most significant first.
pub open spec fn top_bits(b: u8, k: nat) -> Seq<u8> {
    spec_bits_of(b as nat, 8).take(k as int)
}

/// A bit string's value is below two to its length.
pub proof fn lemma_pack_bits_bound(bits: Seq<u8>)
    requires
        forall|i: int| 0 <= i < bits.len() ==> #[trigger] bits[i] <= 1,
    ensures
        pack_bits(bits) < pow2(bits.len()),
    decreases bits.len(),
{
    if bits.len() > 0 {
        lemma_pack_bits_bound(bits.drop_last());
    }
}

/// Appending a bit doubles the value and adds the bit.
pub proof fn lemma_pack_bits_take_step(bits: Seq<u8>, i: int)
    requires
        0 <= i < bits.len(),
    ensures
        pack_bits(bits.take(i + 1)) == pack_bits(bits.take(i)) * 2 + bits[i],
{
    assert(bits.take(i + 1).drop_last() =~= bits.take(i));
    assert(bits.take(i + 1).last() == bits[i]);
}

/// Appending a zero bit doubles the value.
pub proof fn lemma_pack_bits_pad_step(bits: Seq<u8>, n: nat)
    ensures
        pack_bits(bits + zero_bits(n + 1)) == pack_bits(bits + zero_bits(n)) * 2,
{
    let s = bits + zero_bits(n + 1);
    assert(s.drop_last() =~= bits + zero_bits(n));
    assert(s.last() == 0);
}

/// Reading a bit string's value back bit by bit restores the string.
pub proof fn lemma_bits_of_pack(bits: Seq<u8>)
    requires
        forall|i: int| 0 <= i < bits.len() ==> #[trigger] bits[i] <= 1,
    ensures
        spec_bits_of(pack_bits(bits), bits.len()) == bits,
    decreases bits.len(),
{
    if bits.len() > 0 {
        let head = bits.drop_last();
        let b = bits.last();
        lemma_bits_of_pack(head);
        let p = pack_bits(bits);
        assert(p == pack_bits(head) * 2 + b);
        lemma_fundamental_div_mod_converse_div(p as int, 2, pack_bits(head) as int, b as int);
        lemma_fundamental_div_mod_converse_mod(p as int, 2, pack_bits(head) as int, b as int);
        assert(p / 2 == pack_bits(head));
        assert(p % 2 == b);
        assert(spec_bits_of(p, bits.len()) =~= bits);
    }
}

/// A packed byte hands back exactly the pixel bits it was built from; the
/// padding bits are dropped.
pub proof fn lemma_top_bits_of_pack_byte(bits: Seq<u8>)
    requires
        0 < bits.len() <= 8,
        forall|i: int| 0 <= i < bits.len() ==> #[trigger] bits[i] <= 1,
    ensures
        pack_byte(bits) as nat == pack_bits(bits + zero_bits((8 - bits.len()) as nat)),
        top_bits(pack_byte(bits), bits.len()) == bits,
{
    let padded = bits + zero_bits((8 - bits.len()) as nat);
    assert(forall|i: int| 0 <= i < padded.len() ==> #[trigger] padded[i] <= 1);
    assert(padded.len() == 8);
    lemma_pack_bits_bound(padded);
    assert(pow2(8) == 256) by {
        reveal_with_fuel(pow2, 9);
    }
    assert(pack_byte(bits) as nat == pack_bits(padded));
    lemma_bits_of_pack(padded);
    assert(spec_bits_of(pack_byte(bits) as nat, 8) == padded);
    assert(padded.take(bits.len() as int) =~= bits);
}

/// How many bits of the byte at stream index `idx` carry pixels, for a
/// bitmap of width `w`: a row occupies `w / 8 + 1` bytes unless the width
/// is a multiple of eight, every byte carries eight bits except the last
/// byte of a row, which carries `w % 8` (read as eight when the remainder
/// is zero, matching the packer's whole-byte rows).
pub open spec fn sig_bits(idx: int, w: nat) -> nat {
    let row_len = (w / 8 + 1) as int;
    if (idx + 1) % row_len == 0 {
        if w % 8 == 0 {
            8
        } else {
            w % 8
        }
    } else {
        8
    }
}

/// The pixels recovered from the packed stream `bytes` from byte `i` on:
/// each byte contributes its significant bits, most significant first.
pub open spec fn spec_realign_from(bytes: Seq<u8>, w: nat, i: int) -> Seq<u8>
    decreases bytes.len() - i,
{
    if i < 0 || i >= bytes.len() {
        seq![]
    } else {
        top_bits(bytes[i], sig_bits(i, w)) + spec_realign_from(bytes, w, i + 1)
    }
}

/// The pixels recovered from a whole packed stream.
pub open spec fn spec_realign(bytes: Seq<u8>, w: nat) -> Seq<u8> {
    spec_realign_from(bytes, w, 0)
}

/// One row of pixels packed into bytes: chunks of eight, the last chunk
/// zero-padded.
pub open spec fn spec_pack_chunks(row: Seq<u8>) -> Seq<u8>
    decreases row.len(),
{
    if row.len() == 0 {
        seq![]
    } else if row.len() <= 8 {
        seq![pack_byte(row)]
    } else {
        seq![pack_byte(row.take(8))] + spec_pack_chunks(row.skip(8))
    }
}

/// A whole bitmap buffer packed row by row; each row starts a fresh byte.
pub open spec fn spec_pack_bitmap(buf: Seq<u8>, w: nat) -> Seq<u8>
    decreases buf.len(),
{
    if w == 0 || buf.len() == 0 {
        seq![]
    } else if buf.len() <= w {
        spec_pack_chunks(buf)
    } else {
        spec_pack_chunks(buf.take(w as int)) + spec_pack_bitmap(buf.skip(w as int), w)
    }
}

/// A packed row holds one byte per eight pixels, plus one for a partial
/// chunk.
pub proof fn lemma_pack_chunks_len(row: Seq<u8>)
    ensures
        spec_pack_chunks(row).len() == row.len() / 8 + (if row.len() % 8 == 0 {
            0int
        } else {
            1int
        }),
    decreases row.len(),
{
    let n = row.len() as int;
    if row.len() == 0 {
        assert(0int / 8 == 0 && 0int % 8 == 0);
    } else if row.len() <= 8 {
        if row.len() == 8 {
            lemma_fundamental_div_mod_converse_div(8, 8, 1, 0);
            lemma_fundamental_div_mod_converse_mod(8, 8, 1, 0);
        } else {
            lemma_fundamental_div_mod_converse_div(n, 8, 0, n);
            lemma_fundamental_div_mod_converse_mod(n, 8, 0, n);
        }
    } else {
        lemma_pack_chunks_len(row.skip(8));
        lemma_fundamental_div_mod(n, 8);
        lemma_fundamental_div_mod_converse_div(n - 8, 8, n / 8 - 1, n % 8);
        lemma_fundamental_div_mod_converse_mod(n - 8, 8, n / 8 - 1, n % 8);
    }
}

/// The byte at index `m` of a packed row encodes the row's `m`-th chunk.
pub proof fn lemma_pack_chunks_index(row: Seq<u8>, m: int)
    requires
        0 <= m,
        8 * m < row.len(),
    ensures
        spec_pack_chunks(row).len() > m,
        spec_pack_chunks(row)[m] == pack_byte(
            row.subrange(
                8 * m,
                if 8 * m + 8 <= row.len() {
                    8 * m + 8
                } else {
                    row.len() as int
                },
            ),
        ),
    decreases m,
{
    if m == 0 {
        if row.len() <= 8 {
            assert(row.subrange(0, row.len() as int) =~= row);
        } else {
            assert(row.subrange(0, 8) =~= row.take(8));
        }
    } else {
        lemma_pack_chunks_index(row.skip(8), m - 1);
        let e = if 8 * m + 8 <= row.len() {
            8 * m + 8
        } else {
            row.len() as int
        };
        let e2 = if 8 * (m - 1) + 8 <= row.skip(8).len() {
            8 * (m - 1) + 8
        } else {
            row.skip(8).len() as int
        };
        assert(e2 == e - 8);
        assert(row.skip(8).subrange(8 * (m - 1), e2) =~= row.subrange(8 * m, e));
    }
}

/// Unpacking a packed row from byte `m` on yields the row's pixels from
/// position `8 * m` on.
pub proof fn lemma_realign_row_aux(row: Seq<u8>, w: nat, m: int)
    requires
        row.len() == w,
        w > 0,
        forall|i: int| 0 <= i < row.len() ==> #[trigger] row[i] <= 1,
        0 <= m <= spec_pack_chunks(row).len(),
    ensures
        spec_realign_from(spec_pack_chunks(row), w, m) == row.skip(
            if 8 * m <= w {
                8 * m
            } else {
                w as int
            },
        ),
    decreases spec_pack_chunks(row).len() - m,
{
    let bs = spec_pack_chunks(row);
    let wi = w as int;
    lemma_pack_chunks_len(row);
    lemma_fundamental_div_mod(wi, 8);
    if m == spec_pack_chunks(row).len() {
        assert(spec_realign_from(bs, w, m) =~= Seq::<u8>::empty());
        assert(8 * m >= wi);
        assert(row.skip(wi) =~= Seq::<u8>::empty());
    } else {
        assert(8 * m < wi) by {
            if w % 8 == 0 {
                assert(bs.len() == wi / 8);
                assert(m <= wi / 8 - 1);
            } else {
                assert(bs.len() == wi / 8 + 1);
                assert(m <= wi / 8);
                assert(8 * (wi / 8) < wi);
            }
        }
        lemma_pack_chunks_index(row, m);
        let e = if 8 * m + 8 <= wi {
            8 * m + 8
        } else {
            wi
        };
        let chunk = row.subrange(8 * m, e);
        assert(sig_bits(m, w) == chunk.len()) by {
            let row_len = (w / 8 + 1) as int;
            if w % 8 == 0 {
                // every byte of the stream carries eight bits
                assert(m + 1 <= bs.len() == wi / 8 < row_len);
                lemma_small_mod((m + 1) as nat, row_len as nat);
                assert(8 * m + 8 <= 8 * (wi / 8));
            } else {
                assert(bs.len() == row_len);
                if m + 1 < row_len {
                    lemma_small_mod((m + 1) as nat, row_len as nat);
                    assert(sig_bits(m, w) == 8);
                    assert(8 * (m + 1) <= 8 * (row_len - 1));
                    assert(8 * (row_len - 1) == 8 * (wi / 8));
                } else {
                    assert(m + 1 == row_len);
                    lemma_mod_self_0(row_len);
                    assert(sig_bits(m, w) == w % 8);
                    assert(8 * m == 8 * (wi / 8));
                    assert(e == wi);
                }
            }
        }
        assert(forall|i: int| 0 <= i < chunk.len() ==> #[trigger] chunk[i] <= 1);
        lemma_top_bits_of_pack_byte(chunk);
        lemma_realign_row_aux(row, w, m + 1);
        let skip_next = if 8 * (m + 1) <= wi {
            8 * (m + 1)
        } else {
            wi
        };
        assert(chunk + row.skip(skip_next) =~= row.skip(8 * m));
    }
}

/// Unpacking ignores a prefix of whole rows: the stream may be read from
/// any byte whose significance pattern matches the stream head's.
proof fn lemma_realign_from_shift(a: Seq<u8>, b: Seq<u8>, w: nat, j: int)
    requires
        0 <= j <= b.len(),
        forall|k: int| 0 <= k ==> #[trigger] sig_bits(k + a.len(), w) == sig_bits(k, w),
    ensures
        spec_realign_from(a + b, w, a.len() + j) == spec_realign_from(b, w, j),
    decreases b.len() - j,
{
    if j < b.len() {
        assert((a + b)[a.len() + j] == b[j]);
        assert(sig_bits(j + a.len(), w) == sig_bits(j, w));
        lemma_realign_from_shift(a, b, w, j + 1);
    } else {
        assert(spec_realign_from(a + b, w, a.len() + j) =~= Seq::<u8>::empty());
    }
}

/// Unpacking a concatenation splits at any boundary of whole rows.
pub proof fn lemma_realign_from_concat(a: Seq<u8>, b: Seq<u8>, w: nat, i: int)
    requires
        0 <= i <= a.len(),
        forall|k: int| 0 <= k ==> #[trigger] sig_bits(k + a.len(), w) == sig_bits(k, w),
    ensures
        spec_realign_from(a + b, w, i) == spec_realign_from(a, w, i) + spec_realign_from(b, w, 0),
    decreases a.len() - i,
{
    if i == a.len() {
        lemma_realign_from_shift(a, b, w, 0);
        assert(spec_realign_from(a, w, i) =~= Seq::<u8>::empty());
        assert(spec_realign_from(a, w, i) + spec_realign_from(b, w, 0) =~= spec_realign_from(
            b,
            w,
            0,
        ));
    } else {
        assert((a + b)[i] == a[i]);
        lemma_realign_from_concat(a, b, w, i + 1);
        assert(top_bits(a[i], sig_bits(i, w)) + (spec_realign_from(a, w, i + 1)
            + spec_realign_from(b, w, 0)) =~= (top_bits(a[i], sig_bits(i, w))
            + spec_realign_from(a, w, i + 1)) + spec_realign_from(b, w, 0));
    }
}

/// Packing a bitmap buffer row by row and unpacking the stream restores
/// the buffer exactly.
pub proof fn lemma_pack_realign(buf: Seq<u8>, w: nat)
    requires
        w > 0,
        buf.len() as int % (w as int) == 0,
        forall|i: int| 0 <= i < buf.len() ==> #[trigger] buf[i] <= 1,
    ensures
        spec_realign(spec_pack_bitmap(buf, w), w) == buf,
    decreases buf.len(),
{
    let wi = w as int;
    if buf.len() == 0 {
        assert(spec_realign(spec_pack_bitmap(buf, w), w) =~= buf);
    } else if buf.len() <= w {
        assert(buf.len() == w) by {
            if buf.len() < w {
                lemma_small_mod(buf.len(), w);
            }
        }
        lemma_realign_row_aux(buf, w, 0);
        assert(buf.skip(0) =~= buf);
    } else {
        let row = buf.take(wi);
        let rest = buf.skip(wi);
        lemma_fundamental_div_mod(buf.len() as int, wi);
        let q = buf.len() as int / wi;
        assert(buf.len() == wi * q);
        assert(rest.len() == wi * q - wi);
        assert(wi * q - wi == (q - 1) * wi) by (nonlinear_arith);
        lemma_mod_multiples_basic(q - 1, wi);
        assert(rest.len() as int % wi == 0);
        assert(forall|i: int| 0 <= i < row.len() ==> #[trigger] row[i] <= 1);
        assert(forall|i: int| 0 <= i < rest.len() ==> #[trigger] rest[i] <= 1);
        lemma_realign_row_aux(row, w, 0);
        assert(row.skip(0) =~= row);
        lemma_pack_realign(rest, w);
        let a = spec_pack_chunks(row);
        lemma_pack_chunks_len(row);
        assert forall|k: int| 0 <= k implies #[trigger] sig_bits(k + a.len(), w) == sig_bits(
            k,
            w,
        ) by {
            let row_len = (w / 8 + 1) as int;
            if w % 8 == 0 {
                assert(sig_bits(k + a.len(), w) == 8);
                assert(sig_bits(k, w) == 8);
            } else {
                assert(a.len() == row_len);
                lemma_mod_add_multiples_vanish(k + 1, row_len);
                assert((k + a.len() + 1) % row_len == (k + 1) % row_len);
            }
        }
        lemma_realign_from_concat(a, spec_pack_bitmap(rest, w), w, 0);
        assert(row + rest =~= buf);
    }
}

/// Powers of two are monotone.
pub proof fn lemma_pow2_monotone(a: nat, b: nat)
    requires
        a <= b,
    ensures
        pow2(a) <= pow2(b),
    decreases b,
{
    if a < b {
        lemma_pow2_monotone(a, (b - 1) as nat);
    }
}

/// The eight bits of a byte, most significant first.
fn byte_bits(b: u8) -> (r: Vec<u8>)
    ensures
        r@ == spec_bits_of(b as nat, 8),
        r@.len() == 8,
{
    let mut r: Vec<u8> = Vec::new();
    let mut v: u8 = b;
    let mut k: usize = 0;
    assert(spec_bits_of(b as nat, 8) =~= spec_bits_of(b as nat, 8) + r@);
    while k < 8
        invariant
            0 <= k <= 8,
            r@.len() == k,
            spec_bits_of(b as nat, 8) == spec_bits_of(v as nat, (8 - k) as nat) + r@,
        decreases 8 - k,
    {
        let ghost prev = r@;
        r.insert(0, v % 2);
        proof {
            assert(r@ =~= seq![(v % 2) as u8] + prev);
            assert(spec_bits_of(v as nat, (8 - k) as nat) == spec_bits_of(
                (v / 2) as nat,
                (8 - k - 1) as nat,
            ).push((v % 2) as u8));
            assert(spec_bits_of((v / 2) as nat, (8 - k - 1) as nat).push((v % 2) as u8) + prev
                =~= spec_bits_of((v / 2) as nat, (8 - k - 1) as nat) + (seq![(v % 2) as u8]
                + prev));
        }
        v = v / 2;
        k += 1;
    }
    assert(spec_bits_of(v as nat, 0) + r@ =~= r@);
    r
}

/// Unpacks a binary bitmap payload into one byte per pixel: each encoded
/// byte contributes its significant bits for the given width, most
/// significant first; padding bits are dropped.
pub fn realign_byte_buffer(byte_buffer: Vec<u8>, width: usize) -> (r: Vec<u8>)
    ensures
        r@ == spec_realign(byte_buffer@, width as nat),
{
    let n = byte_buffer.len();
    let row_len = width / 8 + 1;
    let rem = width % 8;
    let mut new_buffer: Vec<u8> = Vec::new();
    let mut idx: usize = 0;
    assert(new_buffer@ + spec_realign_from(byte_buffer@, width as nat, 0) =~= spec_realign(
        byte_buffer@,
        width as nat,
    ));
    while idx < n
        invariant
            0 <= idx <= n,
            n == byte_buffer@.len(),
            row_len == width as nat / 8 + 1,
            rem == width as nat % 8,
            new_buffer@ + spec_realign_from(byte_buffer@, width as nat, idx as int)
                == spec_realign(byte_buffer@, width as nat),
        decreases n - idx,
    {
        let bits_to_grab: usize = if (idx + 1) % row_len == 0 {
            if rem == 0 {
                8
            } else {
                rem
            }
        } else {
            8
        };
        assert(bits_to_grab as nat == sig_bits(idx as int, width as nat));
        let b = byte_buffer[idx];
        let bits = byte_bits(b);
        let ghost before = new_buffer@;
        let mut j: usize = 0;
        while j < bits_to_grab
            invariant
                0 <= j <= bits_to_grab,
                bits_to_grab <= 8,
                bits@.len() == 8,
                new_buffer@ == before + bits@.take(j as int),
            decreases bits_to_grab - j,
        {
            new_buffer.push(bits[j]);
            assert(bits@.take(j + 1) =~= bits@.take(j as int).push(bits@[j as int]));
            assert(new_buffer@ =~= before + bits@.take(j + 1));
            j += 1;
        }
        proof {
            assert(bits@.take(bits_to_grab as int) == top_bits(b, sig_bits(idx as int,
                width as nat)));
            assert(spec_realign_from(byte_buffer@, width as nat, idx as int) == top_bits(
                b,
                sig_bits(idx as int, width as nat),
            ) + spec_realign_from(byte_buffer@, width as nat, idx + 1));
            assert(new_buffer@ + spec_realign_from(byte_buffer@, width as nat, idx + 1)
                =~= before + spec_realign_from(byte_buffer@, width as nat, idx as int));
        }
        idx += 1;
    }
    assert(spec_realign_from(byte_buffer@, width as nat, n as int) =~= Seq::<u8>::empty());
    assert(new_buffer@ =~= new_buffer@ + spec_realign_from(byte_buffer@, width as nat, n as int));
    new_buffer
}

/// Packs one row of `w` pixels starting at `start` in `buf` onto the end
/// of `out`, eight pixels per byte, the last byte zero-padded.
pub(crate) fn pack_row_into(buf: &Vec<u8>, start: usize, w: usize, out: &mut Vec<u8>)
    requires
        w > 0,
        start + w <= buf@.len(),
        forall|i: int| start <= i < start + w ==> buf@[i] <= 1,
    ensures
        final(out)@ == old(out)@ + spec_pack_chunks(
            buf@.subrange(start as int, start as int + w as int),
        ),
{
    let n = buf.len();
    let end = start + w;
    let ghost row = buf@.subrange(start as int, end as int);
    let mut pos: usize = start;
    assert(row.skip(0) =~= row);
    while pos < end
        invariant
            start <= pos <= end,
            end == start + w,
            end <= buf@.len(),
            row == buf@.subrange(start as int, end as int),
            forall|i: int| start <= i < end ==> buf@[i] <= 1,
            out@ + spec_pack_chunks(row.skip(pos - start)) == old(out)@ + spec_pack_chunks(row),
        decreases end - pos,
    {
        let chunk_len: usize = if end - pos >= 8 {
            8
        } else {
            end - pos
        };
        let ghost remaining = row.skip(pos - start);
        let ghost chunk = remaining.take(chunk_len as int);
        proof {
            assert(forall|i: int| 0 <= i < chunk.len() ==> #[trigger] chunk[i] <= 1);
        }
        let mut acc: u8 = 0;
        let mut j: usize = 0;
        assert(chunk.take(0) =~= Seq::<u8>::empty());
        while j < chunk_len
            invariant
                0 <= j <= chunk_len,
                0 < chunk_len <= 8,
                pos + chunk_len <= end,
                end <= buf@.len(),
                chunk.len() == chunk_len,
                forall|i: int| 0 <= i < chunk.len() ==> #[trigger] chunk[i] <= 1,
                forall|i: int| 0 <= i < chunk.len() ==> chunk[i] == buf@[pos + i],
                acc as nat == pack_bits(chunk.take(j as int)),
            decreases chunk_len - j,
        {
            proof {
                lemma_pack_bits_bound(chunk.take(j as int));
                lemma_pow2_monotone(j as nat, 7);
                assert(pow2(7) == 128) by {
                    reveal_with_fuel(pow2, 8);
                }
                lemma_pack_bits_take_step(chunk, j as int);
            }
            let bit = buf[pos + j];
            acc = acc * 2 + bit;
            j += 1;
        }
        assert(chunk.take(chunk_len as int) =~= chunk);
        while j < 8
            invariant
                chunk_len <= j <= 8,
                chunk.len() == chunk_len,
                0 < chunk_len <= 8,
                forall|i: int| 0 <= i < chunk.len() ==> #[trigger] chunk[i] <= 1,
                acc as nat == pack_bits(chunk + zero_bits((j - chunk_len) as nat)),
            decreases 8 - j,
        {
            proof {
                let padded = chunk + zero_bits((j - chunk_len) as nat);
                assert(forall|i: int| 0 <= i < padded.len() ==> #[trigger] padded[i] <= 1);
                lemma_pack_bits_bound(padded);
                lemma_pow2_monotone(padded.len(), 7);
                assert(pow2(7) == 128) by {
                    reveal_with_fuel(pow2, 8);
                }
                lemma_pack_bits_pad_step(chunk, (j - chunk_len) as nat);
            }
            acc = acc * 2;
            j += 1;
        }
        proof {
            let padded = chunk + zero_bits((8 - chunk_len) as nat);
            assert(forall|i: int| 0 <= i < padded.len() ==> #[trigger] padded[i] <= 1);
            lemma_pack_bits_bound(padded);
            assert(pow2(8) == 256) by {
                reveal_with_fuel(pow2, 9);
            }
            assert(acc == pack_byte(chunk));
        }
        let ghost out_before = out@;
        out.push(acc);
        proof {
            if remaining.len() <= 8 {
                assert(chunk =~= remaining);
                assert(spec_pack_chunks(remaining) == seq![pack_byte(remaining)]);
                assert(row.skip(pos + chunk_len - start) =~= Seq::<u8>::empty());
                assert(spec_pack_chunks(row.skip(pos + chunk_len - start)) =~= Seq::<
                    u8,
                >::empty());
                assert(out@ + spec_pack_chunks(row.skip(pos + chunk_len - start)) =~= out_before
                    + spec_pack_chunks(remaining));
            } else {
                assert(chunk =~= remaining.take(8));
                assert(spec_pack_chunks(remaining) == seq![pack_byte(remaining.take(8))]
                    + spec_pack_chunks(remaining.skip(8)));
                assert(remaining.skip(8) =~= row.skip(pos + chunk_len - start));
                assert(out@ + spec_pack_chunks(row.skip(pos + chunk_len - start)) =~= out_before
                    + spec_pack_chunks(remaining));
            }
        }
        pos += chunk_len;
    }
    assert(row.skip(end - start) =~= Seq::<u8>::empty());
    assert(out@ =~= out@ + spec_pack_chunks(row.skip(end - start)));
}

} // verus!
