//! The binary wire format: a short ASCII header followed by raw pixel
//! data — packed bits for a bitmap, one byte per sample otherwise.

use vstd::prelude::*;

use crate::image::AnymapError;
use crate::image::AnymapFormat;
use crate::image::AnymapImage;
use crate::image::ImageView;
use crate::image::spec_make_pbm;
use crate::image::spec_make_pgm;
use crate::image::spec_make_ppm;
use crate::image::view_of_result;
use crate::decimal::dec_val;
use crate::decimal::is_digits;
use crate::decimal::lemma_dec_val_spec_dec;
use crate::decimal::lemma_spec_dec_digits;
use crate::decimal::parse_usize;
use crate::decimal::push_decimal;
use crate::decimal::spec_dec;
use crate::bitpack::lemma_pack_realign;
use crate::bitpack::realign_byte_buffer;
use crate::bitpack::pack_row_into;
use crate::bitpack::spec_pack_bitmap;
use crate::bitpack::spec_realign;
use vstd::arithmetic::div_mod::lemma_fundamental_div_mod;
use vstd::arithmetic::div_mod::lemma_mod_multiples_basic;
use vstd::arithmetic::div_mod::lemma_small_mod;
use vstd::arithmetic::div_mod::lemma_mod_add_multiples_vanish;

verus! {

broadcast use crate::image::lemma_anymap_view;

/// A binary header delimiter: a space or a line feed.
pub open spec fn is_delim(b: u8) -> bool {
    b == 32 || b == 10
}

/// The first position at or after `i` that holds a non-delimiter, or the
/// end of the stream.
pub open spec fn skip_delims(s: Seq<u8>, i: int) -> int
    decreases s.len() - i,
{
    if i < 0 || i >= s.len() {
        s.len() as int
    } else if is_delim(s[i]) {
        skip_delims(s, i + 1)
    } else {
        i
    }
}

/// The first delimiter position at or after `i`, or the end of the
/// stream: the end of the token starting at `i`.
pub open spec fn token_end(s: Seq<u8>, i: int) -> int
    decreases s.len() - i,
{
    if i < 0 || i >= s.len() {
        s.len() as int
    } else if is_delim(s[i]) {
        i
    } else {
        token_end(s, i + 1)
    }
}

/// The first `k` delimiter-separated header tokens from position `i`,
/// paired with the index where the pixel data begins: the byte right
/// after the delimiter that closes the last token. `None` when fewer
/// than `k` tokens remain.
pub open spec fn spec_scan(s: Seq<u8>, i: int, k: nat) -> Option<(Seq<Seq<u8>>, int)>
    decreases k,
{
    if k == 0 {
        Some((seq![], i))
    } else {
        let ts = skip_delims(s, i);
        if ts >= s.len() {
            None
        } else {
            let te = token_end(s, ts);
            let tok = s.subrange(ts, te);
            if k == 1 {
                Some(
                    (
                        seq![tok],
                        if te < s.len() {
                            te + 1
                        } else {
                            te
                        },
                    ),
                )
            } else {
                match spec_scan(s, te, (k - 1) as nat) {
                    Some(r) => Some((seq![tok] + r.0, r.1)),
                    None => None,
                }
            }
        }
    }
}

/// A successful scan yields exactly the requested number of tokens, and
/// a payload position within the stream.
pub proof fn lemma_spec_scan_len(s: Seq<u8>, i: int, k: nat)
    requires
        spec_scan(s, i, k) is Some,
        i <= s.len(),
    ensures
        spec_scan(s, i, k).unwrap().0.len() == k,
        spec_scan(s, i, k).unwrap().1 <= s.len(),
        i >= 0 ==> spec_scan(s, i, k).unwrap().1 >= i,
    decreases k,
{
    if k > 0 {
        let ts = skip_delims(s, i);
        lemma_skip_delims_bounds(s, i);
        let te = token_end(s, ts);
        lemma_token_end_bounds(s, ts);
        if k > 1 {
            lemma_spec_scan_len(s, te, (k - 1) as nat);
        }
    }
}

/// `skip_delims` never moves backwards and never passes the end.
pub proof fn lemma_skip_delims_bounds(s: Seq<u8>, i: int)
    ensures
        skip_delims(s, i) <= s.len(),
        0 <= i <= s.len() ==> i <= skip_delims(s, i),
    decreases s.len() - i,
{
    if 0 <= i < s.len() && is_delim(s[i]) {
        lemma_skip_delims_bounds(s, i + 1);
    }
}

/// `token_end` never moves backwards and never passes the end.
pub proof fn lemma_token_end_bounds(s: Seq<u8>, i: int)
    ensures
        token_end(s, i) <= s.len(),
        0 <= i <= s.len() ==> i <= token_end(s, i),
    decreases s.len() - i,
{
    if 0 <= i < s.len() && !is_delim(s[i]) {
        lemma_token_end_bounds(s, i + 1);
    }
}

/// Skipping a known run of delimiters lands on its end.
pub proof fn lemma_skip_delims_run(s: Seq<u8>, i: int, ts: int)
    requires
        0 <= i <= ts <= s.len(),
        forall|m: int| i <= m < ts ==> is_delim(#[trigger] s[m]),
        ts == s.len() || !is_delim(s[ts]),
    ensures
        skip_delims(s, i) == ts,
    decreases ts - i,
{
    if i < ts {
        lemma_skip_delims_run(s, i + 1, ts);
    }
}

/// The token starting at a known run of non-delimiters ends at the run's
/// end.
pub proof fn lemma_token_end_run(s: Seq<u8>, i: int, e: int)
    requires
        0 <= i <= e <= s.len(),
        forall|m: int| i <= m < e ==> !is_delim(#[trigger] s[m]),
        e == s.len() || is_delim(s[e]),
    ensures
        token_end(s, i) == e,
    decreases e - i,
{
    if i < e {
        lemma_token_end_run(s, i + 1, e);
    }
}

/// Splits a binary stream into its first `arg_count` header tokens and
/// an independent copy of the pixel data that follows the last header
/// delimiter; `None` when the stream holds fewer tokens than asked for.
pub fn parse_header_to_slice(byte_vec: &Vec<u8>, arg_count: usize) -> (r: Option<
    (Vec<Vec<u8>>, Vec<u8>),
>)
    requires
        arg_count > 0,
    ensures
        (r is Some) == (spec_scan(byte_vec@, 0, arg_count as nat) is Some),
        r matches Some(p) ==> {
            let sr = spec_scan(byte_vec@, 0, arg_count as nat).unwrap();
            p.0.deep_view() == sr.0 && p.1@ == byte_vec@.subrange(sr.1, byte_vec@.len() as int)
        },
{
    let n = byte_vec.len();
    let ghost s = byte_vec@;
    let mut toks: Vec<Vec<u8>> = Vec::new();
    let mut i: usize = 0;
    let mut k: usize = arg_count;
    proof {
        assert(toks.deep_view() =~= Seq::<Seq<u8>>::empty());
        if spec_scan(s, 0, arg_count as nat) is Some {
            let r2 = spec_scan(s, 0, arg_count as nat).unwrap();
            assert(toks.deep_view() + r2.0 =~= r2.0);
        }
    }
    while k > 0
        invariant
            0 <= i <= n,
            n == s.len(),
            s == byte_vec@,
            1 <= k <= arg_count,
            spec_scan(s, 0, arg_count as nat) == (match spec_scan(s, i as int, k as nat) {
                Some(r2) => Some::<(Seq<Seq<u8>>, int)>((toks.deep_view() + r2.0, r2.1)),
                None => None::<(Seq<Seq<u8>>, int)>,
            }),
        decreases k,
    {
        let ghost i0 = i as int;
        // move past the delimiters in front of the next token
        while i < n && (byte_vec[i] == 32 || byte_vec[i] == 10)
            invariant
                0 <= i <= n,
                n == s.len(),
                s == byte_vec@,
                skip_delims(s, i as int) == skip_delims(s, i0),
            decreases n - i,
        {
            i += 1;
        }
        assert(skip_delims(s, i as int) == i as int);
        if i == n {
            assert(spec_scan(s, i0, k as nat) is None);
            return None;
        }
        // the token runs to the next delimiter or to the end
        let start = i;
        while i < n && !(byte_vec[i] == 32 || byte_vec[i] == 10)
            invariant
                start <= i <= n,
                n == s.len(),
                s == byte_vec@,
                token_end(s, start as int) == token_end(s, i as int),
            decreases n - i,
        {
            i += 1;
        }
        assert(token_end(s, start as int) == i as int);
        let mut tok: Vec<u8> = Vec::new();
        let mut p = start;
        assert(tok@ =~= s.subrange(start as int, start as int));
        while p < i
            invariant
                start <= p <= i <= n,
                n == s.len(),
                s == byte_vec@,
                tok@ == s.subrange(start as int, p as int),
            decreases i - p,
        {
            tok.push(byte_vec[p]);
            assert(tok@ =~= s.subrange(start as int, p + 1));
            p += 1;
        }
        let ghost tok_view = tok@;
        let ghost prev_dv = toks.deep_view();
        toks.push(tok);
        proof {
            assert(toks.deep_view() =~~= prev_dv + seq![tok_view]);
        }
        if k == 1 {
            let payload_start = if i < n {
                i + 1
            } else {
                i
            };
            let mut payload: Vec<u8> = Vec::new();
            let mut q = payload_start;
            assert(payload@ =~= s.subrange(payload_start as int, payload_start as int));
            while q < n
                invariant
                    payload_start <= q <= n,
                    n == s.len(),
                    s == byte_vec@,
                    payload@ == s.subrange(payload_start as int, q as int),
                decreases n - q,
            {
                payload.push(byte_vec[q]);
                assert(payload@ =~= s.subrange(payload_start as int, q + 1));
                q += 1;
            }
            proof {
                assert(spec_scan(s, i0, 1) == Some::<(Seq<Seq<u8>>, int)>(
                    (seq![tok_view], payload_start as int),
                ));
                assert(prev_dv + seq![tok_view] =~~= toks.deep_view());
            }
            return Some((toks, payload));
        }
        k -= 1;
        proof {
            let ghost knew = k as nat;
            assert(spec_scan(s, i0, (knew + 1) as nat) == (match spec_scan(s, i as int, knew) {
                Some(r2) => Some::<(Seq<Seq<u8>>, int)>((seq![tok_view] + r2.0, r2.1)),
                None => None::<(Seq<Seq<u8>>, int)>,
            }));
            if spec_scan(s, i as int, knew) is Some {
                let r2 = spec_scan(s, i as int, knew).unwrap();
                assert(prev_dv + (seq![tok_view] + r2.0) =~~= toks.deep_view() + r2.0);
            }
        }
    }
    assert(false);
    None
}

/// The two magic bytes of the binary encoding: `P4`, `P5`, or `P6`.
pub open spec fn spec_binary_magic(fmt: AnymapFormat) -> Seq<u8> {
    match fmt {
        AnymapFormat::Bitmap => seq![80u8, 52u8],
        AnymapFormat::Greymap => seq![80u8, 53u8],
        AnymapFormat::Pixmap => seq![80u8, 54u8],
    }
}

/// The binary header: the magic bytes, a newline, the width and height
/// separated by a space, a newline, and — except for a bitmap — the
/// saturation and a final newline.
pub open spec fn spec_binary_header(v: ImageView) -> Seq<u8> {
    spec_binary_magic(v.format) + seq![10u8] + spec_dec(v.width) + seq![32u8] + spec_dec(v.height)
        + seq![10u8] + (if v.format is Bitmap {
        Seq::<u8>::empty()
    } else {
        spec_dec(v.saturation) + seq![10u8]
    })
}

/// The full binary encoding: the header followed by the raw pixel data,
/// bit-packed row by row for a bitmap and verbatim otherwise.
pub open spec fn spec_encode_binary(v: ImageView) -> Seq<u8> {
    spec_binary_header(v) + (if v.format is Bitmap {
        spec_pack_bitmap(v.buffer, v.width)
    } else {
        v.buffer
    })
}

/// Whether every numeric header token is all digits and denotes a value
/// that fits the machine word.
pub open spec fn header_vals_ok(toks: Seq<Seq<u8>>) -> bool {
    forall|i: int|
        0 <= i < toks.len() ==> is_digits(#[trigger] toks[i]) && dec_val(toks[i]) <= usize::MAX
}

/// What decoding a binary stream yields: the first two bytes pick the
/// format, three or four header tokens are scanned, each numeric token
/// must be a number fitting the machine word, the remainder after the
/// last header delimiter is the pixel data — unpacked bit by bit for a
/// bitmap — and the matching constructor has the last word.
pub open spec fn spec_decode_binary(s: Seq<u8>) -> Result<ImageView, AnymapError> {
    if s.len() < 2 || s[0] != 80 || !(s[1] == 52 || s[1] == 53 || s[1] == 54) {
        Err(AnymapError::UnknownMagicNumber)
    } else {
        let args: nat = if s[1] == 52 {
            3
        } else {
            4
        };
        match spec_scan(s, 0, args) {
            None => Err(AnymapError::MalformedHeader),
            Some(sr) => {
                if !header_vals_ok(sr.0.skip(1)) {
                    Err(AnymapError::MalformedHeader)
                } else {
                    let w = dec_val(sr.0[1]);
                    let h = dec_val(sr.0[2]);
                    let payload = s.subrange(sr.1, s.len() as int);
                    if s[1] == 52 {
                        spec_make_pbm(spec_realign(payload, w), h, w)
                    } else if s[1] == 53 {
                        spec_make_pgm(payload, dec_val(sr.0[3]), h, w)
                    } else {
                        spec_make_ppm(payload, dec_val(sr.0[3]), h, w)
                    }
                }
            },
        }
    }
}

/// Writing an image in the binary format and reading the stream back
/// restores the image exactly — for a bitmap, despite the packing and
/// unpacking of its rows.
#[verifier::rlimit(100)]
pub proof fn lemma_binary_round_trip(v: ImageView)
    requires
        v.inv(),
    ensures
        spec_decode_binary(spec_encode_binary(v)) == Ok::<ImageView, AnymapError>(v),
{
    let s = spec_encode_binary(v);
    let magic = spec_binary_magic(v.format);
    let dw = spec_dec(v.width);
    let dh = spec_dec(v.height);
    let ds = spec_dec(v.saturation);
    let bitmap = v.format is Bitmap;
    let payload = if bitmap {
        spec_pack_bitmap(v.buffer, v.width)
    } else {
        v.buffer
    };
    lemma_spec_dec_digits(v.width);
    lemma_dec_val_spec_dec(v.width);
    lemma_spec_dec_digits(v.height);
    lemma_dec_val_spec_dec(v.height);
    lemma_spec_dec_digits(v.saturation);
    lemma_dec_val_spec_dec(v.saturation);
    let e1 = 3 + dw.len() as int;
    let t2 = e1 + 1;
    let e2 = t2 + dh.len() as int;
    let t3 = e2 + 1;
    let e3 = t3 + ds.len() as int;
    let pstart = if bitmap {
        e2 + 1
    } else {
        e3 + 1
    };
    assert(s.len() == pstart + payload.len());
    assert(s[0] == 80);
    assert(s[1] == (if bitmap {
        52u8
    } else if v.format is Greymap {
        53u8
    } else {
        54u8
    }));
    assert(s[2] == 10 && s[e1] == 32 && s[e2] == 10);
    assert(forall|m: int| 3 <= m < e1 ==> s[m] == dw[m - 3]);
    assert(forall|m: int| t2 <= m < e2 ==> s[m] == dh[m - t2]);
    assert(forall|m: int| 3 <= m < e1 ==> !is_delim(#[trigger] s[m]));
    assert(forall|m: int| t2 <= m < e2 ==> !is_delim(#[trigger] s[m]));
    assert(s.subrange(0, 2) =~= magic);
    assert(s.subrange(3, e1) =~= dw);
    assert(s.subrange(t2, e2) =~= dh);
    // the scan: the magic token, then the numeric tokens, each closed by
    // a single delimiter
    assert(skip_delims(s, 0) == 0);
    lemma_token_end_run(s, 0, 2);
    lemma_skip_delims_run(s, 2, 3);
    lemma_token_end_run(s, 3, e1);
    lemma_skip_delims_run(s, e1, t2);
    lemma_token_end_run(s, t2, e2);
    let sr: (Seq<Seq<u8>>, int);
    if bitmap {
        assert(spec_scan(s, e1, 1) == Some::<(Seq<Seq<u8>>, int)>((seq![dh], e2 + 1)));
        assert(spec_scan(s, 2, 2) == Some::<(Seq<Seq<u8>>, int)>((seq![dw, dh], e2 + 1)));
        assert(spec_scan(s, 0, 3) == Some::<(Seq<Seq<u8>>, int)>(
            (seq![magic, dw, dh], e2 + 1),
        ));
        sr = (seq![magic, dw, dh], e2 + 1);
    } else {
        assert(s[e3] == 10);
        assert(forall|m: int| t3 <= m < e3 ==> s[m] == ds[m - t3]);
        assert(forall|m: int| t3 <= m < e3 ==> !is_delim(#[trigger] s[m]));
        assert(s.subrange(t3, e3) =~= ds);
        lemma_skip_delims_run(s, e2, t3);
        lemma_token_end_run(s, t3, e3);
        assert(spec_scan(s, e2, 1) == Some::<(Seq<Seq<u8>>, int)>((seq![ds], e3 + 1)));
        assert(spec_scan(s, e1, 2) == Some::<(Seq<Seq<u8>>, int)>((seq![dh, ds], e3 + 1)));
        assert(spec_scan(s, 2, 3) == Some::<(Seq<Seq<u8>>, int)>((seq![dw, dh, ds], e3 + 1)));
        assert(spec_scan(s, 0, 4) == Some::<(Seq<Seq<u8>>, int)>(
            (seq![magic, dw, dh, ds], e3 + 1),
        ));
        sr = (seq![magic, dw, dh, ds], e3 + 1);
    }
    assert(header_vals_ok(sr.0.skip(1))) by {
        assert forall|i: int| 0 <= i < sr.0.skip(1).len() implies is_digits(
            #[trigger] sr.0.skip(1)[i],
        ) && dec_val(sr.0.skip(1)[i]) <= usize::MAX by {
            assert(sr.0.skip(1)[i] == sr.0[i + 1]);
        }
    }
    assert(s.subrange(pstart, s.len() as int) =~= payload);
    if bitmap {
        if v.width > 0 {
            lemma_mod_multiples_basic(v.height as int, v.width as int);
            assert((v.height as int) * (v.width as int) == v.buffer.len());
            lemma_pack_realign(v.buffer, v.width);
        } else {
            assert((v.height as int) * 0 == 0);
            assert(v.buffer.len() == 0);
            assert(payload =~= Seq::<u8>::empty());
            assert(spec_realign(payload, v.width) =~= v.buffer);
        }
        assert(spec_realign(payload, v.width) == v.buffer);
        assert(!(exists|i: int| 0 <= i < v.buffer.len() && v.buffer[i] > 1));
        assert(spec_make_pbm(v.buffer, v.height, v.width) == Ok::<ImageView, AnymapError>(v))
            by {
            assert(spec_make_pbm(v.buffer, v.height, v.width).unwrap() =~= v);
        }
    } else if v.format is Greymap {
        assert(spec_make_pgm(v.buffer, v.saturation, v.height, v.width) == Ok::<
            ImageView,
            AnymapError,
        >(v)) by {
            assert(spec_make_pgm(v.buffer, v.saturation, v.height, v.width).unwrap() =~= v);
        }
    } else {
        assert(spec_make_ppm(v.buffer, v.saturation, v.height, v.width) == Ok::<
            ImageView,
            AnymapError,
        >(v)) by {
            assert(spec_make_ppm(v.buffer, v.saturation, v.height, v.width).unwrap() =~= v);
        }
    }
}

impl AnymapImage {
    /// Encodes the image in its binary format: header, then raw pixel
    /// bytes — packed eight pixels to the byte, row-padded, for a bitmap.
    pub fn encode_binary(&self) -> (r: Vec<u8>)
        requires
            self@.inv(),
        ensures
            r@ == spec_encode_binary(self@),
    {
        let mut out: Vec<u8> = Vec::new();
        out.push(80);
        match self.format {
            AnymapFormat::Bitmap => out.push(52),
            AnymapFormat::Greymap => out.push(53),
            AnymapFormat::Pixmap => out.push(54),
        }
        out.push(10);
        push_decimal(self.width, &mut out);
        out.push(32);
        push_decimal(self.height, &mut out);
        out.push(10);
        let bitmap = match self.format {
            AnymapFormat::Bitmap => true,
            _ => false,
        };
        if !bitmap {
            push_decimal(self.saturation, &mut out);
            out.push(10);
        }
        assert(out@ =~= spec_binary_header(self@));
        let ghost hdr = out@;
        let n = self.buffer.len();
        if bitmap {
            let w = self.width;
            if w > 0 {
                proof {
                    lemma_mod_multiples_basic(self@.height as int, w as int);
                    assert((self@.height as int) * (w as int) == self@.buffer.len());
                    assert(self@.buffer.skip(0) =~= self@.buffer);
                }
                let mut rowstart: usize = 0;
                while rowstart < n
                    invariant
                        0 <= rowstart <= n,
                        n == self@.buffer.len(),
                        w == self@.width,
                        w > 0,
                        self@.inv(),
                        self@.format is Bitmap,
                        (rowstart as int) % (w as int) == 0,
                        (n as int) % (w as int) == 0,
                        out@ + spec_pack_bitmap(self@.buffer.skip(rowstart as int), w as nat)
                            == hdr + spec_pack_bitmap(self@.buffer, w as nat),
                    decreases n - rowstart,
                {
                    let ghost rem = self@.buffer.skip(rowstart as int);
                    proof {
                        lemma_fundamental_div_mod(rowstart as int, w as int);
                        lemma_fundamental_div_mod(n as int, w as int);
                        let a = rowstart as int / w as int;
                        let b = n as int / w as int;
                        assert(rowstart as int == (w as int) * a);
                        assert(n as int == (w as int) * b);
                        assert((w as int) * b - (w as int) * a == (b - a) * (w as int))
                            by (nonlinear_arith);
                        lemma_mod_multiples_basic(b - a, w as int);
                        lemma_mod_add_multiples_vanish(rowstart as int, w as int);
                        assert((n - rowstart) as int % (w as int) == 0);
                        if n - rowstart < w {
                            lemma_small_mod((n - rowstart) as nat, w as nat);
                        }
                        assert(rowstart + w <= n);
                        assert(forall|i: int|
                            rowstart <= i < rowstart + w ==> self@.buffer[i] <= 1);
                    }
                    let ghost out_before = out@;
                    pack_row_into(&self.buffer, rowstart, w, &mut out);
                    proof {
                        let chunkpart = self@.buffer.subrange(
                            rowstart as int,
                            rowstart as int + w as int,
                        );
                        if rem.len() <= w {
                            assert(chunkpart =~= rem);
                            assert(self@.buffer.skip(rowstart + w as int) =~= Seq::<u8>::empty());
                            assert(spec_pack_bitmap(rem, w as nat) == crate::bitpack::spec_pack_chunks(rem));
                            assert(out@ + spec_pack_bitmap(
                                self@.buffer.skip(rowstart + w as int),
                                w as nat,
                            ) =~= out_before + spec_pack_bitmap(rem, w as nat));
                        } else {
                            assert(chunkpart =~= rem.take(w as int));
                            assert(rem.skip(w as int) =~= self@.buffer.skip(rowstart + w as int));
                            assert(out@ + spec_pack_bitmap(
                                self@.buffer.skip(rowstart + w as int),
                                w as nat,
                            ) =~= out_before + spec_pack_bitmap(rem, w as nat));
                        }
                    }
                    rowstart += w;
                }
                proof {
                    assert(self@.buffer.skip(n as int) =~= Seq::<u8>::empty());
                    assert(out@ =~= out@ + spec_pack_bitmap(self@.buffer.skip(n as int), w as nat));
                    assert(out@ =~= spec_encode_binary(self@));
                }
            } else {
                proof {
                    assert((self@.height as int) * 0 == 0);
                    assert(self@.buffer.len() == 0);
                    assert(out@ =~= spec_encode_binary(self@));
                }
            }
        } else {
            let mut i: usize = 0;
            assert(out@ =~= hdr + self@.buffer.take(0));
            while i < n
                invariant
                    0 <= i <= n,
                    n == self@.buffer.len(),
                    out@ == hdr + self@.buffer.take(i as int),
                decreases n - i,
            {
                out.push(self.buffer[i]);
                assert(out@ =~= hdr + self@.buffer.take(i + 1));
                i += 1;
            }
            proof {
                assert(self@.buffer.take(n as int) =~= self@.buffer);
                assert(out@ =~= spec_encode_binary(self@));
            }
        }
        out
    }

    /// Decodes a binary stream into an image, as `spec_decode_binary`
    /// lays down; every accepted stream yields an image holding the
    /// model invariant.
    pub fn decode_binary(bytes: &Vec<u8>) -> (r: Result<AnymapImage, AnymapError>)
        ensures
            view_of_result(r) == spec_decode_binary(bytes@),
            r matches Ok(img) ==> img@.inv(),
    {
        let n = bytes.len();
        if n < 2 {
            return Err(AnymapError::UnknownMagicNumber);
        }
        let m1 = bytes[1];
        if bytes[0] != 80 || !(m1 == 52 || m1 == 53 || m1 == 54) {
            return Err(AnymapError::UnknownMagicNumber);
        }
        let args: usize = if m1 == 52 {
            3
        } else {
            4
        };
        let parsed = parse_header_to_slice(bytes, args);
        match parsed {
            None => Err(AnymapError::MalformedHeader),
            Some((toks, payload)) => {
                proof {
                    lemma_spec_scan_len(bytes@, 0, args as nat);
                    assert(toks.deep_view().len() == toks@.len());
                }
                let ghost sr = spec_scan(bytes@, 0, args as nat).unwrap();
                proof {
                    assert(toks@[1].deep_view() =~= toks@[1]@);
                    assert(toks@[2].deep_view() =~= toks@[2]@);
                    assert(toks@[1]@ == sr.0[1]);
                    assert(toks@[2]@ == sr.0[2]);
                }
                let w_opt = parse_usize(&toks[1]);
                let h_opt = parse_usize(&toks[2]);
                if w_opt.is_none() || h_opt.is_none() {
                    proof {
                        assert(!header_vals_ok(sr.0.skip(1))) by {
                            if w_opt.is_none() {
                                assert(sr.0.skip(1)[0] == sr.0[1]);
                            } else {
                                assert(sr.0.skip(1)[1] == sr.0[2]);
                            }
                        }
                    }
                    return Err(AnymapError::MalformedHeader);
                }
                let w = w_opt.unwrap();
                let h = h_opt.unwrap();
                if m1 == 52 {
                    proof {
                        assert(header_vals_ok(sr.0.skip(1))) by {
                            assert forall|i: int| 0 <= i < sr.0.skip(1).len() implies is_digits(
                                #[trigger] sr.0.skip(1)[i],
                            ) && dec_val(sr.0.skip(1)[i]) <= usize::MAX by {
                                assert(sr.0.skip(1)[i] == sr.0[i + 1]);
                            }
                        }
                    }
                    let aligned = realign_byte_buffer(payload, w);
                    AnymapImage::pbm(aligned, h, w)
                } else {
                    proof {
                        assert(toks@[3].deep_view() =~= toks@[3]@);
                        assert(toks@[3]@ == sr.0[3]);
                    }
                    let s_opt = parse_usize(&toks[3]);
                    if s_opt.is_none() {
                        proof {
                            assert(!header_vals_ok(sr.0.skip(1))) by {
                                assert(sr.0.skip(1)[2] == sr.0[3]);
                            }
                        }
                        return Err(AnymapError::MalformedHeader);
                    }
                    let sat = s_opt.unwrap();
                    proof {
                        assert(header_vals_ok(sr.0.skip(1))) by {
                            assert forall|i: int| 0 <= i < sr.0.skip(1).len() implies is_digits(
                                #[trigger] sr.0.skip(1)[i],
                            ) && dec_val(sr.0.skip(1)[i]) <= usize::MAX by {
                                assert(sr.0.skip(1)[i] == sr.0[i + 1]);
                            }
                        }
                    }
                    if m1 == 53 {
                        AnymapImage::pgm(payload, sat, h, w)
                    } else {
                        AnymapImage::ppm(payload, sat, h, w)
                    }
                }
            },
        }
    }
}

} // verus!
