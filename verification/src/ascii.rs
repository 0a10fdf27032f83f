//! The ASCII wire format: the same header fields as the binary form, but
//! with magics `P1`/`P2`/`P3` and every sample written as a decimal
//! token, space-separated within a row and newline-separated between
//! rows.

use vstd::prelude::*;

use crate::image::AnymapError;
use crate::image::AnymapFormat;
use crate::image::AnymapImage;
use crate::image::ImageView;
use crate::image::spec_make_pbm;
use crate::image::spec_make_pgm;
use crate::image::spec_make_ppm;
use crate::image::view_of_result;
use crate::decimal::check_digits;
use crate::decimal::dec_val;
use crate::decimal::is_digits;
use crate::decimal::lemma_dec_val_spec_dec;
use crate::decimal::lemma_spec_dec_digits;
use crate::decimal::parse_u8;
use crate::decimal::parse_usize;
use crate::decimal::push_decimal;
use crate::decimal::spec_dec;

verus! {

broadcast use crate::image::lemma_anymap_view;

/// An ASCII whitespace byte: space, tab, line feed, form feed, or
/// carriage return.
pub open spec fn is_ws(b: u8) -> bool {
    b == 32 || b == 9 || b == 10 || b == 12 || b == 13
}

/// The first whitespace position at or after `i`, or the end of the
/// text: the end of the token starting at `i`.
pub open spec fn ws_token_end(s: Seq<u8>, i: int) -> int
    decreases s.len() - i,
{
    if i < 0 || i >= s.len() {
        s.len() as int
    } else if is_ws(s[i]) {
        i
    } else {
        ws_token_end(s, i + 1)
    }
}

/// `ws_token_end` stays within the text, never moves backwards, and
/// marks a maximal run of non-whitespace.
pub proof fn lemma_ws_token_end_char(s: Seq<u8>, i: int)
    requires
        0 <= i <= s.len(),
    ensures
        i <= ws_token_end(s, i) <= s.len(),
        forall|m: int| i <= m < ws_token_end(s, i) ==> !is_ws(#[trigger] s[m]),
        ws_token_end(s, i) == s.len() || is_ws(s[ws_token_end(s, i)]),
    decreases s.len() - i,
{
    if i < s.len() && !is_ws(s[i]) {
        lemma_ws_token_end_char(s, i + 1);
    }
}

/// The whitespace-separated tokens of the text from position `i` on.
pub open spec fn spec_ws_tokens_from(s: Seq<u8>, i: int) -> Seq<Seq<u8>>
    decreases s.len() - i,
    via spec_ws_tokens_from_decreases
{
    if i < 0 || i >= s.len() {
        seq![]
    } else if is_ws(s[i]) {
        spec_ws_tokens_from(s, i + 1)
    } else {
        seq![s.subrange(i, ws_token_end(s, i))] + spec_ws_tokens_from(s, ws_token_end(s, i))
    }
}

#[via_fn]
proof fn spec_ws_tokens_from_decreases(s: Seq<u8>, i: int) {
    if 0 <= i < s.len() && !is_ws(s[i]) {
        lemma_ws_token_end_char(s, i);
    }
}

/// The whitespace-separated tokens of a whole text.
pub open spec fn spec_ws_tokens(s: Seq<u8>) -> Seq<Seq<u8>> {
    spec_ws_tokens_from(s, 0)
}

/// Splits a text into its whitespace-separated tokens.
pub fn tokenize(bytes: &Vec<u8>) -> (r: Vec<Vec<u8>>)
    ensures
        r.deep_view() == spec_ws_tokens(bytes@),
{
    let n = bytes.len();
    let ghost s = bytes@;
    let mut toks: Vec<Vec<u8>> = Vec::new();
    let mut i: usize = 0;
    proof {
        assert(toks.deep_view() =~= Seq::<Seq<u8>>::empty());
        assert(toks.deep_view() + spec_ws_tokens_from(s, 0) =~= spec_ws_tokens(s));
    }
    while i < n
        invariant
            0 <= i <= n,
            n == s.len(),
            s == bytes@,
            toks.deep_view() + spec_ws_tokens_from(s, i as int) == spec_ws_tokens(s),
        decreases n - i,
    {
        let b = bytes[i];
        if b == 32 || b == 9 || b == 10 || b == 12 || b == 13 {
            i += 1;
        } else {
            let start = i;
            while i < n && !(bytes[i] == 32 || bytes[i] == 9 || bytes[i] == 10 || bytes[i] == 12
                || bytes[i] == 13)
                invariant
                    start <= i <= n,
                    n == s.len(),
                    s == bytes@,
                    ws_token_end(s, start as int) == ws_token_end(s, i as int),
                decreases n - i,
            {
                i += 1;
            }
            assert(ws_token_end(s, start as int) == i as int);
            let mut tok: Vec<u8> = Vec::new();
            let mut p = start;
            assert(tok@ =~= s.subrange(start as int, start as int));
            while p < i
                invariant
                    start <= p <= i <= n,
                    n == s.len(),
                    s == bytes@,
                    tok@ == s.subrange(start as int, p as int),
                decreases i - p,
            {
                tok.push(bytes[p]);
                assert(tok@ =~= s.subrange(start as int, p + 1));
                p += 1;
            }
            let ghost tok_view = tok@;
            let ghost prev_dv = toks.deep_view();
            toks.push(tok);
            proof {
                assert(toks.deep_view() =~~= prev_dv + seq![tok_view]);
                assert(spec_ws_tokens_from(s, start as int) == seq![tok_view]
                    + spec_ws_tokens_from(s, i as int));
                assert(prev_dv + (seq![tok_view] + spec_ws_tokens_from(s, i as int))
                    =~~= toks.deep_view() + spec_ws_tokens_from(s, i as int));
            }
        }
    }
    assert(spec_ws_tokens_from(s, n as int) =~= Seq::<Seq<u8>>::empty());
    assert(toks.deep_view() =~~= toks.deep_view() + spec_ws_tokens_from(s, n as int));
    toks
}

/// The header values drawn from the tokens after the magic: digit-only
/// tokens are taken in order until `need` values are read; other tokens
/// are skipped. `None` when the tokens run out first, or when a digit
/// token exceeds the machine word. On success the values come with the
/// index of the first unread token.
pub open spec fn spec_header_vals(toks: Seq<Seq<u8>>, i: int, need: nat) -> Option<
    (Seq<nat>, int),
>
    decreases toks.len() - i,
{
    if need == 0 {
        Some((seq![], i))
    } else if i < 0 || i >= toks.len() {
        None
    } else if is_digits(toks[i]) {
        if dec_val(toks[i]) > usize::MAX {
            None
        } else {
            match spec_header_vals(toks, i + 1, (need - 1) as nat) {
                Some(r) => Some((seq![dec_val(toks[i])] + r.0, r.1)),
                None => None,
            }
        }
    } else {
        spec_header_vals(toks, i + 1, need)
    }
}

/// The pixel samples drawn from the tokens from `i` on: every remaining
/// token must be an unsigned byte value written in decimal.
pub open spec fn spec_payload_bytes(toks: Seq<Seq<u8>>, i: int) -> Option<Seq<u8>>
    decreases toks.len() - i,
{
    if i < 0 || i >= toks.len() {
        Some(seq![])
    } else if is_digits(toks[i]) && dec_val(toks[i]) <= 255 {
        match spec_payload_bytes(toks, i + 1) {
            Some(r) => Some(seq![dec_val(toks[i]) as u8] + r),
            None => None,
        }
    } else {
        None
    }
}

/// The two magic bytes of the ASCII encoding: `P1`, `P2`, or `P3`.
pub open spec fn spec_ascii_magic(fmt: AnymapFormat) -> Seq<u8> {
    match fmt {
        AnymapFormat::Bitmap => seq![80u8, 49u8],
        AnymapFormat::Greymap => seq![80u8, 50u8],
        AnymapFormat::Pixmap => seq![80u8, 51u8],
    }
}

/// The separator written after the sample at `idx`: a newline at the end
/// of a row of `rowlen` samples, a space otherwise.
pub open spec fn spec_sep(idx: int, rowlen: nat) -> u8 {
    if rowlen > 0 && (idx + 1) % (rowlen as int) == 0 {
        10
    } else {
        32
    }
}

/// The ASCII pixel text from sample `idx` on: each sample in decimal,
/// followed by its separator — except the very last sample, which ends
/// the text.
pub open spec fn spec_ascii_payload_from(buf: Seq<u8>, rowlen: nat, idx: int) -> Seq<u8>
    decreases buf.len() - idx,
{
    if idx < 0 || idx >= buf.len() {
        seq![]
    } else if idx == buf.len() - 1 {
        spec_dec(buf[idx] as nat)
    } else {
        spec_dec(buf[idx] as nat) + seq![spec_sep(idx, rowlen)] + spec_ascii_payload_from(
            buf,
            rowlen,
            idx + 1,
        )
    }
}

/// The ASCII header: as the binary header, with the ASCII magic.
pub open spec fn spec_ascii_header(v: ImageView) -> Seq<u8> {
    spec_ascii_magic(v.format) + seq![10u8] + spec_dec(v.width) + seq![32u8] + spec_dec(v.height)
        + seq![10u8] + (if v.format is Bitmap {
        Seq::<u8>::empty()
    } else {
        spec_dec(v.saturation) + seq![10u8]
    })
}

/// The full ASCII encoding: the header followed by the pixel text, whose
/// rows hold `width` samples — three times that for a pixmap.
pub open spec fn spec_encode_ascii(v: ImageView) -> Seq<u8> {
    spec_ascii_header(v) + spec_ascii_payload_from(v.buffer, v.width * v.samples_per_pixel(), 0)
}

/// What decoding an ASCII text yields: the text is tokenized on ASCII
/// whitespace; the first token must be a magic; then two or three header
/// values are scanned, skipping stray non-numeric tokens; every token
/// after the header is a decimal sample; and the matching constructor
/// has the last word.
pub open spec fn spec_decode_ascii(s: Seq<u8>) -> Result<ImageView, AnymapError> {
    let toks = spec_ws_tokens(s);
    if toks.len() == 0 || !(toks[0] == seq![80u8, 49u8] || toks[0] == seq![80u8, 50u8] || toks[0]
        == seq![80u8, 51u8]) {
        Err(AnymapError::UnknownMagicNumber)
    } else {
        let need: nat = if toks[0] == seq![80u8, 49u8] {
            2
        } else {
            3
        };
        match spec_header_vals(toks, 1, need) {
            None => Err(AnymapError::MalformedHeader),
            Some(hv) => match spec_payload_bytes(toks, hv.1) {
                None => Err(AnymapError::MalformedPixelData),
                Some(buf) => {
                    let w = hv.0[0];
                    let h = hv.0[1];
                    if toks[0] == seq![80u8, 49u8] {
                        spec_make_pbm(buf, h, w)
                    } else if toks[0] == seq![80u8, 50u8] {
                        spec_make_pgm(buf, hv.0[2], h, w)
                    } else {
                        spec_make_ppm(buf, hv.0[2], h, w)
                    }
                },
            },
        }
    }
}

/// The token starting at a known run of non-whitespace ends at the
/// run's end.
pub proof fn lemma_ws_token_end_run(s: Seq<u8>, i: int, e: int)
    requires
        0 <= i <= e <= s.len(),
        forall|m: int| i <= m < e ==> !is_ws(#[trigger] s[m]),
        e == s.len() || is_ws(s[e]),
    ensures
        ws_token_end(s, i) == e,
    decreases e - i,
{
    if i < e {
        lemma_ws_token_end_run(s, i + 1, e);
    }
}

/// Tokenizing from the start of a known maximal non-whitespace run
/// yields that run, then the tokens of the rest.
pub proof fn lemma_ws_tokens_cons(s: Seq<u8>, i: int, e: int)
    requires
        0 <= i < e <= s.len(),
        forall|m: int| i <= m < e ==> !is_ws(#[trigger] s[m]),
        e == s.len() || is_ws(s[e]),
    ensures
        spec_ws_tokens_from(s, i) == seq![s.subrange(i, e)] + spec_ws_tokens_from(s, e),
{
    lemma_ws_token_end_run(s, i, e);
    assert(!is_ws(s[i]));
}

/// The tokens of a concatenation, read from inside the second part, are
/// the second part's own tokens.
pub proof fn lemma_ws_tokens_shift(a: Seq<u8>, b: Seq<u8>, j: int)
    requires
        0 <= j <= b.len(),
    ensures
        spec_ws_tokens_from(a + b, a.len() + j) == spec_ws_tokens_from(b, j),
    decreases b.len() - j,
{
    let s = a + b;
    if j == b.len() {
        assert(spec_ws_tokens_from(s, a.len() + j) =~= Seq::<Seq<u8>>::empty());
    } else {
        assert(s[a.len() + j] == b[j]);
        if is_ws(b[j]) {
            lemma_ws_tokens_shift(a, b, j + 1);
        } else {
            lemma_ws_token_end_char(b, j);
            let te = ws_token_end(b, j);
            assert(forall|m: int| a.len() + j <= m < a.len() + te ==> !is_ws(#[trigger] s[m]));
            lemma_ws_token_end_run(s, a.len() + j, a.len() + te);
            assert(s.subrange(a.len() + j, a.len() + te) =~= b.subrange(j, te));
            lemma_ws_tokens_shift(a, b, te);
        }
    }
}

/// Decimal digits are not whitespace.
pub proof fn lemma_digits_not_ws(t: Seq<u8>)
    requires
        is_digits(t),
    ensures
        forall|m: int| 0 <= m < t.len() ==> !is_ws(#[trigger] t[m]),
{
}

/// The tokens of the pixel text from sample `idx` on are exactly the
/// decimal renderings of the remaining samples, in order.
pub proof fn lemma_payload_tokens(buf: Seq<u8>, rowlen: nat, idx: int)
    requires
        0 <= idx <= buf.len(),
    ensures
        spec_ws_tokens_from(spec_ascii_payload_from(buf, rowlen, idx), 0) == Seq::new(
            (buf.len() - idx) as nat,
            |m: int| spec_dec(buf[idx + m] as nat),
        ),
    decreases buf.len() - idx,
{
    let p = spec_ascii_payload_from(buf, rowlen, idx);
    let goal = Seq::new((buf.len() - idx) as nat, |m: int| spec_dec(buf[idx + m] as nat));
    if idx == buf.len() {
        assert(spec_ws_tokens_from(p, 0) =~= goal);
    } else {
        let d = spec_dec(buf[idx] as nat);
        lemma_spec_dec_digits(buf[idx] as nat);
        lemma_digits_not_ws(d);
        if idx == buf.len() - 1 {
            assert(p == d);
            assert(forall|m: int| 0 <= m < p.len() ==> !is_ws(#[trigger] p[m]));
            lemma_ws_tokens_cons(p, 0, p.len() as int);
            assert(p.subrange(0, p.len() as int) =~= d);
            assert(spec_ws_tokens_from(p, p.len() as int) =~= Seq::<Seq<u8>>::empty());
            assert(spec_ws_tokens_from(p, 0) =~= goal);
        } else {
            let rest = spec_ascii_payload_from(buf, rowlen, idx + 1);
            let head = d + seq![spec_sep(idx, rowlen)];
            assert(p == d + seq![spec_sep(idx, rowlen)] + rest);
            assert(p =~= head + rest);
            assert(forall|m: int| 0 <= m < d.len() ==> p[m] == d[m]);
            assert(forall|m: int| 0 <= m < d.len() ==> !is_ws(#[trigger] p[m]));
            assert(is_ws(p[d.len() as int]));
            lemma_ws_tokens_cons(p, 0, d.len() as int);
            assert(p.subrange(0, d.len() as int) =~= d);
            assert(spec_ws_tokens_from(p, d.len() as int) == spec_ws_tokens_from(
                p,
                d.len() as int + 1,
            ));
            lemma_ws_tokens_shift(head, rest, 0);
            assert(spec_ws_tokens_from(p, head.len() as int) == spec_ws_tokens_from(rest, 0));
            lemma_payload_tokens(buf, rowlen, idx + 1);
            assert(seq![d] + Seq::new(
                (buf.len() - idx - 1) as nat,
                |m: int| spec_dec(buf[idx + 1 + m] as nat),
            ) =~= goal);
        }
    }
}

/// A run of tokens that are decimal renderings of bytes parses back to
/// those bytes.
pub proof fn lemma_payload_bytes_of_decs(toks: Seq<Seq<u8>>, i: int, buf: Seq<u8>, idx: int)
    requires
        0 <= i <= toks.len(),
        0 <= idx <= buf.len(),
        toks.len() - i == buf.len() - idx,
        forall|m: int|
            0 <= m < buf.len() - idx ==> #[trigger] toks[i + m] == spec_dec(buf[idx + m] as nat),
    ensures
        spec_payload_bytes(toks, i) == Some(buf.skip(idx)),
    decreases toks.len() - i,
{
    if i == toks.len() {
        assert(buf.skip(idx) =~= Seq::<u8>::empty());
    } else {
        assert(toks[i] == spec_dec(buf[idx] as nat)) by {
            assert(toks[i + 0] == spec_dec(buf[idx + 0] as nat));
        }
        lemma_spec_dec_digits(buf[idx] as nat);
        lemma_dec_val_spec_dec(buf[idx] as nat);
        assert forall|m: int| 0 <= m < buf.len() - (idx + 1) implies #[trigger] toks[i + 1 + m]
            == spec_dec(buf[idx + 1 + m] as nat) by {
            assert(toks[i + (m + 1)] == spec_dec(buf[idx + (m + 1)] as nat));
        }
        lemma_payload_bytes_of_decs(toks, i + 1, buf, idx + 1);
        assert(seq![buf[idx]] + buf.skip(idx + 1) =~= buf.skip(idx));
    }
}

/// Writing an image in the ASCII format and reading the text back
/// restores the image exactly, format for format.
#[verifier::rlimit(100)]
pub proof fn lemma_ascii_round_trip(v: ImageView)
    requires
        v.inv(),
    ensures
        spec_decode_ascii(spec_encode_ascii(v)) == Ok::<ImageView, AnymapError>(v),
{
    let s = spec_encode_ascii(v);
    let magic = spec_ascii_magic(v.format);
    let dw = spec_dec(v.width);
    let dh = spec_dec(v.height);
    let ds = spec_dec(v.saturation);
    let bitmap = v.format is Bitmap;
    let rowlen = v.width * v.samples_per_pixel();
    let pl = spec_ascii_payload_from(v.buffer, rowlen, 0);
    lemma_spec_dec_digits(v.width);
    lemma_dec_val_spec_dec(v.width);
    lemma_spec_dec_digits(v.height);
    lemma_dec_val_spec_dec(v.height);
    lemma_spec_dec_digits(v.saturation);
    lemma_dec_val_spec_dec(v.saturation);
    lemma_digits_not_ws(dw);
    lemma_digits_not_ws(dh);
    lemma_digits_not_ws(ds);
    let e1 = 3 + dw.len() as int;
    let t2 = e1 + 1;
    let e2 = t2 + dh.len() as int;
    let t3 = e2 + 1;
    let e3 = t3 + ds.len() as int;
    let pstart = if bitmap {
        e2 + 1
    } else {
        e3 + 1
    };
    assert(s.len() == pstart + pl.len());
    assert(s[0] == 80);
    assert(s[1] == (if bitmap {
        49u8
    } else if v.format is Greymap {
        50u8
    } else {
        51u8
    }));
    assert(s[2] == 10 && s[e1] == 32 && s[e2] == 10);
    assert(forall|m: int| 3 <= m < e1 ==> s[m] == dw[m - 3]);
    assert(forall|m: int| t2 <= m < e2 ==> s[m] == dh[m - t2]);
    assert(forall|m: int| 3 <= m < e1 ==> !is_ws(#[trigger] s[m]));
    assert(forall|m: int| t2 <= m < e2 ==> !is_ws(#[trigger] s[m]));
    assert(s.subrange(0, 2) =~= magic);
    assert(s.subrange(3, e1) =~= dw);
    assert(s.subrange(t2, e2) =~= dh);
    assert(forall|m: int| 0 <= m < 2 ==> !is_ws(#[trigger] s[m]));
    lemma_ws_tokens_cons(s, 0, 2);
    lemma_ws_tokens_cons(s, 3, e1);
    lemma_ws_tokens_cons(s, t2, e2);
    assert(spec_ws_tokens_from(s, 2) == spec_ws_tokens_from(s, 3));
    assert(spec_ws_tokens_from(s, e1) == spec_ws_tokens_from(s, t2));
    if !bitmap {
        assert(s[e3] == 10);
        assert(forall|m: int| t3 <= m < e3 ==> s[m] == ds[m - t3]);
        assert(forall|m: int| t3 <= m < e3 ==> !is_ws(#[trigger] s[m]));
        assert(s.subrange(t3, e3) =~= ds);
        lemma_ws_tokens_cons(s, t3, e3);
        assert(spec_ws_tokens_from(s, e2) == spec_ws_tokens_from(s, t3));
        assert(spec_ws_tokens_from(s, e3) == spec_ws_tokens_from(s, e3 + 1));
    } else {
        assert(spec_ws_tokens_from(s, e2) == spec_ws_tokens_from(s, e2 + 1));
    }
    // the tokens after the header are the samples' decimal renderings
    let hdr = s.take(pstart);
    assert(s =~= hdr + pl);
    lemma_ws_tokens_shift(hdr, pl, 0);
    assert(spec_ws_tokens_from(s, pstart) == spec_ws_tokens_from(pl, 0));
    lemma_payload_tokens(v.buffer, rowlen, 0);
    let ptoks = Seq::new(v.buffer.len(), |m: int| spec_dec(v.buffer[m] as nat));
    assert(spec_ws_tokens_from(pl, 0) =~= ptoks);
    let toks = spec_ws_tokens(s);
    if bitmap {
        assert(toks =~= seq![magic, dw, dh] + ptoks);
    } else {
        assert(toks =~= seq![magic, dw, dh, ds] + ptoks);
    }
    // the magic token picks the format
    assert(toks[0] == magic);
    assert(magic == (if bitmap {
        seq![80u8, 49u8]
    } else if v.format is Greymap {
        seq![80u8, 50u8]
    } else {
        seq![80u8, 51u8]
    }));
    assert(seq![80u8, 49u8][1] == 49 && seq![80u8, 50u8][1] == 50 && seq![80u8, 51u8][1] == 51);
    let need: nat = if bitmap {
        2
    } else {
        3
    };
    // the header scan accepts the numeric tokens in order
    let after: int = if bitmap {
        3
    } else {
        4
    };
    assert(toks[1] == dw && toks[2] == dh);
    if !bitmap {
        assert(toks[3] == ds);
    }
    assert(spec_header_vals(toks, after, 0) == Some::<(Seq<nat>, int)>(
        (Seq::<nat>::empty(), after),
    ));
    if bitmap {
        assert(spec_header_vals(toks, 2, 1) == Some::<(Seq<nat>, int)>(
            (seq![v.height as nat], 3),
        )) by {
            assert(seq![dec_val(dh)] + Seq::<nat>::empty() =~= seq![v.height as nat]);
        }
        assert(spec_header_vals(toks, 1, 2) == Some::<(Seq<nat>, int)>(
            (seq![v.width as nat, v.height as nat], 3),
        )) by {
            assert(seq![dec_val(dw)] + seq![v.height as nat] =~= seq![
                v.width as nat,
                v.height as nat,
            ]);
        }
    } else {
        assert(spec_header_vals(toks, 3, 1) == Some::<(Seq<nat>, int)>(
            (seq![v.saturation as nat], 4),
        )) by {
            assert(seq![dec_val(ds)] + Seq::<nat>::empty() =~= seq![v.saturation as nat]);
        }
        assert(spec_header_vals(toks, 2, 2) == Some::<(Seq<nat>, int)>(
            (seq![v.height as nat, v.saturation as nat], 4),
        )) by {
            assert(seq![dec_val(dh)] + seq![v.saturation as nat] =~= seq![
                v.height as nat,
                v.saturation as nat,
            ]);
        }
        assert(spec_header_vals(toks, 1, 3) == Some::<(Seq<nat>, int)>(
            (seq![v.width as nat, v.height as nat, v.saturation as nat], 4),
        )) by {
            assert(seq![dec_val(dw)] + seq![v.height as nat, v.saturation as nat] =~= seq![
                v.width as nat,
                v.height as nat,
                v.saturation as nat,
            ]);
        }
    }
    // the remaining tokens parse back to the buffer
    assert forall|m: int| 0 <= m < v.buffer.len() - 0 implies #[trigger] toks[after + m]
        == spec_dec(v.buffer[0 + m] as nat) by {
        assert(toks[after + m] == ptoks[m]);
    }
    lemma_payload_bytes_of_decs(toks, after, v.buffer, 0);
    assert(v.buffer.skip(0) =~= v.buffer);
    // the constructor restores the image
    if bitmap {
        assert(!(exists|i: int| 0 <= i < v.buffer.len() && v.buffer[i] > 1));
        assert(spec_make_pbm(v.buffer, v.height, v.width) == Ok::<ImageView, AnymapError>(v))
            by {
            assert(spec_make_pbm(v.buffer, v.height, v.width).unwrap() =~= v);
        }
    } else if v.format is Greymap {
        assert(spec_make_pgm(v.buffer, v.saturation, v.height, v.width) == Ok::<
            ImageView,
            AnymapError,
        >(v)) by {
            assert(spec_make_pgm(v.buffer, v.saturation, v.height, v.width).unwrap() =~= v);
        }
    } else {
        assert(spec_make_ppm(v.buffer, v.saturation, v.height, v.width) == Ok::<
            ImageView,
            AnymapError,
        >(v)) by {
            assert(spec_make_ppm(v.buffer, v.saturation, v.height, v.width).unwrap() =~= v);
        }
    }
}

impl AnymapImage {
    /// Encodes the image in its ASCII format: header, then every sample
    /// as decimal text, space-separated within a row and with a newline
    /// between rows.
    pub fn encode_ascii(&self) -> (r: Vec<u8>)
        requires
            self@.inv(),
        ensures
            r@ == spec_encode_ascii(self@),
    {
        let mut out: Vec<u8> = Vec::new();
        out.push(80);
        match self.format {
            AnymapFormat::Bitmap => out.push(49),
            AnymapFormat::Greymap => out.push(50),
            AnymapFormat::Pixmap => out.push(51),
        }
        out.push(10);
        push_decimal(self.width, &mut out);
        out.push(32);
        push_decimal(self.height, &mut out);
        out.push(10);
        let bitmap = match self.format {
            AnymapFormat::Bitmap => true,
            _ => false,
        };
        if !bitmap {
            push_decimal(self.saturation, &mut out);
            out.push(10);
        }
        assert(out@ =~= spec_ascii_header(self@));
        let ghost hdr = out@;
        let n = self.buffer.len();
        let ghost spp = self@.samples_per_pixel();
        let ghost rowlen_spec = self@.width * spp;
        if n == 0 {
            proof {
                assert(spec_ascii_payload_from(self@.buffer, rowlen_spec, 0) =~= Seq::<
                    u8,
                >::empty());
                assert(out@ =~= spec_encode_ascii(self@));
            }
            return out;
        }
        proof {
            match self@.format {
                AnymapFormat::Pixmap => {
                    assert(self@.buffer.len() == 3 * self@.height * self@.width);
                    assert(self@.height >= 1 && self@.width >= 1) by {
                        if self@.height == 0 {
                            assert(3 * self@.height * self@.width == 0) by (nonlinear_arith)
                                requires self@.height == 0;
                        }
                        if self@.width == 0 {
                            assert(3 * self@.height * self@.width == 0) by (nonlinear_arith)
                                requires self@.width == 0;
                        }
                    }
                    assert((self@.width * 3) * self@.height == 3 * self@.height * self@.width)
                        by (nonlinear_arith);
                    assert(self@.width * 3 <= (self@.width * 3) * self@.height)
                        by (nonlinear_arith)
                        requires self@.height >= 1, self@.width >= 0;
                },
                _ => {
                    assert(self@.buffer.len() == self@.height * self@.width);
                    assert(self@.height >= 1 && self@.width >= 1) by {
                        if self@.height == 0 {
                            assert(self@.height * self@.width == 0) by (nonlinear_arith)
                                requires self@.height == 0;
                        }
                        if self@.width == 0 {
                            assert(self@.height * self@.width == 0) by (nonlinear_arith)
                                requires self@.width == 0;
                        }
                    }
                    assert(self@.width <= self@.height * self@.width) by (nonlinear_arith)
                        requires self@.height >= 1, self@.width >= 0;
                },
            }
        }
        let rowlen: usize = match self.format {
            AnymapFormat::Pixmap => self.width * 3,
            _ => self.width,
        };
        proof {
            if self@.format is Pixmap {
                assert(spp == 3);
                assert(rowlen as int == (self@.width as int) * 3);
                assert((self@.width as int) * 3 == 3 * (self@.width as int)) by (nonlinear_arith);
            } else {
                assert(spp == 1);
                assert((self@.width as int) * 1 == self@.width as int) by (nonlinear_arith);
            }
            assert(rowlen as nat == rowlen_spec);
        }
        assert(rowlen >= 1);
        let mut idx: usize = 0;
        while idx < n
            invariant
                0 <= idx <= n,
                n == self@.buffer.len(),
                n >= 1,
                rowlen >= 1,
                rowlen as nat == rowlen_spec,
                out@ + spec_ascii_payload_from(self@.buffer, rowlen_spec, idx as int) == hdr
                    + spec_ascii_payload_from(self@.buffer, rowlen_spec, 0),
            decreases n - idx,
        {
            let ghost before = out@;
            push_decimal(self.buffer[idx] as usize, &mut out);
            if idx + 1 != n {
                if (idx + 1) % rowlen == 0 {
                    out.push(10);
                } else {
                    out.push(32);
                }
                proof {
                    assert(out@ =~= before + (spec_dec(self@.buffer[idx as int] as nat)
                        + seq![spec_sep(idx as int, rowlen_spec)]));
                    assert(out@ + spec_ascii_payload_from(self@.buffer, rowlen_spec, idx + 1)
                        =~= before + spec_ascii_payload_from(self@.buffer, rowlen_spec,
                        idx as int));
                }
            } else {
                proof {
                    assert(spec_ascii_payload_from(self@.buffer, rowlen_spec, idx + 1) =~= Seq::<
                        u8,
                    >::empty());
                    assert(out@ + spec_ascii_payload_from(self@.buffer, rowlen_spec, idx + 1)
                        =~= before + spec_ascii_payload_from(self@.buffer, rowlen_spec,
                        idx as int));
                }
            }
            idx += 1;
        }
        proof {
            assert(spec_ascii_payload_from(self@.buffer, rowlen_spec, n as int) =~= Seq::<
                u8,
            >::empty());
            assert(out@ =~= out@ + spec_ascii_payload_from(self@.buffer, rowlen_spec, n as int));
            assert(out@ =~= spec_encode_ascii(self@));
        }
        out
    }

    /// Decodes an ASCII text into an image, as `spec_decode_ascii` lays
    /// down; every accepted text yields an image holding the model
    /// invariant.
    pub fn decode_ascii(bytes: &Vec<u8>) -> (r: Result<AnymapImage, AnymapError>)
        ensures
            view_of_result(r) == spec_decode_ascii(bytes@),
            r matches Ok(img) ==> img@.inv(),
    {
        let toks = tokenize(bytes);
        let ghost tv = spec_ws_tokens(bytes@);
        proof {
            assert(toks.deep_view().len() == toks@.len());
        }
        let tn = toks.len();
        if tn == 0 {
            return Err(AnymapError::UnknownMagicNumber);
        }
        proof {
            assert(toks@[0].deep_view() =~= toks@[0]@);
        }
        let magic = &toks[0];
        let magic_ok = magic.len() == 2 && magic[0] == 80 && (magic[1] == 49 || magic[1] == 50
            || magic[1] == 51);
        if !magic_ok {
            proof {
                assert(tv[0] != seq![80u8, 49u8] && tv[0] != seq![80u8, 50u8] && tv[0] != seq![
                    80u8,
                    51u8,
                ]) by {
                    assert(seq![80u8, 49u8].len() == 2 && seq![80u8, 49u8][0] == 80 && seq![
                        80u8,
                        49u8,
                    ][1] == 49);
                    assert(seq![80u8, 50u8].len() == 2 && seq![80u8, 50u8][0] == 80 && seq![
                        80u8,
                        50u8,
                    ][1] == 50);
                    assert(seq![80u8, 51u8].len() == 2 && seq![80u8, 51u8][0] == 80 && seq![
                        80u8,
                        51u8,
                    ][1] == 51);
                }
            }
            return Err(AnymapError::UnknownMagicNumber);
        }
        let m1 = magic[1];
        proof {
            if m1 == 49 {
                assert(tv[0] =~= seq![80u8, 49u8]);
            } else if m1 == 50 {
                assert(tv[0] =~= seq![80u8, 50u8]);
            } else {
                assert(tv[0] =~= seq![80u8, 51u8]);
            }
            assert(seq![80u8, 49u8][1] == 49 && seq![80u8, 50u8][1] == 50 && seq![80u8, 51u8][1]
                == 51);
        }
        let need: usize = if m1 == 49 {
            2
        } else {
            3
        };
        // scan the header values, skipping stray non-numeric tokens
        let mut vals: Vec<usize> = Vec::new();
        let mut idx: usize = 1;
        let mut got: usize = 0;
        proof {
            assert(vals@.map_values(|x: usize| x as nat) =~= Seq::<nat>::empty());
            if spec_header_vals(tv, 1, need as nat) is Some {
                let r2 = spec_header_vals(tv, 1, need as nat).unwrap();
                assert(vals@.map_values(|x: usize| x as nat) + r2.0 =~= r2.0);
            }
        }
        while got < need && idx < tn
            invariant
                0 <= got <= need,
                1 <= idx <= tn,
                tn == toks@.len(),
                toks.deep_view() == tv,
                tv == spec_ws_tokens(bytes@),
                tv.len() == tn,
                m1 == 49 || m1 == 50 || m1 == 51,
                tv[0] == (if m1 == 49 {
                    seq![80u8, 49u8]
                } else if m1 == 50 {
                    seq![80u8, 50u8]
                } else {
                    seq![80u8, 51u8]
                }),
                need == (if m1 == 49 {
                    2usize
                } else {
                    3usize
                }),
                got == vals@.len(),
                spec_header_vals(tv, 1, need as nat) == (match spec_header_vals(
                    tv,
                    idx as int,
                    (need - got) as nat,
                ) {
                    Some(r2) => Some::<(Seq<nat>, int)>(
                        (vals@.map_values(|x: usize| x as nat) + r2.0, r2.1),
                    ),
                    None => None::<(Seq<nat>, int)>,
                }),
            decreases tn - idx,
        {
            proof {
                assert(toks@[idx as int].deep_view() =~= toks@[idx as int]@);
            }
            if check_digits(&toks[idx]) {
                match parse_usize(&toks[idx]) {
                    Some(v) => {
                        let ghost prev = vals@.map_values(|x: usize| x as nat);
                        vals.push(v);
                        got += 1;
                        proof {
                            assert(vals@.map_values(|x: usize| x as nat) =~= prev + seq![
                                v as nat,
                            ]);
                            if spec_header_vals(tv, idx as int, (need - got + 1) as nat)
                                is Some {
                                let r2 = spec_header_vals(
                                    tv,
                                    idx as int,
                                    (need - got + 1) as nat,
                                ).unwrap();
                                if got < need || spec_header_vals(tv, idx + 1, (need
                                    - got) as nat) is Some {
                                    let r3 = spec_header_vals(
                                        tv,
                                        idx + 1,
                                        (need - got) as nat,
                                    ).unwrap();
                                    assert(prev + (seq![v as nat] + r3.0) =~= vals@.map_values(
                                        |x: usize| x as nat,
                                    ) + r3.0);
                                }
                            }
                        }
                    },
                    None => {
                        return Err(AnymapError::MalformedHeader);
                    },
                }
            }
            idx += 1;
        }
        if got < need {
            return Err(AnymapError::MalformedHeader);
        }
        let ghost hv = spec_header_vals(tv, 1, need as nat).unwrap();
        proof {
            assert(spec_header_vals(tv, idx as int, 0) == Some::<(Seq<nat>, int)>(
                (Seq::<nat>::empty(), idx as int),
            ));
            assert(vals@.map_values(|x: usize| x as nat) + Seq::<nat>::empty() =~= vals@.map_values(
                |x: usize| x as nat,
            ));
            assert(hv.0 == vals@.map_values(|x: usize| x as nat));
            assert(hv.1 == idx as int);
        }
        // every remaining token is one pixel sample
        let mut buf: Vec<u8> = Vec::new();
        proof {
            if spec_payload_bytes(tv, idx as int) is Some {
                assert(buf@ + spec_payload_bytes(tv, idx as int).unwrap() =~= spec_payload_bytes(
                    tv,
                    idx as int,
                ).unwrap());
            }
        }
        let ghost pstart = idx as int;
        let mut j = idx;
        while j < tn
            invariant
                pstart <= j <= tn,
                tn == toks@.len(),
                toks.deep_view() == tv,
                tv == spec_ws_tokens(bytes@),
                tv.len() == tn,
                m1 == 49 || m1 == 50 || m1 == 51,
                tv[0] == (if m1 == 49 {
                    seq![80u8, 49u8]
                } else if m1 == 50 {
                    seq![80u8, 50u8]
                } else {
                    seq![80u8, 51u8]
                }),
                need == (if m1 == 49 {
                    2usize
                } else {
                    3usize
                }),
                got == need,
                got == vals@.len(),
                spec_header_vals(tv, 1, need as nat) == Some::<(Seq<nat>, int)>(
                    (vals@.map_values(|x: usize| x as nat), pstart),
                ),
                spec_payload_bytes(tv, pstart) == (match spec_payload_bytes(tv, j as int) {
                    Some(r2) => Some::<Seq<u8>>(buf@ + r2),
                    None => None::<Seq<u8>>,
                }),
            decreases tn - j,
        {
            proof {
                assert(toks@[j as int].deep_view() =~= toks@[j as int]@);
            }
            match parse_u8(&toks[j]) {
                Some(b) => {
                    let ghost prev = buf@;
                    buf.push(b);
                    proof {
                        if spec_payload_bytes(tv, j + 1) is Some {
                            let r2 = spec_payload_bytes(tv, j + 1).unwrap();
                            assert(prev + (seq![b] + r2) =~= buf@ + r2);
                        }
                    }
                },
                None => {
                    return Err(AnymapError::MalformedPixelData);
                },
            }
            j += 1;
        }
        proof {
            assert(spec_payload_bytes(tv, tn as int) == Some(Seq::<u8>::empty()));
            assert(buf@ + Seq::<u8>::empty() =~= buf@);
            assert(spec_payload_bytes(tv, pstart) == Some(buf@));
        }
        let w = vals[0];
        let h = vals[1];
        proof {
            assert(hv.0[0] == w as nat && hv.0[1] == h as nat);
        }
        if m1 == 49 {
            AnymapImage::pbm(buf, h, w)
        } else {
            let sat = vals[2];
            proof {
                assert(hv.0[2] == sat as nat);
            }
            if m1 == 50 {
                AnymapImage::pgm(buf, sat, h, w)
            } else {
                AnymapImage::ppm(buf, sat, h, w)
            }
        }
    }
}

} // verus!
