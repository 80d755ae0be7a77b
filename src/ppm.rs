//! Binary pixel-map encoding: a text header, then one red, green, blue byte
//! triplet per pixel in row-major order.
use vstd::prelude::*;
use crate::color::{blue, green, red};

verus! {

/// ASCII decimal digits of `n`, most significant first, without leading zeros.
pub open spec fn dec_digits(n: nat) -> Seq<u8>
    decreases n,
{
    if n < 10 {
        seq![(48 + n) as u8]
    } else {
        dec_digits(n / 10) + seq![(48 + n % 10) as u8]
    }
}

/// `P6`, newline, width, space, height, space, `255`, newline.
pub open spec fn ppm_header(width: nat, height: nat) -> Seq<u8> {
    seq![80u8, 54u8, 10u8] + dec_digits(width) + seq![32u8] + dec_digits(height) + seq![
        32u8,
        50u8,
        53u8,
        53u8,
        10u8,
    ]
}

/// The three channel bytes of a color, red first.
pub open spec fn rgb_bytes(c: u32) -> Seq<u8> {
    seq![red(c) as u8, green(c) as u8, blue(c) as u8]
}

/// Channel bytes of every pixel in order.
pub open spec fn ppm_body(pixels: Seq<u32>) -> Seq<u8>
    decreases pixels.len(),
{
    if pixels.len() == 0 {
        seq![]
    } else {
        ppm_body(pixels.drop_last()) + rgb_bytes(pixels.last())
    }
}

/// Appends the decimal digits of `n`.
fn push_decimal(out: &mut Vec<u8>, n: usize)
    ensures
        final(out)@ == old(out)@ + dec_digits(n as nat),
    decreases n,
{
    if n >= 10 {
        push_decimal(out, n / 10);
    }
    out.push((48 + n % 10) as u8);
    proof {
        assert(final(out)@ =~= old(out)@ + dec_digits(n as nat)) by {
            if n >= 10 {
                assert(dec_digits(n as nat) =~= dec_digits((n / 10) as nat) + seq![(48 + n % 10) as u8]);
            }
        }
    }
}

/// Appends the header for an image of the given size.
fn push_header(out: &mut Vec<u8>, width: usize, height: usize)
    ensures
        final(out)@ == old(out)@ + ppm_header(width as nat, height as nat),
{
    out.push(80);
    out.push(54);
    out.push(10);
    push_decimal(out, width);
    out.push(32);
    push_decimal(out, height);
    out.push(32);
    out.push(50);
    out.push(53);
    out.push(53);
    out.push(10);
    proof {
        assert(out@ =~= old(out)@ + ppm_header(width as nat, height as nat));
    }
}

/// Encodes a `width` x `height` buffer: the header, then a red, green, blue
/// byte triplet for each pixel in row-major order.
pub fn encode_ppm(pixels: &[u32], width: usize, height: usize) -> (r: Vec<u8>)
    requires
        pixels@.len() == width * height,
    ensures
        r@ == ppm_header(width as nat, height as nat) + ppm_body(pixels@),
{
    let mut out: Vec<u8> = Vec::new();
    push_header(&mut out, width, height);
    let ghost head = out@;
    let n = pixels.len();
    let mut i: usize = 0;
    while i < n
        invariant
            n == pixels@.len(),
            i <= n,
            out@ == head + ppm_body(pixels@.subrange(0, i as int)),
        decreases n - i,
    {
        let c = pixels[i];
        out.push(((c / 0x1_0000) % 0x100) as u8);
        out.push(((c / 0x100) % 0x100) as u8);
        out.push((c % 0x100) as u8);
        proof {
            let pre = pixels@.subrange(0, i as int + 1);
            assert(pre.drop_last() =~= pixels@.subrange(0, i as int));
            assert(out@ =~= head + ppm_body(pre));
        }
        i = i + 1;
    }
    proof {
        assert(pixels@.subrange(0, n as int) =~= pixels@);
    }
    out
}

} // verus!

verus! {

/// `b` is an ASCII decimal digit.
pub open spec fn is_digit(b: u8) -> bool {
    48 <= b <= 57
}

/// Value of a string of ASCII decimal digits, most significant first.
pub open spec fn digits_value(s: Seq<u8>) -> nat
    decreases s.len(),
{
    if s.len() == 0 {
        0
    } else {
        digits_value(s.drop_last()) * 10 + (s.last() - 48) as nat
    }
}

/// A non-empty digit string with no leading zero, unless it is `0` itself.
pub open spec fn canonical_digits(s: Seq<u8>) -> bool {
    &&& s.len() > 0
    &&& forall|i: int| 0 <= i < s.len() ==> is_digit(#[trigger] s[i])
    &&& s.len() > 1 ==> s[0] != 48
}

/// End of the run of digits in `s` that starts at `i`.
pub open spec fn digit_run_end(s: Seq<u8>, i: int) -> int
    decreases s.len() - i,
{
    if 0 <= i < s.len() && is_digit(s[i]) {
        digit_run_end(s, i + 1)
    } else {
        i
    }
}

/// `s` is the encoding of some `width` x `height` image whose pixel bytes are `data`.
pub open spec fn encodes(s: Seq<u8>, width: nat, height: nat, data: Seq<u8>) -> bool {
    &&& width <= usize::MAX
    &&& height <= usize::MAX
    &&& s == ppm_header(width, height) + data
    &&& data.len() == 3 * width * height
}

/// Width, height and pixel bytes of the image that `s` encodes, if any.
pub open spec fn ppm_decode(s: Seq<u8>) -> Option<(nat, nat, Seq<u8>)> {
    if exists|w: nat, h: nat, d: Seq<u8>| encodes(s, w, h, d) {
        let (w, h, d) = choose|w: nat, h: nat, d: Seq<u8>| encodes(s, w, h, d);
        Some((w, h, d))
    } else {
        None
    }
}

proof fn lemma_single_digit_value(s: Seq<u8>)
    requires
        s.len() == 1,
    ensures
        digits_value(s) == (s[0] - 48) as nat,
{
    assert(s.drop_last() =~= Seq::<u8>::empty());
    assert(digits_value(Seq::<u8>::empty()) == 0);
}

proof fn lemma_dec_digits(n: nat)
    ensures
        canonical_digits(dec_digits(n)),
        digits_value(dec_digits(n)) == n,
        dec_digits(n)[0] == 48 ==> n == 0,
    decreases n,
{
    let s = dec_digits(n);
    if n >= 10 {
        lemma_dec_digits(n / 10);
        let p = dec_digits(n / 10);
        assert(s =~= p + seq![(48 + n % 10) as u8]);
        assert(s.drop_last() =~= p);
        assert(s[0] == p[0]);
        assert(n == (n / 10) * 10 + n % 10);
        assert forall|i: int| 0 <= i < s.len() implies is_digit(#[trigger] s[i]) by {
            if i < p.len() {
                assert(s[i] == p[i]);
            }
        }
    } else {
        assert(s =~= seq![(48 + n) as u8]);
        lemma_single_digit_value(s);
    }
}

proof fn lemma_value_positive(s: Seq<u8>)
    requires
        canonical_digits(s),
        s.len() > 1,
    ensures
        digits_value(s) >= 10,
    decreases s.len(),
{
    let p = s.drop_last();
    assert(p[0] == s[0]);
    assert(is_digit(s[s.len() - 1]));
    if p.len() > 1 {
        assert(canonical_digits(p)) by {
            assert forall|i: int| 0 <= i < p.len() implies is_digit(#[trigger] p[i]) by {
                assert(p[i] == s[i]);
            }
        }
        lemma_value_positive(p);
    } else {
        lemma_single_digit_value(p);
        assert(is_digit(s[0]));
    }
}

proof fn lemma_canonical_is_dec(s: Seq<u8>)
    requires
        canonical_digits(s),
    ensures
        s == dec_digits(digits_value(s)),
    decreases s.len(),
{
    let v = digits_value(s);
    let p = s.drop_last();
    assert(is_digit(s[s.len() - 1]));
    if s.len() == 1 {
        lemma_single_digit_value(s);
        assert(v < 10);
        assert(s =~= dec_digits(v));
    } else {
        assert(p[0] == s[0]);
        assert(canonical_digits(p)) by {
            assert forall|i: int| 0 <= i < p.len() implies is_digit(#[trigger] p[i]) by {
                assert(p[i] == s[i]);
            }
        }
        lemma_canonical_is_dec(p);
        lemma_value_positive(s);
        let pv = digits_value(p);
        let d = (s.last() - 48) as nat;
        assert(v == pv * 10 + d);
        assert(v / 10 == pv && v % 10 == d) by (nonlinear_arith)
            requires
                v == pv * 10 + d,
                d < 10,
        ;
        assert(dec_digits(v) == dec_digits(pv) + seq![(48 + d) as u8]);
        assert(s =~= dec_digits(v));
    }
}

proof fn lemma_run_end(s: Seq<u8>, i: int)
    requires
        0 <= i <= s.len(),
    ensures
        i <= digit_run_end(s, i) <= s.len(),
        forall|k: int| i <= k < digit_run_end(s, i) ==> is_digit(#[trigger] s[k]),
        digit_run_end(s, i) == s.len() || !is_digit(s[digit_run_end(s, i)]),
    decreases s.len() - i,
{
    if i < s.len() && is_digit(s[i]) {
        lemma_run_end(s, i + 1);
    }
}

/// The digits of `n` followed by a non-digit form the run that starts there.
proof fn lemma_run_of_dec(s: Seq<u8>, start: int, n: nat, i: int)
    requires
        0 <= start <= i <= start + dec_digits(n).len() < s.len(),
        s.subrange(start, start + dec_digits(n).len()) == dec_digits(n),
        !is_digit(s[start + dec_digits(n).len()]),
    ensures
        digit_run_end(s, i) == start + dec_digits(n).len(),
    decreases start + dec_digits(n).len() - i,
{
    let l = dec_digits(n).len();
    if i < start + l {
        lemma_dec_digits(n);
        assert(s[i] == dec_digits(n)[i - start]);
        lemma_run_of_dec(s, start, n, i + 1);
    }
}

proof fn lemma_prefix_value(s: Seq<u8>, k: int)
    requires
        0 <= k <= s.len(),
    ensures
        digits_value(s.subrange(0, k)) <= digits_value(s),
    decreases s.len(),
{
    if k < s.len() {
        assert(s.drop_last().subrange(0, k) =~= s.subrange(0, k));
        lemma_prefix_value(s.drop_last(), k);
    } else {
        assert(s.subrange(0, k) =~= s);
    }
}

/// Reads the canonical decimal number that starts at `start`.
fn parse_decimal(bytes: &[u8], start: usize) -> (r: Option<(usize, usize)>)
    requires
        start <= bytes@.len(),
    ensures
        ({
            let e = digit_run_end(bytes@, start as int);
            let run = bytes@.subrange(start as int, e);
            &&& r is Some <==> canonical_digits(run) && digits_value(run) <= usize::MAX
            &&& r matches Some((v, end)) ==> v == digits_value(run) && end == e
        }),
{
    let n = bytes.len();
    let ghost e = digit_run_end(bytes@, start as int);
    proof {
        lemma_run_end(bytes@, start as int);
    }
    let mut i = start;
    let mut v: usize = 0;
    while i < n && 48 <= bytes[i] && bytes[i] <= 57
        invariant
            n == bytes@.len(),
            start <= i <= e <= n,
            e == digit_run_end(bytes@, start as int),
            digit_run_end(bytes@, i as int) == e,
            v == digits_value(bytes@.subrange(start as int, i as int)),
            forall|k: int| start <= k < e ==> is_digit(#[trigger] bytes@[k]),
        decreases n - i,
    {
        proof {
            lemma_run_end(bytes@, i + 1);
        }
        let d = (bytes[i] - 48) as usize;
        let ghost next = bytes@.subrange(start as int, i + 1);
        proof {
            assert(next.drop_last() =~= bytes@.subrange(start as int, i as int));
            assert(digits_value(next) == v * 10 + d);
        }
        if v > (usize::MAX - d) / 10 {
            proof {
                let run = bytes@.subrange(start as int, e);
                assert(run.subrange(0, i + 1 - start) =~= next);
                lemma_prefix_value(run, i + 1 - start);
            }
            return None;
        }
        v = v * 10 + d;
        i = i + 1;
    }
    proof {
        assert(i == e);
    }
    if i == start {
        return None;
    }
    if i - start > 1 && bytes[start] == 48 {
        return None;
    }
    Some((v, i))
}

} // verus!

verus! {

/// A decoded image: its size and its pixel bytes, three per pixel.
#[derive(Clone, Debug)]
pub struct DecodedImage {
    pub width: usize,
    pub height: usize,
    pub data: Vec<u8>,
}

proof fn lemma_body_len(pixels: Seq<u32>)
    ensures
        ppm_body(pixels).len() == 3 * pixels.len(),
    decreases pixels.len(),
{
    if pixels.len() > 0 {
        lemma_body_len(pixels.drop_last());
    }
}

/// Where an encoding's fields lie: each number is the digit run at its place.
proof fn lemma_encoding_layout(s: Seq<u8>, w: nat, h: nat, d: Seq<u8>)
    requires
        encodes(s, w, h, d),
    ensures
        ({
            let e1 = digit_run_end(s, 3);
            let e2 = digit_run_end(s, e1 + 1);
            &&& s.len() >= 3 && s[0] == 80 && s[1] == 54 && s[2] == 10
            &&& 3 < e1 < s.len() && s[e1] == 32
            &&& s.subrange(3, e1) == dec_digits(w)
            &&& e1 + 1 < e2 && e2 + 5 <= s.len()
            &&& s.subrange(e1 + 1, e2) == dec_digits(h)
            &&& s[e2] == 32 && s[e2 + 1] == 50 && s[e2 + 2] == 53 && s[e2 + 3] == 53 && s[e2 + 4] == 10
            &&& d == s.subrange(e2 + 5, s.len() as int)
        }),
{
    let lw = dec_digits(w).len() as int;
    let lh = dec_digits(h).len() as int;
    lemma_dec_digits(w);
    lemma_dec_digits(h);
    let e1 = 3 + lw;
    let e2 = e1 + 1 + lh;
    assert(s.subrange(3, e1) =~= dec_digits(w));
    assert(s[e1] == 32);
    lemma_run_of_dec(s, 3, w, 3);
    assert(s.subrange(e1 + 1, e2) =~= dec_digits(h));
    assert(s[e2] == 32);
    lemma_run_of_dec(s, e1 + 1, h, e1 + 1);
    assert(d =~= s.subrange(e2 + 5, s.len() as int));
}

/// An encoding determines its size and pixel bytes.
proof fn lemma_encoding_unique(s: Seq<u8>, w1: nat, h1: nat, d1: Seq<u8>, w2: nat, h2: nat, d2: Seq<u8>)
    requires
        encodes(s, w1, h1, d1),
        encodes(s, w2, h2, d2),
    ensures
        w1 == w2 && h1 == h2 && d1 == d2,
{
    lemma_encoding_layout(s, w1, h1, d1);
    lemma_encoding_layout(s, w2, h2, d2);
    lemma_dec_digits(w1);
    lemma_dec_digits(w2);
    lemma_dec_digits(h1);
    lemma_dec_digits(h2);
}

/// Encoding a buffer and decoding the bytes gives back its size and exactly
/// its pixel bytes.
pub proof fn lemma_ppm_round_trip(width: nat, height: nat, pixels: Seq<u32>)
    requires
        pixels.len() == width * height,
        width <= usize::MAX,
        height <= usize::MAX,
    ensures
        ppm_decode(ppm_header(width, height) + ppm_body(pixels)) == Some(
            (width, height, ppm_body(pixels)),
        ),
{
    let s = ppm_header(width, height) + ppm_body(pixels);
    lemma_body_len(pixels);
    assert(3 * (width * height) == 3 * width * height) by (nonlinear_arith);
    assert(encodes(s, width, height, ppm_body(pixels)));
    let (w, h, d) = choose|w: nat, h: nat, d: Seq<u8>| encodes(s, w, h, d);
    lemma_encoding_unique(s, w, h, d, width, height, ppm_body(pixels));
}

/// Bytes laid out as the decoder checks them encode the numbers and bytes read.
proof fn lemma_parsed_fields(s: Seq<u8>, w: nat, h: nat, e1: int, e2: int, data: Seq<u8>)
    requires
        s.len() >= 3 && s[0] == 80 && s[1] == 54 && s[2] == 10,
        3 < e1 < s.len() && s[e1] == 32,
        e1 + 1 < e2 && e2 + 5 <= s.len(),
        canonical_digits(s.subrange(3, e1)),
        w == digits_value(s.subrange(3, e1)),
        canonical_digits(s.subrange(e1 + 1, e2)),
        h == digits_value(s.subrange(e1 + 1, e2)),
        s[e2] == 32 && s[e2 + 1] == 50 && s[e2 + 2] == 53 && s[e2 + 3] == 53 && s[e2 + 4] == 10,
        data == s.subrange(e2 + 5, s.len() as int),
        data.len() % 3 == 0,
        data.len() / 3 == w * h,
        w <= usize::MAX,
        h <= usize::MAX,
    ensures
        ppm_decode(s) == Some((w, h, data)),
{
    let run_w = s.subrange(3, e1);
    let run_h = s.subrange(e1 + 1, e2);
    lemma_canonical_is_dec(run_w);
    lemma_canonical_is_dec(run_h);
    assert(s.subrange(0, 3) =~= seq![80u8, 54u8, 10u8]);
    assert(s.subrange(e1, e1 + 1) =~= seq![32u8]);
    assert(s.subrange(e2, e2 + 5) =~= seq![32u8, 50u8, 53u8, 53u8, 10u8]);
    assert(s =~= s.subrange(0, 3) + run_w + s.subrange(e1, e1 + 1) + run_h + s.subrange(e2, e2 + 5)
        + data);
    assert(s =~= ppm_header(w, h) + data);
    let len = data.len();
    assert(len == 3 * w * h) by (nonlinear_arith)
        requires
            len % 3 == 0,
            len / 3 == w * h,
    ;
    assert(encodes(s, w, h, data));
    let (w2, h2, d2) = choose|w: nat, h: nat, d: Seq<u8>| encodes(s, w, h, d);
    lemma_encoding_unique(s, w, h, data, w2, h2, d2);
}

/// Decodes an image: `P6`, the width and height in canonical decimal, `255`,
/// single spaces and newlines between them as the encoder writes them, then
/// exactly three bytes per pixel.
pub fn parse_ppm(bytes: &[u8]) -> (r: Option<DecodedImage>)
    ensures
        r is Some <==> ppm_decode(bytes@) is Some,
        r matches Some(img) ==> ppm_decode(bytes@) == Some(
            (img.width as nat, img.height as nat, img.data@),
        ),
{
    let ghost s = bytes@;
    let ghost wit: Option<(nat, nat, Seq<u8>)> = ppm_decode(s);
    proof {
        if wit is Some {
            let (w, h, d) = wit->0;
            lemma_encoding_layout(s, w, h, d);
            lemma_dec_digits(w);
            lemma_dec_digits(h);
        }
    }
    let n = bytes.len();
    if n < 3 || bytes[0] != 80 || bytes[1] != 54 || bytes[2] != 10 {
        return None;
    }
    let (w, e1) = match parse_decimal(bytes, 3) {
        Some(p) => p,
        None => {
            return None;
        },
    };
    if e1 >= n || bytes[e1] != 32 {
        return None;
    }
    let (h, e2) = match parse_decimal(bytes, e1 + 1) {
        Some(p) => p,
        None => {
            return None;
        },
    };
    proof {
        lemma_run_end(s, e1 + 1);
    }
    if n - e2 < 5 || bytes[e2] != 32 || bytes[e2 + 1] != 50 || bytes[e2 + 2] != 53 || bytes[e2
        + 3] != 53 || bytes[e2 + 4] != 10 {
        return None;
    }
    let start = e2 + 5;
    let rest = n - start;
    proof {
        assert(usize::MAX <= 0xFFFF_FFFF_FFFF_FFFF);
        assert(w * h <= 0xFFFF_FFFF_FFFF_FFFF * 0xFFFF_FFFF_FFFF_FFFF) by (nonlinear_arith)
            requires
                w <= 0xFFFF_FFFF_FFFF_FFFF,
                h <= 0xFFFF_FFFF_FFFF_FFFF,
        ;
    }
    proof {
        if wit is Some {
            let (w2, h2, d2) = wit->0;
            assert(w == w2);
            assert(h == h2);
            assert(d2.len() == rest);
            let wh = w * h;
            assert(rest == 3 * wh) by (nonlinear_arith)
                requires
                    rest == 3 * w * h,
                    wh == w * h,
            ;
            vstd::arithmetic::div_mod::lemma_mod_multiples_basic(wh, 3);
            vstd::arithmetic::div_mod::lemma_div_multiples_vanish(wh, 3);
            assert(wh * 3 == 3 * wh);
        }
    }
    if rest % 3 != 0 || (rest / 3) as u128 != w as u128 * h as u128 {
        return None;
    }
    let mut data: Vec<u8> = Vec::new();
    let mut i = start;
    while i < n
        invariant
            n == bytes@.len(),
            start <= i <= n,
            data@ == bytes@.subrange(start as int, i as int),
        decreases n - i,
    {
        data.push(bytes[i]);
        proof {
            assert(data@ =~= bytes@.subrange(start as int, i + 1));
        }
        i = i + 1;
    }
    proof {
        lemma_parsed_fields(s, w as nat, h as nat, e1 as int, e2 as int, data@);
    }
    Some(DecodedImage { width: w, height: h, data })
}

} // verus!
