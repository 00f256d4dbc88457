//! Conversion between 15-bit `0RRRRRGG_GGGBBBBB` pixels, stored as little-endian
//! byte pairs, and 8-bit-per-channel RGB triples.

use vstd::prelude::*;

verus! {

/// The 15-bit pixel stored little-endian in the byte pair `lo`, `hi`.
pub open spec fn pixel_word(lo: u8, hi: u8) -> int {
    lo as int + 256 * hi as int
}

/// Channel `c` (0 red, 1 green, 2 blue) of a 15-bit pixel, widened to 8 bits by
/// shifting its 5 bits to the top of the byte.
pub open spec fn channel_of_word(word: int, c: int) -> u8 {
    let five = if c == 0 {
        (word / 1024) % 32
    } else if c == 1 {
        (word / 32) % 32
    } else {
        word % 32
    };
    (five * 8) as u8
}

/// Byte `i` of the RGB triples that the pixel pairs of `data` expand to.
pub open spec fn rgb_byte(data: Seq<u8>, i: int) -> u8 {
    let k = i / 3;
    channel_of_word(pixel_word(data[2 * k], data[2 * k + 1]), i % 3)
}

/// The RGB triples, one per complete byte pair of `data`; an odd last byte is ignored.
pub open spec fn rgb_from_555(data: Seq<u8>) -> Seq<u8> {
    Seq::new(3 * (data.len() / 2), |i: int| rgb_byte(data, i))
}

/// The 15-bit pixel that keeps the top five bits of each channel of a triple.
pub open spec fn packed_555(r: u8, g: u8, b: u8) -> int {
    (r as int / 8) * 1024 + (g as int / 8) * 32 + b as int / 8
}

/// Byte `i` of the little-endian 15-bit pixels that the triples of `data` pack into.
pub open spec fn pixel_byte(data: Seq<u8>, i: int) -> u8 {
    let k = i / 2;
    let w = packed_555(data[3 * k], data[3 * k + 1], data[3 * k + 2]);
    if i % 2 == 0 {
        (w % 256) as u8
    } else {
        (w / 256) as u8
    }
}

/// The little-endian 15-bit pixels, one per RGB triple of `data`.
pub open spec fn rgb555_from_rgb(data: Seq<u8>) -> Seq<u8> {
    Seq::new(2 * (data.len() / 3), |i: int| pixel_byte(data, i))
}

proof fn lemma_expand_pixel(lo: u8, hi: u8)
    ensures
        ({
            let vals: u16 = ((hi as u16) << 8u16) | (lo as u16);
            &&& (((vals >> 10u16) & 0x1Fu16) as u8) << 3u8 == channel_of_word(pixel_word(lo, hi), 0)
            &&& (((vals >> 5u16) & 0x1Fu16) as u8) << 3u8 == channel_of_word(pixel_word(lo, hi), 1)
            &&& (((vals >> 0u16) & 0x1Fu16) as u8) << 3u8 == channel_of_word(pixel_word(lo, hi), 2)
        }),
{
    assert((((((hi as u16) << 8u16) | (lo as u16)) >> 10u16) & 0x1Fu16) as u8 == ((hi as u16) / 4) % 32)
        by (bit_vector);
    assert((((((hi as u16) << 8u16) | (lo as u16)) >> 5u16) & 0x1Fu16) as u8 == ((hi as u16) % 4) * 8 + (lo as u16) / 32)
        by (bit_vector);
    assert((((((hi as u16) << 8u16) | (lo as u16)) >> 0u16) & 0x1Fu16) as u8 == (lo as u16) % 32)
        by (bit_vector);
    let w = pixel_word(lo, hi);
    assert(w / 1024 == hi as int / 4);
    assert((w / 1024) % 32 == (hi as int / 4) % 32);
    assert(w / 32 == hi as int * 8 + lo as int / 32);
    assert((w / 32) % 32 == (hi as int % 4) * 8 + lo as int / 32);
    assert(w % 32 == lo as int % 32);
    let x0: u8 = (((((hi as u16) << 8u16) | (lo as u16)) >> 10u16) & 0x1Fu16) as u8;
    let x1: u8 = (((((hi as u16) << 8u16) | (lo as u16)) >> 5u16) & 0x1Fu16) as u8;
    let x2: u8 = (((((hi as u16) << 8u16) | (lo as u16)) >> 0u16) & 0x1Fu16) as u8;
    assert(x0 < 32 && x1 < 32 && x2 < 32);
    assert(x0 << 3u8 == x0 * 8) by (bit_vector) requires x0 < 32;
    assert(x1 << 3u8 == x1 * 8) by (bit_vector) requires x1 < 32;
    assert(x2 << 3u8 == x2 * 8) by (bit_vector) requires x2 < 32;
}

/// Expands 15-bit pixels, each a little-endian byte pair `0RRRRRGG_GGGBBBBB`, into
/// RGB triples with each 5-bit channel shifted to the top of its byte.
/// An odd last byte is ignored.
pub fn gen_rgb_array(data: &[u8]) -> (pixels: Vec<u8>)
    requires
        data@.len() >= 1,
    ensures
        pixels@ == rgb_from_555(data@),
{
    let mut pixels: Vec<u8> = Vec::new();
    let mut p: usize = 0;
    while p < data.len() - 1
        invariant
            data@.len() >= 1,
            p % 2 == 0,
            p <= data@.len(),
            pixels@.len() == 3 * (p / 2),
            forall|i: int| 0 <= i < pixels@.len() ==> #[trigger] pixels@[i] == rgb_byte(data@, i),
        decreases data@.len() - p,
    {
        let vals = ((data[p + 1] as u16) << 8) | (data[p] as u16);
        proof {
            lemma_expand_pixel(data@[p as int], data@[p + 1]);
            assert(((3 * (p / 2)) as int) / 3 == p / 2);
            assert(((3 * (p / 2) + 1) as int) / 3 == p / 2);
            assert(((3 * (p / 2) + 2) as int) / 3 == p / 2);
            assert(2 * (p as int / 2) == p);
        }
        pixels.push((((vals >> 10) & 0x1F) as u8) << 3);
        pixels.push((((vals >> 5) & 0x1F) as u8) << 3);
        pixels.push((((vals >> 0) & 0x1F) as u8) << 3);
        p += 2;
    }
    proof {
        assert(p / 2 == data@.len() / 2);
        assert(pixels@ =~= rgb_from_555(data@));
    }
    pixels
}

proof fn lemma_pack_pixel(r: u8, g: u8, b: u8)
    ensures
        ({
            let red: u8 = r >> 3u8;
            let green: u8 = g >> 3u8;
            let blue: u8 = b >> 3u8;
            &&& ((green << 5u8) | blue) == (packed_555(r, g, b) % 256) as u8
            &&& ((red << 2u8) | (green >> 3u8)) == (packed_555(r, g, b) / 256) as u8
        }),
{
    assert((((g >> 3u8) << 5u8) | (b >> 3u8)) == ((g / 8) % 8) * 32 + b / 8) by (bit_vector);
    assert((((r >> 3u8) << 2u8) | ((g >> 3u8) >> 3u8)) == (r / 8) * 4 + (g / 8) / 8) by (bit_vector);
    let w = packed_555(r, g, b);
    assert(w % 256 == ((g as int / 8) % 8) * 32 + b as int / 8);
    assert(w / 256 == (r as int / 8) * 4 + (g as int / 8) / 8);
}

/// Packs RGB triples into 15-bit pixels `0RRRRRGG_GGGBBBBB`, each written as a
/// little-endian byte pair, keeping the top five bits of each channel.
pub fn gen_rgb5_array(data: &[u8]) -> (pixels: Vec<u8>)
    requires
        data@.len() % 3 == 0,
    ensures
        pixels@ == rgb555_from_rgb(data@),
{
    let mut pixels: Vec<u8> = Vec::new();
    let mut p: usize = 0;
    while p < data.len()
        invariant
            data@.len() % 3 == 0,
            p % 3 == 0,
            p <= data@.len(),
            pixels@.len() == 2 * (p / 3),
            forall|i: int| 0 <= i < pixels@.len() ==> #[trigger] pixels@[i] == pixel_byte(data@, i),
        decreases data@.len() - p,
    {
        let red: u8 = data[p] >> 3;
        let green: u8 = data[p + 1] >> 3;
        let blue: u8 = data[p + 2] >> 3;
        let msb: u8 = (red << 2) | (green >> 3);
        let lsb: u8 = (green << 5) | blue;
        proof {
            lemma_pack_pixel(data@[p as int], data@[p + 1], data@[p + 2]);
            assert(((2 * (p / 3)) as int) / 2 == p / 3);
            assert(((2 * (p / 3) + 1) as int) / 2 == p / 3);
            assert(3 * (p as int / 3) == p);
        }
        pixels.push(lsb);
        pixels.push(msb);
        p += 3;
    }
    proof {
        assert(p / 3 == data@.len() / 3);
        assert(pixels@ =~= rgb555_from_rgb(data@));
    }
    pixels
}

/// Each channel of `data` with its three low bits cleared: what survives a
/// trip through a 15-bit pixel.
pub open spec fn top_five_bits(data: Seq<u8>) -> Seq<u8> {
    data.map_values(|x: u8| ((x as int / 8) * 8) as u8)
}

/// The byte pairs of `data` with the unused top bit of each pixel cleared; an
/// odd last byte is dropped.
pub open spec fn clear_unused_bit(data: Seq<u8>) -> Seq<u8> {
    Seq::new(2 * (data.len() / 2), |i: int| if i % 2 == 0 { data[i] } else { (data[i] as int % 128) as u8 })
}

proof fn lemma_pack_then_expand(r: u8, g: u8, b: u8)
    ensures
        ({
            let w = packed_555(r, g, b);
            &&& 0 <= w < 32768
            &&& pixel_word((w % 256) as u8, (w / 256) as u8) == w
            &&& channel_of_word(w, 0) == ((r as int / 8) * 8) as u8
            &&& channel_of_word(w, 1) == ((g as int / 8) * 8) as u8
            &&& channel_of_word(w, 2) == ((b as int / 8) * 8) as u8
        }),
{
    let w = packed_555(r, g, b);
    let rr = r as int / 8;
    let gg = g as int / 8;
    let bb = b as int / 8;
    assert(0 <= rr < 32 && 0 <= gg < 32 && 0 <= bb < 32);
    assert(w == rr * 1024 + gg * 32 + bb);
    assert(w / 1024 == rr);
    assert(w / 32 == rr * 32 + gg);
    assert((w / 32) % 32 == gg);
    assert(w % 32 == bb);
    assert(w % 256 + 256 * (w / 256) == w);
}

proof fn lemma_expand_then_pack(lo: u8, hi: u8)
    ensures
        ({
            let w = pixel_word(lo, hi);
            let p = packed_555(channel_of_word(w, 0), channel_of_word(w, 1), channel_of_word(w, 2));
            &&& (p % 256) as u8 == lo
            &&& (p / 256) as u8 == (hi as int % 128) as u8
        }),
{
    let l = lo as int;
    let h = hi as int;
    let w = pixel_word(lo, hi);
    assert(w == l + 256 * h);
    let c0 = (w / 1024) % 32;
    let c1 = (w / 32) % 32;
    let c2 = w % 32;
    assert(w / 1024 == h / 4) by (nonlinear_arith)
        requires w == l + 256 * h, 0 <= l < 256, 0 <= h < 256;
    assert(w / 32 == 8 * h + l / 32) by (nonlinear_arith)
        requires w == l + 256 * h, 0 <= l < 256, 0 <= h < 256;
    assert(c1 == (h % 4) * 8 + l / 32) by (nonlinear_arith)
        requires c1 == (8 * h + l / 32) % 32, 0 <= l < 256, 0 <= h < 256;
    assert(c2 == l % 32) by (nonlinear_arith)
        requires c2 == (l + 256 * h) % 32, 0 <= l < 256, 0 <= h < 256;
    assert(0 <= c0 < 32 && 0 <= c1 < 32 && 0 <= c2 < 32);
    assert(channel_of_word(w, 0) as int == c0 * 8);
    assert(channel_of_word(w, 1) as int == c1 * 8);
    assert(channel_of_word(w, 2) as int == c2 * 8);
    let p = packed_555(channel_of_word(w, 0), channel_of_word(w, 1), channel_of_word(w, 2));
    assert(p == c0 * 1024 + c1 * 32 + c2);
    assert(p == (h % 128) * 256 + l) by (nonlinear_arith)
        requires
            p == c0 * 1024 + c1 * 32 + c2,
            c0 == (h / 4) % 32,
            c1 == (h % 4) * 8 + l / 32,
            c2 == l % 32,
            0 <= l < 256,
            0 <= h < 256,
    ;
    assert(p % 256 == l) by (nonlinear_arith)
        requires p == (h % 128) * 256 + l, 0 <= l < 256, 0 <= h < 256;
    assert(p / 256 == h % 128) by (nonlinear_arith)
        requires p == (h % 128) * 256 + l, 0 <= l < 256, 0 <= h < 256;
}

/// Packing RGB triples into 15-bit pixels and expanding them again gives back
/// every channel with its three low bits cleared.
pub proof fn lemma_rgb_round_trip(data: Seq<u8>)
    requires
        data.len() % 3 == 0,
    ensures
        rgb_from_555(rgb555_from_rgb(data)) == top_five_bits(data),
{
    let packed = rgb555_from_rgb(data);
    let back = rgb_from_555(packed);
    assert(back.len() == data.len());
    assert forall|i: int| 0 <= i < data.len() implies #[trigger] back[i] == top_five_bits(data)[i] by {
        let k = i / 3;
        assert(0 <= 2 * k + 1 < packed.len());
        let r = data[3 * k];
        let g = data[3 * k + 1];
        let b = data[3 * k + 2];
        assert(packed[2 * k] == pixel_byte(data, 2 * k));
        assert(packed[2 * k + 1] == pixel_byte(data, 2 * k + 1));
        assert((2 * k) / 2 == k);
        assert((2 * k + 1) / 2 == k);
        lemma_pack_then_expand(r, g, b);
        assert(3 * k <= i < 3 * k + 3);
    }
    assert(back =~= top_five_bits(data));
}

/// Expanding 15-bit pixels into RGB triples and packing them again gives back
/// every pixel, with its unused top bit cleared.
pub proof fn lemma_pixel_round_trip(data: Seq<u8>)
    ensures
        rgb555_from_rgb(rgb_from_555(data)) == clear_unused_bit(data),
{
    let rgb = rgb_from_555(data);
    let back = rgb555_from_rgb(rgb);
    assert(back.len() == 2 * (data.len() / 2));
    assert forall|i: int| 0 <= i < back.len() implies #[trigger] back[i] == clear_unused_bit(data)[i] by {
        let k = i / 2;
        assert(0 <= 3 * k + 2 < rgb.len());
        assert((3 * k) / 3 == k);
        assert((3 * k + 1) / 3 == k);
        assert((3 * k + 2) / 3 == k);
        assert((3 * k) % 3 == 0);
        assert((3 * k + 1) % 3 == 1);
        assert((3 * k + 2) % 3 == 2);
        let w = pixel_word(data[2 * k], data[2 * k + 1]);
        assert(rgb[3 * k] == channel_of_word(w, 0));
        assert(rgb[3 * k + 1] == channel_of_word(w, 1));
        assert(rgb[3 * k + 2] == channel_of_word(w, 2));
        lemma_expand_then_pack(data[2 * k], data[2 * k + 1]);
        assert(2 * k <= i < 2 * k + 2);
    }
    assert(back =~= clear_unused_bit(data));
}

} // verus!
