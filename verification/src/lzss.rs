//! LZSS compression as used by AVF frames and CIFTREE entries.
//!
//! The stream is a sequence of groups: a flag byte, then up to eight items,
//! the least significant flag bit describing the first item. A set bit marks a
//! literal byte; a clear bit marks a two-byte reference into a 4096-byte ring
//! buffer: the low byte of the 12-bit position, then a byte whose high nibble
//! is the top of the position and whose low nibble is the length minus three.
//! The ring starts filled with one byte value and is first written at 0xFEE.

use vstd::prelude::*;

verus! {

/// Size of the ring buffer that the decoder and the encoder share.
pub const RING_SIZE: usize = 4096;

/// Position of the ring at which the first byte is written.
pub const RING_START: usize = 0xFEE;

/// The byte with which the decoder's ring starts filled.
pub const DECODER_FILL: u8 = 0x20;

/// One item of a compressed stream.
#[derive(Debug)]
pub enum LzssToken {
    /// A byte that is output as it stands.
    Literal(u8),
    /// A copy of `count` bytes read from the ring, from position `offset` on.
    Reference(u16, u8),
}

/// Byte `j` of the ring after `out` has been written into a ring that started
/// filled with `fill`: the last byte written at `j`, or `fill`.
pub open spec fn ring_byte(out: Seq<u8>, j: int, fill: u8) -> u8
    decreases out.len(),
{
    if out.len() == 0 {
        fill
    } else if (RING_START + out.len() - 1) % (RING_SIZE as int) == j {
        out.last()
    } else {
        ring_byte(out.drop_last(), j, fill)
    }
}

/// Position of the ring at which the byte after `out` is written.
pub open spec fn ring_cursor(out: Seq<u8>) -> int {
    (RING_START + out.len()) % (RING_SIZE as int)
}

/// The items of a compressed stream, read from byte `pos` of `data` on, where
/// `bits` flag bits of the current group, held in the low bits of `flags`,
/// are still unused. Reading stops where an item would run past the data.
pub open spec fn tokens_from(data: Seq<u8>, pos: int, flags: u8, bits: nat) -> Seq<LzssToken>
    decreases data.len() - pos, bits,
{
    if bits == 0 {
        if pos < 0 || pos >= data.len() {
            Seq::empty()
        } else {
            tokens_from(data, pos + 1, data[pos], 8)
        }
    } else if flags % 2 == 1 {
        if pos < 0 || pos >= data.len() {
            Seq::empty()
        } else {
            seq![LzssToken::Literal(data[pos])] + tokens_from(data, pos + 1, flags / 2, (bits - 1) as nat)
        }
    } else {
        if pos < 0 || pos + 1 >= data.len() {
            Seq::empty()
        } else {
            let offset = data[pos] as int + (data[pos + 1] as int / 16) * 256;
            let count = data[pos + 1] as int % 16 + 3;
            seq![LzssToken::Reference(offset as u16, count as u8)]
                + tokens_from(data, pos + 2, flags / 2, (bits - 1) as nat)
        }
    }
}

/// The items of the compressed stream `data`.
pub open spec fn lzss_tokens(data: Seq<u8>) -> Seq<LzssToken> {
    tokens_from(data, 0, 0, 0)
}

/// `out` extended by `count` bytes copied one by one from the ring, from
/// position `from` on; each byte copied is written to the ring before the next
/// is read.
pub open spec fn copy_from_ring(out: Seq<u8>, from: int, count: nat, fill: u8) -> Seq<u8>
    decreases count,
{
    if count == 0 {
        out
    } else {
        copy_from_ring(
            out.push(ring_byte(out, from, fill)),
            (from + 1) % (RING_SIZE as int),
            (count - 1) as nat,
            fill,
        )
    }
}

/// `out` extended by what the item `t` stands for.
pub open spec fn apply_token(out: Seq<u8>, t: LzssToken, fill: u8) -> Seq<u8> {
    match t {
        LzssToken::Literal(b) => out.push(b),
        LzssToken::Reference(offset, count) => copy_from_ring(out, offset as int, count as nat, fill),
    }
}

/// `out` extended by what the items `ts` stand for, in order.
pub open spec fn run_tokens(out: Seq<u8>, ts: Seq<LzssToken>, fill: u8) -> Seq<u8>
    decreases ts.len(),
{
    if ts.len() == 0 {
        out
    } else {
        run_tokens(apply_token(out, ts[0], fill), ts.drop_first(), fill)
    }
}

/// What the compressed stream `data` decompresses to.
pub open spec fn lzss_decoded(data: Seq<u8>) -> Seq<u8> {
    run_tokens(Seq::empty(), lzss_tokens(data), DECODER_FILL)
}

proof fn lemma_tokens_past_end(data: Seq<u8>, pos: int, flags: u8, bits: nat)
    requires
        pos >= data.len(),
    ensures
        tokens_from(data, pos, flags, bits) == Seq::<LzssToken>::empty(),
    decreases bits,
{
}

proof fn lemma_ring_push(out: Seq<u8>, b: u8, j: int, fill: u8)
    ensures
        ring_byte(out.push(b), j, fill) == if j == ring_cursor(out) { b } else { ring_byte(out, j, fill) },
{
    assert(out.push(b).drop_last() =~= out);
}

/// A ring of `RING_SIZE` bytes, each `fill`.
fn filled_ring(fill: u8) -> (ring: Vec<u8>)
    ensures
        ring@.len() == RING_SIZE,
        forall|j: int| 0 <= j < RING_SIZE ==> #[trigger] ring@[j] == fill,
{
    let mut ring: Vec<u8> = Vec::new();
    while ring.len() < RING_SIZE
        invariant
            ring@.len() <= RING_SIZE,
            forall|j: int| 0 <= j < ring@.len() ==> #[trigger] ring@[j] == fill,
        decreases RING_SIZE - ring@.len(),
    {
        ring.push(fill);
    }
    ring
}

/// The ring holds, at each position, the last byte written there.
pub open spec fn ring_matches(ring: Seq<u8>, out: Seq<u8>, fill: u8) -> bool {
    &&& ring.len() == RING_SIZE
    &&& forall|j: int| 0 <= j < RING_SIZE ==> #[trigger] ring[j] == ring_byte(out, j, fill)
}

proof fn lemma_flag_bits(flags: u8)
    ensures
        ((flags & 1u8) != 0) == (flags % 2 == 1),
        flags >> 1u8 == flags / 2,
{
    assert(((flags & 1u8) != 0) == (flags % 2 == 1)) by (bit_vector);
    assert(flags >> 1u8 == flags / 2) by (bit_vector);
}

proof fn lemma_reference_fields(lo: u8, hi: u8)
    ensures
        ((lo as u16) | (((hi & 0xF0u8) as u16) << 4u16)) as int == lo as int + (hi as int / 16) * 256,
        (hi & 0x0Fu8) as int == hi as int % 16,
{
    assert(((lo as u16) | (((hi & 0xF0u8) as u16) << 4u16)) == (lo as u16) + ((hi as u16) / 16) * 256)
        by (bit_vector);
    assert((hi & 0x0Fu8) == hi % 16) by (bit_vector);
}

/// Decompresses an LZSS stream. Reading stops at the end of the data, also
/// where the last item is cut short.
pub fn decode_lzss(data: &mut [u8]) -> (output: Vec<u8>)
    ensures
        output@ == lzss_decoded(old(data)@),
        final(data)@ == old(data)@,
{
    let ghost input = data@;
    let mut output: Vec<u8> = Vec::new();
    let mut buffer: Vec<u8> = filled_ring(DECODER_FILL);
    let mut flags: u8;
    let mut buf_write_index: usize = RING_START;
    let mut buf_read_index: usize;
    let mut index: usize = 0;
    let len = data.len();
    assert(ring_matches(buffer@, output@, DECODER_FILL));

    while index < len
        invariant
            len == data@.len(),
            data@ == input,
            index <= len,
            ring_matches(buffer@, output@, DECODER_FILL),
            buf_write_index == ring_cursor(output@),
            run_tokens(output@, tokens_from(input, index as int, 0, 0), DECODER_FILL) == lzss_decoded(input),
        decreases len - index,
    {
        let ghost start = index;
        flags = data[index];
        index += 1;
        let mut bit: usize = 0;
        while bit < 8
            invariant
                len == data@.len(),
                data@ == input,
                start < index <= len,
                bit <= 8,
                ring_matches(buffer@, output@, DECODER_FILL),
                buf_write_index == ring_cursor(output@),
                run_tokens(output@, tokens_from(input, index as int, flags, (8 - bit) as nat), DECODER_FILL)
                    == lzss_decoded(input),
            ensures
                start < index <= len,
                ring_matches(buffer@, output@, DECODER_FILL),
                buf_write_index == ring_cursor(output@),
                run_tokens(output@, tokens_from(input, index as int, flags, (8 - bit) as nat), DECODER_FILL)
                    == lzss_decoded(input),
                bit == 8 || index >= len,
            decreases 8 - bit,
        {
            proof {
                lemma_flag_bits(flags);
            }
            if (flags & 1) != 0 {
                if index >= len {
                    proof {
                        lemma_tokens_past_end(input, index as int, flags, (8 - bit) as nat);
                    }
                    return output;
                }
                let b = data[index];
                proof {
                    assert forall|j: int| 0 <= j < RING_SIZE implies #[trigger] buffer@.update(
                        buf_write_index as int,
                        b,
                    )[j] == ring_byte(output@.push(b), j, DECODER_FILL) by {
                        lemma_ring_push(output@, b, j, DECODER_FILL);
                    }
                    let ts = tokens_from(input, index as int, flags, (8 - bit) as nat);
                    assert(ts[0] == LzssToken::Literal(b));
                    assert(ts.drop_first() =~= tokens_from(input, index + 1, flags / 2, (8 - bit - 1) as nat));
                }
                output.push(b);
                buffer.set(buf_write_index, b);
                buf_write_index += 1;
                buf_write_index %= RING_SIZE;
                index += 1;
            } else {
                if len - index <= 1 {
                    assert(tokens_from(input, index as int, flags, (8 - bit) as nat) =~= Seq::<LzssToken>::empty());
                    return output;
                }
                buf_read_index = data[index] as usize;
                index += 1;
                let hi = data[index];
                proof {
                    lemma_reference_fields(data@[index - 1], hi);
                }
                buf_read_index = ((data[index - 1] as u16) | (((hi & 0xF0) as u16) << 4)) as usize;
                let count: u8 = (hi & 0x0f) + 3;
                let ghost out0 = output@;
                let ghost from0 = buf_read_index as int;
                proof {
                    let ts = tokens_from(input, index - 1, flags, (8 - bit) as nat);
                    assert(ts[0] == LzssToken::Reference(from0 as u16, count));
                    assert(ts.drop_first() =~= tokens_from(input, index + 1, flags / 2, (8 - bit - 1) as nat));
                }
                let mut j: u8 = 0;
                while j < count
                    invariant
                        len == data@.len(),
                        data@ == input,
                        j <= count,
                        buf_read_index < RING_SIZE,
                        ring_matches(buffer@, output@, DECODER_FILL),
                        buf_write_index == ring_cursor(output@),
                        copy_from_ring(output@, buf_read_index as int, (count - j) as nat, DECODER_FILL)
                            == copy_from_ring(out0, from0, count as nat, DECODER_FILL),
                    decreases count - j,
                {
                    let b = buffer[buf_read_index];
                    proof {
                        assert forall|k: int| 0 <= k < RING_SIZE implies #[trigger] buffer@.update(
                            buf_write_index as int,
                            b,
                        )[k] == ring_byte(output@.push(b), k, DECODER_FILL) by {
                            lemma_ring_push(output@, b, k, DECODER_FILL);
                        }
                    }
                    output.push(b);
                    buffer.set(buf_write_index, b);
                    buf_read_index += 1;
                    buf_read_index %= RING_SIZE;
                    buf_write_index += 1;
                    buf_write_index %= RING_SIZE;
                    j += 1;
                }
                index += 1;
            }
            flags >>= 1;
            bit += 1;
            if index >= len {
                break;
            }
        }
        proof {
            if bit < 8 {
                lemma_tokens_past_end(input, index as int, flags, (8 - bit) as nat);
                lemma_tokens_past_end(input, index as int, 0, 0);
            }
        }
    }
    proof {
        lemma_tokens_past_end(input, index as int, 0, 0);
    }
    output
}

/// The longest match the encoder looks for.
pub const MAX_MATCH: usize = 18;

/// The shortest match the encoder emits as a reference.
pub const MIN_MATCH: usize = 3;

/// How many bytes of `x` from `ri` on, counting from `c`, a copy from ring
/// position `i` on gives back, where the ring holds `x[..ri]` written over
/// `fill`; the count stops at `MAX_MATCH` and at the end of `x`. With
/// `replay` the copy is read as the decoder replays it, each byte copied being
/// written into the ring before the next is read; without, against the ring
/// as it stands before the copy.
pub open spec fn match_len(x: Seq<u8>, fill: u8, ri: int, i: int, c: nat, replay: bool) -> nat
    decreases MAX_MATCH - c,
{
    if c < MAX_MATCH && ri + c < x.len() && ring_byte(
        x.take(if replay { ri + c } else { ri }),
        (i + c) % (RING_SIZE as int),
        fill,
    ) == x[ri + c] {
        match_len(x, fill, ri, i, c + 1, replay)
    } else {
        c
    }
}

/// The first position among ring positions `0..upto` with the longest match
/// of at least `MIN_MATCH` bytes, counted as `match_len` counts with
/// `replay`, with its length; or `(0, 0)`.
pub open spec fn best_match(x: Seq<u8>, fill: u8, ri: int, upto: int, replay: bool) -> (int, nat)
    decreases upto,
{
    if upto <= 0 {
        (0, 0)
    } else {
        let prev = best_match(x, fill, ri, upto - 1, replay);
        let l = match_len(x, fill, ri, upto - 1, 0, replay);
        if l >= MIN_MATCH && l > prev.1 {
            (upto - 1, l)
        } else {
            prev
        }
    }
}

/// The encoder's choice for `x[ri..]`: the longest match against the ring as
/// it stands (the first such), where the decoder's replay of it gives back
/// those bytes; otherwise the longest match that the replay gives back; `(0,
/// 0)` where the ring as it stands holds no match.
pub open spec fn chosen_match(x: Seq<u8>, fill: u8, ri: int) -> (int, nat) {
    let (i, l) = best_match(x, fill, ri, RING_SIZE as int, false);
    if l == 0 || match_len(x, fill, ri, i, 0, true) >= l {
        (i, l)
    } else {
        best_match(x, fill, ri, RING_SIZE as int, true)
    }
}

/// The item the encoder emits for `x[ri..]`: a reference to the best match in
/// the ring, or the byte itself when no match is long enough.
pub open spec fn next_token(x: Seq<u8>, fill: u8, ri: int) -> LzssToken {
    let (i, l) = chosen_match(x, fill, ri);
    if l != 0 {
        LzssToken::Reference(i as u16, l as u8)
    } else {
        LzssToken::Literal(x[ri])
    }
}

/// How many input bytes the encoder's item for `x[ri..]` covers.
pub open spec fn next_advance(x: Seq<u8>, fill: u8, ri: int) -> int {
    let (i, l) = chosen_match(x, fill, ri);
    if l != 0 {
        l as int
    } else {
        1
    }
}

/// The items the encoder emits for `x[ri..]`, its ring holding `x[..ri]`
/// written over `fill`.
pub open spec fn encoder_tokens(x: Seq<u8>, fill: u8, ri: int) -> Seq<LzssToken>
    decreases x.len() - ri,
{
    if ri < 0 || ri >= x.len() {
        Seq::empty()
    } else {
        proof {
            lemma_chosen_match_bounds(x, fill, ri);
        }
        seq![next_token(x, fill, ri)] + encoder_tokens(x, fill, ri + next_advance(x, fill, ri))
    }
}

/// The bytes that stand for one item after its flag bit.
pub open spec fn token_bytes(t: LzssToken) -> Seq<u8> {
    match t {
        LzssToken::Literal(b) => seq![b],
        LzssToken::Reference(offset, count) => seq![
            (offset as int % 256) as u8,
            ((offset as int / 256) * 16 + (count as int - 3)) as u8,
        ],
    }
}

/// The bytes that stand for the items `ts`, flag bits aside.
pub open spec fn tokens_bytes(ts: Seq<LzssToken>) -> Seq<u8>
    decreases ts.len(),
{
    if ts.len() == 0 {
        Seq::empty()
    } else {
        tokens_bytes(ts.drop_last()) + token_bytes(ts.last())
    }
}

/// The flag byte after the flags of `ts` have been shifted in from the top,
/// a set bit for a literal.
pub open spec fn shifted_flags(ts: Seq<LzssToken>) -> u8
    decreases ts.len(),
{
    if ts.len() == 0 {
        0
    } else {
        let f = shifted_flags(ts.drop_last()) as int / 2;
        (if ts.last() is Literal { f + 128 } else { f }) as u8
    }
}

/// `flags` after `k` more set bits have been shifted in from the top.
pub open spec fn pad_flags(flags: u8, k: nat) -> u8
    decreases k,
{
    if k == 0 {
        flags
    } else {
        pad_flags((flags as int / 2 + 128) as u8, (k - 1) as nat)
    }
}

/// The flag byte of a group of at most eight items; missing items count as literals.
pub open spec fn group_flags(ts: Seq<LzssToken>) -> u8 {
    pad_flags(shifted_flags(ts), (8 - ts.len()) as nat)
}

/// A group of at most eight items: its flag byte, then the items' bytes.
pub open spec fn group_bytes(ts: Seq<LzssToken>) -> Seq<u8> {
    seq![group_flags(ts)] + tokens_bytes(ts)
}

/// The complete groups of eight items at the head of `ts`.
pub open spec fn full_groups(ts: Seq<LzssToken>) -> Seq<u8>
    decreases ts.len(),
{
    if ts.len() < 8 {
        Seq::empty()
    } else {
        group_bytes(ts.take(8)) + full_groups(ts.skip(8))
    }
}

/// The compressed stream for the items `ts`: groups of eight, then a last
/// group of fewer than eight items, which may be empty.
pub open spec fn serialize_tokens(ts: Seq<LzssToken>) -> Seq<u8>
    decreases ts.len(),
{
    if ts.len() < 8 {
        group_bytes(ts)
    } else {
        group_bytes(ts.take(8)) + serialize_tokens(ts.skip(8))
    }
}

/// What the encoder whose ring starts filled with `fill` compresses `x` to.
pub open spec fn lzss_encoded(x: Seq<u8>, fill: u8) -> Seq<u8> {
    serialize_tokens(encoder_tokens(x, fill, 0))
}

/// A match counted on from `c` bytes is at least `c` and at most `MAX_MATCH`
/// bytes long, and stays within `x`.
pub proof fn lemma_match_length_bounds(x: Seq<u8>, fill: u8, ri: int, i: int, c: nat, replay: bool)
    requires
        c <= MAX_MATCH,
        0 <= ri,
        ri + c <= x.len(),
    ensures
        c <= match_len(x, fill, ri, i, c, replay) <= MAX_MATCH,
        ri + match_len(x, fill, ri, i, c, replay) <= x.len(),
    decreases MAX_MATCH - c,
{
    if c < MAX_MATCH && ri + c < x.len() && ring_byte(
        x.take(if replay { ri + c } else { ri }),
        (i + c) % (RING_SIZE as int),
        fill,
    ) == x[ri + c] {
        lemma_match_length_bounds(x, fill, ri, i, c + 1, replay);
    }
}

/// A best match names a ring position, and a length of zero or of
/// `MIN_MATCH` to `MAX_MATCH` bytes that stays within `x`.
pub proof fn lemma_best_match_bounds(x: Seq<u8>, fill: u8, ri: int, upto: int, replay: bool)
    requires
        0 <= ri <= x.len(),
        upto <= RING_SIZE,
    ensures
        ({
            let (i, l) = best_match(x, fill, ri, upto, replay);
            &&& 0 <= i < RING_SIZE
            &&& l == 0 || (MIN_MATCH <= l <= MAX_MATCH)
            &&& ri + l <= x.len()
        }),
    decreases upto,
{
    if upto > 0 {
        lemma_best_match_bounds(x, fill, ri, upto - 1, replay);
        lemma_match_length_bounds(x, fill, ri, upto - 1, 0, replay);
    }
}

/// A best match among ring positions `0..upto` is the first of the longest
/// matches: no position matches longer, none before it matches as long, and
/// a length of zero means that no position matches `MIN_MATCH` bytes or more.
pub proof fn lemma_best_match_longest(x: Seq<u8>, fill: u8, ri: int, upto: int, replay: bool)
    requires
        0 <= ri <= x.len(),
        0 <= upto <= RING_SIZE,
    ensures
        ({
            let (i, l) = best_match(x, fill, ri, upto, replay);
            &&& forall|j: int|
                0 <= j < upto && #[trigger] match_len(x, fill, ri, j, 0, replay) >= MIN_MATCH ==> match_len(
                    x,
                    fill,
                    ri,
                    j,
                    0,
                    replay,
                ) <= l
            &&& l != 0 ==> 0 <= i < upto && match_len(x, fill, ri, i, 0, replay) == l && forall|j: int|
                0 <= j < i ==> #[trigger] match_len(x, fill, ri, j, 0, replay) < l
        }),
    decreases upto,
{
    if upto > 0 {
        lemma_best_match_longest(x, fill, ri, upto - 1, replay);
    }
}

/// The encoder's choice names a ring position and a length of zero or of
/// `MIN_MATCH` to `MAX_MATCH` bytes within `x`, all of which the decoder's
/// replay of the copy gives back.
pub proof fn lemma_chosen_match_bounds(x: Seq<u8>, fill: u8, ri: int)
    requires
        0 <= ri <= x.len(),
    ensures
        ({
            let (i, l) = chosen_match(x, fill, ri);
            &&& 0 <= i < RING_SIZE
            &&& l == 0 || (MIN_MATCH <= l <= MAX_MATCH)
            &&& ri + l <= x.len()
            &&& l != 0 ==> match_len(x, fill, ri, i, 0, true) >= l
        }),
{
    lemma_best_match_bounds(x, fill, ri, RING_SIZE as int, false);
    lemma_best_match_bounds(x, fill, ri, RING_SIZE as int, true);
    lemma_best_match_longest(x, fill, ri, RING_SIZE as int, true);
}

proof fn lemma_full_groups_append(a: Seq<LzssToken>, b: Seq<LzssToken>)
    requires
        a.len() % 8 == 0,
        b.len() == 8,
    ensures
        full_groups(a + b) == full_groups(a) + group_bytes(b),
    decreases a.len(),
{
    if a.len() == 0 {
        assert((a + b).take(8) =~= b);
        assert((a + b).skip(8) =~= Seq::<LzssToken>::empty());
        assert(full_groups(a + b) =~= group_bytes(b) + full_groups(Seq::<LzssToken>::empty()));
        assert(full_groups(a) + group_bytes(b) =~= group_bytes(b));
    } else {
        lemma_full_groups_append(a.skip(8), b);
        assert((a + b).take(8) =~= a.take(8));
        assert((a + b).skip(8) =~= a.skip(8) + b);
        assert(full_groups(a + b) =~= group_bytes(a.take(8)) + (full_groups(a.skip(8)) + group_bytes(b)));
    }
}

proof fn lemma_serialize_split(ts: Seq<LzssToken>, g: int)
    requires
        g >= 0,
        8 * g <= ts.len() < 8 * g + 8,
    ensures
        serialize_tokens(ts) == full_groups(ts.take(8 * g)) + group_bytes(ts.skip(8 * g)),
    decreases g,
{
    if g == 0 {
        assert(ts.take(0) =~= Seq::<LzssToken>::empty());
        assert(ts.skip(0) =~= ts);
        assert(full_groups(ts.take(0)) =~= Seq::<u8>::empty());
        assert(serialize_tokens(ts) =~= Seq::<u8>::empty() + group_bytes(ts));
    } else {
        let rest = ts.skip(8);
        lemma_serialize_split(rest, g - 1);
        assert(rest.take(8 * (g - 1)) =~= ts.take(8 * g).skip(8));
        assert(rest.skip(8 * (g - 1)) =~= ts.skip(8 * g));
        assert(ts.take(8 * g).take(8) =~= ts.take(8));
        assert(full_groups(ts.take(8 * g)) == group_bytes(ts.take(8)) + full_groups(ts.take(8 * g).skip(8)));
        assert(serialize_tokens(ts) =~= group_bytes(ts.take(8)) + (full_groups(ts.take(8 * g).skip(8))
            + group_bytes(ts.skip(8 * g))));
    }
}

proof fn lemma_shift_flag(f: u8)
    ensures
        f >> 1u8 == f / 2,
        (f >> 1u8) | 0x80u8 == f / 2 + 128,
{
    assert(f >> 1u8 == f / 2) by (bit_vector);
    assert((f >> 1u8) | 0x80u8 == f / 2 + 128) by (bit_vector);
}

proof fn lemma_reference_bytes(i: usize, l: usize)
    requires
        i < RING_SIZE,
        MIN_MATCH <= l <= MAX_MATCH,
    ensures
        (i as u8) == (i as int % 256) as u8,
        (((i >> 8usize) as u8) << 4u8) | (((l as u8) - 3) as u8) == ((i as int / 256) * 16 + (l as int - 3)) as u8,
{
    assert((i as u8) == (i % 256) as u8) by (bit_vector);
    assert((((i >> 8usize) as u8) << 4u8) | (((l as u8) - 3) as u8) == ((i / 256) * 16 + (l - 3)) as u8) by (bit_vector)
        requires
            i < 4096,
            3 <= l <= 18,
    ;
}

/// The length of the match from ring position `i` for `data[ri..]`, as
/// `match_len` counts it, where `dictionary` is the ring after `data[..ri]`.
fn match_at(dictionary: &Vec<u8>, dict_index: usize, data: &[u8], ri: usize, i: usize, replay: bool) -> (l: usize)
    requires
        ri < data@.len(),
        i < RING_SIZE,
        ring_matches(dictionary@, data@.take(ri as int), DECODER_FILL),
        dict_index == ring_cursor(data@.take(ri as int)),
    ensures
        l == match_len(data@, DECODER_FILL, ri as int, i as int, 0, replay),
{
    let ghost x = data@;
    let fill = DECODER_FILL;
    let n = data.len();
    let rb_len: usize = if n - ri > MAX_MATCH { MAX_MATCH } else { n - ri };
    let mut c: usize = 0;
    while c < MAX_MATCH
        invariant
            n == x.len(),
            data@ == x,
            fill == DECODER_FILL,
            ri < n,
            i < RING_SIZE,
            rb_len == if n - ri > MAX_MATCH { MAX_MATCH as int } else { n - ri },
            ring_matches(dictionary@, x.take(ri as int), fill),
            dict_index == ring_cursor(x.take(ri as int)),
            c <= MAX_MATCH,
            match_len(x, fill, ri as int, i as int, 0, replay) == match_len(x, fill, ri as int, i as int, c as nat, replay),
        ensures
            c == match_len(x, fill, ri as int, i as int, 0, replay),
        decreases MAX_MATCH - c,
    {
        if c >= rb_len {
            break;
        }
        let pos = (i + c) % RING_SIZE;
        let back = (pos + RING_SIZE - dict_index) % RING_SIZE;
        proof {
            lemma_ring_window(x, fill, ri as int, c as int, pos as int);
            lemma_ring_distance(ri as int, pos as int);
        }
        let b = if replay && back < c {
            data[ri + back]
        } else {
            dictionary[pos]
        };
        if b == data[ri + c] {
            c += 1;
        } else {
            break;
        }
    }
    c
}

/// The best match for `data[ri..]` among all ring positions, as
/// `best_match` chooses it, where `dictionary` is the ring after `data[..ri]`.
fn best_match_at(dictionary: &Vec<u8>, dict_index: usize, data: &[u8], ri: usize, replay: bool) -> (r: (usize, usize))
    requires
        ri < data@.len(),
        ring_matches(dictionary@, data@.take(ri as int), DECODER_FILL),
        dict_index == ring_cursor(data@.take(ri as int)),
    ensures
        (r.0 as int, r.1 as nat) == best_match(data@, DECODER_FILL, ri as int, RING_SIZE as int, replay),
{
    let ghost x = data@;
    let mut match_start_index: usize = 0;
    let mut match_length: usize = 0;
    let mut i: usize = 0;
    while i < RING_SIZE
        invariant
            data@ == x,
            ri < x.len(),
            ring_matches(dictionary@, x.take(ri as int), DECODER_FILL),
            dict_index == ring_cursor(x.take(ri as int)),
            i <= RING_SIZE,
            (match_start_index as int, match_length as nat) == best_match(x, DECODER_FILL, ri as int, i as int, replay),
        decreases RING_SIZE - i,
    {
        proof {
            lemma_best_match_bounds(x, DECODER_FILL, ri as int, i as int, replay);
        }
        if dictionary[i] == data[ri] {
            let length = match_at(dictionary, dict_index, data, ri, i, replay);
            if length >= MIN_MATCH && length > match_length {
                match_start_index = i;
                match_length = length;
            }
        } else {
            assert(i as int % (RING_SIZE as int) == i);
            assert(x.take(ri + 0) =~= x.take(ri as int));
            assert(match_len(x, DECODER_FILL, ri as int, i as int, 0, replay) == 0);
        }
        i += 1;
    }
    (match_start_index, match_length)
}

/// Compresses `data` with a ring that starts filled with spaces, as the
/// decoder's does: at each point the longest match of three to eighteen bytes
/// against the ring as it stands (the first, scanning the ring from position
/// 0) becomes a reference, or the byte a literal where there is none. Where
/// the decoder, which writes each byte copied into the ring before it reads
/// the next, would not give that match back, the longest match that it does
/// give back is taken instead (`chosen_match`). The last group is completed
/// with literal flag bits.
#[verifier::spinoff_prover]
#[verifier::rlimit(60)]
fn encode_stream(data: &[u8]) -> (out: Vec<u8>)
    ensures
        out@ == lzss_encoded(data@, DECODER_FILL),
{
    let fill: u8 = DECODER_FILL;
    let ghost x = data@;
    let n = data.len();
    let mut dictionary: Vec<u8> = filled_ring(fill);
    let mut dict_index: usize = RING_START;
    let mut flags: u8 = 0;
    let mut flag_write_index: u8 = 0;
    let mut write_buffer: Vec<u8> = Vec::new();
    let mut out_data: Vec<u8> = Vec::new();
    let mut read_index: usize = 0;
    let ghost mut done: Seq<LzssToken> = Seq::empty();
    let ghost mut g: int = 0;
    proof {
        assert(x.take(0) =~= Seq::<u8>::empty());
        assert(encoder_tokens(x, fill, 0) =~= done + encoder_tokens(x, fill, 0));
        assert(done.take(0) =~= done);
        assert(done.skip(0) =~= done);
        assert(tokens_bytes(done) =~= Seq::<u8>::empty());
    }
    while read_index < n
        invariant
            n == x.len(),
            data@ == x,
            fill == DECODER_FILL,
            read_index <= n,
            ring_matches(dictionary@, x.take(read_index as int), fill),
            dict_index == ring_cursor(x.take(read_index as int)),
            encoder_tokens(x, fill, 0) == done + encoder_tokens(x, fill, read_index as int),
            g >= 0,
            done.len() == 8 * g + flag_write_index,
            flag_write_index < 8,
            out_data@ == full_groups(done.take(8 * g)),
            write_buffer@ == tokens_bytes(done.skip(8 * g)),
            flags == shifted_flags(done.skip(8 * g)),
        decreases n - read_index,
    {
        let ri = read_index;
        let (window_start, window_length) = best_match_at(&dictionary, dict_index, data, ri, false);
        proof {
            lemma_best_match_bounds(x, fill, ri as int, RING_SIZE as int, false);
        }
        let (match_start_index, match_length) = if window_length == 0 {
            (window_start, window_length)
        } else if match_at(&dictionary, dict_index, data, ri, window_start, true) >= window_length {
            (window_start, window_length)
        } else {
            best_match_at(&dictionary, dict_index, data, ri, true)
        };
        proof {
            lemma_chosen_match_bounds(x, fill, ri as int);
        }
        let ghost t = next_token(x, fill, ri as int);
        proof {
            let rest = encoder_tokens(x, fill, ri as int);
            assert(rest == seq![t] + encoder_tokens(x, fill, ri + next_advance(x, fill, ri as int)));
            assert(encoder_tokens(x, fill, 0) =~= done.push(t) + encoder_tokens(x, fill, ri + next_advance(x, fill, ri as int)));
            assert(done.push(t).take(8 * g) =~= done.take(8 * g));
            assert(done.push(t).skip(8 * g) =~= done.skip(8 * g).push(t));
            assert(done.skip(8 * g).push(t).drop_last() =~= done.skip(8 * g));
            lemma_shift_flag(flags);
        }
        if match_length != 0 {
            flags >>= 1;
            let lsb: u8 = match_start_index as u8;
            let msn: u8 = (match_start_index >> 8) as u8;
            let msb: u8 = (msn << 4) | (match_length as u8 - 3);
            proof {
                lemma_reference_bytes(match_start_index, match_length);
            }
            write_buffer.push(lsb);
            write_buffer.push(msb);
            let mut k: usize = 0;
            while k < match_length
                invariant
                    n == x.len(),
                    data@ == x,
                    ri + match_length <= n,
                    k <= match_length,
                    ring_matches(dictionary@, x.take(ri + k), fill),
                    dict_index == ring_cursor(x.take(ri + k)),
                decreases match_length - k,
            {
                let b = data[ri + k];
                proof {
                    assert(x.take(ri + k).push(b) =~= x.take(ri + k + 1));
                    assert forall|j: int| 0 <= j < RING_SIZE implies #[trigger] dictionary@.update(
                        dict_index as int,
                        b,
                    )[j] == ring_byte(x.take(ri + k + 1), j, fill) by {
                        lemma_ring_push(x.take(ri + k), b, j, fill);
                    }
                }
                dictionary.set(dict_index, b);
                dict_index += 1;
                dict_index %= RING_SIZE;
                k += 1;
            }
            read_index += match_length;
        } else {
            flags >>= 1;
            flags |= 0b10000000;
            let b = data[ri];
            write_buffer.push(b);
            proof {
                assert(x.take(ri as int).push(b) =~= x.take(ri + 1));
                assert forall|j: int| 0 <= j < RING_SIZE implies #[trigger] dictionary@.update(
                    dict_index as int,
                    b,
                )[j] == ring_byte(x.take(ri + 1), j, fill) by {
                    lemma_ring_push(x.take(ri as int), b, j, fill);
                }
            }
            dictionary.set(dict_index, b);
            dict_index += 1;
            dict_index %= RING_SIZE;
            read_index += 1;
        }
        proof {
            done = done.push(t);
        }
        flag_write_index += 1;
        if flag_write_index == 8 {
            proof {
                lemma_full_groups_append(done.take(8 * g), done.skip(8 * g));
                assert(done.take(8 * g) + done.skip(8 * g) =~= done.take(8 * (g + 1)));
                assert(done.skip(8 * (g + 1)) =~= Seq::<LzssToken>::empty());
                g = g + 1;
            }
            out_data.push(flags);
            out_data.append(&mut write_buffer);
            flags = 0;
            flag_write_index = 0;
        }
    }
    let ghost last = done.skip(8 * g);
    while flag_write_index < 8
        invariant
            flag_write_index <= 8,
            pad_flags(flags, (8 - flag_write_index) as nat) == group_flags(last),
        decreases 8 - flag_write_index,
    {
        proof {
            lemma_shift_flag(flags);
        }
        flags >>= 1;
        flags |= 0b10000000;
        flag_write_index += 1;
    }
    proof {
        assert(encoder_tokens(x, fill, n as int) =~= Seq::<LzssToken>::empty());
        assert(encoder_tokens(x, fill, 0) =~= done);
        lemma_serialize_split(done, g);
    }
    out_data.push(flags);
    out_data.append(&mut write_buffer);
    out_data
}

/// Compresses `data` into an LZSS stream whose ring starts filled with spaces,
/// as the decoder's does.
pub fn encode_lzss(data: &mut [u8]) -> (out: Vec<u8>)
    ensures
        out@ == lzss_encoded(old(data)@, DECODER_FILL),
        final(data)@ == old(data)@,
{
    encode_stream(data)
}

/// Whether `t` can stand in a stream: a reference names a ring position and a
/// length of three to eighteen bytes.
pub open spec fn token_fits(t: LzssToken) -> bool {
    match t {
        LzssToken::Literal(_) => true,
        LzssToken::Reference(offset, count) => offset < RING_SIZE && MIN_MATCH <= count <= MAX_MATCH,
    }
}

/// `flags` halved `j` times: the flag byte after `j` items of its group.
pub open spec fn halve(flags: u8, j: nat) -> u8
    decreases j,
{
    if j == 0 {
        flags
    } else {
        halve(flags, (j - 1) as nat) / 2
    }
}

/// Flag bit `j` of a group whose items are `ts`: 0 for a reference, 1 for a
/// literal or a missing item.
pub open spec fn flag_bit(ts: Seq<LzssToken>, j: int) -> u8 {
    if 0 <= j < ts.len() && ts[j] is Reference {
        0
    } else {
        1
    }
}

/// The flag byte after the first `m` flag bits of the group `ts` have been
/// shifted in from the top.
pub open spec fn flags_after(ts: Seq<LzssToken>, m: nat) -> u8
    decreases m,
{
    if m == 0 {
        0
    } else {
        let f = flags_after(ts, (m - 1) as nat) as int / 2;
        (f + 128 * flag_bit(ts, m - 1)) as u8
    }
}

proof fn lemma_shifted_flags_prefix(ts: Seq<LzssToken>, m: nat)
    requires
        m <= ts.len(),
    ensures
        shifted_flags(ts.take(m as int)) == flags_after(ts, m),
    decreases m,
{
    if m > 0 {
        lemma_shifted_flags_prefix(ts, (m - 1) as nat);
        assert(ts.take(m as int).drop_last() =~= ts.take(m - 1));
    }
}

proof fn lemma_pad_flags(ts: Seq<LzssToken>, m: nat)
    requires
        ts.len() <= m <= 8,
    ensures
        pad_flags(flags_after(ts, m), (8 - m) as nat) == flags_after(ts, 8),
    decreases 8 - m,
{
    if m < 8 {
        lemma_pad_flags(ts, m + 1);
    }
}

proof fn lemma_eight_flag_bits(b0: u8, b1: u8, b2: u8, b3: u8, b4: u8, b5: u8, b6: u8, b7: u8)
    by (bit_vector)
    requires
        b0 <= 1 && b1 <= 1 && b2 <= 1 && b3 <= 1 && b4 <= 1 && b5 <= 1 && b6 <= 1 && b7 <= 1,
    ensures
        ({
            let f1 = (0u8 / 2 + 128 * b0) as u8;
            let f2 = (f1 / 2 + 128 * b1) as u8;
            let f3 = (f2 / 2 + 128 * b2) as u8;
            let f4 = (f3 / 2 + 128 * b3) as u8;
            let f5 = (f4 / 2 + 128 * b4) as u8;
            let f6 = (f5 / 2 + 128 * b5) as u8;
            let f7 = (f6 / 2 + 128 * b6) as u8;
            let f8 = (f7 / 2 + 128 * b7) as u8;
            &&& f8 % 2 == b0
            &&& (f8 / 2) % 2 == b1
            &&& (f8 / 2 / 2) % 2 == b2
            &&& (f8 / 2 / 2 / 2) % 2 == b3
            &&& (f8 / 2 / 2 / 2 / 2) % 2 == b4
            &&& (f8 / 2 / 2 / 2 / 2 / 2) % 2 == b5
            &&& (f8 / 2 / 2 / 2 / 2 / 2 / 2) % 2 == b6
            &&& (f8 / 2 / 2 / 2 / 2 / 2 / 2 / 2) % 2 == b7
        }),
{
}

/// Flag bit `j` of a group's flag byte, read as the decoder reads it, tells
/// whether item `j` is a literal; bits past the group's items are set.
proof fn lemma_group_flag_bits(ts: Seq<LzssToken>, j: nat)
    requires
        ts.len() <= 8,
        j < 8,
    ensures
        halve(group_flags(ts), j) % 2 == flag_bit(ts, j as int),
{
    lemma_shifted_flags_prefix(ts, ts.len());
    assert(ts.take(ts.len() as int) =~= ts);
    lemma_pad_flags(ts, ts.len());
    let b0 = flag_bit(ts, 0);
    let b1 = flag_bit(ts, 1);
    let b2 = flag_bit(ts, 2);
    let b3 = flag_bit(ts, 3);
    let b4 = flag_bit(ts, 4);
    let b5 = flag_bit(ts, 5);
    let b6 = flag_bit(ts, 6);
    let b7 = flag_bit(ts, 7);
    lemma_eight_flag_bits(b0, b1, b2, b3, b4, b5, b6, b7);
    let f1 = flags_after(ts, 1);
    let f2 = flags_after(ts, 2);
    let f3 = flags_after(ts, 3);
    let f4 = flags_after(ts, 4);
    let f5 = flags_after(ts, 5);
    let f6 = flags_after(ts, 6);
    let f7 = flags_after(ts, 7);
    let f8 = flags_after(ts, 8);
    assert(flags_after(ts, 0) == 0);
    assert(f1 == (0u8 / 2 + 128 * b0) as u8);
    assert(f2 == (f1 / 2 + 128 * b1) as u8);
    assert(f3 == (f2 / 2 + 128 * b2) as u8);
    assert(f4 == (f3 / 2 + 128 * b3) as u8);
    assert(f5 == (f4 / 2 + 128 * b4) as u8);
    assert(f6 == (f5 / 2 + 128 * b5) as u8);
    assert(f7 == (f6 / 2 + 128 * b6) as u8);
    assert(f8 == (f7 / 2 + 128 * b7) as u8);
    assert(group_flags(ts) == f8);
    assert(halve(f8, 0) == f8);
    assert(halve(f8, 1) == f8 / 2);
    assert(halve(f8, 2) == f8 / 2 / 2);
    assert(halve(f8, 3) == f8 / 2 / 2 / 2);
    assert(halve(f8, 4) == f8 / 2 / 2 / 2 / 2);
    assert(halve(f8, 5) == f8 / 2 / 2 / 2 / 2 / 2);
    assert(halve(f8, 6) == f8 / 2 / 2 / 2 / 2 / 2 / 2);
    assert(halve(f8, 7) == f8 / 2 / 2 / 2 / 2 / 2 / 2 / 2);
}

proof fn lemma_tokens_bytes_concat(a: Seq<LzssToken>, b: Seq<LzssToken>)
    ensures
        tokens_bytes(a + b) == tokens_bytes(a) + tokens_bytes(b),
    decreases b.len(),
{
    if b.len() == 0 {
        assert(a + b =~= a);
        assert(tokens_bytes(a) + tokens_bytes(b) =~= tokens_bytes(a));
    } else {
        lemma_tokens_bytes_concat(a, b.drop_last());
        assert((a + b).drop_last() =~= a + b.drop_last());
        assert((a + b).last() == b.last());
        assert(tokens_bytes(a + b) =~= tokens_bytes(a) + tokens_bytes(b));
    }
}

/// Reading a group back: from flag bit `j` on, the decoder finds the group's
/// remaining items, then whatever follows the group.
#[verifier::spinoff_prover]
#[verifier::rlimit(40)]
proof fn lemma_read_group(d: Seq<u8>, p: int, g: Seq<LzssToken>, j: nat)
    requires
        0 <= p,
        g.len() <= 8,
        j <= g.len(),
        forall|i: int| 0 <= i < g.len() ==> token_fits(#[trigger] g[i]),
        p + group_bytes(g).len() <= d.len(),
        d.subrange(p, p + group_bytes(g).len()) == group_bytes(g),
        g.len() == 8 || p + group_bytes(g).len() == d.len(),
    ensures
        tokens_from(d, p + 1 + tokens_bytes(g.take(j as int)).len(), halve(group_flags(g), j), (8 - j) as nat)
            == g.skip(j as int) + tokens_from(d, p + group_bytes(g).len(), 0, 0),
    decreases g.len() - j,
{
    let e = p + group_bytes(g).len();
    let tb = tokens_bytes(g);
    let f = halve(group_flags(g), j);
    let pos = p + 1 + tokens_bytes(g.take(j as int)).len();
    if j == g.len() {
        assert(g.take(j as int) =~= g);
        assert(g.skip(j as int) =~= Seq::<LzssToken>::empty());
        assert(g.skip(j as int) + tokens_from(d, e, 0, 0) =~= tokens_from(d, e, 0, 0));
        if g.len() == 8 {
            assert(tokens_from(d, pos, f, 0) == tokens_from(d, e, 0, 0));
        } else {
            lemma_tokens_past_end(d, pos, f, (8 - j) as nat);
            lemma_tokens_past_end(d, e, 0, 0);
        }
    } else {
        let t = g[j as int];
        let before = g.take(j as int);
        let after = g.skip(j as int + 1);
        lemma_tokens_bytes_concat(before, seq![t]);
        assert(before + seq![t] =~= g.take(j as int + 1));
        assert(tokens_bytes(seq![t]) =~= token_bytes(t)) by {
            assert(seq![t].drop_last() =~= Seq::<LzssToken>::empty());
            assert(seq![t].last() == t);
            assert(tokens_bytes(Seq::<LzssToken>::empty()) =~= Seq::<u8>::empty());
            assert(Seq::<u8>::empty() + token_bytes(t) =~= token_bytes(t));
        }
        lemma_tokens_bytes_concat(g.take(j as int + 1), after);
        assert(g.take(j as int + 1) + after =~= g);
        let a = tokens_bytes(before).len();
        assert(tb == tokens_bytes(before) + token_bytes(t) + tokens_bytes(after));
        assert(group_bytes(g) == seq![group_flags(g)] + tb);
        assert forall|k: int| 0 <= k < token_bytes(t).len() implies d[pos + k] == #[trigger] token_bytes(t)[k] by {
            assert(d.subrange(p, e)[1 + a + k] == d[p + 1 + a + k]);
            assert(group_bytes(g)[1 + a + k] == tb[a + k]);
            assert(tb[a + k] == (tokens_bytes(before) + token_bytes(t))[a + k]);
        }
        lemma_group_flag_bits(g, j);
        lemma_read_group(d, p, g, j + 1);
        assert(g.skip(j as int) =~= seq![t] + after);
        assert(halve(group_flags(g), j + 1) == f / 2);
        match t {
            LzssToken::Literal(b) => {
                assert(flag_bit(g, j as int) == 1);
                assert(token_bytes(t)[0] == b);
                assert(d[pos] == b);
                assert(tokens_from(d, pos, f, (8 - j) as nat) == seq![LzssToken::Literal(d[pos])]
                    + tokens_from(d, pos + 1, f / 2, (8 - j - 1) as nat));
                assert(seq![t] + after + tokens_from(d, e, 0, 0) =~= seq![t] + (after + tokens_from(d, e, 0, 0)));
            },
            LzssToken::Reference(offset, count) => {
                assert(flag_bit(g, j as int) == 0);
                let lo = d[pos];
                let hi = d[pos + 1];
                assert(lo == token_bytes(t)[0]);
                assert(hi == token_bytes(t)[1]);
                assert(lo as int == offset as int % 256);
                assert(hi as int == (offset as int / 256) * 16 + (count as int - 3));
                assert(lo as int + (hi as int / 16) * 256 == offset as int);
                assert(hi as int % 16 + 3 == count as int);
                assert(tokens_from(d, pos, f, (8 - j) as nat) == seq![LzssToken::Reference(offset, count)]
                    + tokens_from(d, pos + 2, f / 2, (8 - j - 1) as nat));
                assert(seq![t] + after + tokens_from(d, e, 0, 0) =~= seq![t] + (after + tokens_from(d, e, 0, 0)));
            },
        }
    }
}

/// Reading back a serialized stream, placed after any bytes `pre`, gives the
/// items it was made of.
proof fn lemma_read_serialized(pre: Seq<u8>, ts: Seq<LzssToken>)
    requires
        forall|i: int| 0 <= i < ts.len() ==> token_fits(#[trigger] ts[i]),
    ensures
        tokens_from(pre + serialize_tokens(ts), pre.len() as int, 0, 0) == ts,
    decreases ts.len(),
{
    let d = pre + serialize_tokens(ts);
    let p = pre.len() as int;
    let g = if ts.len() < 8 { ts } else { ts.take(8) };
    let rest = if ts.len() < 8 { Seq::<u8>::empty() } else { serialize_tokens(ts.skip(8)) };
    assert(serialize_tokens(ts) =~= group_bytes(g) + rest);
    assert(d =~= pre + group_bytes(g) + rest);
    assert(d.subrange(p, p + group_bytes(g).len()) =~= group_bytes(g));
    assert forall|i: int| 0 <= i < g.len() implies token_fits(#[trigger] g[i]) by {
        assert(g[i] == ts[i]);
    }
    lemma_read_group(d, p, g, 0);
    assert(g.take(0) =~= Seq::<LzssToken>::empty());
    assert(tokens_bytes(Seq::<LzssToken>::empty()) =~= Seq::<u8>::empty());
    assert(g.skip(0) =~= g);
    assert(d[p] == group_bytes(g)[0]);
    assert(tokens_from(d, p, 0, 0) == tokens_from(d, p + 1, d[p], 8));
    let e = p + group_bytes(g).len();
    if ts.len() < 8 {
        assert(e == d.len());
        lemma_tokens_past_end(d, e, 0, 0);
        assert(g + tokens_from(d, e, 0, 0) =~= ts);
    } else {
        let pre2 = pre + group_bytes(g);
        assert(d =~= pre2 + serialize_tokens(ts.skip(8)));
        lemma_read_serialized(pre2, ts.skip(8));
        assert(g + ts.skip(8) =~= ts);
    }
}

/// Every item the encoder emits can stand in a stream.
proof fn lemma_encoder_tokens_fit(x: Seq<u8>, fill: u8, ri: int)
    ensures
        forall|i: int| 0 <= i < encoder_tokens(x, fill, ri).len() ==> token_fits(
            #[trigger] encoder_tokens(x, fill, ri)[i],
        ),
    decreases x.len() - ri,
{
    if 0 <= ri < x.len() {
        lemma_chosen_match_bounds(x, fill, ri);
        let next = ri + next_advance(x, fill, ri);
        lemma_encoder_tokens_fit(x, fill, next);
        let ts = encoder_tokens(x, fill, ri);
        assert forall|i: int| 0 <= i < ts.len() implies token_fits(#[trigger] ts[i]) by {
            if i > 0 {
                assert(ts[i] == encoder_tokens(x, fill, next)[i - 1]);
            }
        }
    }
}

/// While `c` bytes of `x` from `ri` on are written into the ring, no
/// position is written twice: position `p` holds the byte of that run
/// written there, or what it held before the run.
proof fn lemma_ring_window(x: Seq<u8>, fill: u8, ri: int, c: int, p: int)
    requires
        0 <= ri,
        0 <= c < RING_SIZE,
        ri + c <= x.len(),
        0 <= p < RING_SIZE,
    ensures
        ring_byte(x.take(ri + c), p, fill) == if (p - (RING_START + ri)) % (RING_SIZE as int) < c {
            x[ri + (p - (RING_START + ri)) % (RING_SIZE as int)]
        } else {
            ring_byte(x.take(ri), p, fill)
        },
    decreases c,
{
    let r = RING_SIZE as int;
    let a = RING_START + ri;
    let k = (p - a) % r;
    if c > 0 {
        let out = x.take(ri + c);
        assert(out.drop_last() =~= x.take(ri + c - 1));
        lemma_ring_window(x, fill, ri, c - 1, p);
        let pos = (RING_START + out.len() - 1) % r;
        assert(pos == (a + c - 1) % r);
        vstd::arithmetic::div_mod::lemma_fundamental_div_mod(p - a, r);
        let q = (p - a) / r;
        assert(p - a == r * q + k);
        if k == c - 1 {
            assert(a + c - 1 == r * (-q) + p);
            vstd::arithmetic::div_mod::lemma_mod_multiples_vanish(-q, p, r);
            vstd::arithmetic::div_mod::lemma_small_mod(p as nat, r as nat);
            assert(pos == p);
            assert(out.last() == x[ri + c - 1]);
        } else if pos == p {
            vstd::arithmetic::div_mod::lemma_fundamental_div_mod(a + c - 1, r);
            let q2 = (a + c - 1) / r;
            assert(a + c - 1 == r * q2 + p);
            assert(p - a == r * (-q2) + (c - 1));
            vstd::arithmetic::div_mod::lemma_mod_multiples_vanish(-q2, c - 1, r);
            vstd::arithmetic::div_mod::lemma_small_mod((c - 1) as nat, r as nat);
            assert(k == c - 1);
        }
    }
}

/// The distance the encoder computes from the ring cursor to position `p`
/// is the one `lemma_ring_window` speaks of.
proof fn lemma_ring_distance(ri: int, p: int)
    requires
        0 <= ri,
        0 <= p < RING_SIZE,
    ensures
        (p + RING_SIZE - (RING_START + ri) % (RING_SIZE as int)) % (RING_SIZE as int) == (p - (RING_START + ri)) % (
        RING_SIZE as int),
{
    let r = RING_SIZE as int;
    let a = RING_START + ri;
    vstd::arithmetic::div_mod::lemma_fundamental_div_mod(a, r);
    let q = a / r;
    assert(p + r - a % r == r * (q + 1) + (p - a));
    vstd::arithmetic::div_mod::lemma_mod_multiples_vanish(q + 1, p - a, r);
}

/// Every byte that a match counts is one that the copy gives back.
proof fn lemma_match_replays(x: Seq<u8>, fill: u8, ri: int, i: int, c: nat, t: int)
    requires
        0 <= ri,
        c <= t < match_len(x, fill, ri, i, c, true),
    ensures
        ring_byte(x.take(ri + t), (i + t) % (RING_SIZE as int), fill) == x[ri + t],
    decreases MAX_MATCH - c,
{
    if c < MAX_MATCH && ri + c < x.len() && ring_byte(x.take(ri + c), (i + c) % (RING_SIZE as int), fill)
        == x[ri + c] {
        if t > c {
            lemma_match_replays(x, fill, ri, i, c + 1, t);
        }
    }
}

proof fn lemma_copy_replays(x: Seq<u8>, fill: u8, ri: int, i: int, l: int, t: int)
    requires
        0 <= ri,
        0 <= i < RING_SIZE,
        0 <= t <= l,
        ri + l <= x.len(),
        forall|u: int|
            0 <= u < l ==> ring_byte(x.take(ri + u), (i + u) % (RING_SIZE as int), fill) == #[trigger] x[ri + u],
    ensures
        copy_from_ring(x.take(ri + t), (i + t) % (RING_SIZE as int), (l - t) as nat, fill) == x.take(ri + l),
    decreases l - t,
{
    if t < l {
        assert(x.take(ri + t).push(x[ri + t]) =~= x.take(ri + t + 1));
        assert(((i + t) % (RING_SIZE as int) + 1) % (RING_SIZE as int) == (i + t + 1) % (RING_SIZE as int));
        lemma_copy_replays(x, fill, ri, i, l, t + 1);
    } else {
        assert(x.take(ri + t) =~= x.take(ri + l));
    }
}

proof fn lemma_run_encoder_tokens(x: Seq<u8>, ri: int)
    requires
        0 <= ri <= x.len(),
    ensures
        run_tokens(x.take(ri), encoder_tokens(x, DECODER_FILL, ri), DECODER_FILL) == x,
    decreases x.len() - ri,
{
    let fill = DECODER_FILL;
    if ri == x.len() {
        assert(x.take(ri) =~= x);
    } else {
        lemma_chosen_match_bounds(x, fill, ri);
        let (i, l) = chosen_match(x, fill, ri);
        let next = ri + next_advance(x, fill, ri);
        let ts = encoder_tokens(x, fill, ri);
        assert(ts.drop_first() =~= encoder_tokens(x, fill, next));
        if l != 0 {
            assert(0 <= i < 4096);
            assert((i + 0) % (RING_SIZE as int) == i);
            assert forall|u: int| 0 <= u < l implies ring_byte(x.take(ri + u), (i + u) % (RING_SIZE as int), fill)
                == #[trigger] x[ri + u] by {
                lemma_match_replays(x, fill, ri, i, 0, u);
            }
            lemma_copy_replays(x, fill, ri, i, l as int, 0);
            assert(apply_token(x.take(ri), ts[0], fill) == x.take(next));
        } else {
            assert(x.take(ri).push(x[ri]) =~= x.take(ri + 1));
        }
        lemma_run_encoder_tokens(x, next);
    }
}

/// Decompressing what the encoder produces gives back the input.
pub proof fn lemma_lzss_round_trip(x: Seq<u8>)
    ensures
        lzss_decoded(lzss_encoded(x, DECODER_FILL)) == x,
{
    let ts = encoder_tokens(x, DECODER_FILL, 0);
    lemma_encoder_tokens_fit(x, DECODER_FILL, 0);
    lemma_read_serialized(Seq::empty(), ts);
    assert(Seq::<u8>::empty() + serialize_tokens(ts) =~= serialize_tokens(ts));
    assert(x.take(0) =~= Seq::<u8>::empty());
    lemma_run_encoder_tokens(x, 0);
}

proof fn lemma_tokens_prefix(d: Seq<u8>, k: int, pos: int, flags: u8, bits: nat)
    requires
        0 <= k <= d.len(),
    ensures
        tokens_from(d.take(k), pos, flags, bits).is_prefix_of(tokens_from(d, pos, flags, bits)),
    decreases d.len() - pos, bits,
{
    let e = d.take(k);
    if bits == 0 {
        if 0 <= pos < k {
            lemma_tokens_prefix(d, k, pos + 1, d[pos], 8);
        }
    } else if flags % 2 == 1 {
        if 0 <= pos < k {
            lemma_tokens_prefix(d, k, pos + 1, flags / 2, (bits - 1) as nat);
            let a = tokens_from(e, pos + 1, flags / 2, (bits - 1) as nat);
            let b = tokens_from(d, pos + 1, flags / 2, (bits - 1) as nat);
            let t = LzssToken::Literal(d[pos]);
            assert((seq![t] + a) =~= (seq![t] + b).subrange(0, a.len() as int + 1));
        }
    } else {
        if 0 <= pos && pos + 1 < k {
            lemma_tokens_prefix(d, k, pos + 2, flags / 2, (bits - 1) as nat);
            let a = tokens_from(e, pos + 2, flags / 2, (bits - 1) as nat);
            let b = tokens_from(d, pos + 2, flags / 2, (bits - 1) as nat);
            let offset = d[pos] as int + (d[pos + 1] as int / 16) * 256;
            let count = d[pos + 1] as int % 16 + 3;
            let t = LzssToken::Reference(offset as u16, count as u8);
            assert((seq![t] + a) =~= (seq![t] + b).subrange(0, a.len() as int + 1));
        }
    }
}

proof fn lemma_copy_extends(out: Seq<u8>, from: int, count: nat, fill: u8)
    ensures
        out.is_prefix_of(copy_from_ring(out, from, count, fill)),
    decreases count,
{
    if count > 0 {
        let next = out.push(ring_byte(out, from, fill));
        lemma_copy_extends(next, (from + 1) % (RING_SIZE as int), (count - 1) as nat, fill);
        assert(out =~= next.subrange(0, out.len() as int));
    }
}

proof fn lemma_run_extends(out: Seq<u8>, ts: Seq<LzssToken>, fill: u8)
    ensures
        out.is_prefix_of(run_tokens(out, ts, fill)),
    decreases ts.len(),
{
    if ts.len() > 0 {
        let next = apply_token(out, ts[0], fill);
        match ts[0] {
            LzssToken::Literal(b) => {
                assert(out =~= next.subrange(0, out.len() as int));
            },
            LzssToken::Reference(offset, count) => {
                lemma_copy_extends(out, offset as int, count as nat, fill);
            },
        }
        lemma_run_extends(next, ts.drop_first(), fill);
    }
}

proof fn lemma_run_prefix(out: Seq<u8>, a: Seq<LzssToken>, b: Seq<LzssToken>, fill: u8)
    requires
        a.is_prefix_of(b),
    ensures
        run_tokens(out, a, fill).is_prefix_of(run_tokens(out, b, fill)),
    decreases a.len(),
{
    if a.len() == 0 {
        lemma_run_extends(out, b, fill);
    } else {
        assert(a[0] == b[0]);
        assert(a.drop_first().is_prefix_of(b.drop_first())) by {
            assert(a.drop_first() =~= b.drop_first().subrange(0, a.len() - 1));
        }
        lemma_run_prefix(apply_token(out, a[0], fill), a.drop_first(), b.drop_first(), fill);
    }
}

/// Cutting a compressed stream short only cuts what it decompresses to short.
pub proof fn lemma_decoded_prefix(d: Seq<u8>, k: int)
    requires
        0 <= k <= d.len(),
    ensures
        lzss_decoded(d.take(k)).is_prefix_of(lzss_decoded(d)),
{
    lemma_tokens_prefix(d, k, 0, 0, 0);
    lemma_run_prefix(Seq::empty(), lzss_tokens(d.take(k)), lzss_tokens(d), DECODER_FILL);
}

} // verus!
