//! The game screen's pixel buffer: clickable boxes, outlines for them, and
//! images drawn at a position.

use vstd::prelude::*;

verus! {

/// A rectangle of the screen that can be clicked, with the number that
/// identifies it; both corners are included.
#[derive(Debug)]
pub struct BoundBox {
    pub id: usize,
    pub upper_left: (usize, usize),
    pub lower_right: (usize, usize),
}

impl BoundBox {
    /// Whether the point `(x, y)` lies in the box, edges included.
    pub open spec fn contains(&self, x: int, y: int) -> bool {
        self.upper_left.0 <= x <= self.lower_right.0 && self.upper_left.1 <= y <= self.lower_right.1
    }
}

/// The pixel buffer of the screen, one `0x00RRGGBB` word per pixel, row by
/// row, and the boxes that can be clicked.
#[derive(Debug)]
pub struct Screen {
    pub window_height: usize,
    pub window_width: usize,
    pub buffer: Vec<u32>,
    pub bounding_boxes: Vec<BoundBox>,
}

/// The colour or-ed into the pixels of a box's area when boxes are shown.
pub const BOX_TINT: u32 = 0x00AF0000;

/// Whether buffer position `p` is one of the pixels drawn for box `b`: those
/// from its upper-left corner up to, not including, its lower-right one.
pub open spec fn in_box_area(b: BoundBox, width: int, p: int) -> bool {
    exists|x: int, y: int|
        b.upper_left.0 <= x < b.lower_right.0 && b.upper_left.1 <= y < b.lower_right.1 && #[trigger] (y * width + x)
            == p
}

/// `buf` with the area of box `b` tinted.
pub open spec fn tint_box(buf: Seq<u32>, b: BoundBox, width: int) -> Seq<u32> {
    Seq::new(buf.len(), |p: int| if in_box_area(b, width, p) { buf[p] | BOX_TINT } else { buf[p] })
}

/// `buf` with the areas of the first `k` boxes tinted, in order.
pub open spec fn tint_boxes(buf: Seq<u32>, boxes: Seq<BoundBox>, width: int, k: int) -> Seq<u32>
    decreases k,
{
    if k <= 0 {
        buf
    } else {
        tint_box(tint_boxes(buf, boxes, width, k - 1), boxes[k - 1], width)
    }
}

/// Whether the area of box `b` lies within a buffer of `len` pixels.
pub open spec fn box_fits(b: BoundBox, width: int, len: int) -> bool {
    b.upper_left.0 >= b.lower_right.0 || b.upper_left.1 >= b.lower_right.1 || (b.lower_right.1 - 1) * width + (
    b.lower_right.0 - 1) < len
}

/// The word for an RGB triple.
pub open spec fn rgb_word(r: u8, g: u8, b: u8) -> u32 {
    (r as int * 65536 + g as int * 256 + b as int) as u32
}

/// The words for the RGB triples of `data`.
pub open spec fn rgb_words(data: Seq<u8>) -> Seq<u32> {
    Seq::new(data.len() / 3, |i: int| rgb_word(data[3 * i], data[3 * i + 1], data[3 * i + 2]))
}

/// Converts RGB triples into `0x00RRGGBB` words.
pub fn rgb_to_words(data: &Vec<u8>) -> (words: Vec<u32>)
    requires
        data@.len() % 3 == 0,
    ensures
        words@ == rgb_words(data@),
{
    let mut words: Vec<u32> = Vec::new();
    let mut i: usize = 0;
    while i < data.len()
        invariant
            data@.len() % 3 == 0,
            i % 3 == 0,
            i <= data@.len(),
            words@.len() == i / 3,
            forall|k: int| 0 <= k < words@.len() ==> #[trigger] words@[k] == rgb_word(
                data@[3 * k],
                data@[3 * k + 1],
                data@[3 * k + 2],
            ),
        decreases data@.len() - i,
    {
        let r = data[i];
        let g = data[i + 1];
        let b = data[i + 2];
        let w = ((r as u32) << 16) | ((g as u32) << 8) | b as u32;
        assert(((r as u32) << 16u32) | ((g as u32) << 8u32) | (b as u32) == (r as u32) * 65536 + (g as u32) * 256
            + (b as u32)) by (bit_vector);
        assert(3 * (i as int / 3) == i);
        words.push(w);
        i += 3;
    }
    assert(words@ =~= rgb_words(data@));
    words
}

/// The row of the image in which pixel `p` lands, for an image `w` pixels wide.
pub open spec fn image_row(p: int, w: int) -> int {
    if w > 0 {
        p / w
    } else {
        0
    }
}

/// The column of the image in which pixel `p` lands, for an image `w` pixels
/// wide; with no width, every pixel goes on along the first row.
pub open spec fn image_col(p: int, w: int) -> int {
    if w > 0 {
        p % w
    } else {
        p
    }
}

/// The buffer position to which pixel `p` of an image `w` pixels wide is
/// drawn, the image's upper-left corner at `pos`.
pub open spec fn image_target(p: int, w: int, pos: (usize, usize), width: int) -> int {
    (pos.1 + image_row(p, w)) * width + pos.0 + image_col(p, w)
}

/// `buf` after the first `k` pixels of `pixels` have been drawn, in order.
pub open spec fn draw_pixels(buf: Seq<u32>, pixels: Seq<u32>, k: int, w: int, pos: (usize, usize), width: int) -> Seq<
    u32,
>
    decreases k,
{
    if k <= 0 {
        buf
    } else {
        draw_pixels(buf, pixels, k - 1, w, pos, width).update(image_target(k - 1, w, pos, width), pixels[k - 1])
    }
}

proof fn lemma_mul_le(a: int, b: int, c: int)
    requires
        0 <= a <= b,
        0 <= c,
    ensures
        a * c <= b * c,
{
    assert(a * c <= b * c) by (nonlinear_arith)
        requires
            0 <= a <= b,
            0 <= c,
    ;
}

proof fn lemma_or_tint(v: u32)
    ensures
        (v | BOX_TINT) | BOX_TINT == v | BOX_TINT,
{
    assert((v | 0x00AF0000u32) | 0x00AF0000u32 == v | 0x00AF0000u32) by (bit_vector);
}

impl Screen {
    /// The number of the first box that contains the point `(x, y)`, if any.
    pub fn check_boundries(&mut self, x: usize, y: usize) -> (r: Option<usize>)
        ensures
            *final(self) == *old(self),
            match r {
                Some(id) => exists|i: int|
                    0 <= i < old(self).bounding_boxes@.len() && #[trigger] old(self).bounding_boxes@[i].contains(
                        x as int,
                        y as int,
                    ) && old(self).bounding_boxes@[i].id == id && forall|j: int|
                        0 <= j < i ==> !#[trigger] old(self).bounding_boxes@[j].contains(x as int, y as int),
                None => forall|i: int|
                    0 <= i < old(self).bounding_boxes@.len() ==> !#[trigger] old(self).bounding_boxes@[i].contains(
                        x as int,
                        y as int,
                    ),
            },
    {
        let mut i: usize = 0;
        while i < self.bounding_boxes.len()
            invariant
                i <= self.bounding_boxes@.len(),
                forall|j: int| 0 <= j < i ==> !#[trigger] self.bounding_boxes@[j].contains(x as int, y as int),
            decreases self.bounding_boxes@.len() - i,
        {
            let b = &self.bounding_boxes[i];
            if b.upper_left.0 <= x && b.lower_right.0 >= x && b.upper_left.1 <= y && b.lower_right.1 >= y {
                assert(self.bounding_boxes@[i as int].contains(x as int, y as int));
                return Some(b.id);
            }
            i += 1;
        }
        None
    }

    /// Tints the area of every box, so that the boxes can be seen.
    pub fn draw_boxes(&mut self)
        requires
            forall|i: int|
                0 <= i < old(self).bounding_boxes@.len() ==> box_fits(
                    #[trigger] old(self).bounding_boxes@[i],
                    old(self).window_width as int,
                    old(self).buffer@.len() as int,
                ),
        ensures
            final(self).buffer@ == tint_boxes(
                old(self).buffer@,
                old(self).bounding_boxes@,
                old(self).window_width as int,
                old(self).bounding_boxes@.len() as int,
            ),
            final(self).window_width == old(self).window_width,
            final(self).window_height == old(self).window_height,
            final(self).bounding_boxes@ == old(self).bounding_boxes@,
    {
        let ghost start = self.buffer@;
        let ww = self.window_width;
        let mut i: usize = 0;
        while i < self.bounding_boxes.len()
            invariant
                ww == self.window_width,
                self.window_width == old(self).window_width,
                self.window_height == old(self).window_height,
                self.bounding_boxes@ == old(self).bounding_boxes@,
                start == old(self).buffer@,
                i <= self.bounding_boxes@.len(),
                forall|k: int|
                    0 <= k < self.bounding_boxes@.len() ==> box_fits(
                        #[trigger] self.bounding_boxes@[k],
                        ww as int,
                        start.len() as int,
                    ),
                self.buffer@ == tint_boxes(start, self.bounding_boxes@, ww as int, i as int),
            decreases self.bounding_boxes@.len() - i,
        {
            let ghost before = self.buffer@;
            let ghost b = self.bounding_boxes@[i as int];
            proof {
                lemma_tint_len(start, self.bounding_boxes@, ww as int, i as int);
            }
            assert(box_fits(b, ww as int, before.len() as int));
            let ulx = self.bounding_boxes[i].upper_left.0;
            let uly = self.bounding_boxes[i].upper_left.1;
            let lrx = self.bounding_boxes[i].lower_right.0;
            let lry = self.bounding_boxes[i].lower_right.1;
            let mut x = ulx;
            while x < lrx
                invariant
                    ww == self.window_width,
                    self.window_width == old(self).window_width,
                    self.window_height == old(self).window_height,
                    self.bounding_boxes@ == old(self).bounding_boxes@,
                    b == self.bounding_boxes@[i as int],
                    ulx == b.upper_left.0,
                    uly == b.upper_left.1,
                    lrx == b.lower_right.0,
                    lry == b.lower_right.1,
                    box_fits(b, ww as int, before.len() as int),
                    ulx <= x,
                    x <= lrx || x == ulx,
                    self.buffer@.len() == before.len(),
                    forall|p: int|
                        0 <= p < before.len() ==> #[trigger] self.buffer@[p] == if exists|xx: int, yy: int|
                            ulx <= xx < x && uly <= yy < lry && #[trigger] (yy * ww + xx) == p {
                            before[p] | BOX_TINT
                        } else {
                            before[p]
                        },
                decreases lrx - x,
            {
                let mut y = uly;
                while y < lry
                    invariant
                        ww == self.window_width,
                        self.window_width == old(self).window_width,
                        self.window_height == old(self).window_height,
                        self.bounding_boxes@ == old(self).bounding_boxes@,
                        ulx <= x < lrx,
                        uly <= y,
                        y <= lry || y == uly,
                        box_fits(b, ww as int, before.len() as int),
                        b == self.bounding_boxes@[i as int],
                        lry == b.lower_right.1,
                        lrx == b.lower_right.0,
                        ulx == b.upper_left.0,
                        uly == b.upper_left.1,
                        self.buffer@.len() == before.len(),
                        forall|p: int|
                            0 <= p < before.len() ==> #[trigger] self.buffer@[p] == if (exists|xx: int, yy: int|
                                ulx <= xx < x && uly <= yy < lry && #[trigger] (yy * ww + xx) == p) || (exists|yy: int|
                                uly <= yy < y && #[trigger] (yy * ww + x) == p) {
                                before[p] | BOX_TINT
                            } else {
                                before[p]
                            },
                    decreases lry - y,
                {
                    let blen = self.buffer.len();
                    proof {
                        lemma_mul_le(y as int, lry - 1, ww as int);
                        assert((lry - 1) * ww + (lrx - 1) < before.len());
                        assert(y * ww + x <= (lry - 1) * ww + (lrx - 1));
                        assert(blen == before.len());
                    }
                    let screen_pos = y * ww + x;
                    let ghost cur = self.buffer@;
                    let v = self.buffer[screen_pos];
                    self.buffer.set(screen_pos, BOX_TINT | v);
                    proof {
                        assert(BOX_TINT | v == v | BOX_TINT) by (bit_vector);
                        lemma_or_tint(before[screen_pos as int]);
                        assert forall|p: int| 0 <= p < before.len() implies #[trigger] self.buffer@[p] == if (exists|
                            xx: int,
                            yy: int,
                        | ulx <= xx < x && uly <= yy < lry && #[trigger] (yy * ww + xx) == p) || (exists|yy: int|
                            uly <= yy < y + 1 && #[trigger] (yy * ww + x) == p) {
                            before[p] | BOX_TINT
                        } else {
                            before[p]
                        } by {
                            if p == screen_pos {
                                assert(uly <= y < y + 1 && y * ww + x == p);
                            } else {
                                assert(self.buffer@[p] == cur[p]);
                                if exists|yy: int| uly <= yy < y + 1 && #[trigger] (yy * ww + x) == p {
                                    let yy = choose|yy: int| uly <= yy < y + 1 && #[trigger] (yy * ww + x) == p;
                                    assert(yy != y);
                                    assert(uly <= yy < y && yy * ww + x == p);
                                }
                            }
                        }
                    }
                    y += 1;
                }
                proof {
                    assert forall|p: int| 0 <= p < before.len() implies #[trigger] self.buffer@[p] == if exists|
                        xx: int,
                        yy: int,
                    | ulx <= xx < x + 1 && uly <= yy < lry && #[trigger] (yy * ww + xx) == p {
                        before[p] | BOX_TINT
                    } else {
                        before[p]
                    } by {
                        if exists|xx: int, yy: int| ulx <= xx < x + 1 && uly <= yy < lry && #[trigger] (yy * ww + xx) == p {
                            let (xx, yy) = choose|xx: int, yy: int|
                                ulx <= xx < x + 1 && uly <= yy < lry && #[trigger] (yy * ww + xx) == p;
                            if xx == x {
                                assert(uly <= yy < y && yy * ww + x == p);
                            } else {
                                assert(ulx <= xx < x && uly <= yy < lry && yy * ww + xx == p);
                            }
                        }
                    }
                }
                x += 1;
            }
            proof {
                assert forall|p: int| 0 <= p < before.len() implies #[trigger] self.buffer@[p] == tint_box(
                    before,
                    b,
                    ww as int,
                )[p] by {
                    if in_box_area(b, ww as int, p) {
                        let (xx, yy) = choose|xx: int, yy: int|
                            b.upper_left.0 <= xx < b.lower_right.0 && b.upper_left.1 <= yy < b.lower_right.1
                                && #[trigger] (yy * ww + xx) == p;
                        assert(ulx <= xx < x && uly <= yy < lry && yy * ww + xx == p);
                    }
                }
                assert(self.buffer@ =~= tint_box(before, b, ww as int));
            }
            i += 1;
        }
    }

    /// Draws an image of RGB triples, `image.0` pixels wide, with its
    /// upper-left corner at `pos`; each pixel replaces the buffer's word.
    pub fn buffer_write(&mut self, image: (u16, u16, Vec<u8>), pos: (usize, usize))
        requires
            image.2@.len() % 3 == 0,
            forall|p: int|
                0 <= p < image.2@.len() / 3 ==> #[trigger] image_target(
                    p,
                    image.0 as int,
                    pos,
                    old(self).window_width as int,
                ) < old(self).buffer@.len() && pos.1 + image_row(p, image.0 as int) <= usize::MAX,
        ensures
            final(self).buffer@ == draw_pixels(
                old(self).buffer@,
                rgb_words(image.2@),
                (image.2@.len() / 3) as int,
                image.0 as int,
                pos,
                old(self).window_width as int,
            ),
            final(self).window_width == old(self).window_width,
            final(self).window_height == old(self).window_height,
            final(self).bounding_boxes@ == old(self).bounding_boxes@,
    {
        let pixels: Vec<u32> = rgb_to_words(&image.2);
        let ghost start = self.buffer@;
        let ghost w = image.0 as int;
        let ww = self.window_width;
        let mut row: usize = 0;
        let mut col: usize = 0;
        let mut p: usize = 0;
        while p < pixels.len()
            invariant
                ww == self.window_width,
                self.window_width == old(self).window_width,
                self.window_height == old(self).window_height,
                self.bounding_boxes@ == old(self).bounding_boxes@,
                start == old(self).buffer@,
                w == image.0 as int,
                pixels@ == rgb_words(image.2@),
                p <= pixels@.len(),
                row == image_row(p as int, w),
                col == image_col(p as int, w),
                forall|q: int|
                    0 <= q < pixels@.len() ==> #[trigger] image_target(q, w, pos, ww as int) < start.len() && pos.1
                        + image_row(q, w) <= usize::MAX,
                self.buffer@ == draw_pixels(start, pixels@, p as int, w, pos, ww as int),
            decreases pixels@.len() - p,
        {
            assert(image_target(p as int, w, pos, ww as int) < start.len());
            proof {
                assert(self.buffer@.len() == start.len()) by {
                    lemma_draw_len(start, pixels@, p as int, w, pos, ww as int);
                }
                assert(0 <= (pos.1 + row) * ww) by (nonlinear_arith)
                    requires
                        0 <= pos.1 + row,
                        0 <= ww,
                ;
                assert(pos.1 + image_row(p as int, w) <= usize::MAX);
            }
            let blen = self.buffer.len();
            assert(blen == start.len());
            assert((pos.1 + row) * ww + pos.0 + col < blen);
            let start_pos = (pos.1 + row) * ww + pos.0;
            self.buffer.set(start_pos + col, pixels[p]);
            col += 1;
            if col == image.0 as usize {
                col = 0;
                row += 1;
            }
            proof {
                lemma_row_col_step(p as int, w);
            }
            p += 1;
        }
    }
}

proof fn lemma_row_col_step(p: int, w: int)
    requires
        p >= 0,
        w >= 0,
    ensures
        image_col(p, w) + 1 == w ==> image_row(p + 1, w) == image_row(p, w) + 1 && image_col(p + 1, w) == 0,
        image_col(p, w) + 1 != w ==> image_row(p + 1, w) == image_row(p, w) && image_col(p + 1, w) == image_col(p, w) + 1,
{
    if w > 0 {
        vstd::arithmetic::div_mod::lemma_fundamental_div_mod(p, w);
        vstd::arithmetic::div_mod::lemma_fundamental_div_mod(p + 1, w);
        let q = p / w;
        let r = p % w;
        let q1 = (p + 1) / w;
        let r1 = (p + 1) % w;
        if r + 1 == w {
            assert(q1 == q + 1 && r1 == 0) by (nonlinear_arith)
                requires
                    w > 0,
                    p == w * q + r,
                    p + 1 == w * q1 + r1,
                    0 <= r1 < w,
                    r + 1 == w,
            ;
        } else {
            assert(q1 == q && r1 == r + 1) by (nonlinear_arith)
                requires
                    w > 0,
                    p == w * q + r,
                    p + 1 == w * q1 + r1,
                    0 <= r1 < w,
                    0 <= r,
                    r + 1 < w,
            ;
        }
    }
}

proof fn lemma_tint_len(buf: Seq<u32>, boxes: Seq<BoundBox>, width: int, k: int)
    ensures
        tint_boxes(buf, boxes, width, k).len() == buf.len(),
    decreases k,
{
    if k > 0 {
        lemma_tint_len(buf, boxes, width, k - 1);
    }
}

proof fn lemma_draw_len(buf: Seq<u32>, pixels: Seq<u32>, k: int, w: int, pos: (usize, usize), width: int)
    requires
        forall|q: int| 0 <= q < k ==> #[trigger] image_target(q, w, pos, width) < buf.len(),
        forall|q: int| 0 <= q < k ==> #[trigger] image_target(q, w, pos, width) >= 0,
    ensures
        draw_pixels(buf, pixels, k, w, pos, width).len() == buf.len(),
    decreases k,
{
    if k > 0 {
        lemma_draw_len(buf, pixels, k - 1, w, pos, width);
    }
}

/// The timers among the first `k` that have run out, last first: timer `j`
/// has run out once its elapsed time reaches its duration.
pub open spec fn expired_before(elapsed: Seq<u128>, durations: Seq<u128>, k: int) -> Seq<usize>
    decreases k,
{
    if k <= 0 {
        Seq::empty()
    } else if elapsed[k - 1] >= durations[k - 1] {
        seq![(k - 1) as usize] + expired_before(elapsed, durations, k - 1)
    } else {
        expired_before(elapsed, durations, k - 1)
    }
}

/// The positions of the timers that have run out, last first, so that each
/// can be removed in turn without moving those still to come; timer `j` has
/// run out once `elapsed[j]` reaches `durations[j]` (in any one unit).
pub fn expired_timers(elapsed: &Vec<u128>, durations: &Vec<u128>) -> (r: Vec<usize>)
    requires
        elapsed@.len() == durations@.len(),
    ensures
        r@ == expired_before(elapsed@, durations@, elapsed@.len() as int),
{
    let mut r: Vec<usize> = Vec::new();
    let mut i: usize = elapsed.len();
    while i > 0
        invariant
            i <= elapsed@.len(),
            elapsed@.len() == durations@.len(),
            r@ + expired_before(elapsed@, durations@, i as int) == expired_before(
                elapsed@,
                durations@,
                elapsed@.len() as int,
            ),
        decreases i,
    {
        let ghost before = r@;
        if elapsed[i - 1] >= durations[i - 1] {
            r.push(i - 1);
            assert(before + (seq![(i - 1) as usize] + expired_before(elapsed@, durations@, i - 1)) =~= r@
                + expired_before(elapsed@, durations@, i - 1));
        }
        i -= 1;
    }
    assert(r@ + expired_before(elapsed@, durations@, 0) =~= r@);
    r
}

} // verus!
