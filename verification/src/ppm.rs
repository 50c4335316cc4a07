//! The plain-text (`P3`) PPM encoder.
//!
//! The image body lists the R, G and B samples of every pixel in row-major
//! order. `P3` treats any whitespace as a separator, so line breaks need not
//! match image rows: the encoder keeps the three samples of a pixel on one
//! line and wraps greedily so that no line exceeds [`MAX_PPM_LINE_LEN`]
//! characters.

use vstd::prelude::*;
use crate::decimal::{
    decimal_text, digits_value, is_digit, lemma_decimal_text_digits, lemma_decimal_text_short,
    lemma_digits_value_of_text, push_decimal,
};

verus! {

/// The traditional Netpbm limit on the length of a text line.
pub const MAX_PPM_LINE_LEN: usize = 70;

/// ASCII space.
pub const SPACE: u8 = 32;

/// ASCII line feed.
pub const NEWLINE: u8 = 10;

/// The largest sample value written in the header.
pub const MAX_SAMPLE: u64 = 255;

/// One output pixel, as gamma-corrected 8-bit samples.
#[derive(Clone, Copy, Debug, PartialEq, Eq, Structural)]
pub struct Rgb8 {
    pub r: u8,
    pub g: u8,
    pub b: u8,
}

impl Rgb8 {
    /// A pixel with the given samples.
    pub fn new(r: u8, g: u8, b: u8) -> (p: Rgb8)
        ensures
            p == (Rgb8 { r, g, b }),
    {
        Rgb8 { r, g, b }
    }
}

/// The text of one pixel: its three samples separated by single spaces.
pub open spec fn pixel_text(p: Rgb8) -> Seq<u8> {
    decimal_text(p.r as nat) + seq![SPACE] + decimal_text(p.g as nat) + seq![SPACE]
        + decimal_text(p.b as nat)
}

/// The texts of all pixels, in order.
pub open spec fn pixel_texts(pixels: Seq<Rgb8>) -> Seq<Seq<u8>> {
    pixels.map_values(|p: Rgb8| pixel_text(p))
}

/// Words joined by single spaces.
pub open spec fn join_words(words: Seq<Seq<u8>>) -> Seq<u8>
    decreases words.len(),
{
    if words.len() == 0 {
        seq![]
    } else if words.len() == 1 {
        words[0]
    } else {
        join_words(words.drop_last()) + seq![SPACE] + words.last()
    }
}

/// Greedy line filling. `group` holds the words already on the current line;
/// a word goes on the current line unless the line is non-empty and the
/// word, with its separating space, would push it past the limit, in which
/// case the current line is closed and the word starts the next one.
pub open spec fn wrap_groups_from(words: Seq<Seq<u8>>, group: Seq<Seq<u8>>) -> Seq<
    Seq<Seq<u8>>,
>
    decreases words.len(),
{
    if words.len() == 0 {
        if group.len() == 0 {
            seq![]
        } else {
            seq![group]
        }
    } else if group.len() > 0 && join_words(group).len() + 1 + words[0].len()
        > MAX_PPM_LINE_LEN {
        seq![group] + wrap_groups_from(words.drop_first(), seq![words[0]])
    } else {
        wrap_groups_from(words.drop_first(), group.push(words[0]))
    }
}

/// The words of each body line, from the first line to the last.
pub open spec fn wrap_groups(words: Seq<Seq<u8>>) -> Seq<Seq<Seq<u8>>> {
    wrap_groups_from(words, seq![])
}

/// The pixels of each body line, as pixel texts.
pub open spec fn ppm_groups(pixels: Seq<Rgb8>) -> Seq<Seq<Seq<u8>>> {
    wrap_groups(pixel_texts(pixels))
}

/// The body lines, without their line feeds.
pub open spec fn ppm_lines(pixels: Seq<Rgb8>) -> Seq<Seq<u8>> {
    ppm_groups(pixels).map_values(|g: Seq<Seq<u8>>| join_words(g))
}

/// Lines, each followed by a line feed.
pub open spec fn text_lines(lines: Seq<Seq<u8>>) -> Seq<u8>
    decreases lines.len(),
{
    if lines.len() == 0 {
        seq![]
    } else {
        text_lines(lines.drop_last()) + lines.last() + seq![NEWLINE]
    }
}

/// The three header lines: the magic number `P3`, the width and height,
/// and the largest sample value.
pub open spec fn ppm_header(width: nat, height: nat) -> Seq<u8> {
    seq![80u8, 51u8, NEWLINE] + decimal_text(width) + seq![SPACE] + decimal_text(height)
        + seq![NEWLINE] + decimal_text(MAX_SAMPLE as nat) + seq![NEWLINE]
}

/// The whole `P3` file.
pub open spec fn ppm_text(width: nat, height: nat, pixels: Seq<Rgb8>) -> Seq<u8> {
    ppm_header(width, height) + text_lines(ppm_lines(pixels))
}

fn append_bytes(out: &mut Vec<u8>, src: &Vec<u8>)
    ensures
        final(out)@ == old(out)@ + src@,
{
    let n = src.len();
    for i in 0..n
        invariant
            n == src@.len(),
            out@ == old(out)@ + src@.take(i as int),
    {
        out.push(src[i]);
        assert(src@.take(i + 1) =~= src@.take(i as int).push(src@[i as int]));
    }
    assert(src@.take(n as int) =~= src@);
}

fn encode_pixel(p: Rgb8) -> (text: Vec<u8>)
    ensures
        text@ == pixel_text(p),
        5 <= text@.len() <= 11,
{
    let mut text: Vec<u8> = Vec::new();
    push_decimal(&mut text, p.r as u64);
    text.push(SPACE);
    push_decimal(&mut text, p.g as u64);
    text.push(SPACE);
    push_decimal(&mut text, p.b as u64);
    proof {
        lemma_decimal_text_short(p.r as nat);
        lemma_decimal_text_short(p.g as nat);
        lemma_decimal_text_short(p.b as nat);
        assert(text@ =~= pixel_text(p));
    }
    text
}

proof fn lemma_join_push(group: Seq<Seq<u8>>, w: Seq<u8>)
    ensures
        group.len() == 0 ==> join_words(group.push(w)) == w,
        group.len() > 0 ==> join_words(group.push(w)) == join_words(group) + seq![SPACE] + w,
{
    assert(group.push(w).drop_last() =~= group);
    assert(group.push(w).last() == w);
    if group.len() == 0 {
        assert(group.push(w)[0] == w);
    }
}

proof fn lemma_text_lines_push(lines: Seq<Seq<u8>>, l: Seq<u8>)
    ensures
        text_lines(lines.push(l)) == text_lines(lines) + l + seq![NEWLINE],
{
    assert(lines.push(l).drop_last() =~= lines);
}

/// Appends the `P3` encoding of a `width` by `height` image to `out`.
/// `pixels` lists the image row by row, from the top-left pixel to the
/// bottom-right one.
pub fn write_ppm(out: &mut Vec<u8>, width: usize, height: usize, pixels: &[Rgb8])
    requires
        pixels@.len() == width * height,
    ensures
        final(out)@ == old(out)@ + ppm_text(width as nat, height as nat, pixels@),
{
    let ghost start = out@;
    out.push(80u8);
    out.push(51u8);
    out.push(NEWLINE);
    push_decimal(out, width as u64);
    out.push(SPACE);
    push_decimal(out, height as u64);
    out.push(NEWLINE);
    push_decimal(out, MAX_SAMPLE);
    out.push(NEWLINE);
    let ghost header = out@;
    assert(header =~= start + ppm_header(width as nat, height as nat));

    let ghost words = pixel_texts(pixels@);
    let ghost mut done: Seq<Seq<Seq<u8>>> = seq![];
    let ghost mut group: Seq<Seq<u8>> = seq![];
    let mut line: Vec<u8> = Vec::new();
    let n = pixels.len();
    assert(words.skip(0) =~= words);
    for i in 0..n
        invariant
            n == pixels@.len(),
            words == pixel_texts(pixels@),
            words.len() == n,
            done + wrap_groups_from(words.skip(i as int), group) == wrap_groups(words),
            line@ == join_words(group),
            group.len() == 0 <==> line@.len() == 0,
            line@.len() <= MAX_PPM_LINE_LEN,
            forall|k: int| 0 <= k < group.len() ==> (#[trigger] group[k]).len() > 0,
            out@ == header + text_lines(done.map_values(|g: Seq<Seq<u8>>| join_words(g))),
            header == start + ppm_header(width as nat, height as nat),
    {
        let p = pixels[i];
        let pixel = encode_pixel(p);
        let ghost rest = words.skip(i as int);
        assert(words[i as int] == pixel@);
        assert(rest[0] == pixel@);
        assert(rest.drop_first() =~= words.skip(i + 1));
        let separator_len: usize = if line.len() == 0 { 0 } else { 1 };
        if line.len() != 0 && line.len() + separator_len + pixel.len() > MAX_PPM_LINE_LEN {
            proof {
                let f = |g: Seq<Seq<u8>>| join_words(g);
                assert(done.push(group).map_values(f) =~= done.map_values(f).push(
                    join_words(group),
                ));
                lemma_text_lines_push(done.map_values(f), join_words(group));
                assert(done.push(group) + wrap_groups_from(words.skip(i + 1), seq![pixel@])
                    =~= done + wrap_groups_from(rest, group));
            }
            append_bytes(out, &line);
            out.push(NEWLINE);
            line.clear();
            proof {
                done = done.push(group);
                group = seq![];
            }
        }
        proof {
            lemma_join_push(group, pixel@);
        }
        if line.len() != 0 {
            line.push(SPACE);
        }
        append_bytes(&mut line, &pixel);
        proof {
            assert(wrap_groups_from(rest, group) == wrap_groups_from(
                words.skip(i + 1),
                group.push(pixel@),
            ));
            group = group.push(pixel@);
            assert(line@ =~= join_words(group));
        }
    }
    let ghost f = |g: Seq<Seq<u8>>| join_words(g);
    assert(words.skip(n as int) =~= Seq::<Seq<u8>>::empty());
    if line.len() != 0 {
        proof {
            assert(done.push(group).map_values(f) =~= done.map_values(f).push(join_words(group)));
            lemma_text_lines_push(done.map_values(f), join_words(group));
            assert(done + seq![group] =~= done.push(group));
        }
        append_bytes(out, &line);
        out.push(NEWLINE);
        proof {
            done = done.push(group);
        }
    } else {
        assert(done + Seq::<Seq<Seq<u8>>>::empty() =~= done);
    }
    assert(done == wrap_groups(words));
    assert(out@ =~= start + ppm_text(width as nat, height as nat, pixels@));
}

proof fn lemma_wrap_within_limit(words: Seq<Seq<u8>>, group: Seq<Seq<u8>>)
    requires
        forall|k: int| 0 <= k < words.len() ==> (#[trigger] words[k]).len() <= MAX_PPM_LINE_LEN,
        join_words(group).len() <= MAX_PPM_LINE_LEN,
    ensures
        forall|k: int|
            0 <= k < wrap_groups_from(words, group).len() ==> join_words(
                #[trigger] wrap_groups_from(words, group)[k],
            ).len() <= MAX_PPM_LINE_LEN,
    decreases words.len(),
{
    if words.len() == 0 {
        if group.len() > 0 {
            assert(wrap_groups_from(words, group) =~= seq![group]);
        }
    } else {
        let w = words[0];
        let tail = words.drop_first();
        assert forall|k: int| 0 <= k < tail.len() implies (#[trigger] tail[k]).len()
            <= MAX_PPM_LINE_LEN by {
            assert(tail[k] == words[k + 1]);
        }
        lemma_join_push(group, w);
        if group.len() > 0 && join_words(group).len() + 1 + w.len() > MAX_PPM_LINE_LEN {
            lemma_join_push(Seq::<Seq<u8>>::empty(), w);
            assert(seq![w] =~= Seq::<Seq<u8>>::empty().push(w));
            lemma_wrap_within_limit(tail, seq![w]);
            let rest = wrap_groups_from(tail, seq![w]);
            assert forall|k: int|
                0 <= k < wrap_groups_from(words, group).len() implies join_words(
                #[trigger] wrap_groups_from(words, group)[k],
            ).len() <= MAX_PPM_LINE_LEN by {
                if k > 0 {
                    assert(wrap_groups_from(words, group)[k] == rest[k - 1]);
                } else {
                    assert(wrap_groups_from(words, group)[k] == group);
                }
            }
        } else {
            lemma_wrap_within_limit(tail, group.push(w));
            assert(wrap_groups_from(words, group) == wrap_groups_from(tail, group.push(w)));
        }
    }
}

proof fn lemma_wrap_keeps_words(words: Seq<Seq<u8>>, group: Seq<Seq<u8>>)
    ensures
        wrap_groups_from(words, group).flatten() == group + words,
        forall|k: int|
            0 <= k < wrap_groups_from(words, group).len() ==> (#[trigger] wrap_groups_from(
                words,
                group,
            )[k]).len() > 0,
    decreases words.len(),
{
    broadcast use Seq::lemma_flatten_singleton;

    if words.len() == 0 {
        assert(group + words =~= group);
        if group.len() == 0 {
            assert(wrap_groups_from(words, group).flatten() =~= group);
        }
    } else {
        let w = words[0];
        let tail = words.drop_first();
        if group.len() > 0 && join_words(group).len() + 1 + w.len() > MAX_PPM_LINE_LEN {
            lemma_wrap_keeps_words(tail, seq![w]);
            let rest = wrap_groups_from(tail, seq![w]);
            vstd::seq_lib::lemma_flatten_concat(seq![group], rest);
            assert(seq![w] + tail =~= words);
            assert(wrap_groups_from(words, group).flatten() =~= group + words);
            assert forall|k: int| 0 <= k < wrap_groups_from(words, group).len() implies (
            #[trigger] wrap_groups_from(words, group)[k]).len() > 0 by {
                if k > 0 {
                    assert(wrap_groups_from(words, group)[k] == rest[k - 1]);
                }
            }
        } else {
            lemma_wrap_keeps_words(tail, group.push(w));
            assert(group.push(w) + tail =~= group + words);
        }
    }
}

/// No body line is longer than [`MAX_PPM_LINE_LEN`] characters.
pub proof fn lemma_ppm_lines_within_limit(pixels: Seq<Rgb8>)
    ensures
        forall|k: int|
            0 <= k < ppm_lines(pixels).len() ==> (#[trigger] ppm_lines(pixels)[k]).len() <= 70,
{
    let words = pixel_texts(pixels);
    assert forall|k: int| 0 <= k < words.len() implies (#[trigger] words[k]).len()
        <= MAX_PPM_LINE_LEN by {
        lemma_decimal_text_short(pixels[k].r as nat);
        lemma_decimal_text_short(pixels[k].g as nat);
        lemma_decimal_text_short(pixels[k].b as nat);
    }
    lemma_wrap_within_limit(words, seq![]);
}

/// The body keeps every pixel, in row-major order, and never splits a pixel
/// across lines: each line holds the texts of one or more whole pixels, and
/// reading the lines' pixels in order gives back exactly the image's pixels.
pub proof fn lemma_ppm_lines_keep_pixels(pixels: Seq<Rgb8>)
    ensures
        ppm_groups(pixels).flatten() == pixel_texts(pixels),
        forall|k: int|
            0 <= k < ppm_groups(pixels).len() ==> (#[trigger] ppm_groups(pixels)[k]).len() > 0,
        ppm_lines(pixels).len() == ppm_groups(pixels).len(),
        forall|k: int|
            0 <= k < ppm_lines(pixels).len() ==> #[trigger] ppm_lines(pixels)[k] == join_words(
                ppm_groups(pixels)[k],
            ),
{
    lemma_wrap_keeps_words(pixel_texts(pixels), seq![]);
    assert(Seq::<Seq<u8>>::empty() + pixel_texts(pixels) =~= pixel_texts(pixels));
}

proof fn lemma_wrap_first_word(words: Seq<Seq<u8>>, group: Seq<Seq<u8>>)
    requires
        group.len() > 0 || words.len() > 0,
    ensures
        wrap_groups_from(words, group).len() > 0,
        wrap_groups_from(words, group)[0].len() > 0,
        wrap_groups_from(words, group)[0][0] == if group.len() > 0 {
            group[0]
        } else {
            words[0]
        },
    decreases words.len(),
{
    if words.len() == 0 {
        assert(wrap_groups_from(words, group) =~= seq![group]);
    } else {
        let w = words[0];
        let tail = words.drop_first();
        if group.len() > 0 && join_words(group).len() + 1 + w.len() > MAX_PPM_LINE_LEN {
            assert(wrap_groups_from(words, group)[0] == group);
        } else {
            lemma_wrap_first_word(tail, group.push(w));
            assert(group.push(w)[0] == if group.len() > 0 {
                group[0]
            } else {
                w
            });
        }
    }
}

proof fn lemma_wrap_breaks_only_when_full(words: Seq<Seq<u8>>, group: Seq<Seq<u8>>)
    ensures
        forall|k: int|
            0 <= k < wrap_groups_from(words, group).len() - 1 ==> join_words(
                #[trigger] wrap_groups_from(words, group)[k],
            ).len() + 1 + wrap_groups_from(words, group)[k + 1][0].len() > MAX_PPM_LINE_LEN,
    decreases words.len(),
{
    if words.len() == 0 {
        assert(wrap_groups_from(words, group).len() <= 1);
    } else {
        let w = words[0];
        let tail = words.drop_first();
        if group.len() > 0 && join_words(group).len() + 1 + w.len() > MAX_PPM_LINE_LEN {
            let rest = wrap_groups_from(tail, seq![w]);
            lemma_wrap_breaks_only_when_full(tail, seq![w]);
            lemma_wrap_first_word(tail, seq![w]);
            let all = wrap_groups_from(words, group);
            assert(all == seq![group] + rest);
            assert forall|k: int| 0 <= k < all.len() - 1 implies join_words(#[trigger] all[k]).len()
                + 1 + all[k + 1][0].len() > MAX_PPM_LINE_LEN by {
                assert(all[k + 1] == rest[k]);
                if k > 0 {
                    assert(all[k] == rest[k - 1]);
                } else {
                    assert(all[k] == group);
                }
            }
        } else {
            lemma_wrap_breaks_only_when_full(tail, group.push(w));
            assert(wrap_groups_from(words, group) == wrap_groups_from(tail, group.push(w)));
        }
    }
}

/// Lines are filled greedily: a line ends only where the next pixel, with
/// its separating space, would push it past [`MAX_PPM_LINE_LEN`] characters.
pub proof fn lemma_ppm_lines_break_only_when_full(pixels: Seq<Rgb8>)
    ensures
        forall|k: int|
            0 <= k < ppm_lines(pixels).len() - 1 ==> (#[trigger] ppm_lines(pixels)[k]).len() + 1
                + ppm_groups(pixels)[k + 1][0].len() > 70,
{
    lemma_wrap_breaks_only_when_full(pixel_texts(pixels), seq![]);
    assert forall|k: int| 0 <= k < ppm_lines(pixels).len() - 1 implies (
    #[trigger] ppm_lines(pixels)[k]).len() + 1 + ppm_groups(pixels)[k + 1][0].len()
        > MAX_PPM_LINE_LEN by {
        assert(ppm_lines(pixels)[k] == join_words(ppm_groups(pixels)[k]));
    }
}

/// The header declares the image's size: the file starts with `P3` and a line
/// feed; then come the digits of the width, one space, the digits of the
/// height and a line feed; then `255` and a line feed. Read back as decimal
/// numbers, the two runs of digits are the width and the height.
pub proof fn lemma_ppm_header_declares_size(width: nat, height: nat, pixels: Seq<Rgb8>)
    ensures
        ({
            let t = ppm_text(width, height, pixels);
            exists|i: int, j: int|
                #![trigger t.subrange(3, i), t.subrange(i + 1, j)]
                {
                    &&& 3 < i
                    &&& i + 1 < j
                    &&& j + 4 < t.len()
                    &&& t[0] == 80u8 && t[1] == 51u8 && t[2] == 10u8
                    &&& forall|k: int| 3 <= k < i ==> is_digit(#[trigger] t[k])
                    &&& digits_value(t.subrange(3, i)) == width
                    &&& t[i] == 32u8
                    &&& forall|k: int| i < k < j ==> is_digit(#[trigger] t[k])
                    &&& digits_value(t.subrange(i + 1, j)) == height
                    &&& t[j] == 10u8
                    &&& t[j + 1] == 50u8 && t[j + 2] == 53u8 && t[j + 3] == 53u8 && t[j + 4]
                        == 10u8
                }
        }),
{
    let t = ppm_text(width, height, pixels);
    let dw = decimal_text(width);
    let dh = decimal_text(height);
    lemma_decimal_text_digits(width);
    lemma_decimal_text_digits(height);
    lemma_digits_value_of_text(width);
    lemma_digits_value_of_text(height);
    reveal_with_fuel(decimal_text, 4);
    assert(decimal_text(255) =~= seq![50u8, 53u8, 53u8]);
    let i: int = 3 + dw.len() as int;
    let j: int = i + 1 + dh.len() as int;
    let head = seq![80u8, 51u8, NEWLINE] + dw + seq![SPACE] + dh + seq![NEWLINE] + seq![
        50u8,
        53u8,
        53u8,
    ] + seq![NEWLINE];
    assert(ppm_header(width, height) == head);
    assert(t == head + text_lines(ppm_lines(pixels)));
    assert(t.subrange(3, i) =~= dw);
    assert(t.subrange(i + 1, j) =~= dh);
    assert forall|k: int| 3 <= k < i implies is_digit(#[trigger] t[k]) by {
        assert(t[k] == dw[k - 3]);
    }
    assert forall|k: int| i < k < j implies is_digit(#[trigger] t[k]) by {
        assert(t[k] == dh[k - i - 1]);
    }
    assert(t[i] == 32u8);
    assert(t[j] == 10u8);
    assert(t[j + 1] == 50u8 && t[j + 2] == 53u8 && t[j + 3] == 53u8 && t[j + 4] == 10u8);
}

/// Bytes that may appear in the image body: digits, spaces and line feeds.
pub open spec fn is_body_byte(b: u8) -> bool {
    is_digit(b) || b == 32u8 || b == 10u8
}

/// Bytes that may appear inside a body line: digits and spaces.
pub open spec fn is_line_byte(b: u8) -> bool {
    is_digit(b) || b == 32u8
}

proof fn lemma_pixel_text_bytes(p: Rgb8)
    ensures
        forall|k: int| 0 <= k < pixel_text(p).len() ==> is_line_byte(#[trigger] pixel_text(p)[k]),
{
    lemma_decimal_text_digits(p.r as nat);
    lemma_decimal_text_digits(p.g as nat);
    lemma_decimal_text_digits(p.b as nat);
    let a = decimal_text(p.r as nat);
    let b = decimal_text(p.g as nat);
    let c = decimal_text(p.b as nat);
    let t = pixel_text(p);
    assert forall|k: int| 0 <= k < t.len() implies is_line_byte(#[trigger] t[k]) by {
        if k < a.len() {
            assert(t[k] == a[k]);
        } else if k == a.len() {
        } else if k < a.len() + 1 + b.len() {
            assert(t[k] == b[k - a.len() - 1]);
        } else if k == a.len() + 1 + b.len() {
        } else {
            assert(t[k] == c[k - a.len() - 2 - b.len()]);
        }
    }
}

/// Whether every byte of every word is a digit or a space.
spec fn words_ok(words: Seq<Seq<u8>>) -> bool {
    forall|w: int, k: int|
        0 <= w < words.len() && 0 <= k < words[w].len() ==> is_line_byte(#[trigger] words[w][k])
}

proof fn lemma_join_bytes(words: Seq<Seq<u8>>)
    requires
        words_ok(words),
    ensures
        forall|k: int| 0 <= k < join_words(words).len() ==> is_line_byte(#[trigger] join_words(words)[k]),
    decreases words.len(),
{
    if words.len() == 1 {
        assert forall|k: int| 0 <= k < join_words(words).len() implies is_line_byte(
            #[trigger] join_words(words)[k],
        ) by {
            assert(join_words(words)[k] == words[0][k]);
        }
    } else if words.len() > 1 {
        let front = words.drop_last();
        assert(words_ok(front)) by {
            assert forall|w: int, k: int|
                0 <= w < front.len() && 0 <= k < front[w].len() implies is_line_byte(
                #[trigger] front[w][k],
            ) by {
                assert(front[w] == words[w]);
            }
        }
        lemma_join_bytes(front);
        let a = join_words(front);
        let l = words.last();
        assert(l == words[words.len() - 1]);
        assert forall|k: int| 0 <= k < join_words(words).len() implies is_line_byte(
            #[trigger] join_words(words)[k],
        ) by {
            if k < a.len() {
                assert(join_words(words)[k] == a[k]);
            } else if k > a.len() {
                assert(join_words(words)[k] == l[k - a.len() - 1]);
            }
        }
    }
}

proof fn lemma_text_lines_bytes(lines: Seq<Seq<u8>>)
    requires
        forall|l: int, k: int|
            0 <= l < lines.len() && 0 <= k < lines[l].len() ==> is_line_byte(#[trigger] lines[l][k]),
    ensures
        forall|k: int| 0 <= k < text_lines(lines).len() ==> is_body_byte(#[trigger] text_lines(lines)[k]),
        lines.len() > 0 ==> text_lines(lines).last() == 10u8,
    decreases lines.len(),
{
    if lines.len() > 0 {
        let front = lines.drop_last();
        assert forall|l: int, k: int|
            0 <= l < front.len() && 0 <= k < front[l].len() implies is_line_byte(
            #[trigger] front[l][k],
        ) by {
            assert(front[l] == lines[l]);
        }
        lemma_text_lines_bytes(front);
        let a = text_lines(front);
        let last = lines.last();
        assert(last == lines[lines.len() - 1]);
        assert forall|k: int| 0 <= k < text_lines(lines).len() implies is_body_byte(
            #[trigger] text_lines(lines)[k],
        ) by {
            if k < a.len() {
                assert(text_lines(lines)[k] == a[k]);
            } else if k < a.len() + last.len() {
                assert(text_lines(lines)[k] == last[k - a.len()]);
                assert(is_line_byte(lines[lines.len() - 1][k - a.len()]));
            }
        }
    }
}

proof fn lemma_wrap_words_ok(words: Seq<Seq<u8>>, group: Seq<Seq<u8>>)
    requires
        words_ok(words),
        words_ok(group),
    ensures
        forall|g: int|
            0 <= g < wrap_groups_from(words, group).len() ==> words_ok(
                #[trigger] wrap_groups_from(words, group)[g],
            ),
    decreases words.len(),
{
    if words.len() == 0 {
        if group.len() > 0 {
            assert(wrap_groups_from(words, group) =~= seq![group]);
        }
    } else {
        let w = words[0];
        let tail = words.drop_first();
        assert(words_ok(tail)) by {
            assert forall|a: int, k: int|
                0 <= a < tail.len() && 0 <= k < tail[a].len() implies is_line_byte(
                #[trigger] tail[a][k],
            ) by {
                assert(tail[a] == words[a + 1]);
            }
        }
        assert(words_ok(group.push(w))) by {
            assert forall|a: int, k: int|
                0 <= a < group.push(w).len() && 0 <= k < group.push(w)[a].len() implies is_line_byte(
                #[trigger] group.push(w)[a][k],
            ) by {
                if a < group.len() {
                    assert(group.push(w)[a] == group[a]);
                } else {
                    assert(group.push(w)[a] == words[0]);
                }
            }
        }
        assert(words_ok(seq![w])) by {
            assert forall|a: int, k: int|
                0 <= a < seq![w].len() && 0 <= k < seq![w][a].len() implies is_line_byte(
                #[trigger] seq![w][a][k],
            ) by {
                assert(seq![w][a] == words[0]);
            }
        }
        if group.len() > 0 && join_words(group).len() + 1 + w.len() > MAX_PPM_LINE_LEN {
            lemma_wrap_words_ok(tail, seq![w]);
            let rest = wrap_groups_from(tail, seq![w]);
            let all = wrap_groups_from(words, group);
            assert(all == seq![group] + rest);
            assert forall|g: int| 0 <= g < all.len() implies words_ok(#[trigger] all[g]) by {
                if g > 0 {
                    assert(all[g] == rest[g - 1]);
                } else {
                    assert(all[g] == group);
                }
            }
        } else {
            lemma_wrap_words_ok(tail, group.push(w));
            assert(wrap_groups_from(words, group) == wrap_groups_from(tail, group.push(w)));
        }
    }
}

/// The body holds nothing but digits, spaces and line feeds, and every line
/// ends with a line feed.
pub proof fn lemma_ppm_body_bytes(pixels: Seq<Rgb8>)
    ensures
        forall|k: int|
            0 <= k < text_lines(ppm_lines(pixels)).len() ==> is_body_byte(
                #[trigger] text_lines(ppm_lines(pixels))[k],
            ),
        forall|l: int, k: int|
            0 <= l < ppm_lines(pixels).len() && 0 <= k < ppm_lines(pixels)[l].len() ==> is_line_byte(
                #[trigger] ppm_lines(pixels)[l][k],
            ),
        ppm_lines(pixels).len() > 0 ==> text_lines(ppm_lines(pixels)).last() == 10u8,
{
    let words = pixel_texts(pixels);
    assert(words_ok(words)) by {
        assert forall|w: int, k: int|
            0 <= w < words.len() && 0 <= k < words[w].len() implies is_line_byte(
            #[trigger] words[w][k],
        ) by {
            lemma_pixel_text_bytes(pixels[w]);
        }
    }
    assert(words_ok(Seq::<Seq<u8>>::empty()));
    lemma_wrap_words_ok(words, seq![]);
    let groups = ppm_groups(pixels);
    let lines = ppm_lines(pixels);
    assert forall|l: int, k: int|
        0 <= l < lines.len() && 0 <= k < lines[l].len() implies is_line_byte(
        #[trigger] lines[l][k],
    ) by {
        assert(words_ok(groups[l]));
        lemma_join_bytes(groups[l]);
        assert(lines[l] == join_words(groups[l]));
    }
    lemma_text_lines_bytes(lines);
}

/// A pixel's text is its red, green and blue samples, in that order, as
/// three runs of digits separated by single spaces.
pub proof fn lemma_pixel_text_reads_back(p: Rgb8)
    ensures
        ({
            let t = pixel_text(p);
            exists|i: int, j: int|
                #![trigger t.subrange(0, i), t.subrange(i + 1, j)]
                {
                    &&& 0 < i
                    &&& i + 1 < j
                    &&& j + 1 < t.len()
                    &&& forall|k: int| 0 <= k < i ==> is_digit(#[trigger] t[k])
                    &&& digits_value(t.subrange(0, i)) == p.r
                    &&& t[i] == 32u8
                    &&& forall|k: int| i < k < j ==> is_digit(#[trigger] t[k])
                    &&& digits_value(t.subrange(i + 1, j)) == p.g
                    &&& t[j] == 32u8
                    &&& forall|k: int| j < k < t.len() ==> is_digit(#[trigger] t[k])
                    &&& digits_value(t.subrange(j + 1, t.len() as int)) == p.b
                }
        }),
{
    let t = pixel_text(p);
    let a = decimal_text(p.r as nat);
    let b = decimal_text(p.g as nat);
    let c = decimal_text(p.b as nat);
    lemma_decimal_text_digits(p.r as nat);
    lemma_decimal_text_digits(p.g as nat);
    lemma_decimal_text_digits(p.b as nat);
    lemma_digits_value_of_text(p.r as nat);
    lemma_digits_value_of_text(p.g as nat);
    lemma_digits_value_of_text(p.b as nat);
    let i: int = a.len() as int;
    let j: int = i + 1 + b.len() as int;
    assert(t.subrange(0, i) =~= a);
    assert(t.subrange(i + 1, j) =~= b);
    assert(t.subrange(j + 1, t.len() as int) =~= c);
    assert forall|k: int| 0 <= k < i implies is_digit(#[trigger] t[k]) by {
        assert(t[k] == a[k]);
    }
    assert forall|k: int| i < k < j implies is_digit(#[trigger] t[k]) by {
        assert(t[k] == b[k - i - 1]);
    }
    assert forall|k: int| j < k < t.len() implies is_digit(#[trigger] t[k]) by {
        assert(t[k] == c[k - j - 1]);
    }
    assert(t[i] == 32u8);
    assert(t[j] == 32u8);
}

} // verus!
