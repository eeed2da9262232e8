use vstd::prelude::*;

use crate::scalar::Scalar;
use vstd::std_specs::iter::IteratorSpec;
use crate::vec3::{IVec3, Vec3};

verus! {

broadcast use vstd::string::group_string_axioms;

/// The character of the decimal digit `d` (0 to 9).
pub open spec fn digit_char(d: int) -> char {
    (48 + d) as char
}

/// The decimal notation of `n`, without leading zeros.
pub open spec fn decimal(n: nat) -> Seq<char>
    decreases n,
{
    if n < 10 {
        seq![digit_char(n as int)]
    } else {
        decimal(n / 10).push(digit_char((n % 10) as int))
    }
}

/// The text of a plain PPM (P3) header for an image of the given size, whose
/// samples range up to 255.
pub open spec fn header_text(width: nat, height: nat) -> Seq<char> {
    seq!['P', '3', '\n'] + decimal(width) + seq![' '] + decimal(height) + seq![
        '\n',
        '2',
        '5',
        '5',
        '\n',
    ]
}

/// The line of one pixel: its three samples in decimal, separated by spaces.
pub open spec fn pixel_text(p: IVec3) -> Seq<char> {
    decimal(p.0 as nat) + seq![' '] + decimal(p.1 as nat) + seq![' '] + decimal(p.2 as nat)
        + seq!['\n']
}

/// The text that a character becomes inside a comment: a line break starts a new
/// comment line.
pub open spec fn comment_piece(c: char) -> Seq<char> {
    if c == '\n' {
        seq!['\n', '#', ' ']
    } else {
        seq![c]
    }
}

/// `s` with `"# "` inserted after every line break.
pub open spec fn comment_body(s: Seq<char>) -> Seq<char>
    decreases s.len(),
{
    if s.len() == 0 {
        Seq::empty()
    } else {
        comment_body(s.drop_last()) + comment_piece(s.last())
    }
}

/// `s` as a PPM comment: every line of it starts with `"# "`.
pub open spec fn comment_text(s: Seq<char>) -> Seq<char> {
    seq!['#', ' '] + comment_body(s)
}

/// The lines of all pixels, in order.
pub open spec fn pixels_text(ps: Seq<IVec3>) -> Seq<char>
    decreases ps.len(),
{
    if ps.len() == 0 {
        Seq::empty()
    } else {
        pixels_text(ps.drop_last()) + pixel_text(ps.last())
    }
}

/// The whole text of a plain PPM image.
pub open spec fn image_text(width: nat, height: nat, ps: Seq<IVec3>, comment: Seq<char>) -> Seq<
    char,
> {
    header_text(width, height) + comment_text(comment) + seq!['\n'] + pixels_text(ps)
}

/// Appends the character `c` to `s` with `String::push`. Trusted: the contract
/// claims that the string's characters afterwards are the old ones followed by `c`.
#[verifier::external_body]
fn push_char(s: &mut String, c: char)
    ensures
        final(s)@ == old(s)@.push(c),
{
    s.push(c);
}

fn digit(d: u32) -> (c: char)
    requires
        d < 10,
    ensures
        c == digit_char(d as int),
{
    ((48u8 + d as u8) as char)
}

/// Appends the decimal notation of `n` to `s`.
fn push_decimal(s: &mut String, n: u32)
    ensures
        final(s)@ == old(s)@ + decimal(n as nat),
    decreases n,
{
    if n >= 10 {
        push_decimal(s, n / 10);
    }
    push_char(s, digit(n % 10));
    assert(final(s)@ == old(s)@ + decimal(n as nat));
}

/// The header of a plain PPM image: `"P3\n<width> <height>\n255\n"`.
pub fn ppm_header(width: u32, height: u32) -> (r: String)
    ensures
        r@ == header_text(width as nat, height as nat),
{
    let mut s = String::new();
    push_char(&mut s, 'P');
    push_char(&mut s, '3');
    push_char(&mut s, '\n');
    push_decimal(&mut s, width);
    push_char(&mut s, ' ');
    push_decimal(&mut s, height);
    push_char(&mut s, '\n');
    push_char(&mut s, '2');
    push_char(&mut s, '5');
    push_char(&mut s, '5');
    push_char(&mut s, '\n');
    assert(s@ =~= header_text(width as nat, height as nat));
    s
}

/// Appends the line of one pixel to `s`.
fn push_pixel(s: &mut String, p: &Vec3<u8>)
    ensures
        final(s)@ == old(s)@ + pixel_text(p@),
{
    proof {
        p.lemma_components_fit();
    }
    push_decimal(s, p.x() as u32);
    push_char(s, ' ');
    push_decimal(s, p.y() as u32);
    push_char(s, ' ');
    push_decimal(s, p.z() as u32);
    push_char(s, '\n');
    assert(final(s)@ =~= old(s)@ + pixel_text(p@));
}

/// The line of one pixel: `"<r> <g> <b>\n"`.
pub fn ppm_pixel(p: &Vec3<u8>) -> (r: String)
    ensures
        r@ == pixel_text(p@),
{
    let mut s = String::new();
    push_pixel(&mut s, p);
    assert(s@ =~= pixel_text(p@));
    s
}

/// Appends `comment` as a PPM comment to `s`.
fn push_comment(s: &mut String, comment: &str)
    ensures
        final(s)@ == old(s)@ + comment_text(comment@),
{
    push_char(s, '#');
    push_char(s, ' ');
    let ghost start = s@;
    let mut chars = comment.chars();
    let ghost mut seen: Seq<char> = Seq::empty();
    assert(chars.remaining() == comment@);
    loop
        invariant
            seen + chars.remaining() == comment@,
            s@ == start + comment_body(seen),
            chars.decrease() is Some,
        ensures
            seen == comment@,
            s@ == start + comment_body(seen),
        decreases chars.decrease()->0,
    {
        let next = chars.next();
        match next {
            Some(c) => {
                assert(seen.push(c).drop_last() =~= seen);
                if c == '\n' {
                    push_char(s, '\n');
                    push_char(s, '#');
                    push_char(s, ' ');
                } else {
                    push_char(s, c);
                }
                proof {
                    assert(seen.push(c) + chars.remaining() =~= comment@);
                    seen = seen.push(c);
                }
                assert(s@ =~= start + comment_body(seen));
            },
            None => {
                assert(seen =~= comment@);
                break ;
            },
        }
    }
    assert(final(s)@ =~= old(s)@ + comment_text(comment@));
}

/// Turns `str` into a proper PPM comment: `"# "` begins it and every line after a
/// line break.
pub fn make_comment(str: String) -> (r: String)
    ensures
        r@ == comment_text(str@),
{
    let mut s = String::new();
    push_comment(&mut s, str.as_str());
    assert(s@ =~= comment_text(str@));
    s
}

/// The whole text of a plain PPM image: the header, the comment, an empty line end,
/// then one line per pixel.
pub fn ppm_image_string(width: u32, height: u32, pixels: &[Vec3<u8>], comment: String) -> (r: String)
    ensures
        r@ == image_text(width as nat, height as nat, pixels@.map_values(|p: Vec3<u8>| p@), comment@),
{
    let mut image = ppm_header(width, height);
    push_comment(&mut image, comment.as_str());
    push_char(&mut image, '\n');
    let ghost views = pixels@.map_values(|p: Vec3<u8>| p@);
    let ghost start = image@;
    let mut i: usize = 0;
    while i < pixels.len()
        invariant
            i <= pixels@.len(),
            views == pixels@.map_values(|p: Vec3<u8>| p@),
            image@ == start + pixels_text(views.take(i as int)),
        decreases pixels@.len() - i,
    {
        push_pixel(&mut image, &pixels[i]);
        assert(views.take(i + 1).drop_last() =~= views.take(i as int));
        assert(image@ =~= start + pixels_text(views.take(i + 1)));
        i += 1;
    }
    assert(views.take(pixels@.len() as int) =~= views);
    assert(image@ =~= image_text(width as nat, height as nat, views, comment@));
    image
}

/// A text made by `comment_body` has every line break followed by `"# "`.
proof fn lemma_comment_body_breaks(s: Seq<char>)
    ensures
        forall|i: int|
            0 <= i < comment_body(s).len() && #[trigger] comment_body(s)[i] == '\n' ==> i + 2 < comment_body(
                s,
            ).len() && comment_body(s)[i + 1] == '#' && comment_body(s)[i + 2] == ' ',
    decreases s.len(),
{
    if s.len() > 0 {
        lemma_comment_body_breaks(s.drop_last());
        let prev = comment_body(s.drop_last());
        let piece = comment_piece(s.last());
        assert(comment_body(s) == prev + piece);
        assert forall|i: int|
            0 <= i < comment_body(s).len() && #[trigger] comment_body(s)[i] == '\n' implies i + 2
            < comment_body(s).len() && comment_body(s)[i + 1] == '#' && comment_body(s)[i + 2] == ' ' by {
            if i < prev.len() {
                assert(prev[i] == '\n');
            }
        }
    }
}

/// Every line of a comment made by `make_comment` starts with `"# "`: the text does,
/// and so does the text after every line break.
pub proof fn law_comment_lines_start_with_hash(s: Seq<char>)
    ensures
        comment_text(s).len() >= 2,
        comment_text(s)[0] == '#' && comment_text(s)[1] == ' ',
        forall|i: int|
            0 <= i < comment_text(s).len() && #[trigger] comment_text(s)[i] == '\n' ==> i + 2 < comment_text(
                s,
            ).len() && comment_text(s)[i + 1] == '#' && comment_text(s)[i + 2] == ' ',
{
    lemma_comment_body_breaks(s);
    let body = comment_body(s);
    assert forall|i: int|
        0 <= i < comment_text(s).len() && #[trigger] comment_text(s)[i] == '\n' implies i + 2 < comment_text(
            s,
        ).len() && comment_text(s)[i + 1] == '#' && comment_text(s)[i + 2] == ' ' by {
        assert(i >= 2);
        assert(body[i - 2] == '\n');
    }
}

/// Turning text into comment text piece by piece: the comment body of two texts
/// one after the other is their bodies one after the other.
proof fn lemma_comment_body_concat(a: Seq<char>, b: Seq<char>)
    ensures
        comment_body(a + b) == comment_body(a) + comment_body(b),
    decreases b.len(),
{
    if b.len() == 0 {
        assert(a + b =~= a);
        assert(comment_body(b) =~= Seq::<char>::empty());
        assert(comment_body(a) + comment_body(b) =~= comment_body(a));
    } else {
        lemma_comment_body_concat(a, b.drop_last());
        assert((a + b).drop_last() =~= a + b.drop_last());
        assert((a + b).last() == b.last());
        assert(comment_body(a + b) =~= comment_body(a) + comment_body(b));
    }
}

/// A text without line breaks is its own comment body.
proof fn lemma_comment_body_plain(s: Seq<char>)
    requires
        !s.contains('\n'),
    ensures
        comment_body(s) == s,
    decreases s.len(),
{
    if s.len() > 0 {
        assert(!s.drop_last().contains('\n')) by {
            if s.drop_last().contains('\n') {
                let k = choose|k: int| 0 <= k < s.drop_last().len() && s.drop_last()[k] == '\n';
                assert(s[k] == '\n');
            }
        }
        lemma_comment_body_plain(s.drop_last());
        assert(s[s.len() - 1] == s.last());
        assert(s.last() != '\n');
        assert(comment_body(s) =~= s);
    } else {
        assert(comment_body(s) =~= s);
    }
}

/// A comment keeps its text: a text without line breaks comes out unchanged after
/// the leading `"# "`.
pub proof fn law_comment_keeps_text(s: Seq<char>)
    requires
        !s.contains('\n'),
    ensures
        comment_text(s) == seq!['#', ' '] + s,
{
    lemma_comment_body_plain(s);
}

/// Only line breaks change in a comment: each one is followed by `"# "`, and the
/// text on both sides of it is turned into comment text on its own.
pub proof fn law_comment_line_break(a: Seq<char>, b: Seq<char>)
    ensures
        comment_body(a + seq!['\n'] + b) == comment_body(a) + seq!['\n', '#', ' '] + comment_body(b),
{
    lemma_comment_body_concat(a + seq!['\n'], b);
    lemma_comment_body_concat(a, seq!['\n']);
    let nl = seq!['\n'];
    assert(nl.drop_last() =~= Seq::<char>::empty());
    assert(nl.last() == '\n');
    assert(comment_body(Seq::<char>::empty()) =~= Seq::<char>::empty());
    assert(comment_body(nl) =~= seq!['\n', '#', ' ']);
}

/// The value of a string of decimal digits.
pub open spec fn digits_value(s: Seq<char>) -> int
    decreases s.len(),
{
    if s.len() == 0 {
        0
    } else {
        digits_value(s.drop_last()) * 10 + (s.last() as int - '0' as int)
    }
}

/// A decimal notation has at least one digit.
proof fn lemma_decimal_len(n: nat)
    ensures
        decimal(n).len() >= 1,
        n >= 10 ==> decimal(n).len() >= 2,
    decreases n,
{
    if n >= 10 {
        lemma_decimal_len(n / 10);
    }
}

/// The decimal notation of a number is made of the digits `0` to `9`, has no
/// leading zero, and reads back as the number.
pub proof fn law_decimal_reads_back(n: nat)
    ensures
        decimal(n).len() >= 1,
        forall|k: int| 0 <= k < decimal(n).len() ==> '0' <= #[trigger] decimal(n)[k] <= '9',
        decimal(n).len() > 1 ==> decimal(n)[0] != '0',
        digits_value(decimal(n)) == n,
    decreases n,
{
    lemma_decimal_len(n);
    let d = decimal(n);
    if n < 10 {
        assert(d == seq![digit_char(n as int)]);
        assert(digit_char(n as int) as int == 48 + n);
        assert(d.drop_last() =~= Seq::<char>::empty());
        assert(digits_value(d) == digits_value(d.drop_last()) * 10 + (d.last() as int - '0' as int));
    } else {
        law_decimal_reads_back(n / 10);
        let pre = decimal(n / 10);
        assert(d.drop_last() =~= pre);
        assert(d[0] == pre[0]);
        assert forall|k: int| 0 <= k < d.len() implies '0' <= #[trigger] d[k] <= '9' by {
            if k < pre.len() {
                assert(d[k] == pre[k]);
            } else {
                assert(d[k] == digit_char((n % 10) as int));
            }
        }
        if n / 10 < 10 {
            assert(pre == seq![digit_char((n / 10) as int)]);
            assert(n / 10 >= 1);
        } else {
            lemma_decimal_len(n / 10);
        }
        assert(digit_char((n % 10) as int) as int == 48 + n % 10);
        assert(d.last() == digit_char((n % 10) as int));
        assert(digits_value(d) == digits_value(pre) * 10 + (d.last() as int - '0' as int));
        assert(n == (n / 10) * 10 + n % 10);
    }
}

/// A pixel line reads back as the pixel: its first field, up to a space, is the
/// first sample in decimal, its second field the second sample, and its third field,
/// up to the line break, the third sample.
pub proof fn law_pixel_text_reads_back(p: IVec3)
    requires
        p.0 >= 0,
        p.1 >= 0,
        p.2 >= 0,
    ensures
        ({
            let t = pixel_text(p);
            let n0 = decimal(p.0 as nat).len() as int;
            let n1 = decimal(p.1 as nat).len() as int;
            let n2 = decimal(p.2 as nat).len() as int;
            &&& t.len() == n0 + n1 + n2 + 3
            &&& digits_value(t.subrange(0, n0)) == p.0
            &&& t[n0] == ' '
            &&& digits_value(t.subrange(n0 + 1, n0 + 1 + n1)) == p.1
            &&& t[n0 + 1 + n1] == ' '
            &&& digits_value(t.subrange(n0 + n1 + 2, n0 + n1 + n2 + 2)) == p.2
            &&& t[n0 + n1 + n2 + 2] == '\n'
        }),
{
    let d0 = decimal(p.0 as nat);
    let d1 = decimal(p.1 as nat);
    let d2 = decimal(p.2 as nat);
    law_decimal_reads_back(p.0 as nat);
    law_decimal_reads_back(p.1 as nat);
    law_decimal_reads_back(p.2 as nat);
    let t = pixel_text(p);
    let n0 = d0.len() as int;
    let n1 = d1.len() as int;
    let n2 = d2.len() as int;
    assert(t.subrange(0, n0) =~= d0);
    assert(t.subrange(n0 + 1, n0 + 1 + n1) =~= d1);
    assert(t.subrange(n0 + n1 + 2, n0 + n1 + n2 + 2) =~= d2);
}

/// A header reads back as the image size: after `"P3"` and a line break come the
/// width in decimal, a space, the height in decimal, and the line `"255"`.
pub proof fn law_header_text_reads_back(width: nat, height: nat)
    ensures
        ({
            let t = header_text(width, height);
            let nw = decimal(width).len() as int;
            let nh = decimal(height).len() as int;
            &&& t.len() == nw + nh + 9
            &&& t.subrange(0, 3) == seq!['P', '3', '\n']
            &&& digits_value(t.subrange(3, 3 + nw)) == width
            &&& t[3 + nw] == ' '
            &&& digits_value(t.subrange(4 + nw, 4 + nw + nh)) == height
            &&& t.subrange(4 + nw + nh, 9 + nw + nh) == seq!['\n', '2', '5', '5', '\n']
        }),
{
    law_decimal_reads_back(width);
    law_decimal_reads_back(height);
    let t = header_text(width, height);
    let dw = decimal(width);
    let dh = decimal(height);
    let nw = dw.len() as int;
    let nh = dh.len() as int;
    assert(t.subrange(0, 3) =~= seq!['P', '3', '\n']);
    assert(t.subrange(3, 3 + nw) =~= dw);
    assert(t.subrange(4 + nw, 4 + nw + nh) =~= dh);
    assert(t.subrange(4 + nw + nh, 9 + nw + nh) =~= seq!['\n', '2', '5', '5', '\n']);
}

} // verus!
