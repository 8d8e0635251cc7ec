//! Output of a canvas as a plain-text PPM file.
//!
//! The file starts with three header lines: the magic number of the plain
//! pixmap format, the width and the height, and the maximum channel value
//! 255. The pixels follow in storage order as one stream: every channel is
//! written as a decimal number followed by a single space. Lines are not
//! wrapped.
use crate::canvas::Canvas;
use crate::numerics::{level, level_of};
use vstd::prelude::*;
use vstd::string::StringExecFns;

verus! {

/// A pixel ready for output: each channel on the scale of the file, where
/// 255 is full intensity, as the bit pattern of a double-precision number.
/// The channels are neither limited to the range of the file nor rounded
/// yet.
#[derive(Clone, Copy, Debug, PartialEq, Eq, Structural)]
pub struct Sample {
    pub red: u64,
    pub green: u64,
    pub blue: u64,
}

/// The character that stands for the digit `d`.
pub open spec fn digit(d: int) -> char {
    if d == 0 {
        '0'
    } else if d == 1 {
        '1'
    } else if d == 2 {
        '2'
    } else if d == 3 {
        '3'
    } else if d == 4 {
        '4'
    } else if d == 5 {
        '5'
    } else if d == 6 {
        '6'
    } else if d == 7 {
        '7'
    } else if d == 8 {
        '8'
    } else {
        '9'
    }
}

/// The decimal numeral of `n`: most significant digit first, no leading
/// zeros, and `"0"` for zero.
pub open spec fn decimal(n: nat) -> Seq<char>
    decreases n,
{
    if n < 10 {
        seq![digit(n as int)]
    } else {
        decimal(n / 10).push(digit((n % 10) as int))
    }
}

/// The digit that a character stands for; zero for any other character.
pub open spec fn digit_value(c: char) -> nat {
    if c == '1' {
        1
    } else if c == '2' {
        2
    } else if c == '3' {
        3
    } else if c == '4' {
        4
    } else if c == '5' {
        5
    } else if c == '6' {
        6
    } else if c == '7' {
        7
    } else if c == '8' {
        8
    } else if c == '9' {
        9
    } else {
        0
    }
}

/// The number that a decimal numeral stands for.
pub open spec fn numeral_value(numeral: Seq<char>) -> nat
    decreases numeral.len(),
{
    if numeral.len() == 0 {
        0
    } else {
        10 * numeral_value(numeral.drop_last()) + digit_value(numeral.last())
    }
}

/// A reader gets back the number that was written: the numeral of `n` is
/// not empty, stands for `n`, and starts with a zero only when `n` is zero.
pub proof fn lemma_decimal_reads_back(n: nat)
    ensures
        decimal(n).len() >= 1,
        numeral_value(decimal(n)) == n,
        n > 0 ==> decimal(n)[0] != '0',
    decreases n,
{
    if n < 10 {
        let numeral = decimal(n);
        assert(numeral.drop_last() =~= Seq::<char>::empty());
        assert(numeral.last() == digit(n as int));
        assert(numeral_value(numeral.drop_last()) == 0);
    } else {
        lemma_decimal_reads_back(n / 10);
        let front = decimal(n / 10);
        let numeral = decimal(n);
        assert(numeral == front.push(digit((n % 10) as int)));
        assert(numeral.drop_last() =~= front);
        assert(numeral.last() == digit((n % 10) as int));
        assert(numeral[0] == front[0]);
    }
}

/// What one channel contributes to the file: the channel limited to the
/// range from 0 to 255 and rounded, as a decimal numeral, and one space.
pub open spec fn channel_text(channel: u64) -> Seq<char> {
    decimal(level_of(channel) as nat).push(' ')
}

/// What one pixel contributes to the file: red, green, blue.
pub open spec fn pixel_text(pixel: Sample) -> Seq<char> {
    channel_text(pixel.red) + channel_text(pixel.green) + channel_text(pixel.blue)
}

/// The pixel stream: the pixels' texts one after another.
pub open spec fn body_text(pixels: Seq<Sample>) -> Seq<char>
    decreases pixels.len(),
{
    if pixels.len() == 0 {
        Seq::empty()
    } else {
        body_text(pixels.drop_last()) + pixel_text(pixels.last())
    }
}

/// The three header lines.
pub open spec fn header_text(width: nat, height: nat) -> Seq<char> {
    seq!['P', '3', '\n'] + decimal(width) + seq![' '] + decimal(height) + seq![
        '\n',
        '2',
        '5',
        '5',
        '\n',
    ]
}

/// The whole file for a raster of the given size.
pub open spec fn ppm_text(width: nat, height: nat, pixels: Seq<Sample>) -> Seq<char> {
    header_text(width, height) + body_text(pixels)
}

fn push_digit(text: &mut String, d: u64)
    requires
        d < 10,
    ensures
        final(text)@ == old(text)@.push(digit(d as int)),
{
    proof {
        reveal_strlit("0");
        reveal_strlit("1");
        reveal_strlit("2");
        reveal_strlit("3");
        reveal_strlit("4");
        reveal_strlit("5");
        reveal_strlit("6");
        reveal_strlit("7");
        reveal_strlit("8");
        reveal_strlit("9");
    }
    let numeral = if d == 0 {
        "0"
    } else if d == 1 {
        "1"
    } else if d == 2 {
        "2"
    } else if d == 3 {
        "3"
    } else if d == 4 {
        "4"
    } else if d == 5 {
        "5"
    } else if d == 6 {
        "6"
    } else if d == 7 {
        "7"
    } else if d == 8 {
        "8"
    } else {
        "9"
    };
    text.append(numeral);
    assert(text@ =~= old(text)@.push(digit(d as int)));
}

fn push_decimal(text: &mut String, n: u64)
    ensures
        final(text)@ == old(text)@ + decimal(n as nat),
    decreases n,
{
    if n >= 10 {
        push_decimal(text, n / 10);
    }
    push_digit(text, n % 10);
    assert(text@ =~= old(text)@ + decimal(n as nat));
}

fn push_channel(text: &mut String, channel: u64)
    ensures
        final(text)@ == old(text)@ + channel_text(channel),
{
    push_decimal(text, level(channel) as u64);
    proof {
        reveal_strlit(" ");
    }
    text.append(" ");
    assert(text@ =~= old(text)@ + channel_text(channel));
}

impl Canvas<Sample> {
    /// The canvas as the text of a plain PPM file.
    pub fn to_ppm(&self) -> (text: String)
        ensures
            text@ == ppm_text(self.spec_width(), self.spec_height(), self@),
    {
        proof {
            reveal_strlit("P3\n");
            reveal_strlit(" ");
            reveal_strlit("\n255\n");
        }
        let mut text = String::new();
        text.append("P3\n");
        push_decimal(&mut text, self.width() as u64);
        text.append(" ");
        push_decimal(&mut text, self.height() as u64);
        text.append("\n255\n");
        assert(text@ =~= header_text(self.spec_width(), self.spec_height()));
        let pixels = self.pixels();
        let mut written: usize = 0;
        while written < pixels.len()
            invariant
                written <= pixels@.len(),
                pixels@ == self@,
                text@ == header_text(self.spec_width(), self.spec_height()) + body_text(
                    pixels@.take(written as int),
                ),
            decreases pixels@.len() - written,
        {
            let pixel = pixels[written];
            let ghost before = text@;
            push_channel(&mut text, pixel.red);
            push_channel(&mut text, pixel.green);
            push_channel(&mut text, pixel.blue);
            proof {
                let done = pixels@.take(written as int + 1);
                assert(done.drop_last() =~= pixels@.take(written as int));
                assert(done.last() == pixel);
                assert(text@ =~= before + pixel_text(pixel));
                assert(text@ =~= header_text(self.spec_width(), self.spec_height()) + body_text(
                    done,
                ));
            }
            written += 1;
        }
        assert(pixels@.take(written as int) =~= pixels@);
        text
    }
}

} // verus!
