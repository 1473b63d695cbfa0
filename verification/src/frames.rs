//! Numbering of the frames of a sequence.
//!
//! Frames are numbered from zero and each number is written in decimal,
//! with zeros in front so that all numbers of a sequence are equally wide.
use vstd::prelude::*;

verus! {

/// The number of decimal digits of `n`.
pub open spec fn digits(n: nat) -> nat
    decreases n,
{
    if n < 10 {
        1
    } else {
        1 + digits(n / 10)
    }
}

/// The character that writes the digit `d`.
pub open spec fn digit_char(d: nat) -> char
    recommends
        d < 10,
{
    if d == 0 {
        '0'
    } else if d == 1 {
        '1'
    } else if d == 2 {
        '2'
    } else if d == 3 {
        '3'
    } else if d == 4 {
        '4'
    } else if d == 5 {
        '5'
    } else if d == 6 {
        '6'
    } else if d == 7 {
        '7'
    } else if d == 8 {
        '8'
    } else {
        '9'
    }
}

/// `n` written in decimal, without zeros in front.
pub open spec fn decimal(n: nat) -> Seq<char>
    decreases n,
{
    if n < 10 {
        seq![digit_char(n)]
    } else {
        decimal(n / 10).push(digit_char(n % 10))
    }
}

/// `n` written in decimal, with as many zeros in front as it takes to make
/// it `width` characters wide, and none where it is that wide already.
pub open spec fn zero_padded(n: nat, width: nat) -> Seq<char> {
    let zeros = if width > digits(n) {
        (width - digits(n)) as nat
    } else {
        0
    };
    Seq::new(zeros, |k: int| '0') + decimal(n)
}

/// The number of the last frame of a sequence of `frames` frames, which are
/// numbered from zero; zero for a sequence without frames.
pub open spec fn last_frame(frames: u16) -> nat {
    if frames == 0 {
        0
    } else {
        (frames - 1) as nat
    }
}

/// A number has as many characters in decimal as it has digits.
pub proof fn lemma_decimal_len(n: nat)
    ensures
        decimal(n).len() == digits(n),
    decreases n,
{
    if n >= 10 {
        lemma_decimal_len(n / 10);
    }
}

/// A number has at least one digit, and no more digits than a larger one.
pub proof fn lemma_digits_monotone(n: nat, m: nat)
    requires
        n <= m,
    ensures
        1 <= digits(n) <= digits(m),
    decreases m,
{
    if n >= 10 {
        lemma_digits_monotone(n / 10, m / 10);
    } else if m >= 10 {
        lemma_digits_monotone(0, m / 10);
    }
}

/// A label is as wide as the padding asks, or as wide as the number where
/// that is wider.
pub proof fn lemma_padded_len(n: nat, width: nat)
    ensures
        zero_padded(n, width).len() == if width > digits(n) {
            width
        } else {
            digits(n)
        },
{
    lemma_decimal_len(n);
}

/// Every frame of a sequence gets a label of the same width: that of the
/// number of the last frame.
pub proof fn lemma_labels_equally_wide(n: u16, frames: u16)
    requires
        n < frames,
    ensures
        zero_padded(n as nat, digits(last_frame(frames))).len() == digits(last_frame(frames)),
{
    lemma_digits_monotone(n as nat, last_frame(frames));
    lemma_padded_len(n as nat, digits(last_frame(frames)));
}

/// The number of decimal digits of `n`.
fn count_digits(n: u16) -> (count: usize)
    ensures
        count == digits(n as nat),
{
    let mut count: usize = 1;
    let mut rest: u16 = n;
    while rest >= 10
        invariant
            count + digits(rest as nat) == 1 + digits(n as nat),
            count + rest <= 1 + n,
        decreases rest,
    {
        rest = rest / 10;
        count = count + 1;
    }
    count
}

/// The width of the labels of a sequence of `frames` frames: the number of
/// digits of the number of its last frame, and at least one.
pub fn padding(frames: u16) -> (width: usize)
    ensures
        width == digits(last_frame(frames)),
        width >= 1,
{
    proof {
        lemma_digits_monotone(0, last_frame(frames));
    }
    if frames == 0 {
        count_digits(0)
    } else {
        count_digits(frames - 1)
    }
}

/// The text of one decimal digit.
fn digit_str(d: u16) -> (text: &'static str)
    requires
        d < 10,
    ensures
        text@ == seq![digit_char(d as nat)],
{
    proof {
        reveal_strlit("0");
        reveal_strlit("1");
        reveal_strlit("2");
        reveal_strlit("3");
        reveal_strlit("4");
        reveal_strlit("5");
        reveal_strlit("6");
        reveal_strlit("7");
        reveal_strlit("8");
        reveal_strlit("9");
    }
    let text = if d == 0 {
        "0"
    } else if d == 1 {
        "1"
    } else if d == 2 {
        "2"
    } else if d == 3 {
        "3"
    } else if d == 4 {
        "4"
    } else if d == 5 {
        "5"
    } else if d == 6 {
        "6"
    } else if d == 7 {
        "7"
    } else if d == 8 {
        "8"
    } else {
        "9"
    };
    assert(text@ =~= seq![digit_char(d as nat)]);
    text
}

/// Appends `n` in decimal to `label`.
fn push_decimal(label: &mut String, n: u16)
    ensures
        final(label)@ == old(label)@ + decimal(n as nat),
    decreases n,
{
    if n >= 10 {
        push_decimal(label, n / 10);
    }
    label.append(digit_str(n % 10));
    assert(final(label)@ =~= old(label)@ + decimal(n as nat));
}

/// The label of frame `n` among labels `padding` characters wide: `n` in
/// decimal, with zeros in front where it has fewer digits than that.
pub fn frame_label(n: u16, padding: usize) -> (label: String)
    ensures
        label@ == zero_padded(n as nat, padding as nat),
{
    let count: usize = count_digits(n);
    let mut label = String::new();
    let mut width: usize = count;
    while width < padding
        invariant
            count == digits(n as nat),
            count <= width,
            width <= padding || width == count,
            label@ == Seq::new((width - count) as nat, |k: int| '0'),
        decreases padding - width,
    {
        proof {
            reveal_strlit("0");
        }
        label.append("0");
        assert(label@ =~= Seq::new((width + 1 - count) as nat, |k: int| '0'));
        width = width + 1;
    }
    push_decimal(&mut label, n);
    assert(label@ =~= zero_padded(n as nat, padding as nat));
    label
}

} // verus!
