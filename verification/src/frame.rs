//! The bytes of a whole frame.
//!
//! A frame is the colors of the string, first LED first, each as its red,
//! green and blue channel in that order, and after them a run of zero bytes
//! that holds the line low until the LEDs latch. Where the bus rests high, the
//! same run goes out before the colors too, to pull the line low first.

use crate::encoding::encode;
use vstd::prelude::*;

verus! {

/// The color of one LED.
#[derive(Clone, Copy, Debug, PartialEq, Eq)]
pub struct Rgb8 {
    /// How bright the red is.
    pub r: u8,
    /// How bright the green is.
    pub g: u8,
    /// How bright the blue is.
    pub b: u8,
}

/// How many zero bytes hold the line low for a reset.
pub const FLUSH_LEN: usize = 20;

/// The zero bytes of a reset.
pub open spec fn flush_bytes() -> Seq<u8> {
    Seq::new(FLUSH_LEN as nat, |i: int| 0u8)
}

/// The bus bytes of one color: red, then green, then blue.
pub open spec fn color_bytes(color: Rgb8) -> Seq<u8> {
    encode(color.r) + encode(color.g) + encode(color.b)
}

/// The bus bytes of a run of colors, first color first.
pub open spec fn colors_bytes(colors: Seq<Rgb8>) -> Seq<u8>
    decreases colors.len(),
{
    if colors.len() == 0 {
        Seq::empty()
    } else {
        colors_bytes(colors.drop_last()) + color_bytes(colors.last())
    }
}

/// What goes out before the colors: a reset where the bus rests high,
/// nothing where it rests low.
pub open spec fn lead_bytes(idle_high: bool) -> Seq<u8> {
    if idle_high {
        flush_bytes()
    } else {
        Seq::empty()
    }
}

/// The bus bytes of a whole frame.
pub open spec fn frame(colors: Seq<Rgb8>, idle_high: bool) -> Seq<u8> {
    lead_bytes(idle_high) + colors_bytes(colors) + flush_bytes()
}

/// Every color takes twelve bus bytes.
pub proof fn lemma_colors_bytes_len(colors: Seq<Rgb8>)
    ensures
        colors_bytes(colors).len() == 12 * colors.len(),
    decreases colors.len(),
{
    if colors.len() > 0 {
        lemma_colors_bytes_len(colors.drop_last());
    }
}

/// The bytes of the first `n` colors are where the bytes of all of them
/// start, and color `n` comes right after them.
pub proof fn lemma_colors_bytes_take(colors: Seq<Rgb8>, n: int)
    requires
        0 <= n <= colors.len(),
    ensures
        colors_bytes(colors.take(n)).is_prefix_of(colors_bytes(colors)),
        n < colors.len() ==> colors_bytes(colors.take(n + 1)) == colors_bytes(colors.take(n))
            + color_bytes(colors[n]),
    decreases colors.len() - n,
{
    if n == colors.len() {
        assert(colors.take(n) =~= colors);
    } else {
        assert(colors.take(n + 1).drop_last() =~= colors.take(n));
        assert(colors.take(n + 1).last() == colors[n]);
        lemma_colors_bytes_take(colors, n + 1);
    }
}

/// A frame of `N` colors is `12 * N + 20` bus bytes long, and 20 more where
/// the bus rests high.
pub proof fn lemma_frame_len(colors: Seq<Rgb8>, idle_high: bool)
    ensures
        frame(colors, idle_high).len() == 12 * colors.len() + 20 + if idle_high {
            20int
        } else {
            0int
        },
{
    lemma_colors_bytes_len(colors);
}

/// What has gone out when `n` colors are done is where the frame starts, and
/// so is that with color `n` after it.
pub proof fn lemma_frame_take(colors: Seq<Rgb8>, idle_high: bool, n: int)
    requires
        0 <= n <= colors.len(),
    ensures
        (lead_bytes(idle_high) + colors_bytes(colors.take(n))).is_prefix_of(
            frame(colors, idle_high),
        ),
        n < colors.len() ==> lead_bytes(idle_high) + colors_bytes(colors.take(n + 1)) == (
        lead_bytes(idle_high) + colors_bytes(colors.take(n))) + color_bytes(colors[n]),
{
    lemma_colors_bytes_take(colors, n);
    if n < colors.len() {
        assert(lead_bytes(idle_high) + colors_bytes(colors.take(n + 1)) =~= (lead_bytes(idle_high)
            + colors_bytes(colors.take(n))) + color_bytes(colors[n]));
    }
}

} // verus!
