//! The driver: a transport, and the frames that go out on it.

use crate::encoding::{encode, encode_upper, lemma_lower_word, lower_word, upper_word, word_bytes};
use crate::frame::{
    color_bytes, colors_bytes, flush_bytes, frame, lead_bytes, lemma_frame_len, lemma_frame_take,
    Rgb8, FLUSH_LEN,
};
use crate::transport::{
    delivered, exchanges, lemma_delivered_sent, lemma_delivered_start, lemma_delivered_step,
    lemma_delivered_twice, sent, Link, Transfer, Transport,
};
use vstd::prelude::*;
use vstd::std_specs::iter::IteratorSpec;

verus! {

/// A string of WS2811 LEDs behind a transport.
///
/// The transport must clock its bits out at 3 MHz, and no faster than
/// 3.44 MHz: the driver does not set the clock and cannot see it.
pub struct Ws2811<SPI: Transport> {
    link: Link<SPI>,
    idle_high: bool,
}

impl<SPI: Transport> Ws2811<SPI> {
    /// The transport that the driver holds.
    pub closed spec fn transport(&self) -> SPI {
        self.link.transport()
    }

    /// Whether the data line rests high between frames.
    pub closed spec fn idle_high(&self) -> bool {
        self.idle_high
    }

    /// Every call that the driver has made on its transport, oldest first.
    pub closed spec fn history(&self) -> Seq<Transfer<SPI::Error>> {
        self.link.history()
    }

    /// A driver on a bus whose data line rests low.
    pub fn new(spi: SPI) -> (driver: Ws2811<SPI>)
        ensures
            driver.transport() == spi,
            driver.history() == Seq::<Transfer<SPI::Error>>::empty(),
            !driver.idle_high(),
    {
        Ws2811 { link: Link::new(spi), idle_high: false }
    }

    /// A driver on a bus whose data line rests high if `idle_high` is set:
    /// such a driver starts every frame with a reset.
    pub fn with_idle_high(spi: SPI, idle_high: bool) -> (driver: Ws2811<SPI>)
        ensures
            driver.transport() == spi,
            driver.history() == Seq::<Transfer<SPI::Error>>::empty(),
            driver.idle_high() == idle_high,
    {
        Ws2811 { link: Link::new(spi), idle_high }
    }

    /// Gives the transport back.
    pub fn release(self) -> (spi: SPI)
        ensures
            spi == self.transport(),
    {
        self.link.into_inner()
    }

    /// Sends one byte and asks for what came in for it. After a send that
    /// failed nothing is asked for.
    fn exchange(&mut self, byte: u8) -> (result: Result<(), SPI::Error>)
        ensures
            delivered(old(self).history(), final(self).history(), seq![byte], result),
            final(self).idle_high() == old(self).idle_high(),
    {
        let ghost before = self.history();
        match self.link.send(byte) {
            Ok(()) => {
                let _ = self.link.read();
                assert(self.history() =~= before + exchanges::<SPI::Error>(seq![byte]));
                Ok(())
            },
            Err(e) => {
                assert(self.history() =~= before + exchanges::<SPI::Error>(seq![byte].take(0)).push(
                    Transfer::Failed(seq![byte][0], e),
                ));
                Err(e)
            },
        }
    }

    /// Sends the two bytes of one word, low byte first.
    fn write_word(&mut self, w: u16) -> (result: Result<(), SPI::Error>)
        ensures
            delivered(old(self).history(), final(self).history(), word_bytes(w), result),
            final(self).idle_high() == old(self).idle_high(),
    {
        let ghost before = self.history();
        let lo: u8 = (w & 0xff) as u8;
        let hi: u8 = (w >> 8) as u8;
        let first = self.exchange(lo);
        proof {
            lemma_delivered_start(before, self.history(), seq![lo], word_bytes(w), first);
        }
        if let Err(e) = first {
            return Err(e);
        }
        let ghost mid = self.history();
        let second = self.exchange(hi);
        proof {
            assert(seq![lo] + seq![hi] =~= word_bytes(w));
            lemma_delivered_step(
                before,
                mid,
                self.history(),
                seq![lo],
                seq![hi],
                word_bytes(w),
                second,
            );
        }
        second
    }

    /// Sends one channel value as its four bus bytes.
    ///
    /// The value goes out as two words, that of its upper four bits first.
    /// The first send that fails ends the call with its error, and what is
    /// left of the value is not sent.
    pub fn write_byte(&mut self, data: u8) -> (result: Result<(), SPI::Error>)
        ensures
            delivered(old(self).history(), final(self).history(), encode(data), result),
            final(self).idle_high() == old(self).idle_high(),
    {
        let ghost before = self.history();
        let upper: u16 = encode_upper(data);
        let first = self.write_word(upper);
        proof {
            lemma_delivered_start(before, self.history(), word_bytes(upper), encode(data), first);
        }
        if let Err(e) = first {
            return Err(e);
        }
        let ghost mid = self.history();
        let lower: u16 = encode_upper(data << 4);
        let second = self.write_word(lower);
        proof {
            lemma_lower_word(data);
            lemma_delivered_step(
                before,
                mid,
                self.history(),
                word_bytes(upper_word(data)),
                word_bytes(lower_word(data)),
                encode(data),
                second,
            );
        }
        second
    }

    /// Holds the line low for a reset: sends twenty zero bytes.
    ///
    /// The first send that fails ends the call with its error.
    pub fn flush(&mut self) -> (result: Result<(), SPI::Error>)
        ensures
            delivered(old(self).history(), final(self).history(), flush_bytes(), result),
            final(self).idle_high() == old(self).idle_high(),
    {
        let ghost before = self.history();
        let mut i: usize = 0;
        assert(before =~= before + exchanges::<SPI::Error>(flush_bytes().take(0)));
        while i < FLUSH_LEN
            invariant
                i <= FLUSH_LEN,
                before == old(self).history(),
                self.history() == before + exchanges::<SPI::Error>(flush_bytes().take(i as int)),
                self.idle_high() == old(self).idle_high(),
            decreases FLUSH_LEN - i,
        {
            let ghost mid = self.history();
            let ghost done = flush_bytes().take(i as int);
            let result = self.exchange(0);
            proof {
                assert(done + seq![0u8] =~= flush_bytes().take(i + 1));
                lemma_delivered_step(
                    before,
                    mid,
                    self.history(),
                    done,
                    seq![0u8],
                    flush_bytes(),
                    result,
                );
            }
            if let Err(e) = result {
                return Err(e);
            }
            i = i + 1;
        }
        assert(flush_bytes().take(FLUSH_LEN as int) =~= flush_bytes());
        Ok(())
    }

    /// Sends the three channels of one color: red, green, blue.
    fn write_color(&mut self, color: Rgb8) -> (result: Result<(), SPI::Error>)
        ensures
            delivered(old(self).history(), final(self).history(), color_bytes(color), result),
            final(self).idle_high() == old(self).idle_high(),
    {
        let ghost before = self.history();
        let red = self.write_byte(color.r);
        proof {
            lemma_delivered_start(
                before,
                self.history(),
                encode(color.r),
                color_bytes(color),
                red,
            );
        }
        if let Err(e) = red {
            return Err(e);
        }
        let ghost mid = self.history();
        let green = self.write_byte(color.g);
        proof {
            lemma_delivered_step(
                before,
                mid,
                self.history(),
                encode(color.r),
                encode(color.g),
                color_bytes(color),
                green,
            );
        }
        if let Err(e) = green {
            return Err(e);
        }
        let ghost mid = self.history();
        let blue = self.write_byte(color.b);
        proof {
            lemma_delivered_step(
                before,
                mid,
                self.history(),
                encode(color.r) + encode(color.g),
                encode(color.b),
                color_bytes(color),
                blue,
            );
        }
        blue
    }

    /// Writes one frame: the colors that `iterator` gives, in its order, and
    /// the reset that makes the LEDs take them.
    ///
    /// Each color is taken from the iterator only when the one before it has
    /// gone out. A driver made for a line that rests high sends a reset
    /// before the first color. The first send that fails ends the call with
    /// its error: nothing more is sent and no further color is taken.
    ///
    /// The iterator must come to an end. On one that does not, the call
    /// sends color after color and never returns.
    pub fn write<T>(&mut self, iterator: T) -> (result: Result<(), SPI::Error>) where
        T: Iterator<Item = Rgb8>,

        requires
            iterator.obeys_prophetic_iter_laws(),
            iterator.decrease() is Some,
        ensures
            delivered(
                old(self).history(),
                final(self).history(),
                frame(iterator.remaining(), old(self).idle_high()),
                result,
            ),
            final(self).idle_high() == old(self).idle_high(),
    {
        let ghost before = self.history();
        let ghost colors = iterator.remaining();
        let ghost lead = lead_bytes(self.idle_high());
        let ghost whole = frame(colors, self.idle_high());
        proof {
            assert(colors.take(0) =~= Seq::empty());
            lemma_frame_take(colors, self.idle_high(), 0);
        }
        if self.idle_high {
            let result = self.flush();
            proof {
                assert(flush_bytes() =~= lead + colors_bytes(colors.take(0)));
                lemma_delivered_start(before, self.history(), flush_bytes(), whole, result);
            }
            if let Err(e) = result {
                return Err(e);
            }
        }
        assert(self.history() =~= before + exchanges::<SPI::Error>(
            lead + colors_bytes(colors.take(0)),
        ));
        let mut rest = iterator;
        let ghost mut n: int = 0;
        loop
            invariant
                rest.obeys_prophetic_iter_laws(),
                rest.decrease() is Some,
                0 <= n <= colors.len(),
                rest.remaining() == colors.skip(n),
                before == old(self).history(),
                colors == iterator.remaining(),
                whole == frame(colors, self.idle_high()),
                lead == lead_bytes(self.idle_high()),
                self.history() == before + exchanges::<SPI::Error>(
                    lead + colors_bytes(colors.take(n)),
                ),
                self.idle_high() == old(self).idle_high(),
            ensures
                n == colors.len(),
            decreases rest.decrease()->0,
        {
            match rest.next() {
                None => {
                    break ;
                },
                Some(color) => {
                    let ghost mid = self.history();
                    let result = self.write_color(color);
                    proof {
                        assert(rest.remaining() =~= colors.skip(n + 1));
                        lemma_frame_take(colors, self.idle_high(), n);
                        lemma_frame_take(colors, self.idle_high(), n + 1);
                        lemma_delivered_step(
                            before,
                            mid,
                            self.history(),
                            lead + colors_bytes(colors.take(n)),
                            color_bytes(color),
                            whole,
                            result,
                        );
                        n = n + 1;
                    }
                    if let Err(e) = result {
                        return Err(e);
                    }
                },
            }
        }
        let ghost mid = self.history();
        let result = self.flush();
        proof {
            assert(colors.take(n) =~= colors);
            lemma_delivered_step(
                before,
                mid,
                self.history(),
                lead + colors_bytes(colors),
                flush_bytes(),
                whole,
                result,
            );
        }
        result
    }
}

/// A frame of `N` colors that goes out whole hands `12 * N + 20` bytes to
/// the transport, and 20 more where the line rests high: the bytes of the
/// frame, in their order.
pub proof fn lemma_frame_sent<E>(
    before: Seq<Transfer<E>>,
    after: Seq<Transfer<E>>,
    colors: Seq<Rgb8>,
    idle_high: bool,
)
    requires
        delivered(before, after, frame(colors, idle_high), Ok(())),
    ensures
        sent(after) == sent(before) + frame(colors, idle_high),
        sent(after).len() == sent(before).len() + 12 * colors.len() + 20 + if idle_high {
            20int
        } else {
            0int
        },
{
    lemma_delivered_sent(before, after, frame(colors, idle_high), Ok(()));
    lemma_frame_len(colors, idle_high);
}

/// The same colors written twice on the same kind of line, with no send
/// failing, leave the same calls on the transport both times.
pub proof fn lemma_frame_twice<E>(
    before: Seq<Transfer<E>>,
    between: Seq<Transfer<E>>,
    after: Seq<Transfer<E>>,
    colors: Seq<Rgb8>,
    idle_high: bool,
)
    requires
        delivered(before, between, frame(colors, idle_high), Ok(())),
        delivered(between, after, frame(colors, idle_high), Ok(())),
    ensures
        between.skip(before.len() as int) == after.skip(between.len() as int),
{
    lemma_delivered_twice(before, between, after, frame(colors, idle_high));
}

} // verus!
