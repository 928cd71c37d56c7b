//! Two chained 74HC595 shift registers, driven through three lines: SER (data),
//! SRCLK (shift clock) and RCLK (storage/latch clock).
//!
//! The functions here give the exact sequence of line changes for each operation;
//! the caller performs them on the hardware. `RegisterState` and `run` model what
//! the chips do with such a sequence: on a rising edge of SRCLK the 16-bit shift
//! register moves one place towards its most significant end and takes SER into
//! bit 0; on a rising edge of RCLK the shift register is copied to the outputs.
use vstd::prelude::*;

use crate::Level;

verus! {

/// The three control lines of the chained registers.
#[derive(Debug, Clone, Copy, PartialEq, Eq, Structural)]
pub enum Pin {
    /// SER: the bit shifted in on the next clock edge.
    Data,
    /// RCLK: a rising edge copies the shift register to the outputs.
    Latch,
    /// SRCLK: a rising edge shifts the register.
    Clock,
}

/// One step of driving the lines.
#[derive(Debug, Clone, Copy, PartialEq, Eq, Structural)]
pub enum Signal {
    /// Drive a line to a level.
    Drive(Pin, Level),
    /// Keep the lines as they are for the minimum pulse width.
    Settle,
}

/// Number of bits in the chained shift register.
pub const REGISTER_BITS: u16 = 16;

pub open spec fn edge_spec(pin: Pin) -> Seq<Signal> {
    seq![Signal::Drive(pin, Level::High), Signal::Settle, Signal::Drive(pin, Level::Low)]
}

pub open spec fn shift_spec(level: Level) -> Seq<Signal> {
    seq![Signal::Drive(Pin::Data, level)] + edge_spec(Pin::Clock)
}

/// Bit `i` of `data` as a line level.
pub open spec fn bit_level(data: u16, i: u16) -> Level {
    if (data >> i) & 1 == 1 {
        Level::High
    } else {
        Level::Low
    }
}

/// The signals that shift in bits `0 .. i` of `data`, least significant first.
pub open spec fn write_bits(data: u16, i: u16) -> Seq<Signal>
    decreases i,
{
    if i == 0 {
        Seq::empty()
    } else {
        write_bits(data, (i - 1) as u16) + shift_spec(bit_level(data, (i - 1) as u16))
    }
}

pub open spec fn write_spec(data: u16) -> Seq<Signal> {
    write_bits(data, 16)
}

pub open spec fn latch_spec() -> Seq<Signal> {
    edge_spec(Pin::Latch)
}

/// `n` writes of `data` in a row.
pub open spec fn repeated_writes(data: u16, n: nat) -> Seq<Signal>
    decreases n,
{
    if n == 0 {
        Seq::empty()
    } else {
        repeated_writes(data, (n - 1) as nat) + write_spec(data)
    }
}

/// The value `reset` writes for a level: `1` for high, `0` for low.
pub open spec fn level_word(level: Level) -> u16 {
    if level == Level::High {
        1
    } else {
        0
    }
}

pub open spec fn all_low_spec() -> Seq<Signal> {
    seq![
        Signal::Drive(Pin::Data, Level::Low),
        Signal::Drive(Pin::Latch, Level::Low),
        Signal::Drive(Pin::Clock, Level::Low),
    ]
}

pub open spec fn reset_spec(level: Level) -> Seq<Signal> {
    repeated_writes(level_word(level), 16) + all_low_spec()
}

/// Appends `more` to `signals`.
fn extend(signals: &mut Vec<Signal>, more: Vec<Signal>)
    ensures
        final(signals)@ == old(signals)@ + more@,
{
    let mut more = more;
    signals.append(&mut more);
}

/// The signal sequences for the operations of the chained registers.
pub struct Hc595;

impl Hc595 {
    /// A rising then falling edge on `pin`, held for the minimum pulse width.
    pub fn positive_edge(pin: Pin) -> (r: Vec<Signal>)
        ensures
            r@ == edge_spec(pin),
    {
        let mut r: Vec<Signal> = Vec::new();
        r.push(Signal::Drive(pin, Level::High));
        r.push(Signal::Settle);
        r.push(Signal::Drive(pin, Level::Low));
        assert(r@ =~= edge_spec(pin));
        r
    }

    /// Puts `level` on SER and clocks it into the shift register.
    pub fn shift(level: Level) -> (r: Vec<Signal>)
        ensures
            r@ == shift_spec(level),
    {
        let mut r: Vec<Signal> = Vec::new();
        r.push(Signal::Drive(Pin::Data, level));
        extend(&mut r, Self::positive_edge(Pin::Clock));
        assert(r@ =~= shift_spec(level));
        r
    }

    /// Shifts the 16 bits of `data` into the register, least significant bit first.
    pub fn write(data: u16) -> (r: Vec<Signal>)
        ensures
            r@ == write_spec(data),
    {
        let mut r: Vec<Signal> = Vec::new();
        let mut i: u16 = 0;
        while i < REGISTER_BITS
            invariant
                i <= REGISTER_BITS,
                r@ == write_bits(data, i),
            decreases REGISTER_BITS - i,
        {
            let bit: u16 = (data >> i) & 1;
            let level = if bit == 1 {
                Level::High
            } else {
                Level::Low
            };
            extend(&mut r, Self::shift(level));
            i = i + 1;
        }
        r
    }

    /// Copies the shift register to the outputs.
    pub fn latch() -> (r: Vec<Signal>)
        ensures
            r@ == latch_spec(),
    {
        Self::positive_edge(Pin::Latch)
    }

    /// Writes the word for `level` (`1` for high, `0` for low) sixteen times, then
    /// drives all three lines low.
    pub fn reset(level: Level) -> (r: Vec<Signal>)
        ensures
            r@ == reset_spec(level),
    {
        let bit: u16 = if level == Level::High {
            1
        } else {
            0
        };
        let mut r: Vec<Signal> = Vec::new();
        let mut n: u16 = 0;
        while n < REGISTER_BITS
            invariant
                n <= REGISTER_BITS,
                bit == level_word(level),
                r@ == repeated_writes(bit, n as nat),
            decreases REGISTER_BITS - n,
        {
            extend(&mut r, Self::write(bit));
            n = n + 1;
        }
        r.push(Signal::Drive(Pin::Data, Level::Low));
        r.push(Signal::Drive(Pin::Latch, Level::Low));
        r.push(Signal::Drive(Pin::Clock, Level::Low));
        assert(r@ =~= reset_spec(level));
        r
    }
}

/// What the chained registers hold, and the levels of their control lines.
pub struct RegisterState {
    pub data: Level,
    pub latch: Level,
    pub clock: Level,
    /// The shift register; bit 0 is the stage next to SER.
    pub shift: u16,
    /// The outputs, as last latched.
    pub storage: u16,
}

pub open spec fn level_bit(level: Level) -> u16 {
    if level == Level::High {
        1
    } else {
        0
    }
}

/// Bit `k` of `x`.
pub open spec fn bit(x: u16, k: u16) -> u16 {
    (x >> k) & 1
}

/// The effect of one signal on the registers.
pub open spec fn apply(s: RegisterState, signal: Signal) -> RegisterState {
    match signal {
        Signal::Settle => s,
        Signal::Drive(Pin::Data, level) => RegisterState { data: level, ..s },
        Signal::Drive(Pin::Clock, level) => {
            if level == Level::High && s.clock == Level::Low {
                RegisterState {
                    clock: Level::High,
                    shift: (s.shift << 1u16) | level_bit(s.data),
                    ..s
                }
            } else {
                RegisterState { clock: level, ..s }
            }
        },
        Signal::Drive(Pin::Latch, level) => {
            if level == Level::High && s.latch == Level::Low {
                RegisterState { latch: Level::High, storage: s.shift, ..s }
            } else {
                RegisterState { latch: level, ..s }
            }
        },
    }
}

/// The effect of a sequence of signals, in order.
pub open spec fn run(s: RegisterState, signals: Seq<Signal>) -> RegisterState
    decreases signals.len(),
{
    if signals.len() == 0 {
        s
    } else {
        run(apply(s, signals[0]), signals.drop_first())
    }
}

/// The shift register after the bits `0 .. i` of `data` have been shifted in
/// on top of `old`.
pub open spec fn shifted_in(old: u16, data: u16, i: u16) -> u16
    decreases i,
{
    if i == 0 {
        old
    } else {
        (shifted_in(old, data, (i - 1) as u16) << 1u16) | bit(data, (i - 1) as u16)
    }
}

/// Running two sequences one after the other is running their concatenation.
pub proof fn lemma_run_concat(s: RegisterState, a: Seq<Signal>, b: Seq<Signal>)
    ensures
        run(s, a + b) == run(run(s, a), b),
    decreases a.len(),
{
    if a.len() == 0 {
        assert(a + b =~= b);
    } else {
        assert((a + b).drop_first() =~= a.drop_first() + b);
        lemma_run_concat(apply(s, a[0]), a.drop_first(), b);
    }
}

proof fn lemma_run_edge(s: RegisterState, pin: Pin)
    ensures
        run(s, edge_spec(pin)) == apply(
            apply(s, Signal::Drive(pin, Level::High)),
            Signal::Drive(pin, Level::Low),
        ),
{
    reveal_with_fuel(run, 4);
    let e = edge_spec(pin);
    assert(e.drop_first().drop_first().drop_first() =~= Seq::<Signal>::empty());
    assert(e.drop_first()[0] == Signal::Settle);
    assert(e.drop_first().drop_first()[0] == Signal::Drive(pin, Level::Low));
}

/// Shifting one level in: from any state, SRCLK ends low, SER holds the level, and the
/// outputs and RCLK are untouched; when SRCLK starts low, the level enters bit 0.
pub proof fn lemma_run_shift(s: RegisterState, level: Level)
    ensures
        run(s, shift_spec(level)).clock == Level::Low,
        run(s, shift_spec(level)).data == level,
        run(s, shift_spec(level)).latch == s.latch,
        run(s, shift_spec(level)).storage == s.storage,
        s.clock == Level::Low ==> run(s, shift_spec(level)).shift == (s.shift << 1u16) | level_bit(
            level,
        ),
{
    reveal_with_fuel(run, 2);
    let first = seq![Signal::Drive(Pin::Data, level)];
    assert(first.drop_first() =~= Seq::<Signal>::empty());
    lemma_run_concat(s, first, edge_spec(Pin::Clock));
    lemma_run_edge(apply(s, Signal::Drive(Pin::Data, level)), Pin::Clock);
}

proof fn lemma_bit_level(data: u16, i: u16)
    ensures
        level_bit(bit_level(data, i)) == bit(data, i),
{
    assert((data >> i) & 1 == 1 || (data >> i) & 1 == 0) by (bit_vector);
}

/// Writing the first `i` bits of `data`: from any state the outputs and RCLK are
/// untouched and, once a bit is written, SRCLK is low; when SRCLK starts low, the bits
/// are shifted in one by one.
pub proof fn lemma_run_write_bits(s: RegisterState, data: u16, i: u16)
    requires
        i <= 16,
    ensures
        run(s, write_bits(data, i)).latch == s.latch,
        run(s, write_bits(data, i)).storage == s.storage,
        i > 0 ==> run(s, write_bits(data, i)).clock == Level::Low,
        i > 0 ==> run(s, write_bits(data, i)).data == bit_level(data, (i - 1) as u16),
        s.clock == Level::Low ==> run(s, write_bits(data, i)).clock == Level::Low,
        s.clock == Level::Low ==> run(s, write_bits(data, i)).shift == shifted_in(s.shift, data, i),
    decreases i,
{
    if i > 0 {
        let j = (i - 1) as u16;
        lemma_run_write_bits(s, data, j);
        lemma_run_concat(s, write_bits(data, j), shift_spec(bit_level(data, j)));
        lemma_run_shift(run(s, write_bits(data, j)), bit_level(data, j));
        lemma_bit_level(data, j);
    }
}

proof fn lemma_shift_in_bit(x: u16, b: u16, k: u16)
    requires
        b <= 1,
        k < 16,
    ensures
        bit((x << 1u16) | b, k) == if k == 0 {
            b
        } else {
            bit(x, (k - 1) as u16)
        },
{
    assert(b <= 1 && k < 16 ==> (((x << 1u16) | b) >> k) & 1 == if k == 0 {
        b
    } else {
        (x >> (k - 1) as u16) & 1
    }) by (bit_vector);
}

/// After `i` shifts, the low `i` bits hold the shifted-in bits in reverse order and
/// the rest holds what was there before, moved up by `i`.
pub proof fn lemma_shifted_in_bits(old: u16, data: u16, i: u16, k: u16)
    requires
        i <= 16,
        k < 16,
    ensures
        bit(shifted_in(old, data, i), k) == if k < i {
            bit(data, (i - 1 - k) as u16)
        } else {
            bit(old, (k - i) as u16)
        },
    decreases i,
{
    if i > 0 {
        let j = (i - 1) as u16;
        let x = shifted_in(old, data, j);
        assert(bit(data, j) <= 1) by (bit_vector);
        lemma_shift_in_bit(x, bit(data, j), k);
        if k > 0 {
            lemma_shifted_in_bits(old, data, j, (k - 1) as u16);
        }
    }
}

/// Writing a word, starting with SRCLK low, leaves the word in the shift register
/// with its bits reversed (bit 0 of the word ends in the last stage, bit 15), whatever
/// the register held before; the outputs and RCLK are untouched and SRCLK ends low.
pub proof fn lemma_write_reverses(s: RegisterState, data: u16)
    requires
        s.clock == Level::Low,
    ensures
        forall|k: u16| k < 16 ==> #[trigger] bit(run(s, write_spec(data)).shift, k) == bit(
            data,
            (15 - k) as u16,
        ),
        run(s, write_spec(data)).clock == Level::Low,
        run(s, write_spec(data)).latch == s.latch,
        run(s, write_spec(data)).storage == s.storage,
{
    lemma_run_write_bits(s, data, 16);
    assert forall|k: u16| k < 16 implies #[trigger] bit(run(s, write_spec(data)).shift, k) == bit(
        data,
        (15 - k) as u16,
    ) by {
        lemma_shifted_in_bits(s.shift, data, 16, k);
    }
}

/// Latching, starting with RCLK low, copies the shift register to the outputs.
pub proof fn lemma_latch_copies(s: RegisterState)
    requires
        s.latch == Level::Low,
    ensures
        run(s, latch_spec()) == (RegisterState { storage: s.shift, ..s }),
{
    lemma_run_edge(s, Pin::Latch);
}

/// A write followed by a latch, starting with both clocks low, puts the word on the
/// outputs, bit `k` of the outputs being bit `15 - k` of the word.
pub proof fn lemma_write_then_latch(s: RegisterState, data: u16)
    requires
        s.clock == Level::Low,
        s.latch == Level::Low,
    ensures
        forall|k: u16|
            k < 16 ==> #[trigger] bit(run(s, write_spec(data) + latch_spec()).storage, k) == bit(
                data,
                (15 - k) as u16,
            ),
        run(s, write_spec(data) + latch_spec()).clock == Level::Low,
        run(s, write_spec(data) + latch_spec()).latch == Level::Low,
{
    lemma_run_concat(s, write_spec(data), latch_spec());
    lemma_write_reverses(s, data);
    lemma_latch_copies(run(s, write_spec(data)));
}

/// Writing the same word `n` times from any state: SRCLK ends low, the outputs and RCLK
/// are untouched, and from the second write on the word stands reversed in the
/// shift register (the first write may lose one shift when SRCLK starts high).
pub proof fn lemma_repeated_writes(s: RegisterState, data: u16, n: nat)
    ensures
        n > 0 ==> run(s, repeated_writes(data, n)).clock == Level::Low,
        run(s, repeated_writes(data, n)).latch == s.latch,
        run(s, repeated_writes(data, n)).storage == s.storage,
        n > 1 ==> forall|k: u16|
            k < 16 ==> #[trigger] bit(run(s, repeated_writes(data, n)).shift, k) == bit(
                data,
                (15 - k) as u16,
            ),
    decreases n,
{
    if n > 0 {
        let m = (n - 1) as nat;
        lemma_repeated_writes(s, data, m);
        lemma_run_concat(s, repeated_writes(data, m), write_spec(data));
        let mid = run(s, repeated_writes(data, m));
        lemma_run_write_bits(mid, data, 16);
        if n > 1 {
            lemma_write_reverses(mid, data);
        }
    }
}

proof fn lemma_reversed_level_word(x: u16, level: Level)
    requires
        forall|k: u16| k < 16 ==> #[trigger] bit(x, k) == bit(level_word(level), (15 - k) as u16),
    ensures
        x == if level == Level::High {
            0x8000u16
        } else {
            0u16
        },
{
    let d = level_word(level);
    assert(bit(x, 0) == bit(d, 15) && bit(x, 1) == bit(d, 14) && bit(x, 2) == bit(d, 13));
    assert(bit(x, 3) == bit(d, 12) && bit(x, 4) == bit(d, 11) && bit(x, 5) == bit(d, 10));
    assert(bit(x, 6) == bit(d, 9) && bit(x, 7) == bit(d, 8) && bit(x, 8) == bit(d, 7));
    assert(bit(x, 9) == bit(d, 6) && bit(x, 10) == bit(d, 5) && bit(x, 11) == bit(d, 4));
    assert(bit(x, 12) == bit(d, 3) && bit(x, 13) == bit(d, 2) && bit(x, 14) == bit(d, 1));
    assert(bit(x, 15) == bit(d, 0));
    assert(d <= 1 ==> x == (if d == 1 { 0x8000u16 } else { 0u16 })) by (bit_vector)
        requires
            (x >> 0u16) & 1 == (d >> 15u16) & 1,
            (x >> 1u16) & 1 == (d >> 14u16) & 1,
            (x >> 2u16) & 1 == (d >> 13u16) & 1,
            (x >> 3u16) & 1 == (d >> 12u16) & 1,
            (x >> 4u16) & 1 == (d >> 11u16) & 1,
            (x >> 5u16) & 1 == (d >> 10u16) & 1,
            (x >> 6u16) & 1 == (d >> 9u16) & 1,
            (x >> 7u16) & 1 == (d >> 8u16) & 1,
            (x >> 8u16) & 1 == (d >> 7u16) & 1,
            (x >> 9u16) & 1 == (d >> 6u16) & 1,
            (x >> 10u16) & 1 == (d >> 5u16) & 1,
            (x >> 11u16) & 1 == (d >> 4u16) & 1,
            (x >> 12u16) & 1 == (d >> 3u16) & 1,
            (x >> 13u16) & 1 == (d >> 2u16) & 1,
            (x >> 14u16) & 1 == (d >> 1u16) & 1,
            (x >> 15u16) & 1 == (d >> 0u16) & 1,
    ;
}

/// Resetting, from any state, leaves all three lines low and the outputs as last
/// latched. Resetting to low empties the shift register; resetting to high writes
/// the word `1` each time, so only the last stage (bit 15) ends high.
pub proof fn lemma_reset_outcome(s: RegisterState, level: Level)
    ensures
        run(s, reset_spec(level)).shift == if level == Level::High {
            0x8000u16
        } else {
            0u16
        },
        run(s, reset_spec(level)).data == Level::Low,
        run(s, reset_spec(level)).latch == Level::Low,
        run(s, reset_spec(level)).clock == Level::Low,
        run(s, reset_spec(level)).storage == s.storage,
{
    let d = level_word(level);
    lemma_repeated_writes(s, d, 16);
    let m = run(s, repeated_writes(d, 16));
    lemma_reversed_level_word(m.shift, level);
    lemma_run_concat(s, repeated_writes(d, 16), all_low_spec());
    reveal_with_fuel(run, 4);
    let t = all_low_spec();
    assert(t.drop_first()[0] == Signal::Drive(Pin::Latch, Level::Low));
    assert(t.drop_first().drop_first()[0] == Signal::Drive(Pin::Clock, Level::Low));
    assert(t.drop_first().drop_first().drop_first() =~= Seq::<Signal>::empty());
}

} // verus!
