use matrix_stream::drivers::hc595::{Hc595, Pin, Signal};
use matrix_stream::drivers::osl641505::Osl641505;
use matrix_stream::Level;

/// Plays signals on a plain model of two chained 74HC595 chips.
struct Chips {
    data: Level,
    latch: Level,
    clock: Level,
    shift: u16,
    storage: u16,
}

impl Chips {
    fn new(shift: u16, storage: u16) -> Self {
        Chips { data: Level::Low, latch: Level::Low, clock: Level::Low, shift, storage }
    }

    fn play(&mut self, signals: &[Signal]) {
        for s in signals {
            match *s {
                Signal::Settle => {}
                Signal::Drive(Pin::Data, l) => self.data = l,
                Signal::Drive(Pin::Clock, l) => {
                    if l == Level::High && self.clock == Level::Low {
                        let b = if self.data == Level::High { 1 } else { 0 };
                        self.shift = (self.shift << 1) | b;
                    }
                    self.clock = l;
                }
                Signal::Drive(Pin::Latch, l) => {
                    if l == Level::High && self.latch == Level::Low {
                        self.storage = self.shift;
                    }
                    self.latch = l;
                }
            }
        }
    }
}

#[test]
fn positive_edge_is_high_settle_low() {
    assert_eq!(
        Hc595::positive_edge(Pin::Latch),
        vec![Signal::Drive(Pin::Latch, Level::High), Signal::Settle, Signal::Drive(Pin::Latch, Level::Low)]
    );
}

#[test]
fn shift_sets_data_then_clocks() {
    let s = Hc595::shift(Level::High);
    assert_eq!(s.len(), 4);
    assert_eq!(s[0], Signal::Drive(Pin::Data, Level::High));
    assert_eq!(s[1], Signal::Drive(Pin::Clock, Level::High));
    assert_eq!(s[3], Signal::Drive(Pin::Clock, Level::Low));
}

#[test]
fn write_sends_least_significant_bit_first() {
    let s = Hc595::write(0b10);
    assert_eq!(s.len(), 64);
    assert_eq!(s[0], Signal::Drive(Pin::Data, Level::Low));
    assert_eq!(s[4], Signal::Drive(Pin::Data, Level::High));
    assert_eq!(s[8], Signal::Drive(Pin::Data, Level::Low));
}

#[test]
fn latch_is_an_edge_on_rclk() {
    assert_eq!(Hc595::latch(), Hc595::positive_edge(Pin::Latch));
}

#[test]
fn write_then_latch_reverses_the_word() {
    for word in [0u16, 1, 0x8000, 0xBF40, 0x1234, 0xFFFF] {
        let mut chips = Chips::new(0xA5A5, 0);
        chips.play(&Hc595::write(word));
        chips.play(&Hc595::latch());
        assert_eq!(chips.storage, word.reverse_bits());
        assert_eq!(chips.clock, Level::Low);
        assert_eq!(chips.latch, Level::Low);
    }
}

#[test]
fn reset_low_clears_the_register() {
    let mut chips = Chips::new(0xFFFF, 0x1234);
    chips.play(&Hc595::reset(Level::Low));
    assert_eq!(chips.shift, 0);
    assert_eq!(chips.storage, 0x1234);
    assert_eq!((chips.data, chips.latch, chips.clock), (Level::Low, Level::Low, Level::Low));
    assert_eq!(Hc595::reset(Level::Low).len(), 16 * 64 + 3);
}

#[test]
fn reset_high_writes_the_word_one_sixteen_times() {
    let mut chips = Chips::new(0, 0);
    chips.play(&Hc595::reset(Level::High));
    assert_eq!(chips.shift, 0x8000);
}

#[test]
fn extract_rows() {
    let data: u64 = 0x0102_0304_0506_0708;
    for row in 0..8u8 {
        assert_eq!(Osl641505::extract_row_data(data, row), row + 1);
    }
    assert_eq!(Osl641505::extract_row_data(u64::MAX, 3), 0xFF);
}

#[test]
fn display_row_words() {
    assert_eq!(Osl641505::display_row(0, 0xFF), 0x0080);
    assert_eq!(Osl641505::display_row(7, 0x00), 0xFF01);
    assert_eq!(Osl641505::display_row(2, 0b1010_0000), 0x5F20);
}

#[test]
fn draw_makes_one_word_per_row() {
    let data: u64 = 0b10101010_01010101_10101010_01010101_10101010_01010101_10101010_01010101;
    let words = Osl641505::draw(data);
    assert_eq!(words.len(), 8);
    for row in 0..8u8 {
        assert_eq!(words[row as usize], Osl641505::display_row(row, Osl641505::extract_row_data(data, row)));
    }
    assert_eq!(words[0], ((!0b1010_1010u8 as u16) << 8) | 0x80);
}

#[test]
fn lit_pixels_drive_their_column_low() {
    // Only pixel (2, 5) set.
    let data: u64 = 1u64 << (63 - (8 * 2 + 5));
    let words = Osl641505::draw(data);
    for row in 0..8u8 {
        let mut chips = Chips::new(0, 0);
        chips.play(&Hc595::write(words[row as usize]));
        chips.play(&Hc595::latch());
        for col in 0..8u16 {
            let low = (chips.storage >> col) & 1 == 0;
            assert_eq!(low, row == 2 && col == 5);
        }
        for r in 0..8u16 {
            assert_eq!((chips.storage >> (8 + r)) & 1 == 1, r == row as u16);
        }
    }
}
