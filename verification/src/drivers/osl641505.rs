//! Row-by-row (dynamic) driving of an OSL641505 8x8 LED matrix.
//!
//! A frame is a 64-bit bitmap whose most significant bit is the pixel at row 0,
//! column 0 and whose least significant bit is the pixel at row 7, column 7.
//! Each row is shown in turn through a 16-bit control word: the low byte selects
//! the row (one bit high), the high byte drives the columns, where a `0` lights
//! the LED.
use vstd::prelude::*;
use vstd::bits::lemma_u64_shr_is_div;

use crate::drivers::hc595::{
    bit, lemma_write_then_latch, latch_spec, run, write_spec, RegisterState,
};
use crate::protocol::{
    binary_u64, binary_value, bit_of, frame_check, lemma_valid_frame_parses, FRAME_BITS,
};
use crate::Level;

verus! {

/// Number of rows (and of columns) of the matrix.
pub const MATRIX_SIZE: u8 = 8;

/// The byte of `data` that holds row `row`, column 0 in its most significant bit.
pub open spec fn row_byte(data: u64, row: u8) -> u8 {
    ((data >> ((7 - row) * 8) as u64) & 0xff) as u8
}

/// The control word that shows `col_data` on row `row`.
pub open spec fn control_word(row: u8, col_data: u8) -> u16 {
    (((!col_data) as u16) << 8u16) | ((1u8 << (7 - row) as u8) as u16)
}

/// Whether the pixel at (`row`, `col`) of `data` is set.
pub open spec fn pixel(data: u64, row: u8, col: u8) -> bool {
    (data >> (63 - 8 * row - col) as u64) & 1 == 1
}

/// The row-by-row plan for showing frames on the matrix.
pub struct Osl641505;

impl Osl641505 {
    /// The byte of the frame that holds row `row`.
    pub fn extract_row_data(data: u64, row: u8) -> (r: u8)
        requires
            row < MATRIX_SIZE,
        ensures
            r == row_byte(data, row),
    {
        let shift_amount: u8 = (7 - row) * 8;
        ((data >> shift_amount) & 0xFF) as u8
    }

    /// The control word that shows the columns `col_data` on row `row`
    /// (what is shifted out for one row).
    pub fn display_row(row: u8, col_data: u8) -> (r: u16)
        requires
            row < MATRIX_SIZE,
        ensures
            r == control_word(row, col_data),
    {
        let row_bits: u8 = 1u8 << (7 - row);
        let col_bits: u8 = !col_data;
        ((col_bits as u16) << 8) | (row_bits as u16)
    }

    /// The control words that draw the whole frame, one per row, row 0 first.
    pub fn draw(data: u64) -> (words: Vec<u16>)
        ensures
            words@.len() == MATRIX_SIZE,
            forall|row: int|
                0 <= row < MATRIX_SIZE ==> #[trigger] words@[row] == control_word(
                    row as u8,
                    row_byte(data, row as u8),
                ),
    {
        let mut words: Vec<u16> = Vec::new();
        let mut row: u8 = 0;
        while row < MATRIX_SIZE
            invariant
                row <= MATRIX_SIZE,
                words@.len() == row,
                forall|r: int|
                    0 <= r < row ==> #[trigger] words@[r] == control_word(
                        r as u8,
                        row_byte(data, r as u8),
                    ),
            decreases MATRIX_SIZE - row,
        {
            let row_data = Self::extract_row_data(data, row);
            words.push(Self::display_row(row, row_data));
            row = row + 1;
        }
        words
    }
}

/// Bit `7 - col` of row byte `row` is the pixel at (`row`, `col`): the frame's most
/// significant bit is the top-left pixel and its least significant bit the bottom-right one.
pub proof fn lemma_row_byte_pixels(data: u64, row: u8, col: u8)
    requires
        row < 8,
        col < 8,
    ensures
        ((row_byte(data, row) >> (7 - col) as u8) & 1 == 1) == pixel(data, row, col),
{
    assert(((((data >> ((7 - row) * 8) as u64) & 0xff) as u8 >> (7 - col) as u8) & 1 == 1) == ((
    data >> (63 - 8 * row - col) as u64) & 1 == 1)) by (bit_vector)
        requires
            row < 8,
            col < 8,
    ;
}

/// A control word selects exactly its row in the low byte, and carries the
/// inverted column data in the high byte.
pub proof fn lemma_control_word_layout(row: u8, col_data: u8)
    requires
        row < 8,
    ensures
        control_word(row, col_data) & 0xff == 1u16 << (7 - row) as u16,
        control_word(row, col_data) >> 8u16 == (!col_data) as u16,
{
    assert(((((!col_data) as u16) << 8u16) | ((1u8 << (7 - row) as u8) as u16)) & 0xff == 1u16 << (7
        - row) as u16) by (bit_vector)
        requires
            row < 8,
    ;
    assert(((((!col_data) as u16) << 8u16) | ((1u8 << (7 - row) as u8) as u16)) >> 8u16 == (
    !col_data) as u16) by (bit_vector)
        requires
            row < 8,
    ;
}

/// While row `row` of a frame is shown, the line of column `col` is driven low
/// (the LED lights) exactly when the frame's pixel (`row`, `col`) is set.
pub proof fn lemma_lit_iff_pixel(data: u64, row: u8, col: u8)
    requires
        row < 8,
        col < 8,
    ensures
        ((control_word(row, row_byte(data, row)) >> (15 - col) as u16) & 1 == 0) == pixel(
            data,
            row,
            col,
        ),
{
    let b = row_byte(data, row);
    lemma_row_byte_pixels(data, row, col);
    assert(((((((!b) as u16) << 8u16) | ((1u8 << (7 - row) as u8) as u16)) >> (15 - col) as u16)
        & 1 == 0) == ((b >> (7 - col) as u8) & 1 == 1)) by (bit_vector)
        requires
            row < 8,
            col < 8,
    ;
}


/// Showing row `row` of a frame (writing its control word, then latching, with both
/// clocks low) leaves the chained registers' outputs so that output `col` (a column
/// line) is low exactly when pixel (`row`, `col`) is set, output `8 + row` (its row
/// line) is high, and the other row lines are low.
pub proof fn lemma_row_outputs(s: RegisterState, data: u64, row: u8)
    requires
        row < 8,
        s.clock == Level::Low,
        s.latch == Level::Low,
    ensures
        ({
            let out = run(s, write_spec(control_word(row, row_byte(data, row))) + latch_spec()).storage;
            &&& forall|col: u8| col < 8 ==> (#[trigger] bit(out, col as u16) == 0) == pixel(data, row, col)
            &&& forall|r: u8| r < 8 ==> (#[trigger] bit(out, (8 + r) as u16) == 1) == (r == row)
        }),
{
    let w = control_word(row, row_byte(data, row));
    let out = run(s, write_spec(w) + latch_spec()).storage;
    lemma_write_then_latch(s, w);
    assert forall|col: u8| col < 8 implies (#[trigger] bit(out, col as u16) == 0) == pixel(
        data,
        row,
        col,
    ) by {
        assert(bit(out, col as u16) == bit(w, (15 - col) as u16));
        lemma_lit_iff_pixel(data, row, col);
    }
    assert forall|r: u8| r < 8 implies (#[trigger] bit(out, (8 + r) as u16) == 1) == (r == row) by {
        assert(bit(out, (8 + r) as u16) == bit(w, (7 - r) as u16));
        let b = row_byte(data, row);
        assert((((((!b) as u16) << 8u16) | ((1u8 << (7 - row) as u8) as u16)) >> (7 - r) as u16) & 1
            == 1 <==> r == row) by (bit_vector)
            requires
                row < 8,
                r < 8,
        ;
    }
}

/// A frame line that passes the check sets pixel (`row`, `col`) exactly when its
/// character `8 * row + col` is `'1'`.
pub proof fn lemma_frame_pixels(line: Seq<char>, row: u8, col: u8)
    requires
        frame_check(line) is Ok,
        row < 8,
        col < 8,
    ensures
        line.len() == FRAME_BITS,
        binary_u64(line) is Some,
        pixel(binary_u64(line)->0, row, col) == (line[8 * row + col] == '1'),
{
    lemma_valid_frame_parses(line);
    crate::protocol::lemma_valid_frame_shape(line);
    let v = binary_u64(line)->0;
    let i: int = 8 * row + col;
    let k: u64 = (63 - i) as u64;
    assert(bit_of(binary_value(line), (63 - i) as nat) == crate::protocol::digit_value(line[i]));
    crate::protocol::lemma_binary_value_bound(line);
    vstd::arithmetic::power2::lemma2_to64();
    assert(v as nat == binary_value(line));
    lemma_u64_shr_is_div(v, k);
    assert((v >> k) & 1 == (v >> k) % 2) by (bit_vector);
    assert(pixel(v, row, col) == ((v >> k) & 1 == 1));
}

} // verus!
