//! Row and cell coloring decisions for the trade table.
//!
//! Each displayed row is compared with its chronological predecessor: bid
//! and ask cells are toned by their own movement, and a rise in traded
//! quantity highlights the whole row, green when the price rose and red
//! otherwise, overriding the cell tones.

use vstd::prelude::*;
use crate::price::{decimal_of, parse_decimal};
use crate::ring::{pred_slot, DataList};

verus! {

/// The tone of one cell, relative to the predecessor row.
#[derive(Clone, Copy, PartialEq, Eq, Structural, Debug)]
pub enum CellTone {
    /// No movement: the terminal's default colors.
    Unchanged,
    /// The value rose.
    Up,
    /// The value fell.
    Down,
    /// The row is highlighted; the cell takes the highlight foreground.
    Emphasis,
}

/// The tone of a whole row.
#[derive(Clone, Copy, PartialEq, Eq, Structural, Debug)]
pub enum RowTone {
    /// Quantity did not rise: no highlight.
    Plain,
    /// Quantity rose on a rising price: green highlight.
    Gain,
    /// Quantity rose on a non-rising price: red highlight.
    Loss,
}

/// The coloring of one row of the trade table.
#[derive(Clone, Copy, PartialEq, Eq, Structural, Debug)]
pub struct RowStyle {
    /// Tone of the whole row.
    pub row: RowTone,
    /// Tone of the best-bid cell.
    pub bid: CellTone,
    /// Tone of the best-ask cell.
    pub ask: CellTone,
}

/// The tone of one cell from its movement, before any row highlight.
pub open spec fn cell_tone_spec(cur: int, prior: int) -> CellTone {
    if cur > prior {
        CellTone::Up
    } else if cur < prior {
        CellTone::Down
    } else {
        CellTone::Unchanged
    }
}

/// The full styling rule of one row, over the parsed fixed-point values of
/// the row and its predecessor.
pub open spec fn row_style_spec(
    qty: int,
    qty_prior: int,
    price: int,
    price_prior: int,
    bid: int,
    bid_prior: int,
    ask: int,
    ask_prior: int,
) -> RowStyle {
    if qty > qty_prior {
        RowStyle {
            row: if price > price_prior {
                RowTone::Gain
            } else {
                RowTone::Loss
            },
            bid: CellTone::Emphasis,
            ask: CellTone::Emphasis,
        }
    } else {
        RowStyle {
            row: RowTone::Plain,
            bid: cell_tone_spec(bid, bid_prior),
            ask: cell_tone_spec(ask, ask_prior),
        }
    }
}

/// Styles one row from the parsed values of the row and its predecessor.
pub fn row_style(
    qty: i64,
    qty_prior: i64,
    price: i64,
    price_prior: i64,
    bid: i64,
    bid_prior: i64,
    ask: i64,
    ask_prior: i64,
) -> (st: RowStyle)
    ensures
        st == row_style_spec(
            qty as int,
            qty_prior as int,
            price as int,
            price_prior as int,
            bid as int,
            bid_prior as int,
            ask as int,
            ask_prior as int,
        ),
{
    if qty > qty_prior {
        RowStyle {
            row: if price > price_prior {
                RowTone::Gain
            } else {
                RowTone::Loss
            },
            bid: CellTone::Emphasis,
            ask: CellTone::Emphasis,
        }
    } else {
        let bid_tone = if bid > bid_prior {
            CellTone::Up
        } else if bid < bid_prior {
            CellTone::Down
        } else {
            CellTone::Unchanged
        };
        let ask_tone = if ask > ask_prior {
            CellTone::Up
        } else if ask < ask_prior {
            CellTone::Down
        } else {
            CellTone::Unchanged
        };
        RowStyle { row: RowTone::Plain, bid: bid_tone, ask: ask_tone }
    }
}

/// Styles the row shown for slot `i` of a buffer: the predecessor is looked
/// up by the buffer's predecessor formula, and quantity, price, bid and ask
/// are the parsed fields of the two ticks.
pub fn row_style_at(data_list: &DataList, i: usize) -> (st: RowStyle)
    requires
        data_list@.wf(),
        i < data_list@.capacity,
    ensures
        ({
            let cur = data_list@.data[i as int];
            let prior = data_list@.data[pred_slot(data_list@.capacity, i as int)];
            st == row_style_spec(
                decimal_of(cur.v@),
                decimal_of(prior.v@),
                decimal_of(cur.a@),
                decimal_of(prior.a@),
                decimal_of(cur.b@),
                decimal_of(prior.b@),
                decimal_of(cur.k@),
                decimal_of(prior.k@),
            )
        }),
{
    proof {
        crate::ring::lemma_pred_slot(data_list@.capacity, i as int);
    }
    let i_prior = (data_list.capacity - 1) - ((data_list.capacity - i) % data_list.capacity);
    let cur = &data_list.data[i];
    let prior = &data_list.data[i_prior];
    row_style(
        parse_decimal(cur.v.as_str()),
        parse_decimal(prior.v.as_str()),
        parse_decimal(cur.a.as_str()),
        parse_decimal(prior.a.as_str()),
        parse_decimal(cur.b.as_str()),
        parse_decimal(prior.b.as_str()),
        parse_decimal(cur.k.as_str()),
        parse_decimal(prior.k.as_str()),
    )
}

} // verus!
