//! Per-model pricing and cost computation, provider-agnostic.
//!
//! Prices are per 1M tokens, in US cents; cache rates are multipliers of the
//! input rate, in percent (the prompt-cache norm: a read costs 10% of the
//! input rate, a write 125%). Costs are exact integers in units of
//! 10^-10 USD, so that every table entry prices without rounding. A model
//! id is matched case-insensitively (ASCII) against the table's fragments
//! as a substring; the longest matching fragment wins, so specific versions
//! override family fallbacks. Unknown models are unpriced and cost zero.

use vstd::prelude::*;

use crate::text::{ascii_lower, ascii_lowercase, chars_of, contains_chars, contains_seq};

verus! {

/// Cost units per US dollar (costs are integers in 10^-10 USD).
pub const COST_UNITS_PER_USD: i128 = 10_000_000_000;

/// Per-1M-token pricing for one model, including its cache-rate multipliers
/// relative to the input rate.
#[derive(Debug, Clone, Copy, PartialEq, Eq, Structural)]
pub struct ModelPrice {
    /// Input rate, US cents per 1M tokens.
    pub input: u32,
    /// Output rate, US cents per 1M tokens.
    pub output: u32,
    /// Cache-read rate as a percentage of the input rate.
    pub cache_read_mult: u16,
    /// Cache-write rate as a percentage of the input rate.
    pub cache_write_mult: u16,
}

/// The prompt-cache norm: read at 10% of input, write at 125%.
pub const CACHE_READ: u16 = 10;

pub const CACHE_WRITE: u16 = 125;

/// Number of rows in the price table.
pub const TABLE_LEN: usize = 17;

/// A row on the standard cache norm.
pub open spec fn row(input: u32, output: u32) -> ModelPrice {
    ModelPrice { input, output, cache_read_mult: CACHE_READ, cache_write_mult: CACHE_WRITE }
}

/// The price table: model-id fragment and price, grouped by provider.
pub open spec fn table_row(i: int) -> (Seq<char>, ModelPrice) {
    if i == 0 {
        ("fable-5"@, row(1000, 5000))
    } else if i == 1 {
        ("mythos-5"@, row(1000, 5000))
    } else if i == 2 {
        ("opus-4-8"@, row(500, 2500))
    } else if i == 3 {
        ("opus-4-7"@, row(500, 2500))
    } else if i == 4 {
        ("opus-4-6"@, row(500, 2500))
    } else if i == 5 {
        ("opus-4-5"@, row(500, 2500))
    } else if i == 6 {
        ("opus-4-1"@, row(1500, 7500))
    } else if i == 7 {
        ("opus-4"@, row(1500, 7500))
    } else if i == 8 {
        ("3-opus"@, row(1500, 7500))
    } else if i == 9 {
        ("sonnet-5"@, row(300, 1500))
    } else if i == 10 {
        ("sonnet-4-6"@, row(300, 1500))
    } else if i == 11 {
        ("sonnet-4-5"@, row(300, 1500))
    } else if i == 12 {
        ("sonnet-4"@, row(300, 1500))
    } else if i == 13 {
        ("sonnet"@, row(300, 1500))
    } else if i == 14 {
        ("haiku-4-5"@, row(100, 500))
    } else if i == 15 {
        ("haiku"@, row(80, 400))
    } else {
        ("opus"@, row(500, 2500))
    }
}

fn p(input: u32, output: u32) -> (r: ModelPrice)
    ensures
        r == row(input, output),
{
    ModelPrice { input, output, cache_read_mult: CACHE_READ, cache_write_mult: CACHE_WRITE }
}

/// Row `i` of the price table.
pub fn table_entry(i: usize) -> (r: (&'static str, ModelPrice))
    requires
        i < TABLE_LEN,
    ensures
        (r.0@, r.1) == table_row(i as int),
{
    if i == 0 {
        ("fable-5", p(1000, 5000))
    } else if i == 1 {
        ("mythos-5", p(1000, 5000))
    } else if i == 2 {
        ("opus-4-8", p(500, 2500))
    } else if i == 3 {
        ("opus-4-7", p(500, 2500))
    } else if i == 4 {
        ("opus-4-6", p(500, 2500))
    } else if i == 5 {
        ("opus-4-5", p(500, 2500))
    } else if i == 6 {
        ("opus-4-1", p(1500, 7500))
    } else if i == 7 {
        ("opus-4", p(1500, 7500))
    } else if i == 8 {
        ("3-opus", p(1500, 7500))
    } else if i == 9 {
        ("sonnet-5", p(300, 1500))
    } else if i == 10 {
        ("sonnet-4-6", p(300, 1500))
    } else if i == 11 {
        ("sonnet-4-5", p(300, 1500))
    } else if i == 12 {
        ("sonnet-4", p(300, 1500))
    } else if i == 13 {
        ("sonnet", p(300, 1500))
    } else if i == 14 {
        ("haiku-4-5", p(100, 500))
    } else if i == 15 {
        ("haiku", p(80, 400))
    } else {
        ("opus", p(500, 2500))
    }
}

/// Table row `i` matches the (already lower-cased) model id `m`.
pub open spec fn row_matches(m: Seq<char>, i: int) -> bool {
    0 <= i < TABLE_LEN && contains_seq(m, table_row(i).0)
}

/// Row `i` is the winning match for `m`: it matches, no matching row has a
/// longer fragment, and no later matching row has one as long (ties go to
/// the last row, as `Iterator::max_by_key` picks).
pub open spec fn best_row(m: Seq<char>, i: int) -> bool {
    &&& row_matches(m, i)
    &&& forall|j: int| #[trigger] row_matches(m, j) ==> table_row(j).0.len() <= table_row(i).0.len()
    &&& forall|j: int| #[trigger] row_matches(m, j) && i < j ==> table_row(j).0.len() < table_row(
        i,
    ).0.len()
}

/// Price for a model id, or `None` when no table fragment occurs in the
/// lower-cased id.
pub open spec fn price_spec(model: Seq<char>) -> Option<ModelPrice> {
    let m = ascii_lower(model);
    if exists|i: int| row_matches(m, i) {
        Some(table_row(choose|i: int| best_row(m, i)).1)
    } else {
        None
    }
}

/// Price for a model id, or `None` when unrecognized.
pub fn price_for(model: &str) -> (r: Option<ModelPrice>)
    ensures
        r == price_spec(model@),
        r is None <==> forall|i: int| !row_matches(ascii_lower(model@), i),
        r matches Some(pr) ==> exists|i: int|
            best_row(ascii_lower(model@), i) && #[trigger] table_row(i).1 == pr,
{
    let chars = chars_of(model);
    let m = ascii_lowercase(&chars);
    let ghost gm = ascii_lower(model@);
    let mut best: Option<usize> = None;
    let mut best_len: usize = 0;
    let mut i: usize = 0;
    while i < TABLE_LEN
        invariant
            m@ == gm,
            i <= TABLE_LEN,
            match best {
                Some(b) => {
                    &&& b < i
                    &&& row_matches(gm, b as int)
                    &&& best_len == table_row(b as int).0.len()
                    &&& forall|j: int|
                        0 <= j < i && #[trigger] row_matches(gm, j) ==> table_row(j).0.len()
                            <= best_len
                    &&& forall|j: int|
                        b < j < i && #[trigger] row_matches(gm, j) ==> table_row(j).0.len()
                            < best_len
                },
                None => forall|j: int| 0 <= j < i ==> !#[trigger] row_matches(gm, j),
            },
        decreases TABLE_LEN - i,
    {
        let (key, _price) = table_entry(i);
        let key_chars = chars_of(key);
        if contains_chars(&m, &key_chars) {
            let len = key_chars.len();
            let take = match best {
                Some(_) => len >= best_len,
                None => true,
            };
            if take {
                best = Some(i);
                best_len = len;
            }
        }
        i += 1;
    }
    match best {
        Some(b) => {
            assert(best_row(gm, b as int));
            assert(exists|j: int| row_matches(gm, j));
            let ghost w = choose|j: int| best_row(gm, j);
            assert(w == b) by {
                if w < b {
                    assert(row_matches(gm, b as int));
                } else if w > b {
                    assert(row_matches(gm, w));
                }
            }
            Some(table_entry(b).1)
        },
        None => {
            assert forall|j: int| !row_matches(gm, j) by {
                if 0 <= j < TABLE_LEN {
                    assert(!row_matches(gm, j));
                }
            }
            None
        },
    }
}

/// Cost of one usage record at a price, in 10^-10 USD:
/// `sum(tokens * rate)` with rates in cents per 1M tokens.
pub open spec fn cost_spec(
    price: ModelPrice,
    tokens_in: int,
    tokens_out: int,
    cache_read: int,
    cache_write: int,
) -> int {
    tokens_in * price.input * 100 + tokens_out * price.output * 100 + cache_read * price.input
        * price.cache_read_mult + cache_write * price.input * price.cache_write_mult
}

proof fn lemma_term_bound(t: i64, rate: u32, mult: u16)
    ensures
        -0x0001_0000_0000_0000_0000_0000_0000_0000 < t * rate
            < 0x0001_0000_0000_0000_0000_0000_0000_0000,
        -0x0001_0000_0000_0000_0000_0000_0000_0000 < t * rate * mult
            < 0x0001_0000_0000_0000_0000_0000_0000_0000,
{
    assert(-0x8000_0000_0000_0000 <= t <= 0x7fff_ffff_ffff_ffff);
    assert(0 <= rate <= 0xffff_ffff);
    assert(0 <= mult <= 0xffff);
    assert(-0x0001_0000_0000_0000_0000_0000_0000_0000 < t * rate
        < 0x0001_0000_0000_0000_0000_0000_0000_0000) by (nonlinear_arith)
        requires
            -0x8000_0000_0000_0000 <= t <= 0x7fff_ffff_ffff_ffff,
            0 <= rate <= 0xffff_ffff,
    ;
    assert(-0x0001_0000_0000_0000_0000_0000_0000_0000 < t * rate * mult
        < 0x0001_0000_0000_0000_0000_0000_0000_0000) by (nonlinear_arith)
        requires
            -0x8000_0000_0000_0000 <= t <= 0x7fff_ffff_ffff_ffff,
            0 <= rate <= 0xffff_ffff,
            0 <= mult <= 0xffff,
    ;
}

impl ModelPrice {
    /// Estimated cost of one usage record at this price, in 10^-10 USD.
    pub fn cost(self, tokens_in: i64, tokens_out: i64, cache_read: i64, cache_write: i64) -> (r:
        i128)
        ensures
            r == cost_spec(self, tokens_in as int, tokens_out as int, cache_read as int, cache_write as int),
    {
        proof {
            lemma_term_bound(tokens_in, self.input, 100);
            lemma_term_bound(tokens_out, self.output, 100);
            lemma_term_bound(cache_read, self.input, self.cache_read_mult);
            lemma_term_bound(cache_write, self.input, self.cache_write_mult);
        }
        let a = (tokens_in as i128) * (self.input as i128) * 100;
        let b = (tokens_out as i128) * (self.output as i128) * 100;
        let c = (cache_read as i128) * (self.input as i128) * (self.cache_read_mult as i128);
        let d = (cache_write as i128) * (self.input as i128) * (self.cache_write_mult as i128);
        a + b + c + d
    }
}

/// Estimated cost of a usage record in 10^-10 USD, zero when the model is
/// absent or unpriced.
pub open spec fn cost_of_spec(
    model: Option<Seq<char>>,
    tokens_in: int,
    tokens_out: int,
    cache_read: int,
    cache_write: int,
) -> int {
    match model {
        Some(m) => match price_spec(m) {
            Some(pr) => cost_spec(pr, tokens_in, tokens_out, cache_read, cache_write),
            None => 0,
        },
        None => 0,
    }
}

pub open spec fn opt_str_view(s: Option<&str>) -> Option<Seq<char>> {
    match s {
        Some(x) => Some(x@),
        None => None,
    }
}

/// Estimated cost of a usage record, 0 when the model is unpriced.
pub fn cost_of(
    model: Option<&str>,
    tokens_in: i64,
    tokens_out: i64,
    cache_read: i64,
    cache_write: i64,
) -> (r: i128)
    ensures
        r == cost_of_spec(
            opt_str_view(model),
            tokens_in as int,
            tokens_out as int,
            cache_read as int,
            cache_write as int,
        ),
{
    match model {
        Some(m) => match price_for(m) {
            Some(pr) => pr.cost(tokens_in, tokens_out, cache_read, cache_write),
            None => 0,
        },
        None => 0,
    }
}

} // verus!
