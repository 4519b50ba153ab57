//! Chart math: bucketed downsampling and technical indicators over
//! fixed-point tick values, plus a symbol search utility.
//!
//! All numeric quantities (timestamps, prices, volumes, indicator values)
//! are carried as signed integer "ticks": the caller picks a scale (for
//! example one millionth) and supplies every quantity in that unit. Division
//! rounds toward negative infinity; every other operation is exact.

mod arith;
mod downsample;
mod ema;
mod rsi;
mod search;
mod series;
mod sma;
mod types;
mod vwap;

pub use downsample::lttb_downsample_impl;
pub use downsample::lttb_select;
pub use ema::calc_ema_impl;
pub use ema::ema_at;
pub use ema::lemma_ema_seed_matches_sma;
pub use rsi::MAX_UNIT;
pub use rsi::calc_rsi_impl;
pub use rsi::lemma_rsi_all_gains;
pub use rsi::lemma_rsi_all_losses;
pub use rsi::rsi_at;
pub use search::SymbolEntry;
pub use search::bytes_le;
pub use search::contains_seq;
pub use search::entry_score;
pub use search::filter_symbols_impl;
pub use search::is_prefix_of;
pub use search::lower_of;
pub use search::matches_of;
pub use search::ranked_le;
pub use search::score_of;
pub use sma::calc_sma_impl;
pub use sma::sma_at;
pub use types::DataPoint;
pub use types::IndicatorPoint;
pub use types::MAX_LEN;
pub use types::MAX_TICK;
pub use types::PricePoint;
pub use vwap::calc_vwap_impl;
pub use vwap::calc_vwap_with_reset;
pub use vwap::session_start;
pub use vwap::typical_price;
pub use vwap::vwap_value;
