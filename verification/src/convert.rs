//! Unit converter: turns a raw counter record and a reference clock into
//! exact rational frequency values, one per enabled channel.
//!
//! With counter `N`, reference-cycle count `C`, reference clock `clk` and a
//! fine-correction raw value `F` calibrated over `[fine_min, fine_max]`:
//! the coarse frequency is `N * clk / C`, and the fine-corrected frequency is
//! `N / ((C + frac) / clk)` where `frac = (F - fine_min) / span` and
//! `span = fine_max - fine_min + 1`. Both are exact ratios of integers, so
//! they are kept as numerator/denominator pairs.

use vstd::prelude::*;
use crate::parser::RawRecord;

verus! {

/// An exact frequency in Hz, the ratio `num / den`.
#[derive(Clone, Copy, PartialEq, Eq, Debug)]
pub struct Frequency {
    pub num: u128,
    pub den: u128,
}

impl Frequency {
    /// A whole number of Hz.
    pub fn from_hz(hz: u64) -> (r: Frequency)
        ensures
            r.num == hz,
            r.den == 1,
    {
        Frequency { num: hz as u128, den: 1 }
    }
}

/// Converter configuration: the reference clock and the fine-correction
/// calibration bounds. One coarse channel is always emitted; the
/// fine-corrected channel only when `fine_enabled` is set.
#[derive(Clone, Copy, PartialEq, Eq, Debug)]
pub struct ConvertConfig {
    pub reference_clock_hz: u64,
    pub fine_min: u32,
    pub fine_max: u32,
    pub fine_enabled: bool,
}

impl ConvertConfig {
    /// The calibration bounds form an interval.
    pub open spec fn wf(self) -> bool {
        self.fine_min <= self.fine_max
    }
}

/// Number of fine-correction codes in the calibration interval.
pub open spec fn fine_span(cfg: ConvertConfig) -> int {
    cfg.fine_max - cfg.fine_min + 1
}

/// Sub-cycle offset contributed by the fine-correction value, in units of
/// `1 / fine_span(cfg)` of a reference cycle: an absent or out-of-range
/// value contributes nothing.
pub open spec fn fine_offset(cfg: ConvertConfig, fine_raw: Option<u32>) -> int {
    match fine_raw {
        Some(f) => if cfg.fine_min <= f && f <= cfg.fine_max {
            f - cfg.fine_min
        } else {
            0
        },
        None => 0,
    }
}

/// Coarse frequency `counter * clk / reference_cycles`, as an exact ratio.
pub open spec fn coarse_frequency(rec: RawRecord, cfg: ConvertConfig) -> Frequency {
    Frequency {
        num: (rec.counter * cfg.reference_clock_hz) as u128,
        den: rec.reference_cycles as u128,
    }
}

/// Fine-corrected frequency `counter / ((reference_cycles + off/span) / clk)`,
/// brought to one exact ratio: `counter * clk * span / (reference_cycles *
/// span + off)`.
pub open spec fn fine_frequency(rec: RawRecord, cfg: ConvertConfig) -> Frequency {
    Frequency {
        num: (rec.counter * cfg.reference_clock_hz * fine_span(cfg)) as u128,
        den: (rec.reference_cycles * fine_span(cfg) + fine_offset(cfg, rec.fine_raw)) as u128,
    }
}

/// A record that must be discarded: a zero counter or a zero reference-cycle
/// count carries no usable measurement.
pub open spec fn degenerate(rec: RawRecord) -> bool {
    rec.counter == 0 || rec.reference_cycles == 0
}

/// The converter's output for a non-degenerate record: the coarse value,
/// then the fine-corrected value when that channel is enabled.
pub open spec fn spec_convert(rec: RawRecord, cfg: ConvertConfig) -> Seq<Frequency> {
    if cfg.fine_enabled {
        seq![coarse_frequency(rec, cfg), fine_frequency(rec, cfg)]
    } else {
        seq![coarse_frequency(rec, cfg)]
    }
}

/// Converts one raw record into frequency values, or discards it when it is
/// degenerate.
pub fn convert(rec: RawRecord, cfg: ConvertConfig) -> (r: Option<Vec<Frequency>>)
    requires
        cfg.wf(),
    ensures
        r is Some <==> !degenerate(rec),
        r matches Some(v) ==> v@ == spec_convert(rec, cfg),
{
    if rec.counter == 0 || rec.reference_cycles == 0 {
        return None;
    }
    let n = rec.counter as u128;
    let clk = cfg.reference_clock_hz as u128;
    let c = rec.reference_cycles as u128;
    proof {
        assert(n * clk < 0x1_0000_0000_0000_0000_0000_0000 as u128) by (nonlinear_arith)
            requires
                n < 0x1_0000_0000 as u128,
                clk < 0x1_0000_0000_0000_0000 as u128,
        ;
    }
    let coarse_num = n * clk;
    let mut out: Vec<Frequency> = Vec::new();
    out.push(Frequency { num: coarse_num, den: c });
    if cfg.fine_enabled {
        let span = (cfg.fine_max - cfg.fine_min) as u128 + 1;
        let off: u128 = match rec.fine_raw {
            Some(f) => if cfg.fine_min <= f && f <= cfg.fine_max {
                (f - cfg.fine_min) as u128
            } else {
                0
            },
            None => 0,
        };
        proof {
            assert(coarse_num * span <= u128::MAX) by (nonlinear_arith)
                requires
                    coarse_num < 0x1_0000_0000_0000_0000_0000_0000 as u128,
                    span <= 0x1_0000_0000 as u128,
            ;
            assert(c * span + off < u128::MAX) by (nonlinear_arith)
                requires
                    c < 0x1_0000_0000 as u128,
                    span <= 0x1_0000_0000 as u128,
                    off < 0x1_0000_0000 as u128,
            ;
        }
        let num = coarse_num * span;
        let den = c * span + off;
        out.push(Frequency { num, den });
    }
    proof {
        assert(out@ =~= spec_convert(rec, cfg));
    }
    Some(out)
}

} // verus!
