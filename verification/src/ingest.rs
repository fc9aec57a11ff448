//! Dispatch: one framed line goes through the parser and the converter and,
//! when it carries a usable record, into the buffer as one row.

use vstd::prelude::*;
use crate::convert::{convert, degenerate, spec_convert, ConvertConfig};
use crate::parser::{parse_recip_line, spec_parse_line};
use crate::window::{row_applied, MeasurementWindow};

verus! {

/// Feeds one line into the buffer at timestamp `t`: a line that does not
/// parse, or whose record is degenerate, changes nothing; otherwise the
/// converted values are appended as one row (which the buffer in turn
/// rejects wholesale if their number does not match its channels).
pub fn handle_line(win: &mut MeasurementWindow, line: &[u8], t: u64, cfg: &ConvertConfig)
    requires
        old(win).inv(),
        cfg.wf(),
    ensures
        final(win).inv(),
        match spec_parse_line(line@) {
            None => *final(win) == *old(win),
            Some(rec) => {
                if degenerate(rec) {
                    *final(win) == *old(win)
                } else if spec_convert(rec, *cfg).len() == old(win).channel_count() {
                    row_applied(*old(win), *final(win), t, spec_convert(rec, *cfg))
                } else {
                    *final(win) == *old(win)
                }
            },
        },
{
    match parse_recip_line(line) {
        None => {},
        Some(rec) => {
            match convert(rec, *cfg) {
                None => {},
                Some(vals) => {
                    win.add_row(t, vals.as_slice());
                },
            }
        },
    }
}

} // verus!
