//! The quote-state scanner: one left-to-right pass that tells, for every
//! offset of a command, whether it lies in single quotes, double quotes or
//! neither, and whether an unconsumed backslash precedes it.

use crate::bytes::{BACKSLASH, DOUBLE_QUOTE, SINGLE_QUOTE};
use vstd::prelude::*;

verus! {

#[derive(Clone, Copy, Debug, PartialEq, Eq, Structural)]
pub enum Quote {
    Unquoted,
    SingleQuoted,
    DoubleQuoted,
}

/// The scanner's state before a byte is consumed.
#[derive(Clone, Copy, Debug, PartialEq, Eq, Structural)]
pub struct ScanState {
    pub quote: Quote,
    /// The previous byte was a backslash with escaping power that no byte has consumed yet.
    pub pending_escape: bool,
}

pub open spec fn initial_state() -> ScanState {
    ScanState { quote: Quote::Unquoted, pending_escape: false }
}

/// A single quote that opens or closes a single-quoted region.
pub open spec fn toggles_single(st: ScanState, b: u8) -> bool {
    b == SINGLE_QUOTE && st.quote != Quote::DoubleQuoted && !st.pending_escape
}

/// A double quote that opens or closes a double-quoted region.
pub open spec fn toggles_double(st: ScanState, b: u8) -> bool {
    b == DOUBLE_QUOTE && st.quote != Quote::SingleQuoted && !st.pending_escape
}

pub open spec fn spec_step(st: ScanState, b: u8) -> ScanState {
    if toggles_single(st, b) {
        ScanState {
            quote: if st.quote == Quote::SingleQuoted {
                Quote::Unquoted
            } else {
                Quote::SingleQuoted
            },
            pending_escape: false,
        }
    } else if toggles_double(st, b) {
        ScanState {
            quote: if st.quote == Quote::DoubleQuoted {
                Quote::Unquoted
            } else {
                Quote::DoubleQuoted
            },
            pending_escape: false,
        }
    } else {
        ScanState {
            quote: st.quote,
            pending_escape: b == BACKSLASH && st.quote != Quote::SingleQuoted && !st.pending_escape,
        }
    }
}

/// The state before the byte at offset `i` is consumed (for `i == s.len()`, the
/// residual state at the end).
pub open spec fn state_before(s: Seq<u8>, i: int) -> ScanState
    decreases i,
{
    if i <= 0 {
        initial_state()
    } else {
        spec_step(state_before(s, i - 1), s[i - 1])
    }
}

/// Consumes one byte.
pub fn step(st: ScanState, b: u8) -> (r: ScanState)
    ensures
        r == spec_step(st, b),
{
    if b == SINGLE_QUOTE && st.quote != Quote::DoubleQuoted && !st.pending_escape {
        let quote = match st.quote {
            Quote::SingleQuoted => Quote::Unquoted,
            _ => Quote::SingleQuoted,
        };
        ScanState { quote, pending_escape: false }
    } else if b == DOUBLE_QUOTE && st.quote != Quote::SingleQuoted && !st.pending_escape {
        let quote = match st.quote {
            Quote::DoubleQuoted => Quote::Unquoted,
            _ => Quote::DoubleQuoted,
        };
        ScanState { quote, pending_escape: false }
    } else {
        ScanState {
            quote: st.quote,
            pending_escape: b == BACKSLASH && st.quote != Quote::SingleQuoted && !st.pending_escape,
        }
    }
}

/// The state before each byte of `command`, followed by the residual state at its end.
pub fn quote_states(command: &[u8]) -> (r: Vec<ScanState>)
    ensures
        r@.len() == command@.len() + 1,
        forall|i: int| 0 <= i <= command@.len() ==> r@[i] == state_before(command@, i),
{
    let mut st = ScanState { quote: Quote::Unquoted, pending_escape: false };
    let mut r: Vec<ScanState> = Vec::new();
    r.push(st);
    let mut i: usize = 0;
    while i < command.len()
        invariant
            i <= command@.len(),
            r@.len() == i + 1,
            st == state_before(command@, i as int),
            forall|k: int| 0 <= k <= i ==> r@[k] == state_before(command@, k),
        decreases command@.len() - i,
    {
        st = step(st, command[i]);
        r.push(st);
        i += 1;
    }
    r
}

/// Number of quotes of the given kind before offset `i` that toggled a region.
pub open spec fn toggle_count(s: Seq<u8>, i: int, single: bool) -> nat
    decreases i,
{
    if i <= 0 {
        0
    } else {
        let st = state_before(s, i - 1);
        let t = if single {
            toggles_single(st, s[i - 1])
        } else {
            toggles_double(st, s[i - 1])
        };
        toggle_count(s, i - 1, single) + if t {
            1nat
        } else {
            0nat
        }
    }
}

/// Before every offset the scanner is in exactly one quote state, and that
/// state is fixed by parity: single-quoted exactly when an odd number of
/// unescaped single quotes outside double quotes came before, double-quoted
/// exactly when an odd number of unescaped double quotes outside single quotes
/// came before, and unquoted exactly when both counts are even.
pub proof fn lemma_quote_parity(s: Seq<u8>, i: int)
    requires
        0 <= i <= s.len(),
    ensures
        (state_before(s, i).quote == Quote::SingleQuoted) <==> toggle_count(s, i, true) % 2 == 1,
        (state_before(s, i).quote == Quote::DoubleQuoted) <==> toggle_count(s, i, false) % 2 == 1,
        (state_before(s, i).quote == Quote::Unquoted) <==> (toggle_count(s, i, true) % 2 == 0
            && toggle_count(s, i, false) % 2 == 0),
    decreases i,
{
    if i > 0 {
        lemma_quote_parity(s, i - 1);
    }
}

} // verus!
