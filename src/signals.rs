//! The indicators computed on each series. The formulas work on floating
//! point and are evaluated outside the library; the library holds the
//! indicator types and the shape of the moving average's result.
use vstd::prelude::*;

verus! {

/// The minimum of a series.
#[derive(Clone, Copy, Debug, PartialEq, Eq, Structural)]
pub struct MinPrice {}

/// The maximum of a series.
#[derive(Clone, Copy, Debug, PartialEq, Eq, Structural)]
pub struct MaxPrice {}

/// The absolute and relative difference between the last and the first
/// element of a series.
#[derive(Clone, Copy, Debug, PartialEq, Eq, Structural)]
pub struct PriceDifference {}

/// The simple moving average over a window of `window_size` elements.
#[derive(Clone, Copy, Debug, PartialEq, Eq, Structural)]
pub struct WindowedSMA {
    pub window_size: usize,
}

impl WindowedSMA {
    /// How many averages a series of `len` elements has: none at all (no
    /// result) where the series is empty or the window holds one element
    /// or less, and otherwise one per full window, which is zero windows
    /// where the series is shorter than the window.
    pub open spec fn spec_window_count(&self, len: nat) -> Option<nat> {
        if len == 0 || self.window_size <= 1 {
            None
        } else if len < self.window_size {
            Some(0)
        } else {
            Some((len - self.window_size + 1) as nat)
        }
    }

    /// Number of averages for a series of `len` elements, `None` where the
    /// average is undefined.
    pub fn window_count(&self, len: usize) -> (r: Option<usize>)
        ensures
            r matches Some(k) ==> self.spec_window_count(len as nat) == Some(k as nat),
            r is None <==> self.spec_window_count(len as nat) is None,
    {
        if len == 0 || self.window_size <= 1 {
            None
        } else if len < self.window_size {
            Some(0)
        } else {
            Some(len - self.window_size + 1)
        }
    }
}

} // verus!
