//! Where in a recording a frame may begin: the first window that is loud enough.

use vstd::prelude::*;

verus! {

/// Windows of `win` samples, each `step` behind the one before.
#[derive(Debug, Clone, Copy, PartialEq, Eq, Structural)]
pub struct EdgeGrid {
    pub win: usize,
    pub step: usize,
    pub count: usize,
}

impl EdgeGrid {
    /// The grid of a recording: windows of at least 64 samples that overlap by half, as many as
    /// lie in it. A recording of less than `at_least` samples has none.
    pub fn new(recorded: usize, at_least: usize, win: usize) -> (r: Option<EdgeGrid>)
        requires
            win <= at_least,
        ensures
            r is Some <==> recorded >= at_least,
            r matches Some(g) ==> {
                &&& g.win == (if win >= 64 {
                    win
                } else {
                    64
                })
                &&& g.step == g.win / 2
                &&& g.count == (if recorded < g.win {
                    0
                } else {
                    (recorded - g.win) / (g.step as int) + 1
                })
            },
    {
        if recorded < at_least {
            return None;
        }
        let win: usize = if win >= 64 {
            win
        } else {
            64
        };
        let step: usize = win / 2;
        let count: usize = if recorded < win {
            0
        } else {
            proof {
                assert((recorded - win) / (step as int) <= recorded - win) by (nonlinear_arith)
                    requires
                        step >= 1,
                        recorded >= win,
                ;
            }
            (recorded - win) / step + 1
        };
        Some(EdgeGrid { win, step, count })
    }

    /// The first sample of a window.
    pub fn start(&self, i: usize) -> (r: usize)
        requires
            i * self.step <= usize::MAX,
        ensures
            r == i * self.step,
    {
        i * self.step
    }
}

/// Every window of a grid lies in the recording.
pub proof fn law_windows_lie_in_recording(g: EdgeGrid, recorded: usize, i: int)
    requires
        g.step > 0,
        g.count == (if recorded < g.win {
            0
        } else {
            (recorded - g.win) / (g.step as int) + 1
        }),
        0 <= i < g.count,
    ensures
        0 <= i * g.step,
        i * g.step + g.win <= recorded,
{
    let room = recorded - g.win;
    let step = g.step as int;
    assert(i * step <= room) by (nonlinear_arith)
        requires
            0 <= i <= room / step,
            step > 0,
            room >= 0,
    ;
    assert(0 <= i * step) by (nonlinear_arith)
        requires
            i >= 0,
            step > 0,
    ;
}

/// The index of the first level that reaches the threshold. Levels are given by numbers in the
/// same order.
pub fn first_loud(levels: &[u32], threshold: u32) -> (r: Option<usize>)
    ensures
        match r {
            Some(i) => {
                &&& i < levels@.len()
                &&& levels@[i as int] >= threshold
                &&& forall|j: int| 0 <= j < i ==> #[trigger] levels@[j] < threshold
            },
            None => forall|j: int| 0 <= j < levels@.len() ==> #[trigger] levels@[j] < threshold,
        },
{
    let mut i: usize = 0;
    while i < levels.len()
        invariant
            i <= levels@.len(),
            forall|j: int| 0 <= j < i ==> #[trigger] levels@[j] < threshold,
        decreases levels@.len() - i,
    {
        if levels[i] >= threshold {
            return Some(i);
        }
        i += 1;
    }
    None
}

} // verus!
