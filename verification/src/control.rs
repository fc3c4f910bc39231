//! Presentation planning: tick placement and event scheduling decisions.
//!
//! The drawing layer asks two kinds of question that are pure integer
//! logic: where the time-axis ticks go (a tick spacing is rounded up to a
//! value that formats as a round mm:ss label, then ticks are laid every
//! such interval while they fit in the stream), and whether a queued event
//! makes an earlier one obsolete. Both are answered here; rendering the
//! labels and positions into pixels stays with the drawing layer.

use vstd::prelude::*;
use vstd::arithmetic::mul::lemma_mul_upper_bound;

verus! {

/// The next round mm:ss tick spacing at or above `s` seconds.
pub open spec fn quantized_tick_of(s: int) -> int {
    if s == 0 {
        1
    } else if s <= 5 {
        5
    } else if s <= 10 {
        10
    } else if s <= 15 {
        15
    } else if s <= 30 {
        30
    } else if s <= 60 {
        60
    } else if s <= 90 {
        90
    } else if s <= 120 {
        120
    } else if s <= 300 {
        300
    } else if s <= 600 {
        600
    } else if s <= 900 {
        900
    } else {
        1200
    }
}

/// Round a rough tick spacing, in seconds, up to a value that formats as a
/// round mm:ss label.
pub fn quantize_tick_seconds(secs: u64) -> (r: u64)
    ensures
        r as int == quantized_tick_of(secs as int),
{
    if secs == 0 {
        1
    } else if secs <= 5 {
        5
    } else if secs <= 10 {
        10
    } else if secs <= 15 {
        15
    } else if secs <= 30 {
        30
    } else if secs <= 60 {
        60
    } else if secs <= 90 {
        90
    } else if secs <= 120 {
        120
    } else if secs <= 300 {
        300
    } else if secs <= 600 {
        600
    } else if secs <= 900 {
        900
    } else {
        1200
    }
}

/// The tick times for the time axis: `0, quant, 2*quant, ...` seconds, as
/// many as lie within the stream of `duration` samples at `sample_rate`
/// samples per second, plus nothing more — the first tick beyond the
/// stream is where the list stops.
pub fn x_tick_seconds(duration: u64, sample_rate: u32, quant: u64) -> (r: Vec<u64>)
    requires
        quant >= 1,
        sample_rate >= 1,
        duration as int + quant as int <= u64::MAX as int,
    ensures
        forall|i: int| 0 <= i < r@.len() ==> #[trigger] r@[i] as int == i * quant as int,
        r@.len() >= 1,
        (r@.len() - 1) * quant as int * sample_rate as int <= duration as int,
        r@.len() * quant as int * sample_rate as int > duration as int,
{
    let mut r: Vec<u64> = Vec::new();
    let mut t: u64 = 0;
    loop
        invariant
            quant >= 1,
            sample_rate >= 1,
            duration as int + quant as int <= u64::MAX as int,
            t as int == r@.len() * quant as int,
            t as int <= duration as int + quant as int,
            forall|i: int| 0 <= i < r@.len() ==> #[trigger] r@[i] as int == i * quant as int,
            r@.len() == 0 || (r@.len() - 1) * quant as int * sample_rate as int
                <= duration as int,
        ensures
            r@.len() >= 1,
            (r@.len() - 1) * quant as int * sample_rate as int <= duration as int,
            r@.len() * quant as int * sample_rate as int > duration as int,
        decreases duration as int + quant as int - t as int,
    {
        proof {
            lemma_mul_upper_bound(t as int, u64::MAX as int, sample_rate as int, u32::MAX as int);
        }
        if (t as u128) * (sample_rate as u128) > duration as u128 {
            proof {
                let c = r@.len() as int;
                assert(c * quant as int * sample_rate as int == t as int * sample_rate as int)
                    by (nonlinear_arith)
                    requires
                        t as int == c * quant as int,
                ;
            }
            break;
        }
        r.push(t);
        proof {
            let c = r@.len() as int;
            assert((c - 1) * quant as int * sample_rate as int == t as int * sample_rate as int)
                by (nonlinear_arith)
                requires
                    t as int == (c - 1) * quant as int,
            ;
            assert(c * quant as int == t as int + quant as int) by (nonlinear_arith)
                requires
                    t as int == (c - 1) * quant as int,
            ;
            assert(t as int <= duration as int) by (nonlinear_arith)
                requires
                    t as int * sample_rate as int <= duration as int,
                    sample_rate as int >= 1,
                    t as int >= 0,
            ;
        }
        t = t + quant;
    }
    r
}

/// The tick counts that fit the target bitmap: one x tick per label width,
/// and one y tick per three label heights less a small overlap.
pub fn tick_counts(width: u64, height: u64, label_width: u64, label_height: u64) -> (r: (
    u64,
    u64,
))
    requires
        label_width >= 1,
        label_height >= 1,
        3 * label_height as int - 2 <= u64::MAX as int,
    ensures
        r.0 == width as int / label_width as int,
        r.1 == height as int / (3 * label_height as int - 2),
{
    (width / label_width, height / (3 * label_height - 2))
}

/// The width of the border around the graph, in pixels.
pub const BORDER_WIDTH: u64 = 1;

/// The length of an axis tick, in pixels.
pub const TICK_SIZE: u64 = 5;

/// The space between a label and a tick, in pixels.
pub const TICK_PADDING: u64 = 5;

/// Given the size of the whole widget, the size left for the spectrogram
/// graph itself: the labels, the ticks, their padding and a border on both
/// sides are subtracted from each axis, and at least one pixel remains.
pub fn graph_size(width: u64, height: u64, label_width: u64, label_height: u64) -> (r: (u64, u64))
    ensures
        ({
            let used = 2 * BORDER_WIDTH + TICK_SIZE + TICK_PADDING;
            &&& r.0 == if width as int - label_width - used >= 1 {
                width as int - label_width - used
            } else {
                1int
            }
            &&& r.1 == if height as int - label_height - used >= 1 {
                height as int - label_height - used
            } else {
                1int
            }
        }),
{
    let used = 2 * BORDER_WIDTH + TICK_SIZE + TICK_PADDING;
    let w = if width > used && width - used > label_width {
        width - used - label_width
    } else {
        1
    };
    let h = if height > used && height - used > label_height {
        height - used - label_height
    } else {
        1
    };
    (w, h)
}

/// The kinds of event the model reacts to.
#[derive(Clone, Copy, PartialEq, Eq, Structural, Debug)]
pub enum EventKind {
    /// A new file was chosen.
    OpenFile,
    /// The target bitmap size changed.
    Resize,
    /// More samples should be decoded.
    Decode,
}

/// Whether the queued `next` event makes the not-yet-handled `current`
/// event obsolete: only a resize right behind another resize does — the
/// earlier target size will never be painted.
pub fn supersedes(current: &EventKind, next: &EventKind) -> (r: bool)
    ensures
        r <==> (current is Resize && next is Resize),
{
    match (current, next) {
        (EventKind::Resize, EventKind::Resize) => true,
        _ => false,
    }
}

} // verus!
