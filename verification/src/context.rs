//! The change detector: the server's model of what the viewer
//! currently displays, and the per-macroblock error scores that decide
//! what is re-encoded each frame.
//!
//! The view is tiled by 16x16 macroblocks.  A mirror buffer holds the
//! RGB pixels the viewer is believed to display; each frame a fresh
//! BGRx capture is compared against it, per-block squared errors are
//! accumulated, blocks whose updates appear lost are escalated to the
//! highest score, and the scores are sorted so the most-changed blocks
//! are encoded first.  Acknowledgements feed back into per-block
//! version vectors.

use vstd::prelude::*;

use vstd::arithmetic::div_mod::lemma_div_pos_is_pos;
use vstd::arithmetic::div_mod::lemma_fundamental_div_mod;
use vstd::arithmetic::div_mod::lemma_fundamental_div_mod_converse_div;
use vstd::arithmetic::div_mod::lemma_fundamental_div_mod_converse_mod;
use vstd::arithmetic::div_mod::lemma_mod_bound;

use vstd::utf8::encode_utf8;

use crate::monitor::MonitorInfo;
use crate::monitor::MonitorInfoView;
use crate::monitor::MAX_MONITOR_DIM;

verus! {

broadcast use vstd::seq_lib::group_to_multiset_ensures, vstd::multiset::group_multiset_axioms, vstd::seq_lib::lemma_seq_contains_after_push;

/// Pixels per macroblock side.
pub const MACROBLOCK_SIZE: u32 = 16;

/// Largest squared error one pixel can contribute: three channels of
/// at most 255 apiece.
pub const MAX_PIXEL_ERR: i64 = 195_075;

/// The macroblock that pixel index `n` of a `width`-pixel-wide view
/// falls in, row-major over the 16x16 grid.
pub open spec fn spec_block_of(n: int, width: int) -> int {
    (n / width / 16) * (width / 16) + (n % width) / 16
}

/// The squared error of pixel `n` between a BGRx capture and the RGB
/// mirror, summed over the three channels.
pub open spec fn spec_pixel_err(cap: Seq<u8>, mir: Seq<u8>, n: int) -> int {
    let dr = cap[4 * n + 2] - mir[3 * n];
    let dg = cap[4 * n + 1] - mir[3 * n + 1];
    let db = cap[4 * n] - mir[3 * n + 2];
    dr * dr + dg * dg + db * db
}

/// The error of block `b` accumulated over the first `upto` pixels.
pub open spec fn spec_score_upto(
    cap: Seq<u8>,
    mir: Seq<u8>,
    width: int,
    b: int,
    upto: int,
) -> int
    decreases upto,
{
    if upto <= 0 {
        0
    } else {
        spec_score_upto(cap, mir, width, b, upto - 1) + if spec_block_of(upto - 1, width) == b {
            spec_pixel_err(cap, mir, upto - 1)
        } else {
            0
        }
    }
}

/// The raw error score of block `b`: its squared error over the whole
/// view.
pub open spec fn spec_block_score(cap: Seq<u8>, mir: Seq<u8>, width: int, size: int, b: int) -> int {
    spec_score_upto(cap, mir, width, b, size)
}

/// Whether a block's updates appear lost: an update was sent after
/// the last acknowledged one, and both lag the current frame by more
/// than two frames.
pub open spec fn spec_stale(cv: u32, mr: u32, ts: u32) -> bool {
    mr > cv && mr + 2 < ts && cv + 2 < ts
}

/// The score the sort sees for block `b`: the raw squared error, or
/// `i64::MAX` once staleness escalation fires.
pub open spec fn spec_final_score(
    cap: Seq<u8>,
    mir: Seq<u8>,
    width: int,
    size: int,
    cv: Seq<u32>,
    mr: Seq<u32>,
    ts: u32,
    b: int,
) -> i64 {
    if spec_stale(cv[b], mr[b], ts) {
        i64::MAX
    } else {
        spec_block_score(cap, mir, width, size, b) as i64
    }
}

/// Error-vector order: higher score first, ties by block id
/// ascending.
pub open spec fn spec_err_le(a: (i64, usize), b: (i64, usize)) -> bool {
    a.0 > b.0 || (a.0 == b.0 && a.1 <= b.1)
}

/// Whether an error vector is sorted: non-increasing in score, ties
/// by block id ascending.
pub open spec fn spec_errors_sorted(s: Seq<(i64, usize)>) -> bool {
    forall|i: int, j: int| 0 <= i < j < s.len() ==> spec_err_le(#[trigger] s[i], #[trigger] s[j])
}

/// How many leading error entries carry a nonzero score: the encoder
/// stops at the first zero.
pub open spec fn spec_cutoff(s: Seq<(i64, usize)>) -> int
    decreases s.len(),
{
    if s.len() == 0 {
        0
    } else if s[0].0 == 0 {
        0
    } else {
        1 + spec_cutoff(s.drop_first())
    }
}

/// Whether block `b` is among the blocks of the nonzero-score prefix
/// of the error vector: exactly those blocks are re-encoded and
/// copied into the mirror.
pub open spec fn spec_processed(s: Seq<(i64, usize)>, b: int) -> bool {
    spec_in_prefix(s, spec_cutoff(s), b)
}

/// Whether the mirror holds at pixel `p` the RGB value of the BGRx
/// capture.
pub open spec fn spec_rgb_matches(mir: Seq<u8>, cap: Seq<u8>, p: int) -> bool {
    mir[3 * p] == cap[4 * p + 2] && mir[3 * p + 1] == cap[4 * p + 1] && mir[3 * p + 2] == cap[4 * p]
}

/// A monitor the change detector can stream from: view dimensions
/// divisible into macroblocks and small enough for index arithmetic,
/// midpoint tables usable for segment selection.
pub open spec fn spec_monitor_ok(m: MonitorInfoView) -> bool {
    &&& 1 <= m.view_width <= 4096
    &&& 1 <= m.view_height <= 4096
    &&& 1 <= m.midpoints_x.len() <= 255
    &&& 1 <= m.midpoints_y.len() <= 255
    &&& encode_utf8(m.name).len() <= 255
    &&& forall|i: int| 0 <= i < m.midpoints_x.len() ==> #[trigger] m.midpoints_x[i] <= MAX_MONITOR_DIM
    &&& forall|i: int| 0 <= i < m.midpoints_y.len() ==> #[trigger] m.midpoints_y[i] <= MAX_MONITOR_DIM
    &&& -1_000_000 <= m.offset_x <= 1_000_000
    &&& -1_000_000 <= m.offset_y <= 1_000_000
}

/// The change detector.
pub struct Context {
    width: u32,
    height: u32,
    offset_x: i32,
    offset_y: i32,
    client_state: Vec<u8>,
    size: usize,
    n_blocks: usize,
    n_blocks_x: u32,
    n_blocks_y: u32,
    errors: Vec<(i64, usize)>,
    block_table: Vec<usize>,
    timestamp: u32,
    current_version: Vec<u32>,
    most_recent_version: Vec<u32>,
    monitor_info: Vec<MonitorInfo>,
    screen_id: usize,
    segment_id: usize,
}

impl Context {
    /// View width in pixels.
    pub closed spec fn width(&self) -> u32 {
        self.width
    }

    /// View height in pixels.
    pub closed spec fn height(&self) -> u32 {
        self.height
    }

    /// Horizontal screen offset of the view.
    pub closed spec fn offset_x(&self) -> i32 {
        self.offset_x
    }

    /// Vertical screen offset of the view.
    pub closed spec fn offset_y(&self) -> i32 {
        self.offset_y
    }

    /// Pixels per frame.
    pub closed spec fn size(&self) -> int {
        self.size as int
    }

    /// Macroblocks per frame.
    pub closed spec fn n_blocks(&self) -> int {
        self.n_blocks as int
    }

    /// The mirror: the RGB pixels the viewer is believed to display.
    pub closed spec fn mirror(&self) -> Seq<u8> {
        self.client_state@
    }

    /// The error vector of the last frame.
    pub closed spec fn errors(&self) -> Seq<(i64, usize)> {
        self.errors@
    }

    /// The current frame timestamp.
    pub closed spec fn timestamp(&self) -> u32 {
        self.timestamp
    }

    /// Per-block last-acknowledged frame timestamps.
    pub closed spec fn current_version(&self) -> Seq<u32> {
        self.current_version@
    }

    /// Per-block last-sent frame timestamps.
    pub closed spec fn most_recent_version(&self) -> Seq<u32> {
        self.most_recent_version@
    }

    /// The monitor table.
    pub closed spec fn monitors(&self) -> Seq<MonitorInfo> {
        self.monitor_info@
    }

    /// The selected monitor.
    pub closed spec fn screen_id(&self) -> int {
        self.screen_id as int
    }

    /// The selected segment of the monitor.
    pub closed spec fn segment_id(&self) -> int {
        self.segment_id as int
    }

    /// Internal consistency: geometry divisible into macroblocks and
    /// small enough for indexing, buffers of the right lengths, the
    /// block lookup table correct, and every block's acknowledged
    /// version at most its sent version at most the frame timestamp.
    pub closed spec fn wf(&self) -> bool {
        &&& 16 <= self.width <= 4096
        &&& 16 <= self.height <= 4096
        &&& self.width % 16 == 0
        &&& self.height % 16 == 0
        &&& self.size == self.width * self.height
        &&& self.size <= 16_777_216
        &&& self.n_blocks_x == self.width / 16
        &&& self.n_blocks_y == self.height / 16
        &&& self.n_blocks == self.n_blocks_x * self.n_blocks_y
        &&& 1 <= self.n_blocks <= 65536
        &&& self.client_state@.len() == 3 * self.size
        &&& self.block_table@.len() == self.size
        &&& forall|n: int|
            0 <= n < self.size ==> #[trigger] self.block_table@[n] == spec_block_of(
                n,
                self.width as int,
            ) && self.block_table@[n] < self.n_blocks
        &&& self.errors@.len() == self.n_blocks
        &&& forall|i: int| 0 <= i < self.errors@.len() ==> (#[trigger] self.errors@[i]).1 < self.n_blocks
        &&& self.current_version@.len() == self.n_blocks
        &&& self.most_recent_version@.len() == self.n_blocks
        &&& forall|b: int|
            0 <= b < self.n_blocks ==> #[trigger] self.current_version@[b]
                <= self.most_recent_version@[b] <= self.timestamp
        &&& self.monitor_info@.len() >= 1
        &&& self.screen_id < self.monitor_info@.len()
        &&& forall|i: int|
            0 <= i < self.monitor_info@.len() ==> spec_monitor_ok(#[trigger] self.monitor_info@[i]@)
    }
}

/// Pixel index arithmetic: for a pixel at column `x` of row `y`, the
/// lookup table formula picks the macroblock at grid position
/// `(x / 16, y / 16)`.
pub proof fn lemma_block_of_coords(x: int, y: int, width: int)
    requires
        0 <= x < width,
        0 <= y,
        width >= 1,
    ensures
        spec_block_of(y * width + x, width) == (y / 16) * (width / 16) + x / 16,
{
    let n = y * width + x;
    assert(n / width == y && n % width == x) by (nonlinear_arith)
        requires
            0 <= x < width,
            0 <= y,
            width >= 1,
            n == y * width + x,
    ;
}

/// Builds the pixel-to-macroblock lookup table for a view.
fn build_block_table(width: u32, height: u32) -> (r: Vec<usize>)
    requires
        16 <= width <= 4096,
        16 <= height <= 4096,
        width % 16 == 0,
        height % 16 == 0,
    ensures
        r@.len() == width * height,
        forall|n: int|
            0 <= n < r@.len() ==> #[trigger] r@[n] == spec_block_of(n, width as int) && r@[n] < (
            width / 16) * (height / 16),
{
    proof {
        assert(width as int * height as int <= 4096 * 4096) by (nonlinear_arith)
            requires
                width as int <= 4096,
                height as int <= 4096,
                width as int >= 0,
                height as int >= 0,
        ;
    }
    let size = (width * height) as usize;
    let macroblocks_x = (width / MACROBLOCK_SIZE) as usize;
    let mut r: Vec<usize> = Vec::new();
    let mut n: usize = 0;
    while n < size
        invariant
            n <= size,
            size == width * height,
            16 <= width <= 4096,
            16 <= height <= 4096,
            width % 16 == 0,
            height % 16 == 0,
            macroblocks_x == width / 16,
            r@.len() == n,
            forall|m: int|
                0 <= m < n ==> #[trigger] r@[m] == spec_block_of(m, width as int) && r@[m] < (width
                    / 16) * (height / 16),
        decreases size - n,
    {
        let col = n % (width as usize);
        proof {
            assert(n as int % (width as int) <= n as int) by (nonlinear_arith)
                requires
                    width as int >= 1,
                    n as int >= 0,
            ;
            assert(n as int / (width as int) < height as int) by (nonlinear_arith)
                requires
                    n < width * height,
                    width as int >= 1,
                    height as int >= 1,
            ;
            assert((n as int / (width as int)) / 16 * (width as int / 16) + (n as int % (
            width as int)) / 16 <= 256 * 256) by (nonlinear_arith)
                requires
                    0 <= n as int / (width as int) < height as int <= 4096,
                    0 <= n as int % (width as int) < width as int <= 4096,
            ;
        }
        let row_px = (n - col) / (width as usize);
        proof {
            assert((n as int - (n as int) % (width as int)) / (width as int) == n as int / (
            width as int)) by (nonlinear_arith)
                requires
                    width >= 1,
                    n >= 0,
            ;
            assert(n as int / (width as int) * (width as int) + col == n) by (nonlinear_arith)
                requires
                    width >= 1,
                    n >= 0,
                    col == n as int % (width as int),
            ;
            assert(n as int / (width as int) < height) by (nonlinear_arith)
                requires
                    n < width * height,
                    width >= 1,
                    height >= 1,
            ;
        }
        let row = (row_px / (MACROBLOCK_SIZE as usize)) * macroblocks_x;
        let block = row + col / (MACROBLOCK_SIZE as usize);
        proof {
            let y = n as int / (width as int);
            let h = height as int;
            let w = width as int;
            assert(y / 16 < h / 16 || (y / 16 == h / 16 - 1 + 1 && false)) by {
                assert(y < h);
                assert(h % 16 == 0);
                assert(y / 16 <= (h - 1) / 16);
                assert((h - 1) / 16 == h / 16 - 1) by (nonlinear_arith)
                    requires
                        h >= 16,
                        h % 16 == 0,
                ;
            }
            assert((y / 16) * (w / 16) + (col as int) / 16 < (w / 16) * (h / 16))
                by (nonlinear_arith)
                requires
                    y / 16 <= h / 16 - 1,
                    0 <= (col as int) / 16 < w / 16,
                    w >= 16,
                    h >= 16,
                    0 <= y / 16,
            ;
            assert(0 <= (col as int) / 16 < w / 16) by (nonlinear_arith)
                requires
                    0 <= col < w,
                    w % 16 == 0,
                    w >= 16,
            ;
        }
        r.push(block);
        n += 1;
    }
    r
}

impl Context {
    /// Builds a change detector over the first monitor's view.  The
    /// view's width and height must both be divisible into 16x16
    /// macroblocks; a geometry that is not is rejected.
    pub fn new(monitor_info: Vec<MonitorInfo>) -> (r: Option<Self>)
        requires
            monitor_info@.len() >= 1,
            forall|i: int|
                0 <= i < monitor_info@.len() ==> spec_monitor_ok(#[trigger] monitor_info@[i]@),
        ensures
            r is Some <==> (monitor_info@[0]@.view_width % 16 == 0 && monitor_info@[0]@.view_height
                % 16 == 0),
            match r {
                Some(c) => {
                    &&& c.wf()
                    &&& c.width() == monitor_info@[0]@.view_width
                    &&& c.height() == monitor_info@[0]@.view_height
                    &&& c.offset_x() == monitor_info@[0]@.offset_x
                    &&& c.offset_y() == monitor_info@[0]@.offset_y
                    &&& c.timestamp() == 0
                    &&& c.size() == c.width() * c.height()
                    &&& c.n_blocks() == (c.width() / 16) * (c.height() / 16)
                    &&& c.mirror() == Seq::new((3 * c.size()) as nat, |i: int| 0u8)
                    &&& c.errors() == Seq::new(c.n_blocks() as nat, |i: int| (0i64, 0usize))
                    &&& c.current_version() == Seq::new(c.n_blocks() as nat, |i: int| 0u32)
                    &&& c.most_recent_version() == Seq::new(c.n_blocks() as nat, |i: int| 0u32)
                    &&& c.monitors() == monitor_info@
                    &&& c.screen_id() == 0
                    &&& c.segment_id() == 0
                },
                None => true,
            },
    {
        let width = monitor_info[0].view_width;
        let height = monitor_info[0].view_height;
        let offset_x = monitor_info[0].offset_x;
        let offset_y = monitor_info[0].offset_y;
        if (height % 16 != 0) || (width % 16 != 0) {
            return None;
        }
        proof {
            assert(spec_monitor_ok(monitor_info@[0]@));
            assert(width >= 16 && height >= 16) by (nonlinear_arith)
                requires
                    width as int % 16 == 0,
                    height as int % 16 == 0,
                    width as int >= 1,
                    height as int >= 1,
            ;
            assert(width as int / 16 >= 1 && height as int / 16 >= 1) by (nonlinear_arith)
                requires
                    16 <= width as int,
                    16 <= height as int,
            ;
            assert(1 <= (width as int / 16) * (height as int / 16) <= 256 * 256)
                by (nonlinear_arith)
                requires
                    1 <= width as int / 16 <= 256,
                    1 <= height as int / 16 <= 256,
            ;
            assert(width as int * height as int <= 16_777_216) by (nonlinear_arith)
                requires
                    width as int <= 4096,
                    height as int <= 4096,
                    width as int >= 0,
                    height as int >= 0,
            ;
        }
        let n_blocks_x = width / MACROBLOCK_SIZE;
        let n_blocks_y = height / MACROBLOCK_SIZE;
        let n_blocks = (n_blocks_x * n_blocks_y) as usize;
        let size = (width * height) as usize;
        let block_table = build_block_table(width, height);
        let c = Context {
            width,
            height,
            offset_x,
            offset_y,
            client_state: alloc_zero_bytes(3 * size),
            size,
            n_blocks,
            n_blocks_x,
            n_blocks_y,
            errors: alloc_zero_errors(n_blocks),
            block_table,
            timestamp: 0,
            current_version: alloc_zero_versions(n_blocks),
            most_recent_version: alloc_zero_versions(n_blocks),
            monitor_info,
            screen_id: 0,
            segment_id: 0,
        };
        Some(c)
    }

    /// Raises a block's acknowledged version to an acked frame's
    /// timestamp.  The timestamp comes from a recorded send, so it
    /// does not exceed the block's sent version.
    pub fn handle_ack(&mut self, timestamp: u32, ids: &Vec<u16>)
        requires
            old(self).wf(),
            forall|i: int|
                0 <= i < ids@.len() ==> (#[trigger] ids@[i]) < old(self).n_blocks() && timestamp
                    <= old(self).most_recent_version()[ids@[i] as int],
        ensures
            final(self).wf(),
            final(self).current_version().len() == old(self).current_version().len(),
            forall|b: int|
                0 <= b < final(self).current_version().len()
                    ==> #[trigger] final(self).current_version()[b] == (
                    if ids@.contains(b as u16) && old(self).current_version()[b] < timestamp {
                        timestamp
                    } else {
                        old(self).current_version()[b]
                    }),
            final(self).most_recent_version() == old(self).most_recent_version(),
            final(self).timestamp() == old(self).timestamp(),
            final(self).mirror() == old(self).mirror(),
            final(self).errors() == old(self).errors(),
            final(self).width() == old(self).width(),
            final(self).height() == old(self).height(),
    {
        let mut i: usize = 0;
        while i < ids.len()
            invariant
                i <= ids@.len(),
                self.wf(),
                forall|k: int|
                    0 <= k < ids@.len() ==> (#[trigger] ids@[k]) < self.n_blocks() && timestamp
                        <= self.most_recent_version()[ids@[k] as int],
                self.current_version@.len() == old(self).current_version@.len(),
                forall|b: int|
                    0 <= b < self.current_version@.len() ==> #[trigger] self.current_version@[b]
                        == (if ids@.take(i as int).contains(b as u16) && old(
                        self,
                    ).current_version@[b] < timestamp {
                        timestamp
                    } else {
                        old(self).current_version@[b]
                    }),
                self.most_recent_version@ == old(self).most_recent_version@,
                self.timestamp == old(self).timestamp,
                self.client_state@ == old(self).client_state@,
                self.errors@ == old(self).errors@,
                self.width == old(self).width,
                self.height == old(self).height,
                self.size == old(self).size,
                self.n_blocks == old(self).n_blocks,
                self.n_blocks_x == old(self).n_blocks_x,
                self.n_blocks_y == old(self).n_blocks_y,
                self.block_table@ == old(self).block_table@,
                self.monitor_info@ == old(self).monitor_info@,
                self.screen_id == old(self).screen_id,
                self.segment_id == old(self).segment_id,
                self.offset_x == old(self).offset_x,
                self.offset_y == old(self).offset_y,
            decreases ids@.len() - i,
        {
            let id = ids[i] as usize;
            let ghost cv_before = self.current_version@;
            if self.current_version[id] < timestamp {
                self.current_version.set(id, timestamp);
            }
            proof {
                assert(ids@.take(i + 1) =~= ids@.take(i as int).push(ids@[i as int]));
                assert forall|b: int|
                    0 <= b < self.current_version@.len() implies #[trigger] self.current_version@[b]
                    == (if ids@.take(i + 1).contains(b as u16) && old(self).current_version@[b]
                        < timestamp {
                        timestamp
                    } else {
                        old(self).current_version@[b]
                    }) by {
                    assert(b < 65536);
                    assert(cv_before[b] == (if ids@.take(i as int).contains(b as u16) && old(
                        self,
                    ).current_version@[b] < timestamp {
                        timestamp
                    } else {
                        old(self).current_version@[b]
                    }));
                    assert(ids@.take(i as int).push(ids@[i as int]).contains(b as u16) <==> ids@[
                        i as int] == b as u16 || ids@.take(i as int).contains(b as u16));
                }
            }
            i += 1;
        }
        proof {
            assert(ids@.take(ids@.len() as int) =~= ids@);
        }
    }

    /// Overwrites the whole mirror from a fresh BGRx capture,
    /// converting to RGB: the viewer is about to be sent the full
    /// frame.
    pub fn set_initial_state(&mut self, capture: &Vec<u8>)
        requires
            old(self).wf(),
            capture@.len() == 4 * old(self).size(),
        ensures
            final(self).wf(),
            final(self).mirror().len() == old(self).mirror().len(),
            forall|p: int|
                0 <= p < final(self).size() ==> #[trigger] spec_rgb_matches(
                    final(self).mirror(),
                    capture@,
                    p,
                ),
            final(self).timestamp() == old(self).timestamp(),
            final(self).current_version() == old(self).current_version(),
            final(self).most_recent_version() == old(self).most_recent_version(),
            final(self).errors() == old(self).errors(),
            final(self).width() == old(self).width(),
            final(self).height() == old(self).height(),
            final(self).size() == old(self).size(),
            final(self).n_blocks() == old(self).n_blocks(),
    {
        let size = self.size;
        let caplen = capture.len();
        let mut p: usize = 0;
        while p < size
            invariant
                p <= size,
                self.wf(),
                size == self.size,
                capture@.len() == 4 * self.size,
                capture@.len() == caplen,
                self.client_state@.len() == old(self).client_state@.len(),
                forall|q: int|
                    0 <= q < p ==> #[trigger] spec_rgb_matches(self.client_state@, capture@, q),
                self.timestamp == old(self).timestamp,
                self.current_version@ == old(self).current_version@,
                self.most_recent_version@ == old(self).most_recent_version@,
                self.errors@ == old(self).errors@,
                self.width == old(self).width,
                self.height == old(self).height,
                self.size == old(self).size,
                self.n_blocks == old(self).n_blocks,
                self.n_blocks_x == old(self).n_blocks_x,
                self.n_blocks_y == old(self).n_blocks_y,
                self.block_table@ == old(self).block_table@,
                self.monitor_info@ == old(self).monitor_info@,
                self.screen_id == old(self).screen_id,
                self.segment_id == old(self).segment_id,
                self.offset_x == old(self).offset_x,
                self.offset_y == old(self).offset_y,
            decreases size - p,
        {
            let ghost cs_before = self.client_state@;
            let b = capture[4 * p];
            let g = capture[4 * p + 1];
            let r = capture[4 * p + 2];
            self.client_state.set(3 * p, r);
            self.client_state.set(3 * p + 1, g);
            self.client_state.set(3 * p + 2, b);
            proof {
                assert forall|q: int|
                    0 <= q < p + 1 implies #[trigger] spec_rgb_matches(
                    self.client_state@,
                    capture@,
                    q,
                ) by {
                    if q < p {
                        assert(spec_rgb_matches(cs_before, capture@, q));
                    }
                }
            }
            p += 1;
        }
    }
}

/// One pixel contributes between zero and [`MAX_PIXEL_ERR`] squared
/// error.
proof fn lemma_pixel_err_bound(cap: Seq<u8>, mir: Seq<u8>, n: int)
    ensures
        0 <= spec_pixel_err(cap, mir, n) <= MAX_PIXEL_ERR,
{
    let dr = cap[4 * n + 2] - mir[3 * n];
    let dg = cap[4 * n + 1] - mir[3 * n + 1];
    let db = cap[4 * n] - mir[3 * n + 2];
    assert(0 <= dr * dr <= 65025 && 0 <= dg * dg <= 65025 && 0 <= db * db <= 65025)
        by (nonlinear_arith)
        requires
            -255 <= dr <= 255,
            -255 <= dg <= 255,
            -255 <= db <= 255,
    ;
}

/// A block's accumulated error over `upto` pixels is between zero and
/// `upto` times the largest per-pixel error.
proof fn lemma_score_upto_bound(cap: Seq<u8>, mir: Seq<u8>, width: int, b: int, upto: int)
    requires
        upto >= 0,
    ensures
        0 <= spec_score_upto(cap, mir, width, b, upto) <= MAX_PIXEL_ERR * upto,
    decreases upto,
{
    if upto > 0 {
        lemma_score_upto_bound(cap, mir, width, b, upto - 1);
        lemma_pixel_err_bound(cap, mir, upto - 1);
    }
}

/// The cutoff is the position of the first zero score.
pub proof fn lemma_cutoff_is_first_zero(s: Seq<(i64, usize)>, i: int)
    requires
        0 <= i <= s.len(),
        forall|k: int| 0 <= k < i ==> (#[trigger] s[k]).0 != 0,
        i == s.len() || s[i].0 == 0,
    ensures
        spec_cutoff(s) == i,
    decreases s.len(),
{
    if s.len() > 0 && s[0].0 != 0 {
        assert(i >= 1) by {
            if i == 0 {
                assert(s[0].0 == 0);
            }
        }
        assert forall|k: int| 0 <= k < i - 1 implies (#[trigger] s.drop_first()[k]).0 != 0 by {
            assert(s.drop_first()[k] == s[k + 1]);
        }
        assert(i - 1 == s.drop_first().len() || s.drop_first()[i - 1].0 == 0);
        lemma_cutoff_is_first_zero(s.drop_first(), i - 1);
    }
}

/// Sorts an error vector: highest score first, ties by block id
/// ascending; the result is a permutation of the input.
fn sort_errors(v: Vec<(i64, usize)>) -> (r: Vec<(i64, usize)>)
    ensures
        spec_errors_sorted(r@),
        r@.to_multiset() == v@.to_multiset(),
        r@.len() == v@.len(),
{
    let ghost orig = v@;
    let mut rest = v;
    let mut out: Vec<(i64, usize)> = Vec::new();
    proof {
        assert(out@.to_multiset().add(rest@.to_multiset()) =~= orig.to_multiset());
    }
    while rest.len() > 0
        invariant
            spec_errors_sorted(out@),
            forall|i: int, j: int|
                0 <= i < out@.len() && 0 <= j < rest@.len() ==> spec_err_le(
                    #[trigger] out@[i],
                    #[trigger] rest@[j],
                ),
            out@.to_multiset().add(rest@.to_multiset()) == orig.to_multiset(),
            out@.len() + rest@.len() == orig.len(),
        decreases rest@.len(),
    {
        let mut min: usize = 0;
        let mut j: usize = 1;
        while j < rest.len()
            invariant
                min < j <= rest@.len() || (j <= rest@.len() && min == 0),
                min < rest@.len(),
                rest@.len() > 0,
                forall|k: int| 0 <= k < j ==> spec_err_le(rest@[min as int], #[trigger] rest@[k]),
            decreases rest@.len() - j,
        {
            if rest[j].0 > rest[min].0 || (rest[j].0 == rest[min].0 && rest[j].1 < rest[min].1) {
                min = j;
            }
            j += 1;
        }
        let ghost rest_before = rest@;
        let ghost out_before = out@;
        let x = rest.remove(min);
        out.push(x);
        proof {
            assert(rest_before[min as int] == x);
            assert(rest_before.to_multiset().contains(x)) by {
                assert(rest_before.contains(rest_before[min as int]));
            }
            assert(out@.to_multiset().add(rest@.to_multiset()) =~= orig.to_multiset());
            assert forall|i: int, p: int|
                0 <= i < out@.len() && 0 <= p < rest@.len() implies spec_err_le(
                #[trigger] out@[i],
                #[trigger] rest@[p],
            ) by {
                assert(rest@[p] == rest_before[if p < min { p } else { p + 1 }]);
                if i < out_before.len() {
                    assert(spec_err_le(out_before[i], rest_before[if p < min { p } else { p + 1 }]));
                } else {
                    assert(out@[i] == x);
                    assert(spec_err_le(rest_before[min as int], rest_before[if p < min {
                        p
                    } else {
                        p + 1
                    }]));
                }
            }
        }
    }
    out
}

impl Context {
    /// Recomputes the error vector for a fresh capture: per-block
    /// squared error against the mirror, staleness escalation, then a
    /// sort putting the most-changed blocks first.  The result is a
    /// permutation of one entry per block, sorted with the highest
    /// scores first and ties broken by block id.
    pub fn set_block_errors(&mut self, capture: &Vec<u8>)
        requires
            old(self).wf(),
            capture@.len() == 4 * old(self).size(),
        ensures
            final(self).wf(),
            spec_errors_sorted(final(self).errors()),
            final(self).errors().len() == old(self).n_blocks(),
            final(self).errors().to_multiset() == Seq::new(
                old(self).n_blocks() as nat,
                |b: int|
                    (
                        spec_final_score(
                            capture@,
                            old(self).mirror(),
                            old(self).width() as int,
                            old(self).size(),
                            old(self).current_version(),
                            old(self).most_recent_version(),
                            old(self).timestamp(),
                            b,
                        ),
                        b as usize,
                    ),
            ).to_multiset(),
            final(self).timestamp() == old(self).timestamp(),
            final(self).mirror() == old(self).mirror(),
            final(self).current_version() == old(self).current_version(),
            final(self).most_recent_version() == old(self).most_recent_version(),
            final(self).width() == old(self).width(),
            final(self).height() == old(self).height(),
            final(self).size() == old(self).size(),
            final(self).n_blocks() == old(self).n_blocks(),
            final(self).monitors() == old(self).monitors(),
            final(self).offset_x() == old(self).offset_x(),
            final(self).offset_y() == old(self).offset_y(),
            final(self).screen_id() == old(self).screen_id(),
            final(self).segment_id() == old(self).segment_id(),
    {
        let n_blocks = self.n_blocks;
        let size = self.size;
        let caplen = capture.len();
        let ghost mir = self.client_state@;
        let ghost w = self.width as int;

        let mut fresh: Vec<(i64, usize)> = Vec::new();
        let mut n: usize = 0;
        while n < n_blocks
            invariant
                n <= n_blocks,
                fresh@.len() == n,
                forall|k: int| 0 <= k < n ==> #[trigger] fresh@[k] == (0i64, k as usize),
            decreases n_blocks - n,
        {
            fresh.push((0, n));
            n += 1;
        }
        self.errors = fresh;

        let mut ind: usize = 0;
        proof {
            assert(forall|b: int|
                0 <= b < n_blocks ==> spec_score_upto(capture@, mir, w, b, 0) == 0);
        }
        while ind < size
            invariant
                ind <= size,
                self.wf(),
                n_blocks == self.n_blocks,
                size == self.size,
                w == self.width as int,
                mir == self.client_state@,
                capture@.len() == 4 * self.size,
                capture@.len() == caplen,
                self.errors@.len() == n_blocks,
                forall|b: int|
                    0 <= b < n_blocks ==> #[trigger] self.errors@[b] == (
                    spec_score_upto(capture@, mir, w, b, ind as int) as i64,
                    b as usize,
                ),
                self.timestamp == old(self).timestamp,
                self.current_version@ == old(self).current_version@,
                self.most_recent_version@ == old(self).most_recent_version@,
                self.client_state@ == old(self).client_state@,
                self.width == old(self).width,
                self.height == old(self).height,
                self.size == old(self).size,
                self.n_blocks == old(self).n_blocks,
                self.n_blocks_x == old(self).n_blocks_x,
                self.n_blocks_y == old(self).n_blocks_y,
                self.block_table@ == old(self).block_table@,
                self.monitor_info@ == old(self).monitor_info@,
                self.screen_id == old(self).screen_id,
                self.segment_id == old(self).segment_id,
                self.offset_x == old(self).offset_x,
                self.offset_y == old(self).offset_y,
            decreases size - ind,
        {
            let bb = capture[4 * ind];
            let gg = capture[4 * ind + 1];
            let rr = capture[4 * ind + 2];
            let d_r = rr as i64 - self.client_state[3 * ind] as i64;
            let d_g = gg as i64 - self.client_state[3 * ind + 1] as i64;
            let d_b = bb as i64 - self.client_state[3 * ind + 2] as i64;
            proof {
                assert(d_r * d_r + d_g * d_g + d_b * d_b == spec_pixel_err(
                    capture@,
                    mir,
                    ind as int,
                ));
                assert(0 <= d_r * d_r <= 65025 && 0 <= d_g * d_g <= 65025 && 0 <= d_b * d_b
                    <= 65025) by (nonlinear_arith)
                    requires
                        -255 <= d_r <= 255,
                        -255 <= d_g <= 255,
                        -255 <= d_b <= 255,
                ;
            }
            let d = d_r * d_r + d_g * d_g + d_b * d_b;
            let blk = self.block_table[ind];
            let ghost errs_before = self.errors@;
            proof {
                lemma_score_upto_bound(capture@, mir, w, blk as int, ind as int);
                assert(MAX_PIXEL_ERR * (ind as int) <= MAX_PIXEL_ERR * (size as int));
            }
            proof {
                assert(MAX_PIXEL_ERR * (ind as int) + MAX_PIXEL_ERR <= MAX_PIXEL_ERR * (
                size as int));
            }
            let e = self.errors[blk];
            self.errors.set(blk, (e.0 + d, e.1));
            proof {
                assert forall|b: int|
                    0 <= b < n_blocks implies #[trigger] self.errors@[b] == (
                    spec_score_upto(capture@, mir, w, b, ind + 1) as i64,
                    b as usize,
                ) by {
                    lemma_score_upto_bound(capture@, mir, w, b, ind as int);
                    lemma_score_upto_bound(capture@, mir, w, b, ind + 1);
                    assert(MAX_PIXEL_ERR * (ind + 1) <= MAX_PIXEL_ERR * (size as int));
                    assert(spec_score_upto(capture@, mir, w, b, ind + 1) == spec_score_upto(
                        capture@,
                        mir,
                        w,
                        b,
                        ind as int,
                    ) + (if spec_block_of(ind as int, w) == b {
                        spec_pixel_err(capture@, mir, ind as int)
                    } else {
                        0
                    }));
                    assert(errs_before[b] == (
                        spec_score_upto(capture@, mir, w, b, ind as int) as i64,
                        b as usize,
                    ));
                }
            }
            ind += 1;
        }

        let ts = self.timestamp;
        let mut b: usize = 0;
        let ghost raw_errs = self.errors@;
        while b < n_blocks
            invariant
                b <= n_blocks,
                self.wf(),
                n_blocks == self.n_blocks,
                self.errors@.len() == n_blocks,
                ts == self.timestamp,
                forall|k: int|
                    b <= k < n_blocks ==> #[trigger] self.errors@[k] == raw_errs[k],
                forall|k: int|
                    0 <= k < n_blocks ==> (#[trigger] raw_errs[k]) == (
                    spec_score_upto(capture@, mir, w, k, size as int) as i64,
                    k as usize,
                ),
                size == self.size,
                w == self.width as int,
                mir == self.client_state@,
                forall|k: int|
                    0 <= k < b ==> #[trigger] self.errors@[k] == (
                    spec_final_score(
                        capture@,
                        mir,
                        w,
                        size as int,
                        self.current_version@,
                        self.most_recent_version@,
                        ts,
                        k,
                    ),
                    k as usize,
                ),
                self.timestamp == old(self).timestamp,
                self.current_version@ == old(self).current_version@,
                self.most_recent_version@ == old(self).most_recent_version@,
                self.client_state@ == old(self).client_state@,
                self.width == old(self).width,
                self.height == old(self).height,
                self.size == old(self).size,
                self.n_blocks == old(self).n_blocks,
                self.n_blocks_x == old(self).n_blocks_x,
                self.n_blocks_y == old(self).n_blocks_y,
                self.block_table@ == old(self).block_table@,
                self.monitor_info@ == old(self).monitor_info@,
                self.screen_id == old(self).screen_id,
                self.segment_id == old(self).segment_id,
                self.offset_x == old(self).offset_x,
                self.offset_y == old(self).offset_y,
            decreases n_blocks - b,
        {
            let mr = self.most_recent_version[b];
            let cv = self.current_version[b];
            if mr > cv && (mr as u64) + 2 < ts as u64 && (cv as u64) + 2 < ts as u64 {
                let e = self.errors[b];
                self.errors.set(b, (i64::MAX, e.1));
            }
            proof {
                assert(self.errors@[b as int].1 == b as usize);
            }
            b += 1;
        }

        let ghost target = Seq::new(
            n_blocks as nat,
            |k: int|
                (
                    spec_final_score(
                        capture@,
                        mir,
                        w,
                        size as int,
                        self.current_version@,
                        self.most_recent_version@,
                        ts,
                        k,
                    ),
                    k as usize,
                ),
        );
        proof {
            assert(self.errors@ =~= target);
        }
        let mut sorted_errs: Vec<(i64, usize)> = Vec::new();
        core::mem::swap(&mut sorted_errs, &mut self.errors);
        let sorted_errs = sort_errors(sorted_errs);
        self.errors = sorted_errs;
        proof {
            assert forall|i: int|
                0 <= i < self.errors@.len() implies (#[trigger] self.errors@[i]).1
                < self.n_blocks by {
                assert(self.errors@.to_multiset().contains(self.errors@[i])) by {
                    assert(self.errors@.contains(self.errors@[i]));
                }
                assert(target.to_multiset().contains(self.errors@[i]));
                assert(target.contains(self.errors@[i]));
                let j = choose|j: int| 0 <= j < target.len() && target[j] == self.errors@[i];
                assert(target[j].1 == j as usize);
            }
        }
    }
}

/// Whether the mirror keeps its previous bytes at pixel `p`.
pub open spec fn spec_rgb_same(m1: Seq<u8>, m0: Seq<u8>, p: int) -> bool {
    m1[3 * p] == m0[3 * p] && m1[3 * p + 1] == m0[3 * p + 1] && m1[3 * p + 2] == m0[3 * p + 2]
}

/// Whether block `b` occurs among the first `k` entries of the error
/// vector.
pub open spec fn spec_in_prefix(s: Seq<(i64, usize)>, k: int, b: int) -> bool {
    exists|i: int| 0 <= i < k && (#[trigger] s[i]).1 == b
}

/// Whether pixel `p` lies in the 16x16 rectangle with top-left corner
/// `(x0, y0)` of a `w`-pixel-wide view.
pub open spec fn spec_in_rect(p: int, w: int, x0: int, y0: int) -> bool {
    y0 <= p / w < y0 + 16 && x0 <= p % w < x0 + 16
}

/// Per-pixel state while one block row is copied: the first `cols`
/// pixels of the row segment mirror the capture, the rest of the view
/// is untouched.
pub open spec fn spec_row_copied(
    mir: Seq<u8>,
    mir0: Seq<u8>,
    cap: Seq<u8>,
    w: int,
    row: int,
    x0: int,
    cols: int,
    p: int,
) -> bool {
    if p / w == row && x0 <= p % w < x0 + cols {
        spec_rgb_matches(mir, cap, p)
    } else {
        spec_rgb_same(mir, mir0, p)
    }
}

/// Per-pixel state while one block is copied: the first `rows` rows
/// of its rectangle mirror the capture, the rest of the view is
/// untouched.
pub open spec fn spec_rect_copied(
    mir: Seq<u8>,
    mir0: Seq<u8>,
    cap: Seq<u8>,
    w: int,
    x0: int,
    y0: int,
    rows: int,
    p: int,
) -> bool {
    if y0 <= p / w < y0 + rows && x0 <= p % w < x0 + 16 {
        spec_rgb_matches(mir, cap, p)
    } else {
        spec_rgb_same(mir, mir0, p)
    }
}

/// Per-pixel state while the frame's blocks are swept: pixels of the
/// first `k` listed blocks mirror the capture, the rest of the view
/// is untouched.
pub open spec fn spec_sweep_state(
    mir: Seq<u8>,
    mir0: Seq<u8>,
    cap: Seq<u8>,
    errs: Seq<(i64, usize)>,
    w: int,
    k: int,
    p: int,
) -> bool {
    if spec_in_prefix(errs, k, spec_block_of(p, w)) {
        spec_rgb_matches(mir, cap, p)
    } else {
        spec_rgb_same(mir, mir0, p)
    }
}

/// The per-pixel effect of one frame's mirror update: pixels of
/// re-encoded blocks now mirror the capture, all others are
/// untouched.
pub open spec fn spec_mirror_updated(
    mir1: Seq<u8>,
    mir0: Seq<u8>,
    cap: Seq<u8>,
    errs: Seq<(i64, usize)>,
    w: int,
    p: int,
) -> bool {
    if spec_processed(errs, spec_block_of(p, w)) {
        spec_rgb_matches(mir1, cap, p)
    } else {
        spec_rgb_same(mir1, mir0, p)
    }
}

/// Pixel membership of a 16x16 block: a pixel falls in block `blk`
/// exactly when its row and column fall in the block's rectangle.
proof fn lemma_block_coords(p: int, w: int, h: int, mbx: int, blk: int)
    requires
        w == 16 * mbx,
        mbx >= 1,
        h >= 16,
        0 <= p < w * h,
        0 <= blk,
    ensures
        spec_block_of(p, w) == blk <==> spec_in_rect(p, w, 16 * (blk % mbx), 16 * (blk / mbx)),
{
    let y = p / w;
    let x = p % w;
    lemma_mod_bound(p, w);
    lemma_div_pos_is_pos(p, w);
    lemma_fundamental_div_mod(y, 16);
    lemma_mod_bound(y, 16);
    lemma_fundamental_div_mod(x, 16);
    lemma_mod_bound(x, 16);
    lemma_fundamental_div_mod(blk, mbx);
    lemma_mod_bound(blk, mbx);
    assert(x / 16 < mbx) by (nonlinear_arith)
        requires
            0 <= x < 16 * mbx,
    ;
    assert(0 <= x / 16 && 0 <= y / 16);
    assert(mbx * 16 + 0 == w);
    lemma_fundamental_div_mod_converse_div(w, 16, mbx, 0);
    assert(w / 16 == mbx);
    if spec_block_of(p, w) == blk {
        assert(blk == (y / 16) * mbx + x / 16);
        lemma_fundamental_div_mod_converse_div(blk, mbx, y / 16, x / 16);
        lemma_fundamental_div_mod_converse_mod(blk, mbx, y / 16, x / 16);
        assert(16 * (blk / mbx) <= y < 16 * (blk / mbx) + 16);
        assert(16 * (blk % mbx) <= x < 16 * (blk % mbx) + 16);
    }
    if spec_in_rect(p, w, 16 * (blk % mbx), 16 * (blk / mbx)) {
        assert(y == (blk / mbx) * 16 + (y - 16 * (blk / mbx)));
        lemma_fundamental_div_mod_converse_div(y, 16, blk / mbx, y - 16 * (blk / mbx));
        assert(y / 16 == blk / mbx);
        assert(x == (blk % mbx) * 16 + (x - 16 * (blk % mbx)));
        lemma_fundamental_div_mod_converse_div(x, 16, blk % mbx, x - 16 * (blk % mbx));
        assert(x / 16 == blk % mbx);
        assert(blk == mbx * (blk / mbx) + blk % mbx);
        assert((y / 16) * mbx == mbx * (blk / mbx)) by (nonlinear_arith)
            requires
                y / 16 == blk / mbx,
        ;
        assert(spec_block_of(p, w) == (y / 16) * (w / 16) + x / 16);
        assert(spec_block_of(p, w) == blk);
    }
}

/// Copies one 16-pixel row segment of a block from a BGRx capture
/// into the RGB mirror, leaving every other pixel untouched.
fn copy_row(mirror: &mut Vec<u8>, capture: &Vec<u8>, w: usize, size: usize, row: usize, x0: usize)
    requires
        old(mirror)@.len() == 3 * size,
        capture@.len() == 4 * size,
        x0 + 16 <= w,
        (row + 1) * w <= size,
        w >= 1,
    ensures
        final(mirror)@.len() == 3 * size,
        forall|p: int|
            0 <= p < size ==> #[trigger] spec_row_copied(
                final(mirror)@,
                old(mirror)@,
                capture@,
                w as int,
                row as int,
                x0 as int,
                16,
                p,
            ),
{
    let ghost mir0 = mirror@;
    let ml = mirror.len();
    let cl = capture.len();
    proof {
        assert(row * (w as int) + x0 + 16 <= size) by (nonlinear_arith)
            requires
                (row + 1) * (w as int) <= size,
                x0 + 16 <= w,
                w >= 1,
                row >= 0,
        ;
        assert forall|p: int| 0 <= p < size implies #[trigger] spec_row_copied(
            mirror@,
            mir0,
            capture@,
            w as int,
            row as int,
            x0 as int,
            0,
            p,
        ) by {
            assert(spec_rgb_same(mirror@, mir0, p));
        }
    }
    let base = row * w + x0;
    let mut dx: usize = 0;
    while dx < 16
        invariant
            dx <= 16,
            mirror@.len() == 3 * size,
            ml == 3 * size,
            cl == 4 * size,
            capture@.len() == 4 * size,
            x0 + 16 <= w,
            w >= 1,
            row >= 0,
            base == row * w + x0,
            base + 16 <= size,
            mir0.len() == 3 * size,
            forall|p: int|
                0 <= p < size ==> #[trigger] spec_row_copied(
                    mirror@,
                    mir0,
                    capture@,
                    w as int,
                    row as int,
                    x0 as int,
                    dx as int,
                    p,
                ),
        decreases 16 - dx,
    {
        let pos = base + dx;
        let px = x0 + dx;
        let ghost before = mirror@;
        let bb = capture[4 * pos];
        let gg = capture[4 * pos + 1];
        let rr = capture[4 * pos + 2];
        mirror.set(3 * pos, rr);
        mirror.set(3 * pos + 1, gg);
        mirror.set(3 * pos + 2, bb);
        proof {
            assert(pos as int / (w as int) == row && pos as int % (w as int) == px)
                by (nonlinear_arith)
                requires
                    pos == row * w + px,
                    0 <= px < w,
                    0 <= row,
            ;
            assert forall|p: int|
                0 <= p < size implies #[trigger] spec_row_copied(
                mirror@,
                mir0,
                capture@,
                w as int,
                row as int,
                x0 as int,
                dx + 1,
                p,
            ) by {
                assert(spec_row_copied(
                    before,
                    mir0,
                    capture@,
                    w as int,
                    row as int,
                    x0 as int,
                    dx as int,
                    p,
                ));
                if p == pos {
                    assert(spec_rgb_matches(mirror@, capture@, p));
                } else {
                    assert(spec_rgb_same(mirror@, before, p));
                    if p / (w as int) == row && p % (w as int) == px {
                        assert(p == (p / (w as int)) * (w as int) + p % (w as int))
                            by (nonlinear_arith)
                            requires
                                w >= 1,
                                0 <= p,
                        ;
                        assert(false);
                    }
                }
            }
        }
        dx += 1;
    }
}

/// Copies one 16x16 pixel rectangle from a BGRx capture into the RGB
/// mirror, leaving every pixel outside the rectangle untouched.
fn copy_rect(mirror: &mut Vec<u8>, capture: &Vec<u8>, w: usize, size: usize, x0: usize, y0: usize)
    requires
        old(mirror)@.len() == 3 * size,
        capture@.len() == 4 * size,
        x0 + 16 <= w,
        (y0 + 16) * w <= size,
        w >= 1,
    ensures
        final(mirror)@.len() == 3 * size,
        forall|p: int|
            0 <= p < size ==> #[trigger] spec_rect_copied(
                final(mirror)@,
                old(mirror)@,
                capture@,
                w as int,
                x0 as int,
                y0 as int,
                16,
                p,
            ),
{
    let ghost mir0 = mirror@;
    proof {
        assert(forall|d: int|
            0 <= d < 16 ==> #[trigger] ((y0 + d + 1) * (w as int)) <= (y0 + 16) * (w as int))
            by (nonlinear_arith)
            requires
                w >= 1,
                y0 >= 0,
        ;
        assert(y0 + 16 <= (y0 + 16) * (w as int)) by (nonlinear_arith)
            requires
                w >= 1,
                y0 >= 0,
        ;
        assert forall|p: int| 0 <= p < size implies #[trigger] spec_rect_copied(
            mirror@,
            mir0,
            capture@,
            w as int,
            x0 as int,
            y0 as int,
            0,
            p,
        ) by {
            assert(spec_rgb_same(mirror@, mir0, p));
        }
    }
    let mut dy: usize = 0;
    while dy < 16
        invariant
            dy <= 16,
            mirror@.len() == 3 * size,
            capture@.len() == 4 * size,
            x0 + 16 <= w,
            (y0 + 16) * (w as int) <= size,
            y0 + 16 <= size,
            forall|d: int|
                0 <= d < 16 ==> #[trigger] ((y0 + d + 1) * (w as int)) <= (y0 + 16) * (w as int),
            w >= 1,
            mir0.len() == 3 * size,
            forall|p: int|
                0 <= p < size ==> #[trigger] spec_rect_copied(
                    mirror@,
                    mir0,
                    capture@,
                    w as int,
                    x0 as int,
                    y0 as int,
                    dy as int,
                    p,
                ),
        decreases 16 - dy,
    {
        let py = y0 + dy;
        let ghost row_start = mirror@;
        copy_row(mirror, capture, w, size, py, x0);
        proof {
            assert forall|p: int|
                0 <= p < size implies #[trigger] spec_rect_copied(
                mirror@,
                mir0,
                capture@,
                w as int,
                x0 as int,
                y0 as int,
                dy + 1,
                p,
            ) by {
                assert(spec_rect_copied(
                    row_start,
                    mir0,
                    capture@,
                    w as int,
                    x0 as int,
                    y0 as int,
                    dy as int,
                    p,
                ));
                assert(spec_row_copied(
                    mirror@,
                    row_start,
                    capture@,
                    w as int,
                    py as int,
                    x0 as int,
                    16,
                    p,
                ));
            }
        }
        dy += 1;
    }
}


impl Context {
    /// Applies one frame's update: advances the timestamp, marks each
    /// block of the nonzero-score prefix of the error vector as sent
    /// at the new timestamp, and copies those blocks' pixels from the
    /// capture into the mirror.  Blocks with zero score terminate the
    /// scan; everything else is untouched.
    pub fn update_client_state(&mut self, capture: &Vec<u8>)
        requires
            old(self).wf(),
            capture@.len() == 4 * old(self).size(),
            old(self).timestamp() < u32::MAX,
        ensures
            final(self).wf(),
            final(self).timestamp() == old(self).timestamp() + 1,
            final(self).errors() == old(self).errors(),
            final(self).current_version() == old(self).current_version(),
            final(self).most_recent_version().len() == old(self).n_blocks(),
            forall|b: int|
                0 <= b < old(self).n_blocks() ==> #[trigger] final(self).most_recent_version()[b]
                    == (if spec_processed(old(self).errors(), b) {
                    (old(self).timestamp() + 1) as u32
                } else {
                    old(self).most_recent_version()[b]
                }),
            final(self).mirror().len() == old(self).mirror().len(),
            forall|p: int|
                0 <= p < old(self).size() ==> #[trigger] spec_mirror_updated(
                    final(self).mirror(),
                    old(self).mirror(),
                    capture@,
                    old(self).errors(),
                    old(self).width() as int,
                    p,
                ),
            final(self).width() == old(self).width(),
            final(self).height() == old(self).height(),
            final(self).size() == old(self).size(),
            final(self).n_blocks() == old(self).n_blocks(),
            final(self).monitors() == old(self).monitors(),
            final(self).offset_x() == old(self).offset_x(),
            final(self).offset_y() == old(self).offset_y(),
            final(self).screen_id() == old(self).screen_id(),
            final(self).segment_id() == old(self).segment_id(),
    {
        let n_blocks = self.n_blocks;
        let size = self.size;
        let w = self.width as usize;
        let caplen = capture.len();
        let mbx = self.n_blocks_x as usize;

        let mut cut: usize = 0;
        while cut < n_blocks && self.errors[cut].0 != 0
            invariant
                cut <= n_blocks,
                self.wf(),
                n_blocks == self.n_blocks,
                self.errors@.len() == n_blocks,
                forall|k: int| 0 <= k < cut ==> (#[trigger] self.errors@[k]).0 != 0,
            decreases n_blocks - cut,
        {
            cut += 1;
        }
        proof {
            lemma_cutoff_is_first_zero(self.errors@, cut as int);
        }

        self.timestamp = self.timestamp + 1;
        let ts1 = self.timestamp;
        let ghost mir0 = self.client_state@;
        let ghost errs = self.errors@;
        let ghost mr0 = self.most_recent_version@;
        proof {
            assert forall|p: int| 0 <= p < size implies #[trigger] spec_sweep_state(
                self.client_state@,
                mir0,
                capture@,
                errs,
                w as int,
                0,
                p,
            ) by {
                assert(spec_rgb_same(self.client_state@, mir0, p));
            }
        }
        let mut idx: usize = 0;
        while idx < cut
            invariant
                idx <= cut,
                cut == spec_cutoff(errs),
                cut <= n_blocks,
                self.wf(),
                errs == self.errors@,
                n_blocks == self.n_blocks,
                size == self.size,
                w == self.width as int,
                mbx == self.n_blocks_x as int,
                capture@.len() == 4 * size,
                capture@.len() == caplen,
                ts1 == self.timestamp,
                ts1 == old(self).timestamp + 1,
                mir0 == old(self).client_state@,
                mr0 == old(self).most_recent_version@,
                mir0.len() == 3 * size,
                self.client_state@.len() == 3 * size,
                self.most_recent_version@.len() == n_blocks,
                forall|b: int|
                    0 <= b < n_blocks ==> #[trigger] self.most_recent_version@[b] == (
                    if spec_in_prefix(errs, idx as int, b) {
                        ts1
                    } else {
                        mr0[b]
                    }),
                forall|p: int|
                    0 <= p < size ==> #[trigger] spec_sweep_state(
                        self.client_state@,
                        mir0,
                        capture@,
                        errs,
                        w as int,
                        idx as int,
                        p,
                    ),
                self.current_version@ == old(self).current_version@,
                self.width == old(self).width,
                self.height == old(self).height,
                self.size == old(self).size,
                self.n_blocks == old(self).n_blocks,
                self.n_blocks_x == old(self).n_blocks_x,
                self.n_blocks_y == old(self).n_blocks_y,
                self.block_table@ == old(self).block_table@,
                self.monitor_info@ == old(self).monitor_info@,
                self.screen_id == old(self).screen_id,
                self.segment_id == old(self).segment_id,
                self.offset_x == old(self).offset_x,
                self.offset_y == old(self).offset_y,
            decreases cut - idx,
        {
            let blk = self.errors[idx].1;
            let ghost mr_before = self.most_recent_version@;
            let ghost mir_before = self.client_state@;
            self.most_recent_version.set(blk, ts1);
            let bx = blk % mbx;
            let by = blk / mbx;
            let x0 = 16 * bx;
            let y0 = 16 * by;
            proof {
                assert(blk < n_blocks);
                assert(by < self.n_blocks_y as int && bx < mbx) by (nonlinear_arith)
                    requires
                        blk < n_blocks,
                        n_blocks == mbx * (self.n_blocks_y as int),
                        mbx >= 1,
                        by == blk as int / (mbx as int),
                        bx == blk as int % (mbx as int),
                        self.n_blocks_y as int >= 1,
                ;
                assert(x0 + 16 <= w && (y0 + 16) * (w as int) <= size) by (nonlinear_arith)
                    requires
                        bx <= mbx - 1,
                        by <= (self.n_blocks_y as int) - 1,
                        x0 == 16 * bx,
                        y0 == 16 * by,
                        w == 16 * mbx,
                        size == (w as int) * (16 * (self.n_blocks_y as int)),
                ;
                assert(w == 16 * mbx) by (nonlinear_arith)
                    requires
                        mbx == w as int / 16,
                        w as int % 16 == 0,
                ;
                assert(size == (w as int) * (16 * (self.n_blocks_y as int))) by (nonlinear_arith)
                    requires
                        size == (w as int) * (self.height as int),
                        self.height as int == 16 * (self.n_blocks_y as int),
                ;
                assert(self.height as int == 16 * (self.n_blocks_y as int)) by (nonlinear_arith)
                    requires
                        self.n_blocks_y as int == self.height as int / 16,
                        self.height as int % 16 == 0,
                ;
            }
            copy_rect(&mut self.client_state, capture, w, size, x0, y0);
            proof {
                assert forall|b: int|
                    0 <= b < n_blocks implies #[trigger] self.most_recent_version@[b] == (
                if spec_in_prefix(errs, idx + 1, b) {
                    ts1
                } else {
                    mr0[b]
                }) by {
                    if b == blk {
                        assert((errs[idx as int]).1 == b);
                        assert(spec_in_prefix(errs, idx + 1, b));
                    } else {
                        assert(self.most_recent_version@[b] == mr_before[b]);
                        assert(spec_in_prefix(errs, idx + 1, b) <==> spec_in_prefix(
                            errs,
                            idx as int,
                            b,
                        )) by {
                            if spec_in_prefix(errs, idx + 1, b) {
                                let i = choose|i: int|
                                    0 <= i < idx + 1 && (#[trigger] errs[i]).1 == b;
                                assert(i < idx);
                                assert(spec_in_prefix(errs, idx as int, b));
                            }
                        }
                    }
                }
                assert forall|p: int|
                    0 <= p < size implies #[trigger] spec_sweep_state(
                    self.client_state@,
                    mir0,
                    capture@,
                    errs,
                    w as int,
                    idx + 1,
                    p,
                ) by {
                    assert(self.height as int >= 16 && (w as int) * (self.height as int) == size)
                        by (nonlinear_arith)
                        requires
                            self.height as int % 16 == 0,
                            self.height >= 16,
                            size == (self.width as int) * (self.height as int),
                            w == self.width as int,
                    ;
                    lemma_block_coords(
                        p,
                        w as int,
                        self.height as int,
                        mbx as int,
                        blk as int,
                    );
                    assert(spec_sweep_state(
                        mir_before,
                        mir0,
                        capture@,
                        errs,
                        w as int,
                        idx as int,
                        p,
                    ));
                    assert(spec_rect_copied(
                        self.client_state@,
                        mir_before,
                        capture@,
                        w as int,
                        x0 as int,
                        y0 as int,
                        16,
                        p,
                    ));
                    let bp = spec_block_of(p, w as int);
                    if bp == blk {
                        assert(spec_in_rect(p, w as int, x0 as int, y0 as int));
                        assert(spec_rgb_matches(self.client_state@, capture@, p));
                        assert((errs[idx as int]).1 == bp);
                        assert(spec_in_prefix(errs, idx + 1, bp));
                    } else {
                        assert(!spec_in_rect(p, w as int, x0 as int, y0 as int));
                        assert(spec_rgb_same(self.client_state@, mir_before, p));
                        assert(spec_in_prefix(errs, idx + 1, bp) <==> spec_in_prefix(
                            errs,
                            idx as int,
                            bp,
                        )) by {
                            if spec_in_prefix(errs, idx + 1, bp) {
                                let i = choose|i: int|
                                    0 <= i < idx + 1 && (#[trigger] errs[i]).1 == bp;
                                assert(i < idx);
                                assert(spec_in_prefix(errs, idx as int, bp));
                            }
                        }
                    }
                }
            }
            idx += 1;
        }
        proof {
            assert forall|p: int|
                0 <= p < size implies #[trigger] spec_mirror_updated(
                self.client_state@,
                mir0,
                capture@,
                errs,
                w as int,
                p,
            ) by {
                assert(spec_sweep_state(
                    self.client_state@,
                    mir0,
                    capture@,
                    errs,
                    w as int,
                    cut as int,
                    p,
                ));
            }
        }
    }
}

/// The version invariant of the change detector: for every block,
/// the acknowledged version never exceeds the sent version, and the
/// sent version never exceeds the frame timestamp.
pub proof fn lemma_version_invariant(c: &Context)
    requires
        c.wf(),
    ensures
        forall|b: int|
            0 <= b < c.n_blocks() ==> #[trigger] c.current_version()[b]
                <= c.most_recent_version()[b] <= c.timestamp(),
        c.current_version().len() == c.n_blocks(),
        c.most_recent_version().len() == c.n_blocks(),
{
}

/// Whether a view change selects a different, existing monitor whose
/// view geometry divides into macroblocks.
pub open spec fn spec_screen_changes(c: &Context, screen_id: int) -> bool {
    &&& screen_id != c.screen_id()
    &&& screen_id < c.monitors().len()
    &&& c.monitors()[screen_id]@.view_width % 16 == 0
    &&& c.monitors()[screen_id]@.view_height % 16 == 0
}

/// Whether a view change selects a different, existing segment of the
/// monitor current after screen selection.
pub open spec fn spec_segment_changes(c: &Context, screen_id: int, segment_id: int) -> bool {
    let sid = if spec_screen_changes(c, screen_id) {
        screen_id
    } else {
        c.screen_id()
    };
    let m = c.monitors()[sid]@;
    segment_id != c.segment_id() && segment_id < m.midpoints_x.len() * m.midpoints_y.len()
}

impl Context {
    /// Applies a view change: selects the requested monitor and
    /// segment where they exist and differ from the current choice,
    /// recomputes the view geometry and offsets, reallocates the
    /// per-frame buffers when the geometry changed, and resets the
    /// frame clock and version vectors so the next frame is emitted as
    /// a full initial frame.  Returns whether anything changed.
    pub fn change_view(&mut self, screen_id: usize, segment_id: usize) -> (r: bool)
        requires
            old(self).wf(),
        ensures
            final(self).wf(),
            r == (spec_screen_changes(old(self), screen_id as int) || spec_segment_changes(
                old(self),
                screen_id as int,
                segment_id as int,
            )),
            final(self).screen_id() == (if spec_screen_changes(old(self), screen_id as int) {
                screen_id as int
            } else {
                old(self).screen_id()
            }),
            final(self).segment_id() == (if spec_segment_changes(
                old(self),
                screen_id as int,
                segment_id as int,
            ) {
                segment_id as int
            } else {
                old(self).segment_id()
            }),
            final(self).monitors() == old(self).monitors(),
            ({
                let m = final(self).monitors()[final(self).screen_id()]@;
                &&& (if spec_screen_changes(old(self), screen_id as int) {
                    final(self).width() == m.view_width && final(self).height() == m.view_height
                } else {
                    final(self).width() == old(self).width() && final(self).height() == old(
                        self,
                    ).height()
                })
                &&& (if spec_segment_changes(old(self), screen_id as int, segment_id as int) {
                    let sx = final(self).segment_id() % (m.midpoints_x.len() as int);
                    let sy = final(self).segment_id() / (m.midpoints_x.len() as int);
                    &&& final(self).offset_x() == m.offset_x + m.midpoints_x[sx] - 320
                    &&& final(self).offset_y() == m.offset_y + m.midpoints_y[sy] - 184
                } else if spec_screen_changes(old(self), screen_id as int) {
                    final(self).offset_x() == m.offset_x && final(self).offset_y() == m.offset_y
                } else {
                    final(self).offset_x() == old(self).offset_x() && final(self).offset_y()
                        == old(self).offset_y()
                })
            }),
            r ==> final(self).timestamp() == 0 && final(self).current_version() == Seq::new(
                final(self).n_blocks() as nat,
                |i: int| 0u32,
            ) && final(self).most_recent_version() == Seq::new(
                final(self).n_blocks() as nat,
                |i: int| 0u32,
            ),
            !r ==> final(self).timestamp() == old(self).timestamp()
                && final(self).current_version() == old(self).current_version()
                && final(self).most_recent_version() == old(self).most_recent_version()
                && final(self).mirror() == old(self).mirror()
                && final(self).errors() == old(self).errors(),
    {
        let w0 = self.width;
        let h0 = self.height;
        let mut changed = false;
        if screen_id != self.screen_id && screen_id < self.monitor_info.len()
            && self.monitor_info[screen_id].view_width % 16 == 0
            && self.monitor_info[screen_id].view_height % 16 == 0 {
            self.screen_id = screen_id;
            self.width = self.monitor_info[screen_id].view_width;
            self.height = self.monitor_info[screen_id].view_height;
            self.offset_x = self.monitor_info[screen_id].offset_x;
            self.offset_y = self.monitor_info[screen_id].offset_y;
            changed = true;
        }
        let n_segments_x = self.monitor_info[self.screen_id].midpoints_x.len();
        let n_segments_y = self.monitor_info[self.screen_id].midpoints_y.len();
        proof {
            assert(spec_monitor_ok(self.monitor_info@[self.screen_id as int]@));
            assert(n_segments_x * n_segments_y <= 255 * 255) by (nonlinear_arith)
                requires
                    1 <= n_segments_x <= 255,
                    1 <= n_segments_y <= 255,
            ;
        }
        let n_segments = n_segments_x * n_segments_y;
        if segment_id != self.segment_id && segment_id < n_segments {
            self.segment_id = segment_id;
            let segment_x = segment_id % n_segments_x;
            let segment_y = segment_id / n_segments_x;
            proof {
                assert(segment_y < n_segments_y) by (nonlinear_arith)
                    requires
                        segment_id < n_segments_x * n_segments_y,
                        segment_y == segment_id as int / (n_segments_x as int),
                        n_segments_x >= 1,
                        n_segments_y >= 1,
                ;
            }
            let midpoint_x = self.monitor_info[self.screen_id].midpoints_x[segment_x] as i32;
            let midpoint_y = self.monitor_info[self.screen_id].midpoints_y[segment_y] as i32;
            self.offset_x = self.monitor_info[self.screen_id].offset_x + midpoint_x - 320;
            self.offset_y = self.monitor_info[self.screen_id].offset_y + midpoint_y - 184;
            changed = true;
        }
        if changed {
            proof {
                assert(self.width as int % 16 == 0 && self.height as int % 16 == 0 ==> self.width
                    >= 16 && self.height >= 16) by (nonlinear_arith)
                    requires
                        self.width as int >= 1,
                        self.height as int >= 1,
                ;
                assert(self.width as int * self.height as int <= 16_777_216) by (nonlinear_arith)
                    requires
                        self.width as int <= 4096,
                        self.height as int <= 4096,
                        self.width as int >= 0,
                        self.height as int >= 0,
                ;
                assert(self.width as int / 16 >= 1 && self.height as int / 16 >= 1)
                    by (nonlinear_arith)
                    requires
                        16 <= self.width as int,
                        16 <= self.height as int,
                ;
                assert(1 <= (self.width as int / 16) * (self.height as int / 16) <= 256 * 256)
                    by (nonlinear_arith)
                    requires
                        1 <= self.width as int / 16 <= 256,
                        1 <= self.height as int / 16 <= 256,
                ;
            }
            let size = (self.width * self.height) as usize;
            if self.width != w0 || self.height != h0 {
                self.size = size;
                self.n_blocks_x = self.width / MACROBLOCK_SIZE;
                self.n_blocks_y = self.height / MACROBLOCK_SIZE;
                self.n_blocks = (self.n_blocks_x * self.n_blocks_y) as usize;
                self.client_state = alloc_zero_bytes(3 * size);
                self.block_table = build_block_table(self.width, self.height);
            }
            self.errors = alloc_zero_errors(self.n_blocks);
            self.current_version = alloc_zero_versions(self.n_blocks);
            self.most_recent_version = alloc_zero_versions(self.n_blocks);
            self.timestamp = 0;
        }
        changed
    }
}

impl Context {
    /// The current frame timestamp.
    pub fn get_timestamp(&self) -> (r: u32)
        ensures
            r == self.timestamp(),
    {
        self.timestamp
    }

    /// A copy of the error vector of the last frame.
    pub fn get_errors(&self) -> (r: Vec<(i64, usize)>)
        ensures
            r@ == self.errors(),
    {
        copy_error_vec(&self.errors)
    }

    /// A copy of the per-block last-acknowledged frame timestamps.
    pub fn get_current_version(&self) -> (r: Vec<u32>)
        ensures
            r@ == self.current_version(),
    {
        copy_u32_vec(&self.current_version)
    }

    /// A copy of the per-block last-sent frame timestamps.
    pub fn get_most_recent_version(&self) -> (r: Vec<u32>)
        ensures
            r@ == self.most_recent_version(),
    {
        copy_u32_vec(&self.most_recent_version)
    }

    /// A copy of the mirror buffer.
    pub fn get_mirror(&self) -> (r: Vec<u8>)
        ensures
            r@ == self.mirror(),
    {
        copy_u8_vec(&self.client_state)
    }

    /// The view geometry: width, height and the screen offsets.
    pub fn get_geometry(&self) -> (r: (u32, u32, i32, i32))
        ensures
            r.0 == self.width(),
            r.1 == self.height(),
            r.2 == self.offset_x(),
            r.3 == self.offset_y(),
    {
        (self.width, self.height, self.offset_x, self.offset_y)
    }
}

/// Copies a vector of error entries.
fn copy_error_vec(v: &Vec<(i64, usize)>) -> (r: Vec<(i64, usize)>)
    ensures
        r@ == v@,
{
    let mut r: Vec<(i64, usize)> = Vec::new();
    let mut i: usize = 0;
    while i < v.len()
        invariant
            i <= v@.len(),
            r@ == v@.subrange(0, i as int),
        decreases v@.len() - i,
    {
        r.push(v[i]);
        proof {
            assert(r@ =~= v@.subrange(0, i + 1));
        }
        i += 1;
    }
    proof {
        assert(v@.subrange(0, v@.len() as int) =~= v@);
    }
    r
}

/// Copies a vector of timestamps.
fn copy_u32_vec(v: &Vec<u32>) -> (r: Vec<u32>)
    ensures
        r@ == v@,
{
    let mut r: Vec<u32> = Vec::new();
    let mut i: usize = 0;
    while i < v.len()
        invariant
            i <= v@.len(),
            r@ == v@.subrange(0, i as int),
        decreases v@.len() - i,
    {
        r.push(v[i]);
        proof {
            assert(r@ =~= v@.subrange(0, i + 1));
        }
        i += 1;
    }
    proof {
        assert(v@.subrange(0, v@.len() as int) =~= v@);
    }
    r
}

/// Copies a byte buffer.
fn copy_u8_vec(v: &Vec<u8>) -> (r: Vec<u8>)
    ensures
        r@ == v@,
{
    let mut r: Vec<u8> = Vec::new();
    let mut i: usize = 0;
    while i < v.len()
        invariant
            i <= v@.len(),
            r@ == v@.subrange(0, i as int),
        decreases v@.len() - i,
    {
        r.push(v[i]);
        proof {
            assert(r@ =~= v@.subrange(0, i + 1));
        }
        i += 1;
    }
    proof {
        assert(v@.subrange(0, v@.len() as int) =~= v@);
    }
    r
}

/// Allocates a zeroed byte buffer.
fn alloc_zero_bytes(len: usize) -> (r: Vec<u8>)
    ensures
        r@ == Seq::new(len as nat, |i: int| 0u8),
{
    let mut r: Vec<u8> = Vec::new();
    let mut i: usize = 0;
    while i < len
        invariant
            i <= len,
            r@ == Seq::new(i as nat, |j: int| 0u8),
        decreases len - i,
    {
        r.push(0);
        proof {
            assert(r@ =~= Seq::new((i + 1) as nat, |j: int| 0u8));
        }
        i += 1;
    }
    r
}

/// Allocates a zeroed version vector.
fn alloc_zero_versions(len: usize) -> (r: Vec<u32>)
    ensures
        r@ == Seq::new(len as nat, |i: int| 0u32),
{
    let mut r: Vec<u32> = Vec::new();
    let mut i: usize = 0;
    while i < len
        invariant
            i <= len,
            r@ == Seq::new(i as nat, |j: int| 0u32),
        decreases len - i,
    {
        r.push(0);
        proof {
            assert(r@ =~= Seq::new((i + 1) as nat, |j: int| 0u32));
        }
        i += 1;
    }
    r
}

/// Allocates an error vector of zero scores and zero block ids.
fn alloc_zero_errors(len: usize) -> (r: Vec<(i64, usize)>)
    ensures
        r@ == Seq::new(len as nat, |i: int| (0i64, 0usize)),
{
    let mut r: Vec<(i64, usize)> = Vec::new();
    let mut i: usize = 0;
    while i < len
        invariant
            i <= len,
            r@ == Seq::new(i as nat, |j: int| (0i64, 0usize)),
        decreases len - i,
    {
        r.push((0, 0));
        proof {
            assert(r@ =~= Seq::new((i + 1) as nat, |j: int| (0i64, 0usize)));
        }
        i += 1;
    }
    r
}

} // verus!
