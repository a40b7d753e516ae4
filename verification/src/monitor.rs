//! Monitor geometry: which screens exist, how each is partitioned into
//! overlapping view segments, and the compact wire form of the monitor
//! list sent to the viewer.
//!
//! A view is a fixed [`VIEW_WIDTH`] x [`VIEW_HEIGHT`] window into a
//! monitor.  The midpoints of the possible windows partition the
//! monitor in each axis: the first midpoint sits half a view from the
//! left or top edge, the last half a view from the right or bottom
//! edge, and the interior ones are spread evenly between them.

use vstd::prelude::*;

use vstd::utf8::encode_utf8;

verus! {

broadcast use vstd::seq_lib::group_to_multiset_ensures, vstd::multiset::group_multiset_axioms;

/// Width in pixels of every streamed view.
pub const VIEW_WIDTH: u32 = 640;

/// Height in pixels of every streamed view.
pub const VIEW_HEIGHT: u32 = 368;

/// Largest monitor dimension the geometry computations accept.
pub const MAX_MONITOR_DIM: u32 = 1_000_000;

/// One physical monitor and its view-segment geometry.
#[derive(Debug, Clone, PartialEq)]
pub struct MonitorInfo {
    pub name: String,
    pub width: u32,
    pub height: u32,
    pub offset_x: i32,
    pub offset_y: i32,
    pub view_width: u32,
    pub view_height: u32,
    pub midpoints_x: Vec<u32>,
    pub midpoints_y: Vec<u32>,
}

/// Mathematical image of [`MonitorInfo`].
pub struct MonitorInfoView {
    pub name: Seq<char>,
    pub width: u32,
    pub height: u32,
    pub offset_x: i32,
    pub offset_y: i32,
    pub view_width: u32,
    pub view_height: u32,
    pub midpoints_x: Seq<u32>,
    pub midpoints_y: Seq<u32>,
}

impl View for MonitorInfo {
    type V = MonitorInfoView;

    open spec fn view(&self) -> MonitorInfoView {
        MonitorInfoView {
            name: self.name@,
            width: self.width,
            height: self.height,
            offset_x: self.offset_x,
            offset_y: self.offset_y,
            view_width: self.view_width,
            view_height: self.view_height,
            midpoints_x: self.midpoints_x@,
            midpoints_y: self.midpoints_y@,
        }
    }
}

/// How many view windows of size `view` tile a monitor dimension of
/// size `dim`: the quotient, rounded up.
pub open spec fn spec_midpoint_count(dim: int, view: int) -> int {
    if dim % view == 0 {
        dim / view
    } else {
        dim / view + 1
    }
}

/// The view-window midpoints along one axis of a `dim`-pixel monitor
/// for a view of size `view` (`half` is half the view size): half a
/// view from each edge, interior midpoints spread evenly.
pub open spec fn spec_midpoints(dim: int, view: int, half: int) -> Seq<u32> {
    let n = spec_midpoint_count(dim, view);
    let inner = if n >= 2 {
        n - 2
    } else {
        0
    };
    seq![half as u32] + Seq::new(
        inner as nat,
        |i: int| (half + (i + 1) * (dim - view) / (n - 1)) as u32,
    ) + seq![(dim - half) as u32]
}

/// The monitor value `MonitorInfo::new` constructs from the raw
/// geometry that the enumeration shim reports.
pub open spec fn spec_monitor_new(
    name: Seq<char>,
    width: u32,
    height: u32,
    offset_x: i32,
    offset_y: i32,
) -> MonitorInfoView {
    MonitorInfoView {
        name,
        width,
        height,
        offset_x,
        offset_y,
        view_width: VIEW_WIDTH,
        view_height: VIEW_HEIGHT,
        midpoints_x: spec_midpoints(width as int, VIEW_WIDTH as int, (VIEW_WIDTH / 2) as int),
        midpoints_y: spec_midpoints(height as int, VIEW_HEIGHT as int, (VIEW_HEIGHT / 2) as int),
    }
}

/// Computes the view-window midpoints along one axis.
fn midpoints_along(dim: u32, view: u32, half: u32) -> (r: Vec<u32>)
    requires
        view <= dim <= MAX_MONITOR_DIM,
        half == view / 2,
        view >= 368,
    ensures
        r@ == spec_midpoints(dim as int, view as int, half as int),
{
    let n: u32 = if dim % view == 0 {
        dim / view
    } else {
        dim / view + 1
    };
    assert(n == spec_midpoint_count(dim as int, view as int));
    proof {
        assert(1 <= dim as int / (view as int) <= 2717) by (nonlinear_arith)
            requires
                368 <= view as int <= dim as int <= MAX_MONITOR_DIM as int,
        ;
    }
    assert(1 <= n <= 2718);
    let mut r: Vec<u32> = Vec::new();
    r.push(half);
    let mut i: u32 = 1;
    while n >= 2 && i < n - 1
        invariant
            view <= dim <= MAX_MONITOR_DIM,
            view >= 368,
            n == spec_midpoint_count(dim as int, view as int),
            1 <= n <= 2718,
            n as int - 1 <= dim as int / (view as int),
            1 <= i,
            n >= 2 ==> i <= n - 1,
            n < 2 ==> i == 1,
            half == view / 2,
            r@ == seq![half] + Seq::new(
                (i - 1) as nat,
                |j: int| (half + (j + 1) * (dim - view) / (n - 1)) as u32,
            ),
        decreases n - i,
    {
        proof {
            assert(i + 1 <= n - 1);
            assert((i as int) * (dim as int - view as int) <= (n as int - 2) * (dim as int
                - view as int)) by (nonlinear_arith)
                requires
                    i as int <= n as int - 2,
                    dim as int >= view as int,
            ;
            assert((n as int - 2) * (dim as int - view as int) < 0x1_0000_0000)
                by (nonlinear_arith)
                requires
                    0 <= n as int - 2 <= 2716,
                    0 <= dim as int - view as int <= MAX_MONITOR_DIM as int,
            ;
        }
        let step = i * (dim - view) / (n - 1);
        proof {
            assert((i as int) * (dim as int - view as int) / (n as int - 1) <= dim as int
                - view as int) by (nonlinear_arith)
                requires
                    1 <= i as int <= n as int - 2,
                    0 <= dim as int - view as int,
                    n as int >= 2,
            ;
        }
        r.push(half + step);
        proof {
            assert(r@ =~= seq![half] + Seq::new(
                i as nat,
                |j: int| (half + (j + 1) * (dim - view) / (n - 1)) as u32,
            ));
        }
        i += 1;
    }
    r.push(dim - half);
    proof {
        assert(r@ =~= spec_midpoints(dim as int, view as int, half as int));
    }
    r
}

/// The wire form of one monitor: name length, name bytes, and the
/// midpoint counts of the two axes.
pub open spec fn spec_serialize_monitor(m: MonitorInfoView) -> Seq<u8> {
    seq![encode_utf8(m.name).len() as u8] + encode_utf8(m.name) + seq![
        m.midpoints_x.len() as u8,
        m.midpoints_y.len() as u8,
    ]
}

/// The concatenated wire forms of a run of monitors.
pub open spec fn spec_serialize_monitors(ms: Seq<MonitorInfoView>) -> Seq<u8>
    decreases ms.len(),
{
    if ms.len() == 0 {
        Seq::empty()
    } else {
        spec_serialize_monitor(ms[0]) + spec_serialize_monitors(ms.drop_first())
    }
}

/// The wire form of the whole monitor list: an eight-byte marker of
/// `0xFF`, the monitor count, then each monitor in order.
pub open spec fn spec_serialize_monitor_vec(ms: Seq<MonitorInfoView>) -> Seq<u8> {
    seq![255u8, 255u8, 255u8, 255u8, 255u8, 255u8, 255u8, 255u8, ms.len() as u8]
        + spec_serialize_monitors(ms)
}

/// What deserialisation recovers for one monitor: its name bytes and
/// the two midpoint counts.
pub type MonitorSummary = (Seq<u8>, u8, u8);

/// Parses exactly `n` serialized monitor records out of `data`,
/// rejecting short input and trailing bytes.
pub open spec fn spec_parse_monitor_records(data: Seq<u8>, n: int) -> Option<Seq<MonitorSummary>>
    decreases n,
{
    if n <= 0 {
        if data.len() == 0 {
            Some(Seq::empty())
        } else {
            None
        }
    } else if data.len() < 1 {
        None
    } else {
        let l = data[0] as int;
        if data.len() < 3 + l {
            None
        } else {
            let name = data.subrange(1, 1 + l);
            let nx = data[1 + l];
            let ny = data[2 + l];
            match spec_parse_monitor_records(data.skip(3 + l), n - 1) {
                Some(rest) => Some(seq![(name, nx, ny)] + rest),
                None => None,
            }
        }
    }
}

/// Parses a serialized monitor list: the marker, the count, then that
/// many records and nothing else.
pub open spec fn spec_deserialize_monitor_vec(data: Seq<u8>) -> Option<Seq<MonitorSummary>> {
    if data.len() < 9 {
        None
    } else if !(forall|i: int| 0 <= i < 8 ==> data[i] == 255) {
        None
    } else {
        spec_parse_monitor_records(data.skip(9), data[8] as int)
    }
}

/// The summary that serialising and deserialising one monitor hands
/// back.
pub open spec fn spec_monitor_summary(m: MonitorInfoView) -> MonitorSummary {
    (encode_utf8(m.name), m.midpoints_x.len() as u8, m.midpoints_y.len() as u8)
}

impl MonitorInfo {
    /// Builds the segment geometry of one monitor from its size and
    /// its position on the combined desktop.
    pub fn new(name: String, width: u32, height: u32, offset_x: i32, offset_y: i32) -> (r: Self)
        requires
            VIEW_WIDTH <= width <= MAX_MONITOR_DIM,
            VIEW_HEIGHT <= height <= MAX_MONITOR_DIM,
        ensures
            r@ == spec_monitor_new(name@, width, height, offset_x, offset_y),
    {
        let midpoints_x = midpoints_along(width, VIEW_WIDTH, VIEW_WIDTH / 2);
        let midpoints_y = midpoints_along(height, VIEW_HEIGHT, VIEW_HEIGHT / 2);
        MonitorInfo {
            name,
            width,
            height,
            offset_x,
            offset_y,
            view_width: VIEW_WIDTH,
            view_height: VIEW_HEIGHT,
            midpoints_x,
            midpoints_y,
        }
    }

    /// Serializes this monitor into its wire form.
    pub fn serialize(&self) -> (r: Vec<u8>)
        requires
            encode_utf8(self.name@).len() <= 255,
            self.midpoints_x@.len() <= 255,
            self.midpoints_y@.len() <= 255,
        ensures
            r@ == spec_serialize_monitor(self@),
    {
        let mut r: Vec<u8> = Vec::new();
        let bytes: &[u8] = self.name.as_str().as_bytes();
        r.push(bytes.len() as u8);
        let mut i: usize = 0;
        while i < bytes.len()
            invariant
                i <= bytes@.len(),
                r@ == seq![bytes@.len() as u8] + bytes@.subrange(0, i as int),
            decreases bytes@.len() - i,
        {
            r.push(bytes[i]);
            proof {
                assert(r@ =~= seq![bytes@.len() as u8] + bytes@.subrange(0, i + 1));
            }
            i += 1;
        }
        r.push(self.midpoints_x.len() as u8);
        r.push(self.midpoints_y.len() as u8);
        proof {
            assert(bytes@.subrange(0, bytes@.len() as int) =~= bytes@);
            assert(r@ =~= spec_serialize_monitor(self@));
        }
        r
    }

    /// Serializes the whole monitor list into its wire form.
    pub fn serialize_vec(data: &Vec<MonitorInfo>) -> (r: Vec<u8>)
        requires
            data@.len() <= 255,
            forall|i: int|
                0 <= i < data@.len() ==> encode_utf8(#[trigger] data@[i]@.name).len() <= 255
                    && data@[i]@.midpoints_x.len() <= 255 && data@[i]@.midpoints_y.len() <= 255,
        ensures
            r@ == spec_serialize_monitor_vec(data@.map_values(|m: MonitorInfo| m@)),
    {
        let ghost ms = data@.map_values(|m: MonitorInfo| m@);
        let mut r: Vec<u8> = Vec::new();
        let mut j: usize = 0;
        while j < 8
            invariant
                j <= 8,
                r@.len() == j,
                forall|i: int| 0 <= i < j ==> r@[i] == 255,
            decreases 8 - j,
        {
            r.push(255);
            j += 1;
        }
        r.push(data.len() as u8);
        proof {
            assert(r@ =~= seq![255u8, 255u8, 255u8, 255u8, 255u8, 255u8, 255u8, 255u8, (
            ms.len() as u8)]);
        }
        let ghost header = r@;
        let mut i: usize = 0;
        while i < data.len()
            invariant
                i <= data@.len(),
                ms == data@.map_values(|m: MonitorInfo| m@),
                forall|k: int|
                    0 <= k < data@.len() ==> encode_utf8(#[trigger] data@[k]@.name).len() <= 255
                        && data@[k]@.midpoints_x.len() <= 255 && data@[k]@.midpoints_y.len() <= 255,
                r@ == header + spec_serialize_monitors(ms.take(i as int)),
            decreases data@.len() - i,
        {
            proof {
                assert(encode_utf8(data@[i as int]@.name).len() <= 255);
            }
            let part = data[i].serialize();
            let ghost before = r@;
            let mut k: usize = 0;
            while k < part.len()
                invariant
                    k <= part@.len(),
                    r@ == before + part@.subrange(0, k as int),
                decreases part@.len() - k,
            {
                r.push(part[k]);
                proof {
                    assert(r@ =~= before + part@.subrange(0, k + 1));
                }
                k += 1;
            }
            proof {
                assert(part@.subrange(0, part@.len() as int) =~= part@);
                lemma_serialize_monitors_take_step(ms, i as int);
                assert(r@ =~= header + spec_serialize_monitors(ms.take(i + 1)));
            }
            i += 1;
        }
        proof {
            assert(ms.take(ms.len() as int) =~= ms);
        }
        r
    }

    /// Parses a serialized monitor list back into each monitor's name
    /// bytes and midpoint counts; `None` when the bytes are not a
    /// well-formed list.
    pub fn deserialize_vec(data: &Vec<u8>) -> (r: Option<Vec<(Vec<u8>, u8, u8)>>)
        ensures
            match r {
                Some(v) => spec_deserialize_monitor_vec(data@) == Some(v.deep_view()),
                None => spec_deserialize_monitor_vec(data@) is None,
            },
    {
        if data.len() < 9 {
            return None;
        }
        let mut j: usize = 0;
        while j < 8
            invariant
                j <= 8,
                data@.len() >= 9,
                forall|i: int| 0 <= i < j ==> data@[i] == 255,
            decreases 8 - j,
        {
            if data[j] != 255 {
                return None;
            }
            j += 1;
        }
        let n = data[8] as usize;
        let mut result: Vec<(Vec<u8>, u8, u8)> = Vec::new();
        let mut pos: usize = 9;
        let mut parsed: usize = 0;
        while parsed < n
            invariant
                parsed <= n,
                9 <= pos <= data@.len(),
                n == data@[8] as int,
                forall|i: int| 0 <= i < 8 ==> data@[i] == 255,
                spec_parse_monitor_records(data@.skip(9), n as int) == (match spec_parse_monitor_records(
                    data@.skip(pos as int),
                    n - parsed,
                ) {
                    Some(rest) => Some(result.deep_view() + rest),
                    None => None::<Seq<MonitorSummary>>,
                }),
            decreases n - parsed,
        {
            let ghost tail = data@.skip(pos as int);
            if data.len() - pos < 1 {
                proof {
                    assert(tail.len() < 1);
                }
                return None;
            }
            let l = data[pos] as usize;
            proof {
                assert(tail[0] == data@[pos as int]);
            }
            if data.len() - pos < 3 + l {
                proof {
                    assert(tail.len() < 3 + l);
                }
                return None;
            }
            let mut name: Vec<u8> = Vec::new();
            let mut k: usize = 0;
            while k < l
                invariant
                    k <= l,
                    pos + 3 + l <= data@.len(),
                    data@.len() <= usize::MAX,
                    name@ == data@.subrange(pos + 1, pos + 1 + k),
                decreases l - k,
            {
                name.push(data[pos + 1 + k]);
                proof {
                    assert(name@ =~= data@.subrange(pos + 1, pos + 1 + k + 1));
                }
                k += 1;
            }
            let nx = data[pos + 1 + l];
            let ny = data[pos + 2 + l];
            let ghost old_result = result.deep_view();
            result.push((name, nx, ny));
            proof {
                assert(tail.subrange(1, 1 + l) =~= data@.subrange(pos + 1, pos + 1 + l));
                assert(name@ =~= tail.subrange(1, 1 + l));
                assert(tail[1 + l] == nx && tail[2 + l] == ny);
                assert(tail.skip(3 + l) =~= data@.skip(pos + 3 + l));
                assert(result.deep_view() =~~= old_result + seq![(name@, nx, ny)]);
                let next = spec_parse_monitor_records(data@.skip(pos + 3 + l), n - parsed - 1);
                if next is Some {
                    let rest = next.unwrap();
                    assert(old_result + (seq![(name@, nx, ny)] + rest) =~~= result.deep_view()
                        + rest);
                }
            }
            pos = pos + 3 + l;
            parsed += 1;
        }
        if pos != data.len() {
            proof {
                assert(data@.skip(pos as int).len() > 0);
            }
            return None;
        }
        proof {
            assert(data@.skip(pos as int) =~= Seq::<u8>::empty());
            assert(result.deep_view() + Seq::<MonitorSummary>::empty() =~= result.deep_view());
        }
        Some(result)
    }
}

/// Extending the serialized run by one monitor appends exactly that
/// monitor's wire form.
proof fn lemma_serialize_monitors_take_step(ms: Seq<MonitorInfoView>, i: int)
    requires
        0 <= i < ms.len(),
    ensures
        spec_serialize_monitors(ms.take(i + 1)) == spec_serialize_monitors(ms.take(i))
            + spec_serialize_monitor(ms[i]),
    decreases i,
{
    if i == 0 {
        assert(ms.take(1).drop_first() =~= Seq::<MonitorInfoView>::empty());
        assert(ms.take(0) =~= Seq::<MonitorInfoView>::empty());
        assert(ms.take(1)[0] == ms[0]);
        assert(spec_serialize_monitors(Seq::<MonitorInfoView>::empty()) =~= Seq::<u8>::empty());
        assert(spec_serialize_monitors(ms.take(1)) =~= spec_serialize_monitor(ms[0])
            + Seq::<u8>::empty());
        assert(spec_serialize_monitor(ms[0]) + Seq::<u8>::empty() =~= spec_serialize_monitor(
            ms[0],
        ));
    } else {
        lemma_serialize_monitors_take_step(ms.drop_first(), i - 1);
        assert(ms.take(i + 1).drop_first() =~= ms.drop_first().take(i));
        assert(ms.take(i).drop_first() =~= ms.drop_first().take(i - 1));
        assert(ms.take(i + 1)[0] == ms[0] && ms.take(i)[0] == ms[0]);
        assert(ms.drop_first()[i - 1] == ms[i]);
        assert(spec_serialize_monitor(ms[0]) + (spec_serialize_monitors(ms.drop_first().take(i - 1))
            + spec_serialize_monitor(ms[i])) =~= (spec_serialize_monitor(ms[0])
            + spec_serialize_monitors(ms.drop_first().take(i - 1))) + spec_serialize_monitor(
            ms[i],
        ));
    }
}

/// Monitor-list serialisation round-trips: deserialising the wire
/// form of any monitor list recovers exactly each monitor's name
/// bytes and midpoint counts, in order.
pub proof fn lemma_monitor_list_roundtrip(ms: Seq<MonitorInfoView>)
    requires
        ms.len() <= 255,
        forall|i: int|
            0 <= i < ms.len() ==> encode_utf8(#[trigger] ms[i].name).len() <= 255
                && ms[i].midpoints_x.len() <= 255 && ms[i].midpoints_y.len() <= 255,
    ensures
        spec_deserialize_monitor_vec(spec_serialize_monitor_vec(ms)) == Some(
            Seq::new(ms.len(), |i: int| spec_monitor_summary(ms[i])),
        ),
{
    let data = spec_serialize_monitor_vec(ms);
    assert(data.len() >= 9);
    assert(forall|i: int| 0 <= i < 8 ==> data[i] == 255);
    assert(data[8] == ms.len() as u8);
    assert(data.skip(9) =~= spec_serialize_monitors(ms));
    lemma_monitor_records_roundtrip(ms);
}

/// Parsing the concatenated wire forms of a run of monitors recovers
/// each monitor's summary.
proof fn lemma_monitor_records_roundtrip(ms: Seq<MonitorInfoView>)
    requires
        forall|i: int|
            0 <= i < ms.len() ==> encode_utf8(#[trigger] ms[i].name).len() <= 255
                && ms[i].midpoints_x.len() <= 255 && ms[i].midpoints_y.len() <= 255,
    ensures
        spec_parse_monitor_records(spec_serialize_monitors(ms), ms.len() as int) == Some(
            Seq::new(ms.len(), |i: int| spec_monitor_summary(ms[i])),
        ),
    decreases ms.len(),
{
    let data = spec_serialize_monitors(ms);
    if ms.len() == 0 {
        assert(Seq::new(0, |i: int| spec_monitor_summary(ms[i])) =~= Seq::<
            MonitorSummary,
        >::empty());
    } else {
        let m = ms[0];
        let head = spec_serialize_monitor(m);
        let rest = spec_serialize_monitors(ms.drop_first());
        let l = encode_utf8(m.name).len() as int;
        assert(head.len() == 3 + l);
        assert(data == head + rest);
        assert(data[0] == l as u8);
        assert(data.len() >= 3 + l);
        assert(data.subrange(1, 1 + l) =~= encode_utf8(m.name));
        assert(data[1 + l] == m.midpoints_x.len() as u8);
        assert(data[2 + l] == m.midpoints_y.len() as u8);
        assert(data.skip(3 + l) =~= rest);
        assert forall|i: int|
            0 <= i < ms.drop_first().len() implies encode_utf8(
            #[trigger] ms.drop_first()[i].name,
        ).len() <= 255 && ms.drop_first()[i].midpoints_x.len() <= 255
            && ms.drop_first()[i].midpoints_y.len() <= 255 by {
            assert(ms.drop_first()[i] == ms[i + 1]);
        }
        lemma_monitor_records_roundtrip(ms.drop_first());
        assert(seq![spec_monitor_summary(m)] + Seq::new(
            ms.drop_first().len(),
            |i: int| spec_monitor_summary(ms.drop_first()[i]),
        ) =~= Seq::new(ms.len(), |i: int| spec_monitor_summary(ms[i])));
    }
}

/// The absolute screen position of the top-left corner of a chosen
/// view segment: the monitor's own offset plus the segment midpoint
/// less half a view.
pub fn get_offset(monitors: &Vec<MonitorInfo>, screen: u8, segment: u8) -> (r: (i32, i32))
    requires
        (screen as int) < monitors@.len(),
        ({
            let m = monitors@[screen as int]@;
            &&& 1 <= m.midpoints_x.len() <= 255
            &&& 1 <= m.midpoints_y.len()
            &&& (segment as int) % (m.midpoints_x.len() as int) < m.midpoints_x.len()
            &&& (segment as int) / (m.midpoints_x.len() as int) < m.midpoints_y.len()
            &&& m.midpoints_x[(segment as int) % (m.midpoints_x.len() as int)] >= m.view_width / 2
            &&& m.midpoints_y[(segment as int) / (m.midpoints_x.len() as int)] >= m.view_height / 2
            &&& m.midpoints_x[(segment as int) % (m.midpoints_x.len() as int)] - m.view_width / 2
                <= i32::MAX
            &&& m.midpoints_y[(segment as int) / (m.midpoints_x.len() as int)] - m.view_height / 2
                <= i32::MAX
            &&& m.offset_x + m.midpoints_x[(segment as int) % (m.midpoints_x.len() as int)]
                - m.view_width / 2 <= i32::MAX
            &&& m.offset_y + m.midpoints_y[(segment as int) / (m.midpoints_x.len() as int)]
                - m.view_height / 2 <= i32::MAX
        }),
    ensures
        ({
            let m = monitors@[screen as int]@;
            &&& r.0 == m.offset_x + m.midpoints_x[(segment as int) % (m.midpoints_x.len() as int)]
                - m.view_width / 2
            &&& r.1 == m.offset_y + m.midpoints_y[(segment as int) / (m.midpoints_x.len() as int)]
                - m.view_height / 2
        }),
{
    let current_monitor = &monitors[screen as usize];
    let n_midpoints_x = current_monitor.midpoints_x.len();
    let segment_x = (segment % n_midpoints_x as u8) as usize;
    let segment_y = (segment / n_midpoints_x as u8) as usize;
    let offset_x = current_monitor.offset_x + (current_monitor.midpoints_x[segment_x]
        - current_monitor.view_width / 2) as i32;
    let offset_y = current_monitor.offset_y + (current_monitor.midpoints_y[segment_y]
        - current_monitor.view_height / 2) as i32;
    (offset_x, offset_y)
}

/// The fields of one monitor line of a display listing: name, width,
/// height, horizontal offset, vertical offset, all still text.
pub type MonitorFields = (Seq<char>, Seq<char>, Seq<char>, Seq<char>, Seq<char>);

/// The monitor lines found in a display listing.  What constitutes a
/// monitor line is decided by the pattern match below; the result
/// depends on the listing text alone.
pub uninterp spec fn monitor_fields_of(text: Seq<char>) -> Seq<MonitorFields>;

/// Relies on regex::Regex::captures_iter: with the fixed pattern of a
/// connected-monitor line, the capture groups of each match are a
/// function of the haystack alone.
#[verifier::external_body]
fn monitor_captures(text: &str) -> (r: Vec<(String, String, String, String, String)>)
    ensures
        r.deep_view() == monitor_fields_of(text@),
{
    let re = regex::Regex::new(r"(.+) connected.* (\d+)x(\d+)\+(\d+)\+(\d+)").unwrap();
    re.captures_iter(text).map(
        |c|
            (
                c[1].to_string(),
                c[2].to_string(),
                c[3].to_string(),
                c[4].to_string(),
                c[5].to_string(),
            ),
    ).collect()
}

/// Whether `s` is a non-empty run of decimal digits.
pub open spec fn spec_is_digits(s: Seq<char>) -> bool {
    s.len() > 0 && forall|i: int| 0 <= i < s.len() ==> '0' <= #[trigger] s[i] <= '9'
}

/// The value of a run of decimal digits, most significant first.
pub open spec fn spec_dec_value(s: Seq<char>) -> int
    decreases s.len(),
{
    if s.len() == 0 {
        0
    } else {
        spec_dec_value(s.drop_last()) * 10 + (s.last() as int - 48)
    }
}

/// The value of a digit run never shrinks as digits are appended.
proof fn lemma_dec_value_prefix(s: Seq<char>, i: int)
    requires
        spec_is_digits(s),
        0 <= i <= s.len(),
    ensures
        0 <= spec_dec_value(s.take(i)) <= spec_dec_value(s),
    decreases s.len() - i,
{
    assert forall|j: int| 0 <= j < s.take(i).len() implies '0' <= #[trigger] s.take(i)[j]
        <= '9' by {
        assert(s.take(i)[j] == s[j]);
    }
    lemma_dec_value_nonneg(s.take(i));
    if i == s.len() {
        assert(s.take(i) =~= s);
    } else {
        lemma_dec_value_prefix(s, i + 1);
        assert(s.take(i + 1).drop_last() =~= s.take(i));
        assert(s.take(i + 1).last() == s[i]);
        let v = spec_dec_value(s.take(i));
        let d = s[i] as int - 48;
        assert(0 <= d <= 9);
        assert(v >= 0 && d >= 0 ==> v <= v * 10 + d) by (nonlinear_arith);
    }
}

/// The value of a digit run is never negative.
proof fn lemma_dec_value_nonneg(s: Seq<char>)
    requires
        forall|i: int| 0 <= i < s.len() ==> '0' <= #[trigger] s[i] <= '9',
    ensures
        spec_dec_value(s) >= 0,
    decreases s.len(),
{
    if s.len() > 0 {
        assert forall|i: int|
            0 <= i < s.drop_last().len() implies '0' <= #[trigger] s.drop_last()[i] <= '9' by {
            assert(s.drop_last()[i] == s[i]);
        }
        lemma_dec_value_nonneg(s.drop_last());
        let v = spec_dec_value(s.drop_last());
        assert(v >= 0 ==> v * 10 >= 0) by (nonlinear_arith);
    }
}

/// Parses a run of decimal digits into a `u32`: `None` when the text
/// is empty, holds a non-digit, or exceeds `u32::MAX`.
pub fn parse_u32(s: &str) -> (r: Option<u32>)
    ensures
        match r {
            Some(v) => spec_is_digits(s@) && spec_dec_value(s@) == v,
            None => !spec_is_digits(s@) || spec_dec_value(s@) > u32::MAX,
        },
{
    let n = s.unicode_len();
    if n == 0 {
        return None;
    }
    let mut acc: u32 = 0;
    let mut i: usize = 0;
    proof {
        assert(s@.take(0) =~= Seq::<char>::empty());
    }
    while i < n
        invariant
            i <= n,
            n == s@.len(),
            acc == spec_dec_value(s@.take(i as int)),
            forall|j: int| 0 <= j < i ==> '0' <= #[trigger] s@[j] <= '9',
        decreases n - i,
    {
        let c = s.get_char(i);
        if c < '0' || c > '9' {
            assert(!spec_is_digits(s@));
            return None;
        }
        let d = (c as u32) - 48;
        let wide: u64 = (acc as u64) * 10 + (d as u64);
        proof {
            assert(s@.take(i + 1).drop_last() =~= s@.take(i as int));
            assert(s@.take(i + 1).last() == s@[i as int]);
        }
        if wide > u32::MAX as u64 {
            proof {
                if spec_is_digits(s@) {
                    lemma_dec_value_prefix(s@, i + 1);
                }
            }
            return None;
        }
        acc = (wide as u32);
        i += 1;
    }
    proof {
        assert(s@.take(n as int) =~= s@);
    }
    Some(acc)
}

/// The monitor a listing line describes, when its numeric fields
/// parse and its geometry is one the library accepts: width and
/// height within view and machine bounds, offsets within `i32`.
pub open spec fn spec_monitor_of_fields(f: MonitorFields) -> Option<MonitorInfoView> {
    if spec_is_digits(f.1) && VIEW_WIDTH <= spec_dec_value(f.1) <= MAX_MONITOR_DIM
        && spec_is_digits(f.2) && VIEW_HEIGHT <= spec_dec_value(f.2) <= MAX_MONITOR_DIM
        && spec_is_digits(f.3) && spec_dec_value(f.3) <= i32::MAX && spec_is_digits(f.4)
        && spec_dec_value(f.4) <= i32::MAX {
        Some(
            spec_monitor_new(
                f.0,
                spec_dec_value(f.1) as u32,
                spec_dec_value(f.2) as u32,
                spec_dec_value(f.3) as i32,
                spec_dec_value(f.4) as i32,
            ),
        )
    } else {
        None
    }
}

/// The monitors of a listing, in listing order, lines with unusable
/// fields skipped.
pub open spec fn spec_monitors_of_fields(fs: Seq<MonitorFields>) -> Seq<MonitorInfoView>
    decreases fs.len(),
{
    if fs.len() == 0 {
        Seq::empty()
    } else {
        let rest = spec_monitors_of_fields(fs.drop_first());
        match spec_monitor_of_fields(fs[0]) {
            Some(m) => seq![m] + rest,
            None => rest,
        }
    }
}

/// The views of a run of monitors.
pub open spec fn views_of(s: Seq<MonitorInfo>) -> Seq<MonitorInfoView> {
    s.map_values(|m: MonitorInfo| m@)
}

/// Listing order of monitors: by horizontal offset, then vertical.
pub open spec fn spec_monitor_le(a: MonitorInfoView, b: MonitorInfoView) -> bool {
    a.offset_x < b.offset_x || (a.offset_x == b.offset_x && a.offset_y <= b.offset_y)
}

/// Whether a run of monitors is in listing order.
pub open spec fn spec_monitors_sorted(s: Seq<MonitorInfoView>) -> bool {
    forall|i: int, j: int| 0 <= i < j < s.len() ==> spec_monitor_le(#[trigger] s[i], #[trigger] s[j])
}

/// Extending the parsed run by one listing line appends that line's
/// monitor, or nothing when the line is unusable.
proof fn lemma_monitors_of_fields_take_step(fs: Seq<MonitorFields>, i: int)
    requires
        0 <= i < fs.len(),
    ensures
        spec_monitors_of_fields(fs.take(i + 1)) == (match spec_monitor_of_fields(fs[i]) {
            Some(m) => spec_monitors_of_fields(fs.take(i)) + seq![m],
            None => spec_monitors_of_fields(fs.take(i)),
        }),
    decreases i,
{
    if i == 0 {
        assert(fs.take(1).drop_first() =~= Seq::<MonitorFields>::empty());
        assert(fs.take(0) =~= Seq::<MonitorFields>::empty());
        assert(fs.take(1)[0] == fs[0]);
        assert(spec_monitors_of_fields(Seq::<MonitorFields>::empty())
            =~= Seq::<MonitorInfoView>::empty());
        match spec_monitor_of_fields(fs[0]) {
            Some(m) => {
                assert(seq![m] + Seq::<MonitorInfoView>::empty() =~= Seq::<
                    MonitorInfoView,
                >::empty() + seq![m]);
            },
            None => {},
        }
    } else {
        lemma_monitors_of_fields_take_step(fs.drop_first(), i - 1);
        assert(fs.take(i + 1).drop_first() =~= fs.drop_first().take(i));
        assert(fs.take(i).drop_first() =~= fs.drop_first().take(i - 1));
        assert(fs.take(i + 1)[0] == fs[0] && fs.take(i)[0] == fs[0]);
        assert(fs.drop_first()[i - 1] == fs[i]);
        match spec_monitor_of_fields(fs[0]) {
            Some(m0) => {
                match spec_monitor_of_fields(fs[i]) {
                    Some(m) => {
                        assert(seq![m0] + (spec_monitors_of_fields(fs.drop_first().take(i - 1))
                            + seq![m]) =~= (seq![m0] + spec_monitors_of_fields(
                            fs.drop_first().take(i - 1),
                        )) + seq![m]);
                    },
                    None => {},
                }
            },
            None => {},
        }
    }
}

/// Sorts monitors into listing order; the result is a permutation of
/// the input.
fn sort_monitors(v: Vec<MonitorInfo>) -> (r: Vec<MonitorInfo>)
    ensures
        spec_monitors_sorted(views_of(r@)),
        views_of(r@).to_multiset() == views_of(v@).to_multiset(),
{
    let ghost orig = views_of(v@);
    let mut rest = v;
    let mut out: Vec<MonitorInfo> = Vec::new();
    proof {
        assert(views_of(out@) =~= Seq::<MonitorInfoView>::empty());
        assert(views_of(out@).to_multiset().add(views_of(rest@).to_multiset()) =~= orig.to_multiset());
    }
    while rest.len() > 0
        invariant
            spec_monitors_sorted(views_of(out@)),
            forall|i: int, j: int|
                0 <= i < out@.len() && 0 <= j < rest@.len() ==> spec_monitor_le(
                    #[trigger] out@[i]@,
                    #[trigger] rest@[j]@,
                ),
            views_of(out@).to_multiset().add(views_of(rest@).to_multiset()) == orig.to_multiset(),
        decreases rest@.len(),
    {
        let mut min: usize = 0;
        let mut j: usize = 1;
        while j < rest.len()
            invariant
                min < j <= rest@.len() || (j <= rest@.len() && min == 0),
                min < rest@.len(),
                rest@.len() > 0,
                forall|k: int| 0 <= k < j ==> spec_monitor_le(rest@[min as int]@, #[trigger] rest@[k]@),
            decreases rest@.len() - j,
        {
            if rest[j].offset_x < rest[min].offset_x || (rest[j].offset_x == rest[min].offset_x
                && rest[j].offset_y < rest[min].offset_y) {
                min = j;
            }
            j += 1;
        }
        let ghost rest_before = rest@;
        let ghost out_before = out@;
        let x = rest.remove(min);
        out.push(x);
        proof {
            assert(views_of(rest@) =~= views_of(rest_before).remove(min as int));
            assert(views_of(out@) =~= views_of(out_before).push(x@));
            assert(views_of(rest_before)[min as int] == x@);
            let vr = views_of(rest_before);
            assert(vr.remove(min as int).to_multiset() == vr.to_multiset().remove(x@));
            assert(vr.to_multiset().contains(x@)) by {
                assert(vr.contains(vr[min as int]));
            }
            assert(views_of(out@).to_multiset().add(views_of(rest@).to_multiset())
                =~= orig.to_multiset());
            assert forall|i: int, p: int|
                0 <= i < out@.len() && 0 <= p < rest@.len() implies spec_monitor_le(
                out@[i]@,
                rest@[p]@,
            ) by {
                assert(rest@[p] == rest_before[if p < min { p } else { p + 1 }]);
                if i < out_before.len() {
                    assert(spec_monitor_le(out_before[i]@, rest_before[if p < min {
                        p
                    } else {
                        p + 1
                    }]@));
                } else {
                    assert(out@[i] == x);
                    assert(spec_monitor_le(rest_before[min as int]@, rest_before[if p < min {
                        p
                    } else {
                        p + 1
                    }]@));
                }
            }
        }
    }
    out
}

/// Parses a display listing into the monitors it names, in listing
/// order of position: the result is exactly the usable monitor lines
/// of the listing, sorted by horizontal then vertical offset.
pub fn monitors_from_listing(text: &str) -> (r: Vec<MonitorInfo>)
    ensures
        spec_monitors_sorted(views_of(r@)),
        views_of(r@).to_multiset() == spec_monitors_of_fields(
            monitor_fields_of(text@),
        ).to_multiset(),
{
    let caps = monitor_captures(text);
    let ghost fields = monitor_fields_of(text@);
    let mut found: Vec<MonitorInfo> = Vec::new();
    let mut i: usize = 0;
    proof {
        assert(fields.take(0) =~= Seq::<MonitorFields>::empty());
        assert(views_of(found@) =~= spec_monitors_of_fields(fields.take(0)));
    }
    while i < caps.len()
        invariant
            i <= caps@.len(),
            caps.deep_view() == fields,
            fields.len() == caps@.len(),
            views_of(found@) == spec_monitors_of_fields(fields.take(i as int)),
        decreases caps@.len() - i,
    {
        proof {
            assert(caps@[i as int].deep_view() == fields[i as int]);
        }
        let name = caps[i].0.clone();
        let width = parse_u32(caps[i].1.as_str());
        let height = parse_u32(caps[i].2.as_str());
        let off_x = parse_u32(caps[i].3.as_str());
        let off_y = parse_u32(caps[i].4.as_str());
        let usable = match (width, height, off_x, off_y) {
            (Some(w), Some(h), Some(x), Some(y)) => VIEW_WIDTH <= w && w <= MAX_MONITOR_DIM
                && VIEW_HEIGHT <= h && h <= MAX_MONITOR_DIM && x <= i32::MAX as u32 && y
                <= i32::MAX as u32,
            _ => false,
        };
        let ghost found_before = found@;
        if usable {
            let w = width.unwrap();
            let h = height.unwrap();
            let x = off_x.unwrap();
            let y = off_y.unwrap();
            let m = MonitorInfo::new(name, w, h, x as i32, y as i32);
            found.push(m);
            proof {
                assert(spec_monitor_of_fields(fields[i as int]) == Some(m@));
                assert(views_of(found@) =~= views_of(found_before).push(m@));
            }
        } else {
            proof {
                assert(spec_monitor_of_fields(fields[i as int]) is None);
            }
        }
        proof {
            lemma_monitors_of_fields_take_step(fields, i as int);
            assert(views_of(found@) =~= spec_monitors_of_fields(fields.take(i + 1)));
        }
        i += 1;
    }
    proof {
        assert(fields.take(fields.len() as int) =~= fields);
    }
    sort_monitors(found)
}

} // verus!
