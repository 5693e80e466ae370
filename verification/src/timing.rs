//! The timing model: tempo, stop, scroll and speed maps extracted from
//! a compiled chart.
//!
//! Header groups `BPMxx`, `STOPxx`, `SCROLLxx`, `SPEEDxx` (names read
//! case-insensitively, `xx` a two-character base-36 id) define values;
//! fixed channels project them onto quarter-note positions: channel 3
//! carries an inline tempo directly, channel 8 looks up `BPMxx`,
//! channel 9 looks up `STOPxx` (a duration in 192nds of a measure),
//! and the `SC`/`SP` channels look up scroll and speed factors.

use vstd::prelude::*;

use crate::chart::{eq_ci_char, BmsChart, ChartModel};
use crate::parse::{
    digit_val, digit_val_of, is_alnum, spec_parse_decimal, spec_parse_uint, parse_decimal,
    parse_uint,
};
use crate::rat::Rat;

verus! {

/// A point on the chart's musical axis, in quarter notes, exact.
#[derive(Clone, Copy, Debug, PartialEq, Eq, Structural)]
pub struct BmsTimeQuarterNotes(pub Rat);

impl BmsTimeQuarterNotes {
    pub open spec fn wf(self) -> bool {
        self.0.wf()
    }

    /// The time `num / den` quarter notes.
    pub fn new(num: i64, den: i64) -> (r: Self)
        requires
            den >= 1,
        ensures
            r == BmsTimeQuarterNotes(Rat { num, den }),
    {
        BmsTimeQuarterNotes(Rat { num, den })
    }

    /// Exact sum, `None` when it leaves the representable range.
    pub fn checked_add(self, other: Self) -> (r: Option<Self>)
        requires
            self.wf(),
            other.wf(),
        ensures
            r == match self.0.spec_add(other.0) {
                Some(v) => Some(BmsTimeQuarterNotes(v)),
                None => None::<BmsTimeQuarterNotes>,
            },
    {
        match self.0.checked_add(other.0) {
            Some(v) => Some(BmsTimeQuarterNotes(v)),
            None => None,
        }
    }

    /// Exact difference, `None` when it leaves the representable range.
    pub fn checked_sub(self, other: Self) -> (r: Option<Self>)
        requires
            self.wf(),
            other.wf(),
        ensures
            r == match self.0.spec_sub(other.0) {
                Some(v) => Some(BmsTimeQuarterNotes(v)),
                None => None::<BmsTimeQuarterNotes>,
            },
    {
        match self.0.checked_sub(other.0) {
            Some(v) => Some(BmsTimeQuarterNotes(v)),
            None => None,
        }
    }

    /// Exact product, `None` when it leaves the representable range.
    pub fn checked_mul(self, other: Self) -> (r: Option<Self>)
        requires
            self.wf(),
            other.wf(),
        ensures
            r == match self.0.spec_mul(other.0) {
                Some(v) => Some(BmsTimeQuarterNotes(v)),
                None => None::<BmsTimeQuarterNotes>,
            },
    {
        match self.0.checked_mul(other.0) {
            Some(v) => Some(BmsTimeQuarterNotes(v)),
            None => None,
        }
    }

    /// Exact ratio of two times, a plain number; `None` on a zero
    /// divisor or when it leaves the representable range.
    pub fn checked_div(self, other: Self) -> (r: Option<Rat>)
        requires
            self.wf(),
            other.wf(),
        ensures
            r == self.0.spec_div(other.0),
    {
        self.0.checked_div(other.0)
    }
}

/// A point or span of real time, in seconds, exact.
#[derive(Clone, Copy, Debug, PartialEq, Eq, Structural)]
pub struct BmsTimeSeconds(pub Rat);

impl BmsTimeSeconds {
    pub open spec fn wf(self) -> bool {
        self.0.wf()
    }

    /// The time `num / den` seconds.
    pub fn new(num: i64, den: i64) -> (r: Self)
        requires
            den >= 1,
        ensures
            r == BmsTimeSeconds(Rat { num, den }),
    {
        BmsTimeSeconds(Rat { num, den })
    }

    /// Exact sum, `None` when it leaves the representable range.
    pub fn checked_add(self, other: Self) -> (r: Option<Self>)
        requires
            self.wf(),
            other.wf(),
        ensures
            r == match self.0.spec_add(other.0) {
                Some(v) => Some(BmsTimeSeconds(v)),
                None => None::<BmsTimeSeconds>,
            },
    {
        match self.0.checked_add(other.0) {
            Some(v) => Some(BmsTimeSeconds(v)),
            None => None,
        }
    }

    /// Exact difference, `None` when it leaves the representable range.
    pub fn checked_sub(self, other: Self) -> (r: Option<Self>)
        requires
            self.wf(),
            other.wf(),
        ensures
            r == match self.0.spec_sub(other.0) {
                Some(v) => Some(BmsTimeSeconds(v)),
                None => None::<BmsTimeSeconds>,
            },
    {
        match self.0.checked_sub(other.0) {
            Some(v) => Some(BmsTimeSeconds(v)),
            None => None,
        }
    }

    /// Exact product, `None` when it leaves the representable range.
    pub fn checked_mul(self, other: Self) -> (r: Option<Self>)
        requires
            self.wf(),
            other.wf(),
        ensures
            r == match self.0.spec_mul(other.0) {
                Some(v) => Some(BmsTimeSeconds(v)),
                None => None::<BmsTimeSeconds>,
            },
    {
        match self.0.checked_mul(other.0) {
            Some(v) => Some(BmsTimeSeconds(v)),
            None => None,
        }
    }

    /// Exact ratio of two times, a plain number; `None` on a zero
    /// divisor or when it leaves the representable range.
    pub fn checked_div(self, other: Self) -> (r: Option<Rat>)
        requires
            self.wf(),
            other.wf(),
        ensures
            r == self.0.spec_div(other.0),
    {
        self.0.checked_div(other.0)
    }
}

/// First index whose key equals `id`, or the length.
pub open spec fn assoc_find<V>(s: Seq<(u32, V)>, id: u32) -> int
    decreases s.len(),
{
    if s.len() == 0 {
        0
    } else if s[0].0 == id {
        0
    } else {
        1 + assoc_find(s.skip(1), id)
    }
}

pub proof fn lemma_assoc_find<V>(s: Seq<(u32, V)>, id: u32)
    ensures
        0 <= assoc_find(s, id) <= s.len(),
        assoc_find(s, id) < s.len() ==> s[assoc_find(s, id)].0 == id,
        forall|j: int| 0 <= j < assoc_find(s, id) ==> (#[trigger] s[j]).0 != id,
    decreases s.len(),
{
    if s.len() > 0 && s[0].0 != id {
        lemma_assoc_find(s.skip(1), id);
        assert forall|j: int| 0 <= j < assoc_find(s, id) implies (#[trigger] s[j]).0 != id by {
            if j >= 1 {
                assert(s.skip(1)[j - 1] == s[j]);
            }
        }
    }
}

/// Bind `id` to `v`, replacing any previous binding.
pub open spec fn assoc_upsert<V>(s: Seq<(u32, V)>, id: u32, v: V) -> Seq<(u32, V)> {
    let k = assoc_find(s, id);
    if k < s.len() {
        s.update(k, (id, v))
    } else {
        s.push((id, v))
    }
}

/// The value bound to `id`, if any.
pub open spec fn assoc_get<V>(s: Seq<(u32, V)>, id: u32) -> Option<V> {
    let k = assoc_find(s, id);
    if k < s.len() {
        Some(s[k].1)
    } else {
        None
    }
}

/// The key's name is `prefix` (lowercase) followed by a two-character
/// base-36 id, compared case-insensitively.
pub open spec fn key_matches(key: Seq<char>, prefix: Seq<char>) -> bool {
    &&& key.len() == prefix.len() + 2
    &&& forall|i: int| 0 <= i < prefix.len() ==> eq_ci_char(#[trigger] key[i], prefix[i])
    &&& is_alnum(key[key.len() - 1])
    &&& is_alnum(key[key.len() - 2])
}

/// The two-character base-36 id at the end of a matching key.
pub open spec fn key_id(key: Seq<char>) -> u32 {
    (digit_val(key[key.len() - 2]) * 36 + digit_val(key[key.len() - 1])) as u32
}

/// Collect `prefix`-group headers with decimal values from the first
/// `n` headers; `None` as soon as one value is not a plain decimal.
pub open spec fn build_rat_ids(
    headers: Seq<(Seq<char>, Seq<char>)>,
    prefix: Seq<char>,
    n: int,
) -> Option<Seq<(u32, Rat)>>
    decreases n,
{
    if n <= 0 {
        Some(Seq::empty())
    } else {
        match build_rat_ids(headers, prefix, n - 1) {
            None => None,
            Some(m) => {
                if key_matches(headers[n - 1].0, prefix) {
                    match spec_parse_decimal(headers[n - 1].1) {
                        None => None,
                        Some(v) => Some(assoc_upsert(m, key_id(headers[n - 1].0), v)),
                    }
                } else {
                    Some(m)
                }
            },
        }
    }
}

/// Collect `STOPxx` headers, whose values are unsigned integers.
pub open spec fn build_stop_ids(headers: Seq<(Seq<char>, Seq<char>)>, n: int) -> Option<
    Seq<(u32, u32)>,
>
    decreases n,
{
    if n <= 0 {
        Some(Seq::empty())
    } else {
        match build_stop_ids(headers, n - 1) {
            None => None,
            Some(m) => {
                if key_matches(headers[n - 1].0, stop_prefix()) {
                    match spec_parse_uint(headers[n - 1].1, 10, u32::MAX as int) {
                        None => None,
                        Some(v) => Some(assoc_upsert(m, key_id(headers[n - 1].0), v as u32)),
                    }
                } else {
                    Some(m)
                }
            },
        }
    }
}

pub open spec fn bpm_prefix() -> Seq<char> {
    seq!['b', 'p', 'm']
}

pub open spec fn stop_prefix() -> Seq<char> {
    seq!['s', 't', 'o', 'p']
}

pub open spec fn scroll_prefix() -> Seq<char> {
    seq!['s', 'c', 'r', 'o', 'l', 'l']
}

pub open spec fn speed_prefix() -> Seq<char> {
    seq!['s', 'p', 'e', 'e', 'd']
}

pub open spec fn bpm_name() -> Seq<char> {
    seq!['B', 'P', 'M']
}

/// An object's position in quarter notes: its tick over the resolution.
pub open spec fn qn_of(tick: u64, resolution: u32) -> BmsTimeQuarterNotes {
    BmsTimeQuarterNotes(Rat { num: tick as i64, den: resolution as i64 })
}

/// First index of a change list holding position `p`, or the length.
pub open spec fn pos_find<V>(s: Seq<(BmsTimeQuarterNotes, V)>, p: BmsTimeQuarterNotes) -> int
    decreases s.len(),
{
    if s.len() == 0 {
        0
    } else if s[0].0 == p {
        0
    } else {
        1 + pos_find(s.skip(1), p)
    }
}

pub proof fn lemma_pos_find<V>(s: Seq<(BmsTimeQuarterNotes, V)>, p: BmsTimeQuarterNotes)
    ensures
        0 <= pos_find(s, p) <= s.len(),
        pos_find(s, p) < s.len() ==> s[pos_find(s, p)].0 == p,
        forall|j: int| 0 <= j < pos_find(s, p) ==> (#[trigger] s[j]).0 != p,
    decreases s.len(),
{
    if s.len() > 0 && s[0].0 != p {
        lemma_pos_find(s.skip(1), p);
        assert forall|j: int| 0 <= j < pos_find(s, p) implies (#[trigger] s[j]).0 != p by {
            if j >= 1 {
                assert(s.skip(1)[j - 1] == s[j]);
            }
        }
    }
}

/// Set the value at position `p`, replacing any previous entry there.
pub open spec fn pos_upsert<V>(
    s: Seq<(BmsTimeQuarterNotes, V)>,
    p: BmsTimeQuarterNotes,
    v: V,
) -> Seq<(BmsTimeQuarterNotes, V)> {
    let k = pos_find(s, p);
    if k < s.len() {
        s.update(k, (p, v))
    } else {
        s.push((p, v))
    }
}

/// Tempo changes read from the first `n` objects: channel 3 carries an
/// inline tempo value; channel 8 looks the value up in the `BPMxx`
/// group, silently skipping unknown ids.
pub open spec fn build_bpms(
    objs: Seq<crate::chart::BmsObject>,
    bpm_ids: Seq<(u32, Rat)>,
    resolution: u32,
    n: int,
) -> Seq<(BmsTimeQuarterNotes, Rat)>
    decreases n,
{
    if n <= 0 {
        Seq::empty()
    } else {
        let m = build_bpms(objs, bpm_ids, resolution, n - 1);
        let o = objs[n - 1];
        if o.channel == 3 {
            pos_upsert(m, qn_of(o.tick, resolution), Rat { num: o.value as i64, den: 1 })
        } else if o.channel == 8 {
            match assoc_get(bpm_ids, o.value as u32) {
                Some(v) => pos_upsert(m, qn_of(o.tick, resolution), v),
                None => m,
            }
        } else {
            m
        }
    }
}

/// Value changes on one channel, read through an id group.
pub open spec fn build_channel_rats(
    objs: Seq<crate::chart::BmsObject>,
    ids: Seq<(u32, Rat)>,
    channel: u16,
    resolution: u32,
    n: int,
) -> Seq<(BmsTimeQuarterNotes, Rat)>
    decreases n,
{
    if n <= 0 {
        Seq::empty()
    } else {
        let m = build_channel_rats(objs, ids, channel, resolution, n - 1);
        let o = objs[n - 1];
        if o.channel == channel {
            match assoc_get(ids, o.value as u32) {
                Some(v) => pos_upsert(m, qn_of(o.tick, resolution), v),
                None => m,
            }
        } else {
            m
        }
    }
}

/// Stops read from channel 9: a stop id's integer value counts in
/// 192nds of a measure, so its duration is `value * 4 / 192` quarter
/// notes.
pub open spec fn build_stops(
    objs: Seq<crate::chart::BmsObject>,
    stop_ids: Seq<(u32, u32)>,
    resolution: u32,
    n: int,
) -> Seq<(BmsTimeQuarterNotes, BmsTimeQuarterNotes)>
    decreases n,
{
    if n <= 0 {
        Seq::empty()
    } else {
        let m = build_stops(objs, stop_ids, resolution, n - 1);
        let o = objs[n - 1];
        if o.channel == 9 {
            match assoc_get(stop_ids, o.value as u32) {
                Some(v) => pos_upsert(
                    m,
                    qn_of(o.tick, resolution),
                    BmsTimeQuarterNotes(Rat { num: (v * 4) as i64, den: 192 }),
                ),
                None => m,
            }
        } else {
            m
        }
    }
}

/// Some entry sits at quarter-note zero.
pub open spec fn has_zero_pos<V>(s: Seq<(BmsTimeQuarterNotes, V)>) -> bool {
    exists|i: int| 0 <= i < s.len() && (#[trigger] s[i]).0.0.num == 0
}

/// The scroll channel id (`SC` in base 36).
pub const SCROLL_CHANNEL: u16 = 1020;

/// The speed channel id (`SP` in base 36).
pub const SPEED_CHANNEL: u16 = 1033;

/// Mathematical image of a timing model.
#[verifier::ext_equal]
pub ghost struct TimingModel {
    pub bpm_changes: Seq<(BmsTimeQuarterNotes, Rat)>,
    pub stops: Seq<(BmsTimeQuarterNotes, BmsTimeQuarterNotes)>,
    pub scroll_changes: Seq<(BmsTimeQuarterNotes, Rat)>,
    pub speed_changes: Seq<(BmsTimeQuarterNotes, Rat)>,
}

/// The timing model of a chart, or `None` when a group header value or
/// the required initial `BPM` cannot be read.
pub open spec fn spec_timing(c: ChartModel) -> Option<TimingModel> {
    let hn = c.headers.len() as int;
    let on = c.objects.len() as int;
    match build_rat_ids(c.headers, bpm_prefix(), hn) {
        None => None,
        Some(bpm_ids) => match build_stop_ids(c.headers, hn) {
            None => None,
            Some(stop_ids) => match build_rat_ids(c.headers, scroll_prefix(), hn) {
                None => None,
                Some(scroll_ids) => match build_rat_ids(c.headers, speed_prefix(), hn) {
                    None => None,
                    Some(speed_ids) => {
                        let bpms = build_bpms(c.objects, bpm_ids, c.resolution, on);
                        let bpms2 = if has_zero_pos(bpms) {
                            Some(bpms)
                        } else {
                            let k = crate::chart::headers_find(c.headers, bpm_name());
                            if k < c.headers.len() {
                                match spec_parse_decimal(c.headers[k].1) {
                                    None => None,
                                    Some(v) => Some(
                                        seq![
                                            (BmsTimeQuarterNotes(Rat { num: 0, den: 1 }), v),
                                        ] + bpms,
                                    ),
                                }
                            } else {
                                None
                            }
                        };
                        match bpms2 {
                            None => None,
                            Some(bpm_changes) => {
                                let scrolls = build_channel_rats(
                                    c.objects,
                                    scroll_ids,
                                    SCROLL_CHANNEL,
                                    c.resolution,
                                    on,
                                );
                                let scrolls2 = if has_zero_pos(scrolls) {
                                    scrolls
                                } else {
                                    seq![
                                        (
                                            BmsTimeQuarterNotes(Rat { num: 0, den: 1 }),
                                            Rat { num: 1, den: 1 },
                                        ),
                                    ] + scrolls
                                };
                                Some(
                                    TimingModel {
                                        bpm_changes,
                                        stops: build_stops(
                                            c.objects,
                                            stop_ids,
                                            c.resolution,
                                            on,
                                        ),
                                        scroll_changes: scrolls2,
                                        speed_changes: build_channel_rats(
                                            c.objects,
                                            speed_ids,
                                            SPEED_CHANNEL,
                                            c.resolution,
                                            on,
                                        ),
                                    },
                                )
                            },
                        }
                    },
                },
            },
        },
    }
}

/// Tempo, stop, scroll and speed changes, each keyed by quarter-note
/// position.
#[derive(Debug, Clone)]
pub struct BmsTiming {
    pub bpm_changes: Vec<(BmsTimeQuarterNotes, Rat)>,
    pub stops: Vec<(BmsTimeQuarterNotes, BmsTimeQuarterNotes)>,
    pub scroll_changes: Vec<(BmsTimeQuarterNotes, Rat)>,
    pub speed_changes: Vec<(BmsTimeQuarterNotes, Rat)>,
}

impl View for BmsTiming {
    type V = TimingModel;

    open spec fn view(&self) -> TimingModel {
        TimingModel {
            bpm_changes: self.bpm_changes@,
            stops: self.stops@,
            scroll_changes: self.scroll_changes@,
            speed_changes: self.speed_changes@,
        }
    }
}

/// All positions and values of a change list are well-formed rationals.
pub open spec fn changes_wf(s: Seq<(BmsTimeQuarterNotes, Rat)>) -> bool {
    forall|i: int|
        0 <= i < s.len() ==> (#[trigger] s[i]).0.wf() && s[i].1.wf()
}

/// All positions and durations of the stop list are well-formed.
pub open spec fn stops_wf(s: Seq<(BmsTimeQuarterNotes, BmsTimeQuarterNotes)>) -> bool {
    forall|i: int|
        0 <= i < s.len() ==> (#[trigger] s[i]).0.wf() && s[i].1.wf()
}

/// Positions strictly increase along the list.
pub open spec fn pos_sorted<V>(s: Seq<(BmsTimeQuarterNotes, V)>) -> bool {
    forall|i: int, j: int|
        0 <= i < j < s.len() ==> (#[trigger] s[i]).0.0.spec_lt((#[trigger] s[j]).0.0)
}

impl BmsTiming {
    /// Timing invariant: well-formed rationals everywhere, positions
    /// strictly increasing, and a tempo entry at position zero heading
    /// the tempo list, so exactly one tempo is determinable at every
    /// position.
    pub open spec fn wf(self) -> bool {
        &&& changes_wf(self@.bpm_changes)
        &&& stops_wf(self@.stops)
        &&& changes_wf(self@.scroll_changes)
        &&& changes_wf(self@.speed_changes)
        &&& pos_sorted(self@.bpm_changes)
        &&& pos_sorted(self@.stops)
        &&& pos_sorted(self@.scroll_changes)
        &&& pos_sorted(self@.speed_changes)
        &&& self@.bpm_changes.len() > 0
        &&& self@.bpm_changes[0].0.0.num == 0
    }
}

/// Shape of a change list under construction: every position sits at
/// the chart's resolution, numerators are nonnegative, nondecreasing
/// along the list and bounded by `hi`, and no position repeats.
pub open spec fn plist_inv<V>(s: Seq<(BmsTimeQuarterNotes, V)>, resolution: u32, hi: int) -> bool {
    &&& forall|i: int| 0 <= i < s.len() ==> (#[trigger] s[i]).0.0.den == resolution
    &&& forall|i: int| 0 <= i < s.len() ==> 0 <= (#[trigger] s[i]).0.0.num <= hi
    &&& forall|i: int, j: int|
        0 <= i < j < s.len() ==> (#[trigger] s[i]).0.0.num <= (#[trigger] s[j]).0.0.num
    &&& forall|i: int, j: int|
        0 <= i < j < s.len() ==> (#[trigger] s[i]).0 != (#[trigger] s[j]).0
}

/// Upserting at a position at or past the bound keeps the shape.
proof fn lemma_plist_upsert<V>(
    s: Seq<(BmsTimeQuarterNotes, V)>,
    resolution: u32,
    hi: int,
    p: BmsTimeQuarterNotes,
    v: V,
)
    requires
        plist_inv(s, resolution, hi),
        p.0.den == resolution,
        hi <= p.0.num,
        0 <= p.0.num,
    ensures
        plist_inv(pos_upsert(s, p, v), resolution, p.0.num as int),
{
    lemma_pos_find(s, p);
    let k = pos_find(s, p);
    let r = pos_upsert(s, p, v);
    if k < s.len() {
        assert(s[k].0 == p);
        assert forall|i: int, j: int| 0 <= i < j < r.len() implies (#[trigger] r[i]).0 != (
        #[trigger] r[j]).0 by {
            assert(r[i].0 == s[i].0 && r[j].0 == s[j].0);
        }
    } else {
        assert forall|i: int, j: int| 0 <= i < j < r.len() implies (#[trigger] r[i]).0 != (
        #[trigger] r[j]).0 by {
            if j == s.len() {
                assert(r[i].0 == s[i].0);
                assert(r[j].0 == p);
            } else {
                assert(r[i].0 == s[i].0 && r[j].0 == s[j].0);
            }
        }
    }
}

proof fn lemma_mul_strict(x: int, y: int, d: int)
    by (nonlinear_arith)
    requires
        x < y,
        d >= 1,
    ensures
        x * d < y * d,
{
}

/// A well-shaped list is strictly sorted by position.
proof fn lemma_plist_sorted<V>(s: Seq<(BmsTimeQuarterNotes, V)>, resolution: u32, hi: int)
    requires
        plist_inv(s, resolution, hi),
        resolution >= 1,
    ensures
        pos_sorted(s),
{
    assert forall|i: int, j: int| 0 <= i < j < s.len() implies (#[trigger] s[i]).0.0.spec_lt(
        (#[trigger] s[j]).0.0,
    ) by {
        if s[i].0.0.num == s[j].0.0.num {
            assert(s[i].0 == s[j].0);
        } else {
            lemma_mul_strict(s[i].0.0.num as int, s[j].0.0.num as int, resolution as int);
        }
    }
}

/// With no entry at zero, prefixing a zero entry keeps the strict sort.
proof fn lemma_plist_prepend_zero<V>(
    s: Seq<(BmsTimeQuarterNotes, V)>,
    resolution: u32,
    hi: int,
    v: V,
)
    requires
        plist_inv(s, resolution, hi),
        resolution >= 1,
        !has_zero_pos(s),
    ensures
        pos_sorted(seq![(BmsTimeQuarterNotes(Rat { num: 0, den: 1 }), v)] + s),
{
    lemma_plist_sorted(s, resolution, hi);
    let r = seq![(BmsTimeQuarterNotes(Rat { num: 0, den: 1 }), v)] + s;
    assert forall|i: int, j: int| 0 <= i < j < r.len() implies (#[trigger] r[i]).0.0.spec_lt(
        (#[trigger] r[j]).0.0,
    ) by {
        if i == 0 {
            assert(r[j] == s[j - 1]);
            assert(s[j - 1].0.0.num != 0);
        } else {
            assert(r[i] == s[i - 1] && r[j] == s[j - 1]);
        }
    }
}

/// With an entry at zero, the head of a well-shaped list is that entry.
proof fn lemma_plist_zero_first<V>(s: Seq<(BmsTimeQuarterNotes, V)>, resolution: u32, hi: int)
    requires
        plist_inv(s, resolution, hi),
        has_zero_pos(s),
    ensures
        s.len() > 0,
        s[0].0.0.num == 0,
{
    let i = choose|i: int| 0 <= i < s.len() && (#[trigger] s[i]).0.0.num == 0;
    if i > 0 {
        assert(s[0].0.0.num <= s[i].0.0.num);
    }
}

/// Bind `id` to `v` in an id map, replacing any previous binding.
fn assoc_insert<V: Copy>(m: &mut Vec<(u32, V)>, id: u32, v: V)
    ensures
        final(m)@ == assoc_upsert(old(m)@, id, v),
{
    let ghost h = old(m)@;
    let mut i: usize = 0;
    while i < m.len()
        invariant
            0 <= i <= m@.len(),
            m@ == h,
            h == old(m)@,
            forall|j: int| 0 <= j < i ==> (#[trigger] h[j]).0 != id,
        decreases m@.len() - i,
    {
        if m[i].0 == id {
            proof {
                lemma_assoc_find(h, id);
                if assoc_find(h, id) < i as int {
                    assert(h[assoc_find(h, id)].0 == id);
                } else if assoc_find(h, id) > i as int {
                    assert(h[i as int].0 != id);
                }
            }
            m[i] = (id, v);
            return ;
        }
        i += 1;
    }
    proof {
        lemma_assoc_find(h, id);
        if assoc_find(h, id) < h.len() {
            assert(h[assoc_find(h, id)].0 == id);
        }
    }
    m.push((id, v));
}

/// Look up the value bound to `id`.
fn assoc_lookup<V: Copy>(m: &Vec<(u32, V)>, id: u32) -> (r: Option<V>)
    ensures
        r == assoc_get(m@, id),
{
    let ghost h = m@;
    proof {
        lemma_assoc_find(h, id);
    }
    let mut i: usize = 0;
    while i < m.len()
        invariant
            0 <= i <= m@.len(),
            h == m@,
            forall|j: int| 0 <= j < i ==> (#[trigger] h[j]).0 != id,
        decreases m@.len() - i,
    {
        if m[i].0 == id {
            proof {
                lemma_assoc_find(h, id);
                if assoc_find(h, id) < i as int {
                    assert(h[assoc_find(h, id)].0 == id);
                } else if assoc_find(h, id) > i as int {
                    assert(h[i as int].0 != id);
                }
            }
            return Some(m[i].1);
        }
        i += 1;
    }
    proof {
        lemma_assoc_find(h, id);
        if assoc_find(h, id) < h.len() {
            assert(h[assoc_find(h, id)].0 == id);
        }
    }
    None
}

/// Set the value at position `p`, replacing any previous entry there.
fn pos_insert<V: Copy>(m: &mut Vec<(BmsTimeQuarterNotes, V)>, p: BmsTimeQuarterNotes, v: V)
    ensures
        final(m)@ == pos_upsert(old(m)@, p, v),
{
    let ghost h = old(m)@;
    let mut i: usize = 0;
    while i < m.len()
        invariant
            0 <= i <= m@.len(),
            m@ == h,
            h == old(m)@,
            forall|j: int| 0 <= j < i ==> (#[trigger] h[j]).0 != p,
        decreases m@.len() - i,
    {
        if m[i].0 == p {
            proof {
                lemma_pos_find(h, p);
                if pos_find(h, p) < i as int {
                    assert(h[pos_find(h, p)].0 == p);
                } else if pos_find(h, p) > i as int {
                    assert(h[i as int].0 != p);
                }
            }
            m[i] = (p, v);
            return ;
        }
        i += 1;
    }
    proof {
        lemma_pos_find(h, p);
        if pos_find(h, p) < h.len() {
            assert(h[pos_find(h, p)].0 == p);
        }
    }
    m.push((p, v));
}

/// Whether the key is `prefix` (lowercase) plus a two-character id.
fn key_match_check(key: &String, prefix: &str) -> (r: bool)
    ensures
        r == key_matches(key@, prefix@),
{
    let kl = key.as_str().unicode_len();
    let pl = prefix.unicode_len();
    if kl < 2 || kl - 2 != pl {
        return false;
    }
    let mut i: usize = 0;
    while i < pl
        invariant
            0 <= i <= pl,
            pl == prefix@.len(),
            kl == key@.len(),
            kl == pl + 2,
            forall|j: int| 0 <= j < i ==> eq_ci_char(#[trigger] key@[j], prefix@[j]),
        decreases pl - i,
    {
        let ck = key.as_str().get_char(i);
        let cp = prefix.get_char(i);
        let uk = ck as u32;
        let up = cp as u32;
        let lk = if 65 <= uk && uk <= 90 {
            uk + 32
        } else {
            uk
        };
        let lp = if 65 <= up && up <= 90 {
            up + 32
        } else {
            up
        };
        if lk != lp {
            assert(!eq_ci_char(key@[i as int], prefix@[i as int]));
            return false;
        }
        assert(eq_ci_char(key@[i as int], prefix@[i as int]));
        i += 1;
    }
    let a = digit_val_of(key.as_str().get_char(kl - 2));
    let b = digit_val_of(key.as_str().get_char(kl - 1));
    a < 36 && b < 36
}

/// The base-36 id ending a matching key.
fn key_id_of(key: &String) -> (r: u32)
    requires
        key@.len() >= 2,
        is_alnum(key@[key@.len() - 2]),
        is_alnum(key@[key@.len() - 1]),
    ensures
        r == key_id(key@),
{
    let kl = key.as_str().unicode_len();
    let a = digit_val_of(key.as_str().get_char(kl - 2));
    let b = digit_val_of(key.as_str().get_char(kl - 1));
    a * 36 + b
}

/// Collect a group of headers with decimal values.
fn build_rat_ids_exec(headers: &Vec<(String, String)>, prefix: &str) -> (r: Option<Vec<(u32, Rat)>>)
    ensures
        ({
            let hv = crate::chart::headers_view(headers@);
            match r {
                Some(m) => build_rat_ids(hv, prefix@, hv.len() as int) == Some(m@) && forall|i: int|
                    0 <= i < m@.len() ==> (#[trigger] m@[i]).1.wf(),
                None => build_rat_ids(hv, prefix@, hv.len() as int) is None,
            }
        }),
{
    let ghost hv = crate::chart::headers_view(headers@);
    let mut m: Vec<(u32, Rat)> = Vec::new();
    let mut i: usize = 0;
    while i < headers.len()
        invariant
            0 <= i <= headers@.len(),
            hv == crate::chart::headers_view(headers@),
            build_rat_ids(hv, prefix@, i as int) == Some(m@),
            forall|j: int| 0 <= j < m@.len() ==> (#[trigger] m@[j]).1.wf(),
        decreases headers@.len() - i,
    {
        proof {
            assert(hv[i as int] == (headers@[i as int].0@, headers@[i as int].1@));
        }
        if key_match_check(&headers[i].0, prefix) {
            let vchars = crate::chart::str_to_chars(headers[i].1.as_str());
            match parse_decimal(vchars.as_slice()) {
                None => {
                    proof {
                        assert(build_rat_ids(hv, prefix@, i + 1 as int) is None);
                        lemma_build_rat_ids_none(hv, prefix@, i + 1 as int, hv.len() as int);
                    }
                    return None;
                },
                Some(v) => {
                    let id = key_id_of(&headers[i].0);
                    let ghost m0 = m@;
                    assoc_insert(&mut m, id, v);
                    proof {
                        lemma_assoc_find(m0, id);
                        assert forall|j: int| 0 <= j < m@.len() implies (#[trigger] m@[j]).1.wf() by {
                            let k = assoc_find(m0, id);
                            if k < m0.len() {
                                if j == k {
                                    assert(m@[j] == (id, v));
                                } else {
                                    assert(m@[j] == m0[j]);
                                }
                            } else {
                                if j < m0.len() {
                                    assert(m@[j] == m0[j]);
                                } else {
                                    assert(m@[j] == (id, v));
                                }
                            }
                        }
                    }
                },
            }
        }
        i += 1;
    }
    Some(m)
}

/// A failed group build stays failed.
proof fn lemma_build_rat_ids_none(
    headers: Seq<(Seq<char>, Seq<char>)>,
    prefix: Seq<char>,
    k: int,
    n: int,
)
    requires
        build_rat_ids(headers, prefix, k) is None,
        k <= n,
    ensures
        build_rat_ids(headers, prefix, n) is None,
    decreases n - k,
{
    if n > k {
        lemma_build_rat_ids_none(headers, prefix, k, n - 1);
    }
}

/// A failed stop-group build stays failed.
proof fn lemma_build_stop_ids_none(headers: Seq<(Seq<char>, Seq<char>)>, k: int, n: int)
    requires
        build_stop_ids(headers, k) is None,
        k <= n,
    ensures
        build_stop_ids(headers, n) is None,
    decreases n - k,
{
    if n > k {
        lemma_build_stop_ids_none(headers, k, n - 1);
    }
}

/// Collect the stop group, whose values are unsigned integers.
fn build_stop_ids_exec(headers: &Vec<(String, String)>) -> (r: Option<Vec<(u32, u32)>>)
    ensures
        ({
            let hv = crate::chart::headers_view(headers@);
            match r {
                Some(m) => build_stop_ids(hv, hv.len() as int) == Some(m@),
                None => build_stop_ids(hv, hv.len() as int) is None,
            }
        }),
{
    let ghost hv = crate::chart::headers_view(headers@);
    let mut m: Vec<(u32, u32)> = Vec::new();
    let mut i: usize = 0;
    while i < headers.len()
        invariant
            0 <= i <= headers@.len(),
            hv == crate::chart::headers_view(headers@),
            build_stop_ids(hv, i as int) == Some(m@),
        decreases headers@.len() - i,
    {
        proof {
            assert(hv[i as int] == (headers@[i as int].0@, headers@[i as int].1@));
            reveal_strlit("stop");
            assert("stop"@ =~= stop_prefix());
        }
        if key_match_check(&headers[i].0, "stop") {
            let vchars = crate::chart::str_to_chars(headers[i].1.as_str());
            match parse_uint(vchars.as_slice(), 10, 0xffff_ffff) {
                None => {
                    proof {
                        assert(build_stop_ids(hv, i + 1 as int) is None);
                        lemma_build_stop_ids_none(hv, i + 1 as int, hv.len() as int);
                    }
                    return None;
                },
                Some(v) => {
                    let id = key_id_of(&headers[i].0);
                    assoc_insert(&mut m, id, v as u32);
                },
            }
        }
        i += 1;
    }
    Some(m)
}

/// Upserting well-formed entries keeps a change list well-formed.
proof fn lemma_changes_upsert_wf(
    s: Seq<(BmsTimeQuarterNotes, Rat)>,
    p: BmsTimeQuarterNotes,
    v: Rat,
)
    requires
        changes_wf(s),
        p.wf(),
        v.wf(),
    ensures
        changes_wf(pos_upsert(s, p, v)),
{
    lemma_pos_find(s, p);
    let k = pos_find(s, p);
    let r = pos_upsert(s, p, v);
    assert forall|i: int| 0 <= i < r.len() implies (#[trigger] r[i]).0.wf() && r[i].1.wf() by {
        if k < s.len() {
            if i == k {
                assert(r[i] == (p, v));
            } else {
                assert(r[i] == s[i]);
            }
        } else {
            if i < s.len() {
                assert(r[i] == s[i]);
            } else {
                assert(r[i] == (p, v));
            }
        }
    }
}

/// Upserting well-formed entries keeps the stop list well-formed.
proof fn lemma_stops_upsert_wf(
    s: Seq<(BmsTimeQuarterNotes, BmsTimeQuarterNotes)>,
    p: BmsTimeQuarterNotes,
    v: BmsTimeQuarterNotes,
)
    requires
        stops_wf(s),
        p.wf(),
        v.wf(),
    ensures
        stops_wf(pos_upsert(s, p, v)),
{
    lemma_pos_find(s, p);
    let k = pos_find(s, p);
    let r = pos_upsert(s, p, v);
    assert forall|i: int| 0 <= i < r.len() implies (#[trigger] r[i]).0.wf() && r[i].1.wf() by {
        if k < s.len() {
            if i == k {
                assert(r[i] == (p, v));
            } else {
                assert(r[i] == s[i]);
            }
        } else {
            if i < s.len() {
                assert(r[i] == s[i]);
            } else {
                assert(r[i] == (p, v));
            }
        }
    }
}

/// Whether some entry sits at quarter-note zero.
fn has_zero_exec<V: Copy>(m: &Vec<(BmsTimeQuarterNotes, V)>) -> (r: bool)
    ensures
        r == has_zero_pos(m@),
{
    let mut i: usize = 0;
    while i < m.len()
        invariant
            0 <= i <= m@.len(),
            forall|j: int| 0 <= j < i ==> (#[trigger] m@[j]).0.0.num != 0,
        decreases m@.len() - i,
    {
        if m[i].0.0.num == 0 {
            assert(has_zero_pos(m@));
            return true;
        }
        i += 1;
    }
    false
}

impl BmsTiming {
    /// Build the timing model of a chart.
    ///
    /// The result equals [`spec_timing`] of the chart: header groups
    /// collected, projected onto positions through the fixed channels,
    /// with a tempo entry synthesized at position zero from the `BPM`
    /// header when no chart object supplies one, and a scroll factor
    /// of one at position zero when none is given. Returns `None`
    /// exactly when a group header value, or the required initial
    /// `BPM`, cannot be read.
    #[verifier::rlimit(100)]
    pub fn generate(chart: &BmsChart) -> (r: Option<BmsTiming>)
        requires
            chart.wf(),
        ensures
            r is Some <==> spec_timing(chart@) is Some,
            r matches Some(t) ==> spec_timing(chart@) == Some(t@) && t.wf(),
    {
        proof {
            reveal_strlit("bpm");
            reveal_strlit("scroll");
            reveal_strlit("speed");
            reveal_strlit("BPM");
            assert("bpm"@ =~= bpm_prefix());
            assert("scroll"@ =~= scroll_prefix());
            assert("speed"@ =~= speed_prefix());
            assert("BPM"@ =~= bpm_name());
        }
        let bpm_ids = match build_rat_ids_exec(&chart.headers, "bpm") {
            Some(v) => v,
            None => {
                return None;
            },
        };
        let stop_ids = match build_stop_ids_exec(&chart.headers) {
            Some(v) => v,
            None => {
                return None;
            },
        };
        let scroll_ids = match build_rat_ids_exec(&chart.headers, "scroll") {
            Some(v) => v,
            None => {
                return None;
            },
        };
        let speed_ids = match build_rat_ids_exec(&chart.headers, "speed") {
            Some(v) => v,
            None => {
                return None;
            },
        };
        let res = chart.resolution;
        let ghost objs = chart@.objects;

        // tempo changes
        let mut bpms: Vec<(BmsTimeQuarterNotes, Rat)> = Vec::new();
        let mut i: usize = 0;
        while i < chart.objects.len()
            invariant
                0 <= i <= objs.len(),
                chart.wf(),
                objs == chart@.objects,
                res == chart.resolution,
                forall|j: int| 0 <= j < bpm_ids@.len() ==> (#[trigger] bpm_ids@[j]).1.wf(),
                bpms@ == build_bpms(objs, bpm_ids@, res, i as int),
                changes_wf(bpms@),
                plist_inv(
                    bpms@,
                    res,
                    if i == 0 {
                        0int
                    } else {
                        objs[i - 1].tick as int
                    },
                ),
            decreases objs.len() - i,
        {
            let o = chart.objects[i];
            proof {
                if i > 0 {
                    assert(crate::chart::obj_le(objs[i - 1], objs[i as int]));
                }
                assert(o.tick <= 0x7fff_ffff_ffff_ffff);
            }
            let ghost hi = if i == 0 {
                0int
            } else {
                objs[i - 1].tick as int
            };
            if o.channel == 3 {
                let p = BmsTimeQuarterNotes(Rat { num: o.tick as i64, den: res as i64 });
                proof {
                    lemma_plist_upsert(bpms@, res, hi, p, Rat { num: o.value as i64, den: 1 });
                    lemma_changes_upsert_wf(bpms@, p, Rat { num: o.value as i64, den: 1 });
                }
                pos_insert(&mut bpms, p, Rat { num: o.value as i64, den: 1 });
            } else if o.channel == 8 {
                match assoc_lookup(&bpm_ids, o.value as u32) {
                    Some(v) => {
                        proof {
                            lemma_assoc_find(bpm_ids@, o.value as u32);
                        }
                        let p = BmsTimeQuarterNotes(Rat { num: o.tick as i64, den: res as i64 });
                        proof {
                            lemma_plist_upsert(bpms@, res, hi, p, v);
                            lemma_changes_upsert_wf(bpms@, p, v);
                        }
                        pos_insert(&mut bpms, p, v);
                    },
                    None => {},
                }
            }
            i += 1;
        }
        let ghost bpms_hi = if objs.len() == 0 {
            0int
        } else {
            objs[objs.len() - 1].tick as int
        };

        // required tempo at position zero
        let hz = has_zero_exec(&bpms);
        let bpm_changes: Vec<(BmsTimeQuarterNotes, Rat)>;
        if hz {
            proof {
                lemma_plist_zero_first(bpms@, res, bpms_hi);
                lemma_plist_sorted(bpms@, res, bpms_hi);
            }
            bpm_changes = bpms;
        } else {
            let bv = match crate::chart::headers_get(&chart.headers, "BPM") {
                Some(s) => s,
                None => {
                    return None;
                },
            };
            let vchars = crate::chart::str_to_chars(bv.as_str());
            let v = match parse_decimal(vchars.as_slice()) {
                Some(v) => v,
                None => {
                    return None;
                },
            };
            let zero = BmsTimeQuarterNotes(Rat { num: 0, den: 1 });
            let mut bc: Vec<(BmsTimeQuarterNotes, Rat)> = Vec::new();
            bc.push((zero, v));
            let mut j: usize = 0;
            while j < bpms.len()
                invariant
                    0 <= j <= bpms@.len(),
                    bc@ == seq![(BmsTimeQuarterNotes(Rat { num: 0, den: 1 }), v)] + bpms@.take(
                        j as int,
                    ),
                decreases bpms@.len() - j,
            {
                bc.push(bpms[j]);
                proof {
                    assert(bpms@.take(j + 1 as int) =~= bpms@.take(j as int).push(
                        bpms@[j as int],
                    ));
                    assert(bc@ =~= seq![(BmsTimeQuarterNotes(Rat { num: 0, den: 1 }), v)]
                        + bpms@.take(j + 1 as int));
                }
                j += 1;
            }
            proof {
                assert(bpms@.take(bpms@.len() as int) =~= bpms@);
                lemma_plist_prepend_zero(bpms@, res, bpms_hi, v);
                crate::parse::lemma_spec_parse_decimal_wf(bv@);
            }
            bpm_changes = bc;
        }

        // stops
        let mut stops: Vec<(BmsTimeQuarterNotes, BmsTimeQuarterNotes)> = Vec::new();
        let mut i2: usize = 0;
        while i2 < chart.objects.len()
            invariant
                0 <= i2 <= objs.len(),
                chart.wf(),
                objs == chart@.objects,
                res == chart.resolution,
                stops@ == build_stops(objs, stop_ids@, res, i2 as int),
                stops_wf(stops@),
                plist_inv(
                    stops@,
                    res,
                    if i2 == 0 {
                        0int
                    } else {
                        objs[i2 - 1].tick as int
                    },
                ),
            decreases objs.len() - i2,
        {
            let o = chart.objects[i2];
            proof {
                if i2 > 0 {
                    assert(crate::chart::obj_le(objs[i2 - 1], objs[i2 as int]));
                }
                assert(o.tick <= 0x7fff_ffff_ffff_ffff);
            }
            let ghost hi = if i2 == 0 {
                0int
            } else {
                objs[i2 - 1].tick as int
            };
            if o.channel == 9 {
                match assoc_lookup(&stop_ids, o.value as u32) {
                    Some(v) => {
                        let p = BmsTimeQuarterNotes(Rat { num: o.tick as i64, den: res as i64 });
                        let dur = BmsTimeQuarterNotes(
                            Rat { num: (v as u64 * 4) as i64, den: 192 },
                        );
                        proof {
                            lemma_plist_upsert(stops@, res, hi, p, dur);
                            lemma_stops_upsert_wf(stops@, p, dur);
                        }
                        pos_insert(&mut stops, p, dur);
                    },
                    None => {},
                }
            }
            i2 += 1;
        }
        let ghost stops_hi = if objs.len() == 0 {
            0int
        } else {
            objs[objs.len() - 1].tick as int
        };
        proof {
            lemma_plist_sorted(stops@, res, stops_hi);
        }

        // scroll factors
        let mut scrolls: Vec<(BmsTimeQuarterNotes, Rat)> = Vec::new();
        let mut i3: usize = 0;
        while i3 < chart.objects.len()
            invariant
                0 <= i3 <= objs.len(),
                chart.wf(),
                objs == chart@.objects,
                res == chart.resolution,
                forall|j: int| 0 <= j < scroll_ids@.len() ==> (#[trigger] scroll_ids@[j]).1.wf(),
                scrolls@ == build_channel_rats(objs, scroll_ids@, SCROLL_CHANNEL, res, i3 as int),
                changes_wf(scrolls@),
                plist_inv(
                    scrolls@,
                    res,
                    if i3 == 0 {
                        0int
                    } else {
                        objs[i3 - 1].tick as int
                    },
                ),
            decreases objs.len() - i3,
        {
            let o = chart.objects[i3];
            proof {
                if i3 > 0 {
                    assert(crate::chart::obj_le(objs[i3 - 1], objs[i3 as int]));
                }
                assert(o.tick <= 0x7fff_ffff_ffff_ffff);
            }
            let ghost hi = if i3 == 0 {
                0int
            } else {
                objs[i3 - 1].tick as int
            };
            if o.channel == SCROLL_CHANNEL {
                match assoc_lookup(&scroll_ids, o.value as u32) {
                    Some(v) => {
                        proof {
                            lemma_assoc_find(scroll_ids@, o.value as u32);
                        }
                        let p = BmsTimeQuarterNotes(Rat { num: o.tick as i64, den: res as i64 });
                        proof {
                            lemma_plist_upsert(scrolls@, res, hi, p, v);
                            lemma_changes_upsert_wf(scrolls@, p, v);
                        }
                        pos_insert(&mut scrolls, p, v);
                    },
                    None => {},
                }
            }
            i3 += 1;
        }
        let ghost scrolls_hi = if objs.len() == 0 {
            0int
        } else {
            objs[objs.len() - 1].tick as int
        };
        let hz2 = has_zero_exec(&scrolls);
        let scroll_changes: Vec<(BmsTimeQuarterNotes, Rat)>;
        if hz2 {
            proof {
                lemma_plist_sorted(scrolls@, res, scrolls_hi);
            }
            scroll_changes = scrolls;
        } else {
            let one = Rat { num: 1, den: 1 };
            let zero = BmsTimeQuarterNotes(Rat { num: 0, den: 1 });
            let mut sc: Vec<(BmsTimeQuarterNotes, Rat)> = Vec::new();
            sc.push((zero, one));
            let mut j: usize = 0;
            while j < scrolls.len()
                invariant
                    0 <= j <= scrolls@.len(),
                    sc@ == seq![
                        (BmsTimeQuarterNotes(Rat { num: 0, den: 1 }), Rat { num: 1, den: 1 }),
                    ] + scrolls@.take(j as int),
                decreases scrolls@.len() - j,
            {
                sc.push(scrolls[j]);
                proof {
                    assert(scrolls@.take(j + 1 as int) =~= scrolls@.take(j as int).push(
                        scrolls@[j as int],
                    ));
                    assert(sc@ =~= seq![
                        (BmsTimeQuarterNotes(Rat { num: 0, den: 1 }), Rat { num: 1, den: 1 }),
                    ] + scrolls@.take(j + 1 as int));
                }
                j += 1;
            }
            proof {
                assert(scrolls@.take(scrolls@.len() as int) =~= scrolls@);
                lemma_plist_prepend_zero(scrolls@, res, scrolls_hi, Rat { num: 1, den: 1 });
            }
            scroll_changes = sc;
        }

        // speed factors
        let mut speeds: Vec<(BmsTimeQuarterNotes, Rat)> = Vec::new();
        let mut i4: usize = 0;
        while i4 < chart.objects.len()
            invariant
                0 <= i4 <= objs.len(),
                chart.wf(),
                objs == chart@.objects,
                res == chart.resolution,
                forall|j: int| 0 <= j < speed_ids@.len() ==> (#[trigger] speed_ids@[j]).1.wf(),
                speeds@ == build_channel_rats(objs, speed_ids@, SPEED_CHANNEL, res, i4 as int),
                changes_wf(speeds@),
                plist_inv(
                    speeds@,
                    res,
                    if i4 == 0 {
                        0int
                    } else {
                        objs[i4 - 1].tick as int
                    },
                ),
            decreases objs.len() - i4,
        {
            let o = chart.objects[i4];
            proof {
                if i4 > 0 {
                    assert(crate::chart::obj_le(objs[i4 - 1], objs[i4 as int]));
                }
                assert(o.tick <= 0x7fff_ffff_ffff_ffff);
            }
            let ghost hi = if i4 == 0 {
                0int
            } else {
                objs[i4 - 1].tick as int
            };
            if o.channel == SPEED_CHANNEL {
                match assoc_lookup(&speed_ids, o.value as u32) {
                    Some(v) => {
                        proof {
                            lemma_assoc_find(speed_ids@, o.value as u32);
                        }
                        let p = BmsTimeQuarterNotes(Rat { num: o.tick as i64, den: res as i64 });
                        proof {
                            lemma_plist_upsert(speeds@, res, hi, p, v);
                            lemma_changes_upsert_wf(speeds@, p, v);
                        }
                        pos_insert(&mut speeds, p, v);
                    },
                    None => {},
                }
            }
            i4 += 1;
        }
        let ghost speeds_hi = if objs.len() == 0 {
            0int
        } else {
            objs[objs.len() - 1].tick as int
        };
        proof {
            lemma_plist_sorted(speeds@, res, speeds_hi);
        }

        let timing = BmsTiming { bpm_changes, stops, scroll_changes, speed_changes: speeds };
        proof {
            assert(spec_timing(chart@) == Some(timing@));
        }
        Some(timing)
    }
}

} // verus!
