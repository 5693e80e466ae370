//! Note generation and the timeline sweep.
//!
//! Chart objects on the playable channel ranges become typed, laned
//! notes. Long notes are paired by one of two mutually exclusive
//! strategies: objects on the dedicated long-note channels pair with
//! the next same-channel same-value object (and vanish when none
//! follows), while an `LNOBJ` header names a marker value that
//! terminates the preceding visible note. The sweep then converts each
//! note's position into seconds along the tempo-and-pause timeline.

use vstd::prelude::*;

use crate::chart::{headers_find, BmsChart, BmsObject, ChartModel};
use crate::parse::{parse_uint, spec_parse_uint};
use crate::rat::Rat;
use crate::timing::{
    qn_of, BmsTimeQuarterNotes, BmsTimeSeconds, BmsTiming, TimingModel,
};

verus! {

/// What a note is and what it carries.
#[derive(Clone, Copy, Debug, PartialEq, Eq, Structural)]
pub enum BmsNoteType {
    /// A judged, audible note.
    Normal { keysound: u16 },
    /// A visual-only note without judgment.
    Hidden { keysound: u16 },
    /// A held note, released at `end_time`.
    Long { keysound: u16, end_time: BmsTimeQuarterNotes },
    /// A background-music event.
    BGM { keysound: u16 },
    /// A landmine dealing `damage`.
    Mine { damage: u16 },
}

/// One playable note: a position, a lane and a kind.
#[derive(Clone, Copy, Debug, PartialEq, Eq, Structural)]
pub struct BmsNote {
    pub time: BmsTimeQuarterNotes,
    pub lane: u16,
    pub note_type: BmsNoteType,
}

/// The generated note list, with per-note hit (and release) seconds
/// once the sweep has run.
#[derive(Debug, Clone)]
pub struct BmsNotes {
    pub notes: Vec<BmsNote>,
    pub hit_times: Option<Vec<(BmsTimeSeconds, Option<BmsTimeSeconds>)>>,
}

/// The channel ranges that carry notes.
pub open spec fn in_note_ranges(ch: u16) -> bool {
    ||| ch == 1
    ||| 37 <= ch <= 71
    ||| 73 <= ch <= 107
    ||| 109 <= ch <= 143
    ||| 145 <= ch <= 179
    ||| 181 <= ch <= 215
    ||| 217 <= ch <= 251
    ||| 469 <= ch <= 477
    ||| 505 <= ch <= 513
}

/// Executable form of [`in_note_ranges`].
pub fn in_note_ranges_at(ch: u16) -> (r: bool)
    ensures
        r == in_note_ranges(ch),
{
    ch == 1 || (37 <= ch && ch <= 71) || (73 <= ch && ch <= 107) || (109 <= ch && ch <= 143) || (
    145 <= ch && ch <= 179) || (181 <= ch && ch <= 215) || (217 <= ch && ch <= 251) || (469 <= ch
        && ch <= 477) || (505 <= ch && ch <= 513)
}

/// The first `n` objects, restricted to the note channels.
pub open spec fn filter_objs(objs: Seq<BmsObject>, n: int) -> Seq<BmsObject>
    decreases n,
{
    if n <= 0 {
        Seq::empty()
    } else {
        let pref = filter_objs(objs, n - 1);
        if in_note_ranges(objs[n - 1].channel) {
            pref.push(objs[n - 1])
        } else {
            pref
        }
    }
}

/// The header name that selects the marker strategy.
pub open spec fn lnobj_name() -> Seq<char> {
    seq!['L', 'N', 'O', 'B', 'J']
}

/// The long-note marker value: the `LNOBJ` header read in base 36.
/// A missing or unreadable header simply selects the dedicated-channel
/// strategy.
pub open spec fn spec_lnobj(headers: Seq<(Seq<char>, Seq<char>)>) -> Option<u16> {
    let k = headers_find(headers, lnobj_name());
    if k < headers.len() {
        match spec_parse_uint(headers[k].1, 36, u16::MAX as int) {
            Some(v) => Some(v as u16),
            None => None,
        }
    } else {
        None
    }
}

/// First index holding a same-channel object of value `val` strictly
/// after `tick`, starting the scan at `j`; the length when none.
pub open spec fn scan_from(objs: Seq<BmsObject>, ch: u16, val: u16, tick: u64, j: int) -> int
    decreases objs.len() - j,
    when 0 <= j <= objs.len()
{
    if j >= objs.len() {
        objs.len() as int
    } else if objs[j].channel == ch && objs[j].value == val && objs[j].tick > tick {
        j
    } else {
        scan_from(objs, ch, val, tick, j + 1)
    }
}

pub proof fn lemma_scan_from(objs: Seq<BmsObject>, ch: u16, val: u16, tick: u64, j: int)
    requires
        0 <= j <= objs.len(),
    ensures
        j <= scan_from(objs, ch, val, tick, j) <= objs.len(),
        scan_from(objs, ch, val, tick, j) < objs.len() ==> {
            let k = scan_from(objs, ch, val, tick, j);
            objs[k].channel == ch && objs[k].value == val && objs[k].tick > tick
        },
        forall|k: int|
            j <= k < scan_from(objs, ch, val, tick, j) ==> !((#[trigger] objs[k]).channel == ch
                && objs[k].value == val && objs[k].tick > tick),
    decreases objs.len() - j,
{
    if j < objs.len() && !(objs[j].channel == ch && objs[j].value == val && objs[j].tick > tick) {
        lemma_scan_from(objs, ch, val, tick, j + 1);
    }
}

/// The note generated by the object at `i` of the filtered list, if
/// any: its channel range decides the kind and lane; the long-note
/// strategies pair ends as described at the module head.
pub open spec fn spec_note_at(
    objs: Seq<BmsObject>,
    i: int,
    lnobj: Option<u16>,
    resolution: u32,
) -> Option<BmsNote> {
    let o = objs[i];
    let t = qn_of(o.tick, resolution);
    if o.channel == 1 {
        Some(BmsNote { time: t, lane: 0, note_type: BmsNoteType::BGM { keysound: o.value } })
    } else if 37 <= o.channel <= 71 || 73 <= o.channel <= 107 {
        let lane = if o.channel <= 71 {
            (o.channel - 37) as u16
        } else {
            (o.channel - 73 + 35) as u16
        };
        match lnobj {
            Some(m) => {
                if o.value == m {
                    None
                } else {
                    let j = scan_from(objs, o.channel, m, o.tick, 0);
                    if j < objs.len() {
                        Some(
                            BmsNote {
                                time: t,
                                lane,
                                note_type: BmsNoteType::Long {
                                    keysound: o.value,
                                    end_time: qn_of(objs[j].tick, resolution),
                                },
                            },
                        )
                    } else {
                        Some(
                            BmsNote {
                                time: t,
                                lane,
                                note_type: BmsNoteType::Normal { keysound: o.value },
                            },
                        )
                    }
                }
            },
            None => Some(
                BmsNote { time: t, lane, note_type: BmsNoteType::Normal { keysound: o.value } },
            ),
        }
    } else if 109 <= o.channel <= 143 || 145 <= o.channel <= 179 {
        let lane = if o.channel <= 143 {
            (o.channel - 109) as u16
        } else {
            (o.channel - 145 + 35) as u16
        };
        Some(BmsNote { time: t, lane, note_type: BmsNoteType::Hidden { keysound: o.value } })
    } else if 181 <= o.channel <= 215 || 217 <= o.channel <= 251 {
        let lane = if o.channel <= 215 {
            (o.channel - 181) as u16
        } else {
            (o.channel - 217 + 35) as u16
        };
        let j = scan_from(objs, o.channel, o.value, o.tick, 0);
        if j < objs.len() {
            Some(
                BmsNote {
                    time: t,
                    lane,
                    note_type: BmsNoteType::Long {
                        keysound: o.value,
                        end_time: qn_of(objs[j].tick, resolution),
                    },
                },
            )
        } else {
            None
        }
    } else if 469 <= o.channel <= 477 || 505 <= o.channel <= 513 {
        let lane = if o.channel <= 477 {
            (o.channel - 469) as u16
        } else {
            (o.channel - 505 + 9) as u16
        };
        Some(
            BmsNote {
                time: t,
                lane,
                note_type: BmsNoteType::Mine { damage: (o.value / 2) as u16 },
            },
        )
    } else {
        None
    }
}

/// The notes of the first `n` filtered objects, in order.
pub open spec fn spec_gen(
    objs: Seq<BmsObject>,
    lnobj: Option<u16>,
    resolution: u32,
    n: int,
) -> Seq<BmsNote>
    decreases n,
{
    if n <= 0 {
        Seq::empty()
    } else {
        let pref = spec_gen(objs, lnobj, resolution, n - 1);
        match spec_note_at(objs, n - 1, lnobj, resolution) {
            Some(note) => pref.push(note),
            None => pref,
        }
    }
}

/// The note list of a chart: the whole generator in one specification.
pub open spec fn spec_generate(c: ChartModel) -> Seq<BmsNote> {
    let f = filter_objs(c.objects, c.objects.len() as int);
    spec_gen(f, spec_lnobj(c.headers), c.resolution, f.len() as int)
}

/// A long-note-channel object with no later same-channel same-value
/// object emits no note at all.
pub proof fn lemma_unterminated_long_dropped(
    objs: Seq<BmsObject>,
    i: int,
    lnobj: Option<u16>,
    resolution: u32,
)
    requires
        0 <= i < objs.len(),
        181 <= objs[i].channel <= 251,
        objs[i].channel != 216,
        forall|j: int|
            0 <= j < objs.len() ==> !((#[trigger] objs[j]).channel == objs[i].channel && objs[j].value
                == objs[i].value && objs[j].tick > objs[i].tick),
    ensures
        spec_note_at(objs, i, lnobj, resolution) is None,
{
    lemma_scan_from(objs, objs[i].channel, objs[i].value, objs[i].tick, 0);
    let k = scan_from(objs, objs[i].channel, objs[i].value, objs[i].tick, 0);
    if k < objs.len() {
        assert(objs[k].channel == objs[i].channel && objs[k].value == objs[i].value && objs[k].tick
            > objs[i].tick);
    }
}

/// The long-note marker itself is never emitted: a visible-channel
/// object whose value equals the marker yields no note.
pub proof fn lemma_marker_not_emitted(objs: Seq<BmsObject>, i: int, m: u16, resolution: u32)
    requires
        0 <= i < objs.len(),
        37 <= objs[i].channel <= 107,
        objs[i].channel != 72,
        objs[i].value == m,
    ensures
        spec_note_at(objs, i, Some(m), resolution) is None,
{
}

/// All note positions (and long-note ends) are well-formed rationals.
pub open spec fn notes_wf(s: Seq<BmsNote>) -> bool {
    forall|i: int|
        0 <= i < s.len() ==> (#[trigger] s[i]).time.wf() && (s[i].note_type matches
        BmsNoteType::Long { keysound, end_time } ==> end_time.wf())
}

/// First object of value `val` on channel `ch` strictly after `tick`.
fn scan_objs(objs: &Vec<BmsObject>, ch: u16, val: u16, tick: u64) -> (j: usize)
    ensures
        j as int == scan_from(objs@, ch, val, tick, 0),
        j <= objs@.len(),
{
    proof {
        lemma_scan_from(objs@, ch, val, tick, 0);
    }
    let mut j: usize = 0;
    while j < objs.len()
        invariant
            0 <= j <= objs@.len(),
            forall|k: int|
                0 <= k < j ==> !((#[trigger] objs@[k]).channel == ch && objs@[k].value == val
                    && objs@[k].tick > tick),
        decreases objs@.len() - j,
    {
        let o = objs[j];
        if o.channel == ch && o.value == val && o.tick > tick {
            proof {
                lemma_scan_from(objs@, ch, val, tick, 0);
                let s = scan_from(objs@, ch, val, tick, 0);
                if s < j as int {
                    assert(objs@[s].channel == ch && objs@[s].value == val && objs@[s].tick
                        > tick);
                }
            }
            return j;
        }
        j += 1;
    }
    proof {
        lemma_scan_from(objs@, ch, val, tick, 0);
        let s = scan_from(objs@, ch, val, tick, 0);
        if s < objs@.len() {
            assert(objs@[s].channel == ch && objs@[s].value == val && objs@[s].tick > tick);
        }
    }
    objs.len()
}

impl BmsNotes {
    /// Generate the typed, laned note list of a chart.
    ///
    /// Pure and total: unrecognized channels are silently excluded, a
    /// malformed `LNOBJ` simply selects the dedicated-channel pairing,
    /// and an unterminated dedicated-channel long note emits nothing.
    /// The result is pinned to [`spec_generate`]; no seconds are
    /// attached yet.
    #[verifier::rlimit(100)]
    pub fn generate(chart: &BmsChart) -> (r: BmsNotes)
        requires
            chart.wf(),
        ensures
            r.notes@ == spec_generate(chart@),
            r.hit_times is None,
            notes_wf(r.notes@),
    {
        let ghost objs0 = chart@.objects;
        // restrict to the note channels
        let mut f: Vec<BmsObject> = Vec::new();
        let mut i: usize = 0;
        while i < chart.objects.len()
            invariant
                0 <= i <= objs0.len(),
                objs0 == chart@.objects,
                chart.wf(),
                f@ == filter_objs(objs0, i as int),
                forall|j: int|
                    0 <= j < f@.len() ==> (#[trigger] f@[j]).tick <= 0x7fff_ffff_ffff_ffff,
            decreases objs0.len() - i,
        {
            let o = chart.objects[i];
            if in_note_ranges_at(o.channel) {
                f.push(o);
            }
            i += 1;
        }
        // the marker strategy, if LNOBJ names a valid value
        proof {
            reveal_strlit("LNOBJ");
            assert("LNOBJ"@ =~= lnobj_name());
        }
        let lnobj: Option<u16> = match crate::chart::headers_get(&chart.headers, "LNOBJ") {
            None => None,
            Some(s) => {
                let cs = crate::chart::str_to_chars(s.as_str());
                match parse_uint(cs.as_slice(), 36, 0xffff) {
                    Some(v) => Some(v as u16),
                    None => None,
                }
            },
        };
        proof {
            assert(lnobj == spec_lnobj(chart@.headers));
        }
        let res = chart.resolution;
        let mut notes: Vec<BmsNote> = Vec::new();
        let mut k: usize = 0;
        while k < f.len()
            invariant
                0 <= k <= f@.len(),
                res == chart.resolution,
                res >= 1,
                forall|j: int|
                    0 <= j < f@.len() ==> (#[trigger] f@[j]).tick <= 0x7fff_ffff_ffff_ffff,
                notes@ == spec_gen(f@, lnobj, res, k as int),
                notes_wf(notes@),
            decreases f@.len() - k,
        {
            let o = f[k];
            let t = BmsTimeQuarterNotes(Rat { num: o.tick as i64, den: res as i64 });
            if o.channel == 1 {
                notes.push(
                    BmsNote { time: t, lane: 0, note_type: BmsNoteType::BGM { keysound: o.value } },
                );
            } else if (37 <= o.channel && o.channel <= 71) || (73 <= o.channel && o.channel
                <= 107) {
                let lane: u16 = if o.channel <= 71 {
                    o.channel - 37
                } else {
                    o.channel - 73 + 35
                };
                match lnobj {
                    Some(m) => {
                        if o.value != m {
                            let j = scan_objs(&f, o.channel, m, o.tick);
                            if j < f.len() {
                                notes.push(
                                    BmsNote {
                                        time: t,
                                        lane,
                                        note_type: BmsNoteType::Long {
                                            keysound: o.value,
                                            end_time: BmsTimeQuarterNotes(
                                                Rat { num: f[j].tick as i64, den: res as i64 },
                                            ),
                                        },
                                    },
                                );
                            } else {
                                notes.push(
                                    BmsNote {
                                        time: t,
                                        lane,
                                        note_type: BmsNoteType::Normal { keysound: o.value },
                                    },
                                );
                            }
                        }
                    },
                    None => {
                        notes.push(
                            BmsNote {
                                time: t,
                                lane,
                                note_type: BmsNoteType::Normal { keysound: o.value },
                            },
                        );
                    },
                }
            } else if (109 <= o.channel && o.channel <= 143) || (145 <= o.channel && o.channel
                <= 179) {
                let lane: u16 = if o.channel <= 143 {
                    o.channel - 109
                } else {
                    o.channel - 145 + 35
                };
                notes.push(
                    BmsNote { time: t, lane, note_type: BmsNoteType::Hidden { keysound: o.value } },
                );
            } else if (181 <= o.channel && o.channel <= 215) || (217 <= o.channel && o.channel
                <= 251) {
                let lane: u16 = if o.channel <= 215 {
                    o.channel - 181
                } else {
                    o.channel - 217 + 35
                };
                let j = scan_objs(&f, o.channel, o.value, o.tick);
                if j < f.len() {
                    notes.push(
                        BmsNote {
                            time: t,
                            lane,
                            note_type: BmsNoteType::Long {
                                keysound: o.value,
                                end_time: BmsTimeQuarterNotes(
                                    Rat { num: f[j].tick as i64, den: res as i64 },
                                ),
                            },
                        },
                    );
                }
            } else if (469 <= o.channel && o.channel <= 477) || (505 <= o.channel && o.channel
                <= 513) {
                let lane: u16 = if o.channel <= 477 {
                    o.channel - 469
                } else {
                    o.channel - 505 + 9
                };
                notes.push(
                    BmsNote {
                        time: t,
                        lane,
                        note_type: BmsNoteType::Mine { damage: o.value / 2 },
                    },
                );
            }
            k += 1;
        }
        proof {
            assert(filter_objs(objs0, objs0.len() as int) == f@);
        }
        BmsNotes { notes, hit_times: None }
    }
}

/// One timeline event: a tempo change (`val` is the new tempo) or a
/// pause (`val` is the pause length in quarter notes).
#[derive(Clone, Copy, Debug, PartialEq, Eq, Structural)]
pub struct TimelineEntry {
    pub pos: Rat,
    pub is_stop: bool,
    pub val: Rat,
}

/// All entry positions and values are well-formed rationals.
pub open spec fn entries_wf(tl: Seq<TimelineEntry>) -> bool {
    forall|i: int| 0 <= i < tl.len() ==> (#[trigger] tl[i]).pos.wf() && tl[i].val.wf()
}

/// Sweep state: the current quarter-note duration in seconds and the
/// position/seconds pair where it took effect.
#[derive(Clone, Copy, Debug, PartialEq, Eq, Structural)]
pub struct SweepState {
    pub qnd: Rat,
    pub off_pos: Rat,
    pub off_secs: Rat,
}

impl SweepState {
    pub open spec fn wf(self) -> bool {
        self.qnd.wf() && self.off_pos.wf() && self.off_secs.wf()
    }
}

/// Sixty seconds: a minute over a tempo gives the quarter-note length.
pub open spec fn rat_minute() -> Rat {
    Rat { num: 60, den: 1 }
}

/// The tempo-and-pause event list: both position-sorted lists merged,
/// position ascending, a tempo change before a pause at the same
/// position.
pub open spec fn spec_timeline(
    tempos: Seq<(BmsTimeQuarterNotes, Rat)>,
    stops: Seq<(BmsTimeQuarterNotes, BmsTimeQuarterNotes)>,
) -> Seq<TimelineEntry>
    decreases tempos.len() + stops.len(),
{
    if tempos.len() == 0 && stops.len() == 0 {
        Seq::empty()
    } else if stops.len() == 0 || (tempos.len() > 0 && tempos[0].0.0.spec_le(stops[0].0.0)) {
        seq![TimelineEntry { pos: tempos[0].0.0, is_stop: false, val: tempos[0].1 }]
            + spec_timeline(tempos.skip(1), stops)
    } else {
        seq![TimelineEntry { pos: stops[0].0.0, is_stop: true, val: stops[0].1.0 }]
            + spec_timeline(tempos, stops.skip(1))
    }
}

/// Apply one timeline event to the sweep state: advance the elapsed
/// seconds to the event's position, then change tempo or add the pause.
pub open spec fn spec_apply(st: SweepState, e: TimelineEntry) -> Option<SweepState> {
    match e.pos.spec_sub(st.off_pos) {
        None => None,
        Some(d) => match st.qnd.spec_mul(d) {
            None => None,
            Some(el) => match st.off_secs.spec_add(el) {
                None => None,
                Some(os) => {
                    if !e.is_stop {
                        match rat_minute().spec_div(e.val) {
                            None => None,
                            Some(q) => Some(SweepState { qnd: q, off_pos: e.pos, off_secs: os }),
                        }
                    } else {
                        match st.qnd.spec_mul(e.val) {
                            None => None,
                            Some(pause) => match os.spec_add(pause) {
                                None => None,
                                Some(os2) => Some(
                                    SweepState { qnd: st.qnd, off_pos: e.pos, off_secs: os2 },
                                ),
                            },
                        }
                    }
                },
            },
        },
    }
}

/// The seconds at position `p`: apply every event strictly before `p`,
/// then extrapolate at the tempo then in force. An event exactly at
/// `p` is not applied, so a note at a tempo change uses the pre-change
/// tempo.
pub open spec fn spec_seconds_at(tl: Seq<TimelineEntry>, st: SweepState, p: Rat) -> Option<Rat>
    decreases tl.len(),
{
    if tl.len() == 0 || !tl[0].pos.spec_lt(p) {
        match p.spec_sub(st.off_pos) {
            None => None,
            Some(d) => match st.qnd.spec_mul(d) {
                None => None,
                Some(el) => st.off_secs.spec_add(el),
            },
        }
    } else {
        match spec_apply(st, tl[0]) {
            None => None,
            Some(st2) => spec_seconds_at(tl.skip(1), st2, p),
        }
    }
}

/// The initial sweep state: sixty seconds over the starting tempo.
pub open spec fn spec_init_state(t: TimingModel) -> Option<SweepState> {
    match rat_minute().spec_div(t.bpm_changes[0].1) {
        None => None,
        Some(q) => Some(
            SweepState {
                qnd: q,
                off_pos: Rat { num: 0, den: 1 },
                off_secs: Rat { num: 0, den: 1 },
            },
        ),
    }
}

/// The hit (and, for a long note, release) seconds of one note.
pub open spec fn spec_sweep_note(tl: Seq<TimelineEntry>, st0: SweepState, note: BmsNote) -> Option<
    (BmsTimeSeconds, Option<BmsTimeSeconds>),
> {
    match spec_seconds_at(tl, st0, note.time.0) {
        None => None,
        Some(h) => match note.note_type {
            BmsNoteType::Long { keysound, end_time } => match spec_seconds_at(
                tl,
                st0,
                end_time.0,
            ) {
                None => None,
                Some(rl) => Some((BmsTimeSeconds(h), Some(BmsTimeSeconds(rl)))),
            },
            _ => Some((BmsTimeSeconds(h), None)),
        },
    }
}

/// The hit seconds of the first `n` notes; `None` as soon as one
/// note's arithmetic leaves the representable range.
pub open spec fn spec_sweep_all(
    tl: Seq<TimelineEntry>,
    st0: SweepState,
    notes: Seq<BmsNote>,
    n: int,
) -> Option<Seq<(BmsTimeSeconds, Option<BmsTimeSeconds>)>>
    decreases n,
{
    if n <= 0 {
        Some(Seq::empty())
    } else {
        match spec_sweep_all(tl, st0, notes, n - 1) {
            None => None,
            Some(pref) => match spec_sweep_note(tl, st0, notes[n - 1]) {
                None => None,
                Some(ts) => Some(pref.push(ts)),
            },
        }
    }
}

/// Per-note seconds for a whole note list against a timing model:
/// timeline from the tempo changes past position zero and the stops,
/// initial state from the starting tempo.
pub open spec fn spec_sweep(notes: Seq<BmsNote>, t: TimingModel) -> Option<
    Seq<(BmsTimeSeconds, Option<BmsTimeSeconds>)>,
> {
    match spec_init_state(t) {
        None => None,
        Some(st0) => spec_sweep_all(
            spec_timeline(t.bpm_changes.skip(1), t.stops),
            st0,
            notes,
            notes.len() as int,
        ),
    }
}

/// A failed sweep stays failed over more notes.
proof fn lemma_sweep_all_none(tl: Seq<TimelineEntry>, st0: SweepState, notes: Seq<BmsNote>, k: int, n: int)
    requires
        spec_sweep_all(tl, st0, notes, k) is None,
        k <= n,
    ensures
        spec_sweep_all(tl, st0, notes, n) is None,
    decreases n - k,
{
    if n > k {
        lemma_sweep_all_none(tl, st0, notes, k, n - 1);
    }
}

/// The seconds at position `p`, walking the timeline.
fn seconds_at(tl: &Vec<TimelineEntry>, st0: SweepState, p: Rat) -> (r: Option<Rat>)
    requires
        entries_wf(tl@),
        st0.wf(),
        p.wf(),
    ensures
        r == spec_seconds_at(tl@, st0, p),
        r matches Some(v) ==> v.wf(),
{
    let mut st = st0;
    let mut k: usize = 0;
    proof {
        assert(tl@.skip(0) =~= tl@);
    }
    while k < tl.len() && tl[k].pos.lt(p)
        invariant
            0 <= k <= tl@.len(),
            entries_wf(tl@),
            st.wf(),
            p.wf(),
            spec_seconds_at(tl@, st0, p) == spec_seconds_at(tl@.skip(k as int), st, p),
        decreases tl@.len() - k,
    {
        let e = tl[k];
        proof {
            assert(tl@.skip(k as int)[0] == tl@[k as int]);
        }
        // apply the event
        let d = match e.pos.checked_sub(st.off_pos) {
            Some(v) => v,
            None => {
                return None;
            },
        };
        let el = match st.qnd.checked_mul(d) {
            Some(v) => v,
            None => {
                return None;
            },
        };
        let os = match st.off_secs.checked_add(el) {
            Some(v) => v,
            None => {
                return None;
            },
        };
        if !e.is_stop {
            let q = match (Rat { num: 60, den: 1 }).checked_div(e.val) {
                Some(v) => v,
                None => {
                    return None;
                },
            };
            st = SweepState { qnd: q, off_pos: e.pos, off_secs: os };
        } else {
            let pause = match st.qnd.checked_mul(e.val) {
                Some(v) => v,
                None => {
                    return None;
                },
            };
            let os2 = match os.checked_add(pause) {
                Some(v) => v,
                None => {
                    return None;
                },
            };
            st = SweepState { qnd: st.qnd, off_pos: e.pos, off_secs: os2 };
        }
        proof {
            assert(tl@.skip(k as int).skip(1) =~= tl@.skip(k + 1 as int));
        }
        k += 1;
    }
    proof {
        if k < tl@.len() {
            assert(tl@.skip(k as int)[0] == tl@[k as int]);
        }
    }
    let d = match p.checked_sub(st.off_pos) {
        Some(v) => v,
        None => {
            return None;
        },
    };
    let el = match st.qnd.checked_mul(d) {
        Some(v) => v,
        None => {
            return None;
        },
    };
    st.off_secs.checked_add(el)
}

/// Merge the tempo and stop lists into the event timeline.
fn build_timeline(timing: &BmsTiming) -> (tl: Vec<TimelineEntry>)
    requires
        timing.wf(),
    ensures
        tl@ == spec_timeline(timing@.bpm_changes.skip(1), timing@.stops),
        entries_wf(tl@),
{
    let ghost tv = timing@.bpm_changes.skip(1);
    let ghost sv = timing@.stops;
    let mut tl: Vec<TimelineEntry> = Vec::new();
    let mut a: usize = 1;
    let mut b: usize = 0;
    proof {
        assert(timing@.bpm_changes.skip(1).skip(0) =~= tv);
        assert(sv.skip(0) =~= sv);
    }
    while a < timing.bpm_changes.len() || b < timing.stops.len()
        invariant
            1 <= a <= timing@.bpm_changes.len() || (timing@.bpm_changes.len() == 0 && a == 1),
            0 <= b <= timing@.stops.len(),
            timing.wf(),
            tv == timing@.bpm_changes.skip(1),
            sv == timing@.stops,
            a >= 1,
            tl@ + spec_timeline(tv.skip(a - 1), sv.skip(b as int)) == spec_timeline(tv, sv),
            entries_wf(tl@),
        decreases timing@.bpm_changes.len() + timing@.stops.len() - a - b,
    {
        let ghost t_rest = tv.skip(a - 1);
        let ghost s_rest = sv.skip(b as int);
        let take_tempo: bool = if b >= timing.stops.len() {
            true
        } else if a >= timing.bpm_changes.len() {
            false
        } else {
            timing.bpm_changes[a].0.0.le(timing.stops[b].0.0)
        };
        proof {
            if a < timing@.bpm_changes.len() {
                assert(t_rest[0] == timing@.bpm_changes[a as int]);
            }
            if b < timing@.stops.len() {
                assert(s_rest[0] == timing@.stops[b as int]);
            }
        }
        if take_tempo {
            let e = TimelineEntry {
                pos: timing.bpm_changes[a].0.0,
                is_stop: false,
                val: timing.bpm_changes[a].1,
            };
            tl.push(e);
            proof {
                assert(spec_timeline(t_rest, s_rest) == seq![e] + spec_timeline(
                    t_rest.skip(1),
                    s_rest,
                ));
                assert(t_rest.skip(1) =~= tv.skip(a as int));
                assert((tl@ + spec_timeline(tv.skip(a as int), s_rest)) =~= (tl@.drop_last()
                    + spec_timeline(t_rest, s_rest)));
            }
            a += 1;
        } else {
            let e = TimelineEntry {
                pos: timing.stops[b].0.0,
                is_stop: true,
                val: timing.stops[b].1.0,
            };
            tl.push(e);
            proof {
                assert(spec_timeline(t_rest, s_rest) == seq![e] + spec_timeline(
                    t_rest,
                    s_rest.skip(1),
                ));
                assert(s_rest.skip(1) =~= sv.skip(b + 1 as int));
                assert((tl@ + spec_timeline(t_rest, sv.skip(b + 1 as int))) =~= (tl@.drop_last()
                    + spec_timeline(t_rest, s_rest)));
            }
            b += 1;
        }
    }
    proof {
        assert(tv.skip(a - 1).len() == 0 && sv.skip(b as int).len() == 0);
        assert(spec_timeline(tv.skip(a - 1), sv.skip(b as int)) =~= Seq::<TimelineEntry>::empty());
        assert(tl@ + Seq::<TimelineEntry>::empty() =~= tl@);
    }
    tl
}

impl BmsNotes {
    /// Stamp every note with its absolute time in seconds.
    ///
    /// Walks the tempo-and-pause timeline per note: events strictly
    /// before the note's position apply, an event exactly at it does
    /// not, and a pause at a tempo change's position comes after the
    /// change. Exact per [`spec_sweep`]; returns `false`, leaving the
    /// notes untouched, exactly when that function reports failure: a
    /// zero tempo, or an intermediate value whose lowest-terms form
    /// still leaves the representable range — the arithmetic reduces
    /// every result, so ordinary charts with many tempo changes and
    /// stops stay far inside it. An empty note list is left unchanged.
    pub fn find_seconds(&mut self, timing: &BmsTiming) -> (ok: bool)
        requires
            notes_wf(old(self).notes@),
            timing.wf(),
        ensures
            final(self).notes == old(self).notes,
            old(self).notes@.len() == 0 ==> ok && *final(self) == *old(self),
            old(self).notes@.len() > 0 ==> match spec_sweep(old(self).notes@, timing@) {
                Some(ts) => ok && (final(self).hit_times matches Some(v) && v@ == ts),
                None => !ok && *final(self) == *old(self),
            },
    {
        if self.notes.len() == 0 {
            return true;
        }
        let first_bpm = timing.bpm_changes[0].1;
        let st0 = match (Rat { num: 60, den: 1 }).checked_div(first_bpm) {
            Some(q) => SweepState {
                qnd: q,
                off_pos: Rat { num: 0, den: 1 },
                off_secs: Rat { num: 0, den: 1 },
            },
            None => {
                return false;
            },
        };
        proof {
            assert(spec_init_state(timing@) == Some(st0));
        }
        let tl = build_timeline(timing);
        let ghost tlv = tl@;
        let mut out: Vec<(BmsTimeSeconds, Option<BmsTimeSeconds>)> = Vec::new();
        let mut i: usize = 0;
        while i < self.notes.len()
            invariant
                0 <= i <= self.notes@.len(),
                self == old(self),
                notes_wf(self.notes@),
                timing.wf(),
                st0.wf(),
                tlv == tl@,
                entries_wf(tlv),
                tlv == spec_timeline(timing@.bpm_changes.skip(1), timing@.stops),
                spec_init_state(timing@) == Some(st0),
                spec_sweep_all(tlv, st0, self.notes@, i as int) == Some(out@),
            decreases self.notes@.len() - i,
        {
            let note = self.notes[i];
            let hit = match seconds_at(&tl, st0, note.time.0) {
                Some(h) => h,
                None => {
                    proof {
                        assert(spec_sweep_all(tlv, st0, self.notes@, i + 1 as int) is None);
                        lemma_sweep_all_none(
                            tlv,
                            st0,
                            self.notes@,
                            i + 1 as int,
                            self.notes@.len() as int,
                        );
                    }
                    return false;
                },
            };
            let release: Option<BmsTimeSeconds> = match note.note_type {
                BmsNoteType::Long { keysound: _, end_time } => {
                    match seconds_at(&tl, st0, end_time.0) {
                        Some(rl) => Some(BmsTimeSeconds(rl)),
                        None => {
                            proof {
                                assert(spec_sweep_all(tlv, st0, self.notes@, i + 1 as int)
                                    is None);
                                lemma_sweep_all_none(
                                    tlv,
                                    st0,
                                    self.notes@,
                                    i + 1 as int,
                                    self.notes@.len() as int,
                                );
                            }
                            return false;
                        },
                    }
                },
                _ => None,
            };
            out.push((BmsTimeSeconds(hit), release));
            i += 1;
        }
        self.hit_times = Some(out);
        true
    }

    /// Generate the note list of a chart and stamp it with seconds.
    ///
    /// The notes equal [`spec_generate`]; `hit_times` carries
    /// [`spec_sweep`]'s result, absent when the note list is empty or
    /// the sweep's arithmetic leaves the representable range.
    pub fn generate_with_seconds(chart: &BmsChart, timing: &BmsTiming) -> (r: BmsNotes)
        requires
            chart.wf(),
            timing.wf(),
        ensures
            r.notes@ == spec_generate(chart@),
            r.notes@.len() == 0 ==> r.hit_times is None,
            r.notes@.len() > 0 ==> match spec_sweep(r.notes@, timing@) {
                Some(ts) => (r.hit_times matches Some(v) && v@ == ts),
                None => r.hit_times is None,
            },
    {
        let mut notes = BmsNotes::generate(chart);
        let _ok = notes.find_seconds(timing);
        notes
    }
}

} // verus!
