//! The compiled chart: positioned raw objects, headers, time signatures
//! and barlines, together with the text compiler that produces them.

use vstd::prelude::*;

use crate::lines::{
    spec_classify, spec_trim, split_lines, LineClass,
};
use crate::parse::{digit_val, digit_val_of, is_digit};
use crate::rat::Rat;

verus! {

/// One raw chart object: a value placed on a channel at an absolute tick.
///
/// Equality (`==`) is over `(channel, tick)` only — the value is ignored,
/// which is what position deduplication keys on. The full normalization
/// order is [`obj_le`].
#[derive(Clone, Copy, Debug, Eq, Hash)]
pub struct BmsObject {
    pub channel: u16,
    pub tick: u64,
    pub value: u16,
}

impl PartialEq for BmsObject {
    fn eq(&self, other: &Self) -> (r: bool) {
        self.channel == other.channel && self.tick == other.tick
    }
}

impl vstd::std_specs::cmp::PartialEqSpecImpl for BmsObject {
    open spec fn obeys_eq_spec() -> bool {
        true
    }

    open spec fn eq_spec(&self, other: &Self) -> bool {
        self.channel == other.channel && self.tick == other.tick
    }
}

impl PartialOrd for BmsObject {
    /// Objects are comparable by tick; at equal ticks only fully equal
    /// objects are ordered (as `Equal`), every other same-tick pair is
    /// unordered.
    fn partial_cmp(&self, other: &Self) -> (r: Option<core::cmp::Ordering>) {
        if self.tick < other.tick {
            Some(core::cmp::Ordering::Less)
        } else if self.tick > other.tick {
            Some(core::cmp::Ordering::Greater)
        } else if self.value == other.value && self.channel == other.channel {
            Some(core::cmp::Ordering::Equal)
        } else {
            None
        }
    }
}

impl vstd::std_specs::cmp::PartialOrdSpecImpl for BmsObject {
    open spec fn obeys_partial_cmp_spec() -> bool {
        true
    }

    open spec fn partial_cmp_spec(&self, other: &Self) -> Option<core::cmp::Ordering> {
        if self.tick < other.tick {
            Some(core::cmp::Ordering::Less)
        } else if self.tick > other.tick {
            Some(core::cmp::Ordering::Greater)
        } else if self.value == other.value && self.channel == other.channel {
            Some(core::cmp::Ordering::Equal)
        } else {
            None
        }
    }
}

/// The background-music channel, exempt from deduplication.
pub const BGM_CHANNEL: u16 = 1;

/// Total normalization order: by tick, then channel, then value.
pub open spec fn obj_le(a: BmsObject, b: BmsObject) -> bool {
    if a.tick != b.tick {
        a.tick < b.tick
    } else if a.channel != b.channel {
        a.channel < b.channel
    } else {
        a.value <= b.value
    }
}

/// Executable form of [`obj_le`].
pub fn obj_le_at(a: &BmsObject, b: &BmsObject) -> (r: bool)
    ensures
        r == obj_le(*a, *b),
{
    if a.tick != b.tick {
        a.tick < b.tick
    } else if a.channel != b.channel {
        a.channel < b.channel
    } else {
        a.value <= b.value
    }
}

/// Two objects occupy the same position slot: same channel, same tick.
pub open spec fn same_slot(a: BmsObject, b: BmsObject) -> bool {
    a.channel == b.channel && a.tick == b.tick
}

/// `s` is sorted by the normalization order.
pub open spec fn sorted_objs(s: Seq<BmsObject>) -> bool {
    forall|i: int, j: int| 0 <= i <= j < s.len() ==> obj_le(#[trigger] s[i], #[trigger] s[j])
}

/// No two adjacent objects of `s` share a slot, except on the
/// background-music channel.
pub open spec fn deduped_objs(s: Seq<BmsObject>) -> bool {
    forall|i: int|
        0 < i < s.len() ==> !(same_slot(#[trigger] s[i], s[i - 1]) && s[i].channel != BGM_CHANNEL)
}

/// Normalized: sorted and deduplicated.
pub open spec fn normalized_objs(s: Seq<BmsObject>) -> bool {
    sorted_objs(s) && deduped_objs(s)
}

/// Insert `x` before the first element that is not below it.
pub open spec fn insert_sorted(x: BmsObject, s: Seq<BmsObject>) -> Seq<BmsObject>
    decreases s.len(),
{
    if s.len() == 0 {
        seq![x]
    } else if obj_le(x, s[0]) {
        seq![x] + s
    } else {
        seq![s[0]] + insert_sorted(x, s.skip(1))
    }
}

/// Insertion sort over the normalization order.
pub open spec fn sort_objs(s: Seq<BmsObject>) -> Seq<BmsObject>
    decreases s.len(),
{
    if s.len() == 0 {
        Seq::empty()
    } else {
        insert_sorted(s.last(), sort_objs(s.drop_last()))
    }
}

/// Drop every object that shares a slot with its predecessor, unless it
/// sits on the background-music channel.
pub open spec fn dedup_objs(s: Seq<BmsObject>) -> Seq<BmsObject>
    decreases s.len(),
{
    if s.len() == 0 {
        Seq::empty()
    } else {
        let rest = dedup_objs(s.drop_last());
        if s.len() >= 2 && same_slot(s.last(), s[s.len() - 2]) && s.last().channel != BGM_CHANNEL {
            rest
        } else {
            rest + seq![s.last()]
        }
    }
}

/// The normalized form of an object sequence: sorted, then deduplicated.
pub open spec fn spec_normalize(s: Seq<BmsObject>) -> Seq<BmsObject> {
    dedup_objs(sort_objs(s))
}

proof fn lemma_insert_sorted_len(x: BmsObject, s: Seq<BmsObject>)
    ensures
        insert_sorted(x, s).len() == s.len() + 1,
    decreases s.len(),
{
    if s.len() > 0 && !obj_le(x, s[0]) {
        lemma_insert_sorted_len(x, s.skip(1));
    }
}

/// Inserting into a sorted sequence keeps it sorted.
proof fn lemma_insert_sorted_sorted(x: BmsObject, s: Seq<BmsObject>)
    requires
        sorted_objs(s),
    ensures
        sorted_objs(insert_sorted(x, s)),
    decreases s.len(),
{
    if s.len() == 0 {
    } else if obj_le(x, s[0]) {
        assert forall|i: int, j: int|
            0 <= i <= j < insert_sorted(x, s).len() implies obj_le(
            insert_sorted(x, s)[i],
            insert_sorted(x, s)[j],
        ) by {
            let r = seq![x] + s;
            if i == 0 && j > 0 {
                assert(r[j] == s[j - 1]);
                assert(obj_le(s[0], s[j - 1]));
            }
        }
    } else {
        assert(sorted_objs(s.skip(1)));
        lemma_insert_sorted_sorted(x, s.skip(1));
        lemma_insert_sorted_len(x, s.skip(1));
        let t = insert_sorted(x, s.skip(1));
        let r = seq![s[0]] + t;
        assert forall|i: int, j: int| 0 <= i <= j < r.len() implies obj_le(r[i], r[j]) by {
            if i == 0 && j > 0 {
                assert(obj_le(s[0], t[j - 1])) by {
                    lemma_insert_sorted_elems(x, s.skip(1), j - 1);
                    if t[j - 1] == x {
                    } else {
                        let k = choose|k: int|
                            0 <= k < s.skip(1).len() && s.skip(1)[k] == t[j - 1];
                        assert(s.skip(1)[k] == s[k + 1]);
                        assert(obj_le(s[0], s[k + 1]));
                    }
                }
            } else if i > 0 {
                assert(obj_le(t[i - 1], t[j - 1]));
            }
        }
    }
}

/// Every element of an insertion result is `x` or an element of `s`.
proof fn lemma_insert_sorted_elems(x: BmsObject, s: Seq<BmsObject>, i: int)
    requires
        0 <= i < insert_sorted(x, s).len(),
    ensures
        insert_sorted(x, s)[i] == x || exists|k: int| 0 <= k < s.len() && s[k] == insert_sorted(
            x,
            s,
        )[i],
    decreases s.len(),
{
    lemma_insert_sorted_len(x, s);
    if s.len() == 0 {
    } else if obj_le(x, s[0]) {
        if i > 0 {
            assert(insert_sorted(x, s)[i] == s[i - 1]);
        }
    } else {
        if i == 0 {
            assert(insert_sorted(x, s)[0] == s[0]);
        } else {
            lemma_insert_sorted_elems(x, s.skip(1), i - 1);
            let t = insert_sorted(x, s.skip(1));
            assert(insert_sorted(x, s)[i] == t[i - 1]);
            if t[i - 1] != x {
                let k = choose|k: int| 0 <= k < s.skip(1).len() && s.skip(1)[k] == t[i - 1];
                assert(s[k + 1] == t[i - 1]);
            }
        }
    }
}

/// Sorting yields a sorted sequence.
proof fn lemma_sort_objs_sorted(s: Seq<BmsObject>)
    ensures
        sorted_objs(sort_objs(s)),
    decreases s.len(),
{
    if s.len() > 0 {
        lemma_sort_objs_sorted(s.drop_last());
        lemma_insert_sorted_sorted(s.last(), sort_objs(s.drop_last()));
    }
}

/// Every element of the sorted sequence is an element of the input.
proof fn lemma_sort_objs_elems(s: Seq<BmsObject>, i: int)
    requires
        0 <= i < sort_objs(s).len(),
    ensures
        exists|k: int| 0 <= k < s.len() && s[k] == sort_objs(s)[i],
    decreases s.len(),
{
    if s.len() > 0 {
        lemma_insert_sorted_elems(s.last(), sort_objs(s.drop_last()), i);
        if sort_objs(s)[i] == s.last() {
            assert(s[s.len() - 1] == sort_objs(s)[i]);
        } else {
            let k = choose|k: int|
                0 <= k < sort_objs(s.drop_last()).len() && sort_objs(s.drop_last())[k] == sort_objs(
                    s,
                )[i];
            lemma_sort_objs_elems(s.drop_last(), k);
            let k2 = choose|k2: int|
                0 <= k2 < s.drop_last().len() && s.drop_last()[k2] == sort_objs(s.drop_last())[k];
            assert(s[k2] == sort_objs(s)[i]);
        }
    }
}

proof fn lemma_sort_objs_len(s: Seq<BmsObject>)
    ensures
        sort_objs(s).len() == s.len(),
    decreases s.len(),
{
    if s.len() > 0 {
        lemma_sort_objs_len(s.drop_last());
        lemma_insert_sorted_len(s.last(), sort_objs(s.drop_last()));
    }
}

/// Deduplicating a sorted sequence keeps it sorted, leaves no adjacent
/// duplicate slots, never lengthens it, keeps it nonempty, and its last
/// element stays at or below the input's last element.
proof fn lemma_dedup_props(s: Seq<BmsObject>)
    requires
        sorted_objs(s),
    ensures
        sorted_objs(dedup_objs(s)),
        deduped_objs(dedup_objs(s)),
        dedup_objs(s).len() <= s.len(),
        s.len() > 0 ==> dedup_objs(s).len() > 0,
        dedup_objs(s).len() > 0 ==> s.len() > 0 && obj_le(dedup_objs(s).last(), s.last()),
    decreases s.len(),
{
    if s.len() == 0 {
    } else {
        let t = s.drop_last();
        assert(sorted_objs(t));
        lemma_dedup_props(t);
        let rest = dedup_objs(t);
        let d = dedup_objs(s);
        if s.len() >= 2 && same_slot(s.last(), s[s.len() - 2]) && s.last().channel != BGM_CHANNEL {
            // dropped: d == rest
            assert(t.last() == s[s.len() - 2]);
            assert(obj_le(s[s.len() - 2], s.last()));
        } else {
            // kept: d == rest + [s.last()]
            assert(d == rest + seq![s.last()]);
            if rest.len() > 0 {
                assert(t.len() > 0);
                assert(t.last() == s[s.len() - 2]);
                assert(obj_le(rest.last(), s[s.len() - 2]));
            }
            assert forall|i: int, j: int| 0 <= i <= j < d.len() implies obj_le(d[i], d[j]) by {
                if j < d.len() - 1 {
                    assert(d[i] == rest[i] && d[j] == rest[j]);
                } else if i < d.len() - 1 {
                    assert(d[i] == rest[i]);
                    assert(obj_le(rest[i], rest.last()));
                    assert(obj_le(rest.last(), s[s.len() - 2]));
                    assert(obj_le(s[s.len() - 2], s.last()));
                }
            }
            assert forall|i: int|
                0 < i < d.len() implies !(same_slot(d[i], d[i - 1]) && d[i].channel
                != BGM_CHANNEL) by {
                if i < d.len() - 1 {
                    assert(d[i] == rest[i] && d[i - 1] == rest[i - 1]);
                } else if i == d.len() - 1 && rest.len() > 0 {
                    // adjacent pair (rest.last(), s.last()): a shared slot
                    // would force s[len-2] into the same slot, which the
                    // kept-case condition excludes.
                    if same_slot(d[i], d[i - 1]) && d[i].channel != BGM_CHANNEL {
                        assert(d[i] == s.last());
                        assert(d[i - 1] == rest.last());
                        assert(obj_le(rest.last(), s[s.len() - 2]));
                        assert(obj_le(s[s.len() - 2], s.last()));
                        assert(same_slot(s.last(), s[s.len() - 2]));
                    }
                }
            }
        }
    }
}

/// Antisymmetry: mutually ordered objects are equal.
proof fn lemma_obj_le_antisym(a: BmsObject, b: BmsObject)
    requires
        obj_le(a, b),
        obj_le(b, a),
    ensures
        a == b,
{
}

/// Inserting an element that dominates a sorted sequence appends it.
proof fn lemma_insert_sorted_end(x: BmsObject, t: Seq<BmsObject>)
    requires
        sorted_objs(t),
        forall|i: int| 0 <= i < t.len() ==> obj_le(#[trigger] t[i], x),
    ensures
        insert_sorted(x, t) == t.push(x),
    decreases t.len(),
{
    if t.len() == 0 {
        assert(insert_sorted(x, t) =~= t.push(x));
    } else if obj_le(x, t[0]) {
        assert forall|i: int| 0 <= i < t.len() implies t[i] == x by {
            assert(obj_le(t[0], t[i]));
            assert(obj_le(t[i], x));
            lemma_obj_le_antisym(t[i], x);
        }
        assert(insert_sorted(x, t) =~= t.push(x));
    } else {
        assert(sorted_objs(t.skip(1)));
        lemma_insert_sorted_end(x, t.skip(1));
        assert(insert_sorted(x, t) =~= t.push(x));
    }
}

/// Sorting an already sorted sequence returns it unchanged.
proof fn lemma_sort_of_sorted(s: Seq<BmsObject>)
    requires
        sorted_objs(s),
    ensures
        sort_objs(s) == s,
    decreases s.len(),
{
    if s.len() > 0 {
        let t = s.drop_last();
        assert(sorted_objs(t));
        lemma_sort_of_sorted(t);
        assert forall|i: int| 0 <= i < t.len() implies obj_le(#[trigger] t[i], s.last()) by {
            assert(t[i] == s[i]);
            assert(obj_le(s[i], s[s.len() - 1]));
        }
        lemma_insert_sorted_end(s.last(), t);
        assert(t.push(s.last()) =~= s);
    }
}

/// Deduplicating a normalized sequence returns it unchanged.
proof fn lemma_dedup_of_normalized(s: Seq<BmsObject>)
    requires
        normalized_objs(s),
    ensures
        dedup_objs(s) == s,
    decreases s.len(),
{
    if s.len() > 0 {
        let t = s.drop_last();
        assert(sorted_objs(t));
        assert(deduped_objs(t));
        lemma_dedup_of_normalized(t);
        assert(!(s.len() >= 2 && same_slot(s.last(), s[s.len() - 2]) && s.last().channel
            != BGM_CHANNEL));
        assert(dedup_objs(s) =~= s);
    }
}

/// Normalization is idempotent: sort-and-dedup applied twice equals
/// sort-and-dedup applied once.
pub proof fn lemma_normalize_idempotent(s: Seq<BmsObject>)
    ensures
        spec_normalize(spec_normalize(s)) == spec_normalize(s),
{
    let d = spec_normalize(s);
    lemma_sort_objs_sorted(s);
    lemma_dedup_props(sort_objs(s));
    lemma_sort_of_sorted(d);
    lemma_dedup_of_normalized(d);
}

/// Background music is exempt from deduplication: normalizing a
/// sequence of background-music objects only sorts it — every object
/// is retained.
pub proof fn lemma_normalize_keeps_bgm(s: Seq<BmsObject>)
    requires
        forall|i: int| 0 <= i < s.len() ==> (#[trigger] s[i]).channel == BGM_CHANNEL,
    ensures
        spec_normalize(s) == sort_objs(s),
        spec_normalize(s).len() == s.len(),
{
    lemma_sort_objs_sorted(s);
    lemma_sort_objs_len(s);
    assert forall|i: int| 0 <= i < sort_objs(s).len() implies (#[trigger] sort_objs(s)[i]).channel
        == BGM_CHANNEL by {
        lemma_sort_objs_elems(s, i);
        let k = choose|k: int| 0 <= k < s.len() && s[k] == sort_objs(s)[i];
        assert(s[k].channel == BGM_CHANNEL);
    }
    lemma_dedup_all_bgm(sort_objs(s));
}

/// Deduplication drops nothing from an all-background-music sequence.
proof fn lemma_dedup_all_bgm(s: Seq<BmsObject>)
    requires
        forall|i: int| 0 <= i < s.len() ==> (#[trigger] s[i]).channel == BGM_CHANNEL,
    ensures
        dedup_objs(s) == s,
    decreases s.len(),
{
    if s.len() > 0 {
        lemma_dedup_all_bgm(s.drop_last());
        assert(s[s.len() - 1].channel == BGM_CHANNEL);
        assert(dedup_objs(s) =~= s);
    }
}

/// A normalized sequence normalizes to itself.
pub proof fn lemma_normalize_of_normalized(s: Seq<BmsObject>)
    requires
        normalized_objs(s),
    ensures
        spec_normalize(s) == s,
{
    lemma_sort_of_sorted(s);
    lemma_dedup_of_normalized(s);
}

/// The normalized form is itself normalized.
pub proof fn lemma_normalize_normalized(s: Seq<BmsObject>)
    ensures
        normalized_objs(spec_normalize(s)),
{
    lemma_sort_objs_sorted(s);
    lemma_dedup_props(sort_objs(s));
}

/// Every element of a deduplicated sequence is an element of the input.
proof fn lemma_dedup_objs_elems(s: Seq<BmsObject>, i: int)
    requires
        0 <= i < dedup_objs(s).len(),
    ensures
        exists|k: int| 0 <= k < s.len() && s[k] == dedup_objs(s)[i],
    decreases s.len(),
{
    if s.len() > 0 {
        let rest = dedup_objs(s.drop_last());
        if i < rest.len() {
            lemma_dedup_objs_elems(s.drop_last(), i);
            let k = choose|k: int| 0 <= k < s.drop_last().len() && s.drop_last()[k] == rest[i];
            assert(s[k] == dedup_objs(s)[i]);
        } else {
            assert(dedup_objs(s)[i] == s.last());
            assert(s[s.len() - 1] == dedup_objs(s)[i]);
        }
    }
}

/// Every element of the normalized sequence is an element of the input.
pub proof fn lemma_normalize_elems(s: Seq<BmsObject>, i: int)
    requires
        0 <= i < spec_normalize(s).len(),
    ensures
        exists|k: int| 0 <= k < s.len() && s[k] == spec_normalize(s)[i],
{
    lemma_dedup_objs_elems(sort_objs(s), i);
    let k = choose|k: int|
        0 <= k < sort_objs(s).len() && sort_objs(s)[k] == dedup_objs(sort_objs(s))[i];
    lemma_sort_objs_elems(s, k);
}

/// Where `insert_sorted` puts the new element: before the first element
/// not below it.
proof fn lemma_insert_sorted_at(x: BmsObject, s: Seq<BmsObject>, p: int)
    requires
        0 <= p <= s.len(),
        forall|k: int| 0 <= k < p ==> !obj_le(x, #[trigger] s[k]),
        p < s.len() ==> obj_le(x, s[p]),
    ensures
        insert_sorted(x, s) == s.take(p) + seq![x] + s.skip(p),
    decreases s.len(),
{
    if p == 0 {
        if s.len() == 0 {
            assert(insert_sorted(x, s) =~= s.take(0) + seq![x] + s.skip(0));
        } else {
            assert(insert_sorted(x, s) =~= s.take(0) + seq![x] + s.skip(0));
        }
    } else {
        assert(!obj_le(x, s[0]));
        assert forall|k: int| 0 <= k < p - 1 implies !obj_le(x, #[trigger] s.skip(1)[k]) by {
            assert(s.skip(1)[k] == s[k + 1]);
        }
        if p - 1 < s.skip(1).len() {
            assert(s.skip(1)[p - 1] == s[p]);
        }
        lemma_insert_sorted_at(x, s.skip(1), p - 1);
        assert(insert_sorted(x, s) =~= s.take(p) + seq![x] + s.skip(p));
    }
}

/// Sort a vector of objects by the normalization order (insertion sort).
fn sort_vec_objs(v: &Vec<BmsObject>) -> (r: Vec<BmsObject>)
    ensures
        r@ == sort_objs(v@),
{
    let mut r: Vec<BmsObject> = Vec::new();
    let mut i: usize = 0;
    while i < v.len()
        invariant
            0 <= i <= v@.len(),
            r@ == sort_objs(v@.take(i as int)),
        decreases v@.len() - i,
    {
        let x = v[i];
        let mut j: usize = 0;
        while j < r.len() && !obj_le_at(&x, &r[j])
            invariant
                0 <= j <= r@.len(),
                forall|k: int| 0 <= k < j ==> !obj_le(x, #[trigger] r@[k]),
            decreases r@.len() - j,
        {
            j += 1;
        }
        let ghost r0 = r@;
        r.insert(j, x);
        proof {
            lemma_insert_sorted_at(x, r0, j as int);
            assert(r@ =~= r0.take(j as int) + seq![x] + r0.skip(j as int));
            assert(v@.take(i + 1).drop_last() =~= v@.take(i as int));
            assert(v@.take(i + 1).last() == v@[i as int]);
        }
        i += 1;
    }
    proof {
        assert(v@.take(v@.len() as int) =~= v@);
    }
    r
}

/// Drop every object that shares a slot with its predecessor, unless it
/// sits on the background-music channel.
fn dedup_vec_objs(v: &Vec<BmsObject>) -> (r: Vec<BmsObject>)
    ensures
        r@ == dedup_objs(v@),
{
    let mut r: Vec<BmsObject> = Vec::new();
    let mut i: usize = 0;
    while i < v.len()
        invariant
            0 <= i <= v@.len(),
            r@ == dedup_objs(v@.take(i as int)),
        decreases v@.len() - i,
    {
        let x = v[i];
        let drop = i >= 1 && x.channel == v[i - 1].channel && x.tick == v[i - 1].tick && x.channel
            != BGM_CHANNEL;
        if !drop {
            r.push(x);
        }
        proof {
            assert(v@.take(i + 1).drop_last() =~= v@.take(i as int));
            assert(v@.take(i + 1).last() == v@[i as int]);
            if i >= 1 {
                assert(v@.take(i + 1)[i - 1] == v@[i - 1]);
            }
        }
        i += 1;
    }
    proof {
        assert(v@.take(v@.len() as int) =~= v@);
    }
    r
}

/// ASCII-case-insensitive character equality. Header names are built
/// from ASCII word characters, so this is the whole case rule.
pub open spec fn eq_ci_char(a: char, b: char) -> bool {
    ||| a as u32 == b as u32
    ||| (65 <= a as u32 <= 90 && b as u32 == a as u32 + 32)
    ||| (65 <= b as u32 <= 90 && a as u32 == b as u32 + 32)
}

/// ASCII-case-insensitive string equality.
pub open spec fn eq_ci(a: Seq<char>, b: Seq<char>) -> bool {
    a.len() == b.len() && forall|i: int| 0 <= i < a.len() ==> eq_ci_char(#[trigger] a[i], b[i])
}

/// Executable ASCII-case-insensitive comparison of two strings.
pub fn str_eq_ci(a: &str, b: &str) -> (r: bool)
    ensures
        r == eq_ci(a@, b@),
{
    let alen = a.unicode_len();
    let blen = b.unicode_len();
    if alen != blen {
        return false;
    }
    let mut i: usize = 0;
    while i < alen
        invariant
            0 <= i <= alen,
            alen == a@.len() && alen == b@.len(),
            forall|j: int| 0 <= j < i ==> eq_ci_char(#[trigger] a@[j], b@[j]),
        decreases alen - i,
    {
        let ca = a.get_char(i);
        let cb = b.get_char(i);
        let ua = ca as u32;
        let ub = cb as u32;
        let la = if 65 <= ua && ua <= 90 {
            ua + 32
        } else {
            ua
        };
        let lb = if 65 <= ub && ub <= 90 {
            ub + 32
        } else {
            ub
        };
        if la != lb {
            assert(!eq_ci_char(a@[i as int], b@[i as int]));
            return false;
        }
        assert(eq_ci_char(a@[i as int], b@[i as int]));
        i += 1;
    }
    true
}

/// The headers' keys are pairwise distinct under case-insensitive
/// comparison: each name names one entry.
pub open spec fn headers_distinct(h: Seq<(Seq<char>, Seq<char>)>) -> bool {
    forall|i: int, j: int| 0 <= i < j < h.len() ==> !eq_ci(#[trigger] h[i].0, #[trigger] h[j].0)
}

/// Mathematical image of a header list.
pub open spec fn headers_view(h: Seq<(String, String)>) -> Seq<(Seq<char>, Seq<char>)> {
    h.map_values(|p: (String, String)| (p.0@, p.1@))
}

/// Index of the entry whose key equals `name` case-insensitively, or
/// `h.len()` when there is none.
pub open spec fn headers_find(h: Seq<(Seq<char>, Seq<char>)>, name: Seq<char>) -> int
    decreases h.len(),
{
    if h.len() == 0 {
        0
    } else if eq_ci(h[0].0, name) {
        0
    } else {
        1 + headers_find(h.skip(1), name)
    }
}

pub proof fn lemma_headers_find(h: Seq<(Seq<char>, Seq<char>)>, name: Seq<char>)
    ensures
        0 <= headers_find(h, name) <= h.len(),
        headers_find(h, name) < h.len() ==> eq_ci(h[headers_find(h, name)].0, name),
        forall|j: int| 0 <= j < headers_find(h, name) ==> !eq_ci(#[trigger] h[j].0, name),
    decreases h.len(),
{
    if h.len() > 0 && !eq_ci(h[0].0, name) {
        lemma_headers_find(h.skip(1), name);
        assert forall|j: int| 0 <= j < headers_find(h, name) implies !eq_ci(
            #[trigger] h[j].0,
            name,
        ) by {
            if j >= 1 {
                assert(h.skip(1)[j - 1] == h[j]);
            }
        }
    }
}

/// Look up a header value by case-insensitive name.
pub fn headers_get<'a>(headers: &'a Vec<(String, String)>, name: &str) -> (r: Option<&'a String>)
    ensures
        ({
            let h = headers_view(headers@);
            let k = headers_find(h, name@);
            match r {
                Some(v) => k < h.len() && v@ == h[k].1,
                None => k == h.len(),
            }
        }),
{
    proof {
        lemma_headers_find(headers_view(headers@), name@);
    }
    let ghost h = headers_view(headers@);
    let mut i: usize = 0;
    while i < headers.len()
        invariant
            0 <= i <= headers@.len(),
            h == headers_view(headers@),
            forall|j: int| 0 <= j < i ==> !eq_ci(#[trigger] h[j].0, name@),
        decreases headers@.len() - i,
    {
        if str_eq_ci(headers[i].0.as_str(), name) {
            proof {
                assert(h[i as int] == (headers@[i as int].0@, headers@[i as int].1@));
                assert(eq_ci(h[i as int].0, name@));
                lemma_headers_find(h, name@);
                if headers_find(h, name@) < i as int {
                    assert(eq_ci(h[headers_find(h, name@)].0, name@));
                } else if headers_find(h, name@) > i as int {
                    assert(!eq_ci(h[i as int].0, name@));
                }
                assert(headers_find(h, name@) == i as int);
            }
            return Some(&headers[i].1);
        }
        assert(h[i as int] == (headers@[i as int].0@, headers@[i as int].1@));
        assert(!eq_ci(h[i as int].0, name@));
        i += 1;
    }
    proof {
        lemma_headers_find(h, name@);
        if headers_find(h, name@) < h.len() {
            assert(eq_ci(h[headers_find(h, name@)].0, name@));
        }
    }
    None
}

/// Store a header: replace the value of the case-insensitively equal
/// key if one exists (the stored key keeps its original spelling, as a
/// map insert would), else append a new entry.
pub open spec fn headers_upsert(
    h: Seq<(Seq<char>, Seq<char>)>,
    name: Seq<char>,
    value: Seq<char>,
) -> Seq<(Seq<char>, Seq<char>)> {
    let k = headers_find(h, name);
    if k < h.len() {
        h.update(k, (h[k].0, value))
    } else {
        h.push((name, value))
    }
}

/// Upserting keeps the keys pairwise distinct.
pub proof fn lemma_headers_upsert_distinct(
    h: Seq<(Seq<char>, Seq<char>)>,
    name: Seq<char>,
    value: Seq<char>,
)
    requires
        headers_distinct(h),
    ensures
        headers_distinct(headers_upsert(h, name, value)),
{
    lemma_headers_find(h, name);
    let k = headers_find(h, name);
    let r = headers_upsert(h, name, value);
    if k < h.len() {
        assert forall|i: int, j: int| 0 <= i < j < r.len() implies !eq_ci(
            #[trigger] r[i].0,
            #[trigger] r[j].0,
        ) by {
            assert(r[i].0 == h[i].0);
            assert(r[j].0 == h[j].0);
        }
    } else {
        assert forall|i: int, j: int| 0 <= i < j < r.len() implies !eq_ci(
            #[trigger] r[i].0,
            #[trigger] r[j].0,
        ) by {
            if j == h.len() {
                assert(r[i].0 == h[i].0);
                assert(r[j].0 == name);
                assert(!eq_ci(h[i].0, name));
                lemma_eq_ci_symm_trans(h[i].0, name);
            } else {
                assert(r[i].0 == h[i].0);
                assert(r[j].0 == h[j].0);
            }
        }
    }
}

/// Case-insensitive equality is symmetric.
proof fn lemma_eq_ci_symm_trans(a: Seq<char>, b: Seq<char>)
    ensures
        eq_ci(a, b) == eq_ci(b, a),
{
    if eq_ci(a, b) {
        assert forall|i: int| 0 <= i < b.len() implies eq_ci_char(#[trigger] b[i], a[i]) by {
            assert(eq_ci_char(a[i], b[i]));
        }
    }
    if eq_ci(b, a) {
        assert forall|i: int| 0 <= i < a.len() implies eq_ci_char(#[trigger] a[i], b[i]) by {
            assert(eq_ci_char(b[i], a[i]));
        }
    }
}

/// Store a header in a header vector, per [`headers_upsert`].
pub fn headers_insert(headers: &mut Vec<(String, String)>, name: String, value: String)
    ensures
        headers_view(final(headers)@) == headers_upsert(
            headers_view(old(headers)@),
            name@,
            value@,
        ),
{
    let ghost h = headers_view(old(headers)@);
    proof {
        lemma_headers_find(h, name@);
    }
    let mut i: usize = 0;
    while i < headers.len()
        invariant
            0 <= i <= headers@.len(),
            headers@ == old(headers)@,
            h == headers_view(headers@),
            forall|j: int| 0 <= j < i ==> !eq_ci(#[trigger] h[j].0, name@),
        decreases headers@.len() - i,
    {
        if str_eq_ci(headers[i].0.as_str(), name.as_str()) {
            proof {
                assert(h[i as int] == (headers@[i as int].0@, headers@[i as int].1@));
                assert(eq_ci(h[i as int].0, name@));
                lemma_headers_find(h, name@);
                if headers_find(h, name@) < i as int {
                    assert(eq_ci(h[headers_find(h, name@)].0, name@));
                } else if headers_find(h, name@) > i as int {
                    assert(!eq_ci(h[i as int].0, name@));
                }
                assert(headers_find(h, name@) == i as int);
            }
            let key = headers[i].0.clone();
            headers[i] = (key, value);
            proof {
                assert(headers_view(headers@) =~= headers_upsert(h, name@, value@));
            }
            return ;
        }
        assert(!eq_ci(h[i as int].0, name@));
        i += 1;
    }
    proof {
        lemma_headers_find(h, name@);
        if headers_find(h, name@) < h.len() {
            assert(eq_ci(h[headers_find(h, name@)].0, name@));
        }
    }
    headers.push((name, value));
    proof {
        assert(headers_view(headers@) =~= headers_upsert(h, name@, value@));
    }
}

/// Mathematical image of a compiled chart.
#[verifier::ext_equal]
pub ghost struct ChartModel {
    pub resolution: u32,
    pub headers: Seq<(Seq<char>, Seq<char>)>,
    pub objects: Seq<BmsObject>,
    pub barlines: Seq<u64>,
}

/// A compiled chart: normalized objects, headers, and per-measure
/// barline ticks, at a fixed tick resolution per quarter note.
#[derive(Debug)]
pub struct BmsChart {
    /// Ticks per quarter note.
    pub resolution: u32,
    /// Header name/value pairs; names are case-insensitively unique.
    pub headers: Vec<(String, String)>,
    /// The positioned objects, always sorted and deduplicated.
    pub objects: Vec<BmsObject>,
    /// The starting tick of each measure, ascending.
    pub barlines: Vec<u64>,
}

impl View for BmsChart {
    type V = ChartModel;

    open spec fn view(&self) -> ChartModel {
        ChartModel {
            resolution: self.resolution,
            headers: headers_view(self.headers@),
            objects: self.objects@,
            barlines: self.barlines@,
        }
    }
}

impl BmsChart {
    /// Chart invariant: a positive resolution, normalized objects whose
    /// ticks stay within `i64`, and case-insensitively unique header keys.
    pub open spec fn wf(self) -> bool {
        &&& self.resolution >= 1
        &&& normalized_objs(self.objects@)
        &&& forall|i: int|
            0 <= i < self.objects@.len() ==> (#[trigger] self.objects@[i]).tick
                <= 0x7fff_ffff_ffff_ffff
        &&& headers_distinct(self@.headers)
    }

    /// Restore the object invariant: sort by position (ties broken by
    /// channel then value) and drop same-slot duplicates, keeping every
    /// background-music object.
    pub fn update_objects(&mut self)
        ensures
            final(self).objects@ == spec_normalize(old(self).objects@),
            normalized_objs(final(self).objects@),
            final(self).resolution == old(self).resolution,
            final(self).headers == old(self).headers,
            final(self).barlines == old(self).barlines,
    {
        let sorted = sort_vec_objs(&self.objects);
        let deduped = dedup_vec_objs(&sorted);
        self.objects = deduped;
        proof {
            lemma_normalize_normalized(old(self).objects@);
        }
    }
}

/// The injected source of draws for `#RANDOM` directives.
///
/// A draw for `#RANDOM max` is expected to fall in `1..=max`; the
/// compiler itself does not depend on that range. An implementation
/// must behave as the pure function `spec_draw`, which is what makes
/// compilation a deterministic function of its inputs.
pub trait RandomSource {
    /// The value this source yields for `max`.
    spec fn spec_draw(&self, max: u32) -> u32;

    /// Draw the value for `#RANDOM max`.
    fn draw(&self, max: u32) -> (r: u32)
        ensures
            r == self.spec_draw(max),
    ;
}

/// A source that always draws the maximum.
pub struct MaxRandom;

impl RandomSource for MaxRandom {
    open spec fn spec_draw(&self, max: u32) -> u32 {
        max
    }

    fn draw(&self, max: u32) -> (r: u32) {
        max
    }
}

/// A source that always draws the same fixed value.
pub struct ConstRandom {
    pub value: u32,
}

impl RandomSource for ConstRandom {
    open spec fn spec_draw(&self, max: u32) -> u32 {
        self.value
    }

    fn draw(&self, max: u32) -> (r: u32) {
        self.value
    }
}

/// Why a compilation was rejected. Every failure is fatal: no partial
/// chart is returned.
#[derive(Clone, Copy, Debug, PartialEq, Eq, Structural)]
pub enum ParseError {
    /// `#RANDOM` whose count does not fit a `u32`.
    BadRandomValue,
    /// `#IF` whose value does not fit a `u32`.
    BadIfValue,
    /// `#IF` while no `#RANDOM` draw is on the stack.
    IfWithoutRandom,
    /// Time-signature line whose multiplier is not a plain decimal.
    BadTimeSignature,
    /// Grid line whose channel characters do not read as base 36.
    BadChannel,
    /// Grid line with a character pair outside the channel's digit base.
    BadObjectValue,
    /// The chart's tick positions exceed the representable range.
    TickOverflow,
}

/// One grid cell before position resolution: a value on a channel, at
/// pair index `idx` of `cnt` within a measure.
#[derive(Clone, Copy, Debug)]
pub struct RawCell {
    pub channel: u16,
    pub measure: u32,
    pub idx: usize,
    pub cnt: usize,
    pub value: u16,
}

/// Scanner state: the conditional-compilation stacks and everything
/// collected from accepted chart lines.
#[verifier::ext_equal]
pub ghost struct ScanModel {
    pub rng_stack: Seq<u32>,
    pub skip_stack: Seq<bool>,
    pub headers: Seq<(Seq<char>, Seq<char>)>,
    pub sigs: Seq<(u32, Rat)>,
    pub cells: Seq<RawCell>,
}

impl ScanModel {
    pub open spec fn init() -> ScanModel {
        ScanModel {
            rng_stack: Seq::empty(),
            skip_stack: Seq::empty(),
            headers: Seq::empty(),
            sigs: Seq::empty(),
            cells: Seq::empty(),
        }
    }

    /// Invariants the scanner maintains: well-formed multipliers,
    /// distinct header keys, and grid cells with a valid index range.
    pub open spec fn wf(self) -> bool {
        &&& headers_distinct(self.headers)
        &&& forall|i: int| 0 <= i < self.sigs.len() ==> (#[trigger] self.sigs[i]).1.wf()
        &&& forall|i: int|
            0 <= i < self.cells.len() ==> (#[trigger] self.cells[i]).idx < self.cells[i].cnt
                && self.cells[i].measure <= 999
    }
}

/// Index of measure `m` in the time-signature list, or its length.
pub open spec fn sigs_find(s: Seq<(u32, Rat)>, m: u32) -> int
    decreases s.len(),
{
    if s.len() == 0 {
        0
    } else if s[0].0 == m {
        0
    } else {
        1 + sigs_find(s.skip(1), m)
    }
}

pub proof fn lemma_sigs_find(s: Seq<(u32, Rat)>, m: u32)
    ensures
        0 <= sigs_find(s, m) <= s.len(),
        sigs_find(s, m) < s.len() ==> s[sigs_find(s, m)].0 == m,
        forall|j: int| 0 <= j < sigs_find(s, m) ==> (#[trigger] s[j]).0 != m,
    decreases s.len(),
{
    if s.len() > 0 && s[0].0 != m {
        lemma_sigs_find(s.skip(1), m);
        assert forall|j: int| 0 <= j < sigs_find(s, m) implies (#[trigger] s[j]).0 != m by {
            if j >= 1 {
                assert(s.skip(1)[j - 1] == s[j]);
            }
        }
    }
}

/// Set measure `m`'s multiplier, replacing any previous entry.
pub open spec fn sigs_upsert(s: Seq<(u32, Rat)>, m: u32, v: Rat) -> Seq<(u32, Rat)> {
    let k = sigs_find(s, m);
    if k < s.len() {
        s.update(k, (m, v))
    } else {
        s.push((m, v))
    }
}

/// The multiplier in force for measure `m`: its entry, or 1.
pub open spec fn sig_of(s: Seq<(u32, Rat)>, m: u32) -> Rat {
    let k = sigs_find(s, m);
    if k < s.len() {
        s[k].1
    } else {
        Rat { num: 1, den: 1 }
    }
}

/// Decode the first `k` two-character pairs of a grid value string in
/// the given base; `None` when a character is outside the base.
pub open spec fn decode_pairs(vals: Seq<char>, base: int, k: nat) -> Option<Seq<u16>>
    decreases k,
{
    if k == 0 {
        Some(Seq::empty())
    } else {
        match decode_pairs(vals, base, (k - 1) as nat) {
            None => None,
            Some(pref) => {
                let c1 = vals[2 * (k - 1)];
                let c2 = vals[2 * (k - 1) + 1];
                if is_digit(c1, base) && is_digit(c2, base) {
                    Some(pref.push((digit_val(c1) * base + digit_val(c2)) as u16))
                } else {
                    None
                }
            },
        }
    }
}

/// The grid cells of a line's first `k` decoded pairs: pair `i` of `n`
/// sits at fraction `i/n` of its measure; zero pairs are dropped.
pub open spec fn cells_from(decoded: Seq<u16>, channel: u16, measure: u32, k: nat) -> Seq<RawCell>
    decreases k,
{
    if k == 0 {
        Seq::empty()
    } else {
        let pref = cells_from(decoded, channel, measure, (k - 1) as nat);
        if decoded[k - 1] != 0 {
            pref.push(
                RawCell {
                    channel,
                    measure,
                    idx: (k - 1) as usize,
                    cnt: decoded.len() as usize,
                    value: decoded[k - 1],
                },
            )
        } else {
            pref
        }
    }
}

/// One scanner step: classify the line and apply it. Control
/// directives act even inside a skipped branch; chart lines act only
/// when no skip is active.
pub open spec fn spec_step<R: RandomSource>(st: ScanModel, line: Seq<char>, rng: &R) -> Result<
    ScanModel,
    ParseError,
> {
    let skipping = st.skip_stack.len() > 0 && st.skip_stack.last();
    match spec_classify(line) {
        LineClass::Random { value } => match value {
            None => Err(ParseError::BadRandomValue),
            Some(max) => Ok(ScanModel { rng_stack: st.rng_stack.push(rng.spec_draw(max)), ..st }),
        },
        LineClass::EndRandom => Ok(
            ScanModel {
                rng_stack: if st.rng_stack.len() > 0 {
                    st.rng_stack.drop_last()
                } else {
                    st.rng_stack
                },
                ..st
            },
        ),
        LineClass::If { value } => match value {
            None => Err(ParseError::BadIfValue),
            Some(v) => {
                if st.rng_stack.len() == 0 {
                    Err(ParseError::IfWithoutRandom)
                } else {
                    Ok(ScanModel { skip_stack: st.skip_stack.push(st.rng_stack.last() != v), ..st })
                }
            },
        },
        LineClass::EndIf => Ok(
            ScanModel {
                skip_stack: if st.skip_stack.len() > 0 {
                    st.skip_stack.drop_last()
                } else {
                    st.skip_stack
                },
                ..st
            },
        ),
        LineClass::TimeSig { measure, mult } => {
            if skipping {
                Ok(st)
            } else {
                match mult {
                    None => Err(ParseError::BadTimeSignature),
                    Some(r) => Ok(ScanModel { sigs: sigs_upsert(st.sigs, measure, r), ..st }),
                }
            }
        },
        LineClass::Grid { measure, channel, vals_at } => {
            if skipping {
                Ok(st)
            } else {
                match channel {
                    None => Err(ParseError::BadChannel),
                    Some(ch) => {
                        let vals = line.skip(vals_at as int);
                        let base: int = if ch == 3 {
                            16
                        } else {
                            36
                        };
                        match decode_pairs(vals, base, vals.len() / 2) {
                            None => Err(ParseError::BadObjectValue),
                            Some(decoded) => Ok(
                                ScanModel {
                                    cells: st.cells + cells_from(
                                        decoded,
                                        ch,
                                        measure,
                                        decoded.len(),
                                    ),
                                    ..st
                                },
                            ),
                        }
                    },
                }
            }
        },
        LineClass::Header { name_at, name_end, val_at, val_end } => {
            if skipping {
                Ok(st)
            } else {
                Ok(
                    ScanModel {
                        headers: headers_upsert(
                            st.headers,
                            line.subrange(name_at as int, name_end as int),
                            line.subrange(val_at as int, val_end as int),
                        ),
                        ..st
                    },
                )
            }
        },
        LineClass::Other => Ok(st),
    }
}

/// Scanner state after the first `n` lines.
pub open spec fn spec_scan<R: RandomSource>(lines: Seq<Seq<char>>, n: int, rng: &R) -> Result<
    ScanModel,
    ParseError,
>
    decreases n,
{
    if n <= 0 {
        Ok(ScanModel::init())
    } else {
        match spec_scan(lines, n - 1, rng) {
            Err(e) => Err(e),
            Ok(st) => spec_step(st, lines[n - 1], rng),
        }
    }
}

/// The greatest measure number among the cells.
pub open spec fn max_measure(cells: Seq<RawCell>) -> u32
    decreases cells.len(),
{
    if cells.len() == 0 {
        0
    } else {
        let m = max_measure(cells.drop_last());
        if cells.last().measure > m {
            cells.last().measure
        } else {
            m
        }
    }
}

/// Round `num / den` (with `den >= 1`) to the nearest integer, halves
/// away from zero.
pub open spec fn round_div(num: int, den: int) -> int {
    if num >= 0 {
        (num + den / 2) / den
    } else {
        -(((-num) + den / 2) / den)
    }
}

/// Ticks a measure spans: its multiplier times four quarter notes at
/// `resolution` ticks each, rounded, never negative.
pub open spec fn measure_width(sig: Rat, resolution: u32) -> int {
    let w = round_div(sig.num * 4 * resolution, sig.den as int);
    if w >= 0 {
        w
    } else {
        0
    }
}

/// The cells of measure `m` among the first `k`, in collection order.
pub open spec fn cells_in(cells: Seq<RawCell>, m: u32, k: int) -> Seq<RawCell>
    decreases k,
{
    if k <= 0 {
        Seq::empty()
    } else {
        let pref = cells_in(cells, m, k - 1);
        if cells[k - 1].measure == m {
            pref.push(cells[k - 1])
        } else {
            pref
        }
    }
}

/// Positioned objects of one measure: each cell lands at its measure's
/// base tick plus its rounded fraction of the measure's width.
pub open spec fn place_cells(sel: Seq<RawCell>, base: int, width: int, k: int) -> Seq<BmsObject>
    decreases k,
{
    if k <= 0 {
        Seq::empty()
    } else {
        place_cells(sel, base, width, k - 1).push(
            BmsObject {
                channel: sel[k - 1].channel,
                tick: (base + round_div(sel[k - 1].idx * width, sel[k - 1].cnt as int)) as u64,
                value: sel[k - 1].value,
            },
        )
    }
}

/// Accumulator of the measure walk.
#[verifier::ext_equal]
pub ghost struct LayoutAcc {
    pub ticks: int,
    pub barlines: Seq<u64>,
    pub objects: Seq<BmsObject>,
}

impl LayoutAcc {
    pub open spec fn init() -> LayoutAcc {
        LayoutAcc { ticks: 0, barlines: Seq::empty(), objects: Seq::empty() }
    }
}

/// Walk measures `m..=maxm`: record each measure's starting tick as a
/// barline, place its cells, and advance by its width; fail when the
/// running tick count would leave the representable range.
pub open spec fn spec_layout(
    cells: Seq<RawCell>,
    sigs: Seq<(u32, Rat)>,
    resolution: u32,
    m: int,
    maxm: int,
    acc: LayoutAcc,
) -> Result<LayoutAcc, ParseError>
    decreases maxm + 1 - m,
{
    if m > maxm || m < 0 {
        Ok(acc)
    } else {
        let width = measure_width(sig_of(sigs, m as u32), resolution);
        if acc.ticks + width > 0x7fff_ffff_ffff_ffff {
            Err(ParseError::TickOverflow)
        } else {
            let sel = cells_in(cells, m as u32, cells.len() as int);
            let placed = place_cells(sel, acc.ticks, width, sel.len() as int);
            spec_layout(
                cells,
                sigs,
                resolution,
                m + 1,
                maxm,
                LayoutAcc {
                    ticks: acc.ticks + width,
                    barlines: acc.barlines.push(acc.ticks as u64),
                    objects: acc.objects + placed,
                },
            )
        }
    }
}

/// Scanner state, the executable side of [`ScanModel`].
struct ScanState {
    rng_stack: Vec<u32>,
    skip_stack: Vec<bool>,
    headers: Vec<(String, String)>,
    sigs: Vec<(u32, Rat)>,
    cells: Vec<RawCell>,
}

impl ScanState {
    spec fn model(&self) -> ScanModel {
        ScanModel {
            rng_stack: self.rng_stack@,
            skip_stack: self.skip_stack@,
            headers: headers_view(self.headers@),
            sigs: self.sigs@,
            cells: self.cells@,
        }
    }
}

/// Set measure `m`'s multiplier in the time-signature list.
fn sigs_insert(sigs: &mut Vec<(u32, Rat)>, m: u32, v: Rat)
    ensures
        final(sigs)@ == sigs_upsert(old(sigs)@, m, v),
{
    let ghost h = old(sigs)@;
    let mut i: usize = 0;
    while i < sigs.len()
        invariant
            0 <= i <= sigs@.len(),
            sigs@ == h,
            h == old(sigs)@,
            forall|j: int| 0 <= j < i ==> (#[trigger] h[j]).0 != m,
        decreases sigs@.len() - i,
    {
        if sigs[i].0 == m {
            proof {
                lemma_sigs_find(h, m);
                if sigs_find(h, m) < i as int {
                    assert(h[sigs_find(h, m)].0 == m);
                } else if sigs_find(h, m) > i as int {
                    assert(h[i as int].0 != m);
                }
                assert(sigs_find(h, m) == i as int);
            }
            sigs[i] = (m, v);
            return ;
        }
        i += 1;
    }
    proof {
        lemma_sigs_find(h, m);
        if sigs_find(h, m) < h.len() {
            assert(h[sigs_find(h, m)].0 == m);
        }
    }
    sigs.push((m, v));
}

/// `decode_pairs` stays `None` once it fails.
proof fn lemma_decode_none_mono(vals: Seq<char>, base: int, k: nat, k2: nat)
    requires
        decode_pairs(vals, base, k) is None,
        k <= k2,
    ensures
        decode_pairs(vals, base, k2) is None,
    decreases k2 - k,
{
    if k2 > k {
        lemma_decode_none_mono(vals, base, k, (k2 - 1) as nat);
    }
}

/// Decode all pairs of a grid value string in the given base.
fn decode_vals(vals: &[char], base: u32) -> (r: Option<Vec<u16>>)
    requires
        base == 16 || base == 36,
    ensures
        match r {
            Some(v) => decode_pairs(vals@, base as int, vals@.len() / 2) == Some(v@) && v@.len()
                == vals@.len() / 2,
            None => decode_pairs(vals@, base as int, vals@.len() / 2) is None,
        },
{
    let n = vals.len() / 2;
    let mut out: Vec<u16> = Vec::new();
    let mut k: usize = 0;
    while k < n
        invariant
            0 <= k <= n,
            n == vals@.len() / 2,
            base == 16 || base == 36,
            decode_pairs(vals@, base as int, k as nat) == Some(out@),
            out@.len() == k,
        decreases n - k,
    {
        let n2 = vals.len();
        assert(2 * k + 1 < n2);
        let d1 = digit_val_of(vals[2 * k]);
        let d2 = digit_val_of(vals[2 * k + 1]);
        if d1 >= base || d2 >= base {
            proof {
                assert(decode_pairs(vals@, base as int, (k + 1) as nat) is None);
                lemma_decode_none_mono(vals@, base as int, (k + 1) as nat, vals@.len() / 2);
            }
            return None;
        }
        let value: u32 = if base == 16 {
            d1 * 16 + d2
        } else {
            d1 * 36 + d2
        };
        out.push(value as u16);
        k += 1;
    }
    Some(out)
}

/// Apply one line to the scanner state. `off` is where `line` starts
/// inside `data`, so header text can be taken from the source string.
#[verifier::rlimit(100)]
fn scan_line<R: RandomSource>(
    st: &mut ScanState,
    data: &str,
    off: usize,
    line: &[char],
    rng: &R,
) -> (r: Result<(), ParseError>)
    requires
        old(st).model().wf(),
        off + line@.len() <= data@.len(),
        line@ == data@.subrange(off as int, off + line@.len()),
    ensures
        match spec_step(old(st).model(), line@, rng) {
            Ok(m) => r is Ok && final(st).model() == m && m.wf(),
            Err(e) => r == Err::<(), ParseError>(e),
        },
{
    let c = crate::lines::classify(line);
    match c {
        crate::lines::LineClass::Random { value } => match value {
            None => Err(ParseError::BadRandomValue),
            Some(max) => {
                let d = rng.draw(max);
                st.rng_stack.push(d);
                Ok(())
            },
        },
        crate::lines::LineClass::EndRandom => {
            if st.rng_stack.len() > 0 {
                st.rng_stack.pop();
            }
            Ok(())
        },
        crate::lines::LineClass::If { value } => match value {
            None => Err(ParseError::BadIfValue),
            Some(v) => {
                if st.rng_stack.len() == 0 {
                    Err(ParseError::IfWithoutRandom)
                } else {
                    let top = st.rng_stack[st.rng_stack.len() - 1];
                    st.skip_stack.push(top != v);
                    Ok(())
                }
            },
        },
        crate::lines::LineClass::EndIf => {
            if st.skip_stack.len() > 0 {
                st.skip_stack.pop();
            }
            Ok(())
        },
        crate::lines::LineClass::TimeSig { measure, mult } => {
            let skipping = st.skip_stack.len() > 0 && st.skip_stack[st.skip_stack.len() - 1];
            if skipping {
                Ok(())
            } else {
                match mult {
                    None => Err(ParseError::BadTimeSignature),
                    Some(r) => {
                        proof {
                            crate::parse::lemma_spec_parse_decimal_wf(line@.skip(7));
                        }
                        sigs_insert(&mut st.sigs, measure, r);
                        proof {
                            let h = old(st).model().sigs;
                            let k = sigs_find(h, measure);
                            lemma_sigs_find(h, measure);
                            assert forall|i: int|
                                0 <= i < st.model().sigs.len() implies (#[trigger] st.model().sigs[i]).1.wf() by {
                                if k < h.len() {
                                    if i == k {
                                        assert(st.model().sigs[i] == (measure, r));
                                    } else {
                                        assert(st.model().sigs[i] == h[i]);
                                    }
                                } else {
                                    if i < h.len() {
                                        assert(st.model().sigs[i] == h[i]);
                                    } else {
                                        assert(st.model().sigs[i] == (measure, r));
                                    }
                                }
                            }
                        }
                        Ok(())
                    },
                }
            }
        },
        crate::lines::LineClass::Grid { measure, channel, vals_at } => {
            let skipping = st.skip_stack.len() > 0 && st.skip_stack[st.skip_stack.len() - 1];
            if skipping {
                Ok(())
            } else {
                match channel {
                    None => Err(ParseError::BadChannel),
                    Some(ch) => {
                        proof {
                            if crate::lines::grid_ext_match(line@) && !crate::lines::grid_plain_match(line@) {
                                crate::lines::lemma_ws_run_end(line@, 4);
                            }
                        }
                        let vals = vstd::slice::slice_subrange(line, vals_at, line.len());
                        proof {
                            assert(vals@ =~= line@.skip(vals_at as int));
                        }
                        let base: u32 = if ch == 3 {
                            16
                        } else {
                            36
                        };
                        match decode_vals(vals, base) {
                            None => Err(ParseError::BadObjectValue),
                            Some(decoded) => {
                                let ghost cells0 = old(st).model().cells;
                                let n = decoded.len();
                                let mut i: usize = 0;
                                while i < n
                                    invariant
                                        0 <= i <= n,
                                        n == decoded@.len(),
                                        st.model().cells == cells0 + cells_from(
                                            decoded@,
                                            ch,
                                            measure,
                                            i as nat,
                                        ),
                                        st.model().rng_stack == old(st).model().rng_stack,
                                        st.model().skip_stack == old(st).model().skip_stack,
                                        st.model().headers == old(st).model().headers,
                                        st.model().sigs == old(st).model().sigs,
                                        old(st).model().wf(),
                                        measure <= 999,
                                        forall|j: int|
                                            0 <= j < st.model().cells.len() ==> (
                                            #[trigger] st.model().cells[j]).idx < st.model().cells[j].cnt && st.model().cells[j].measure <= 999,
                                    decreases n - i,
                                {
                                    let v = decoded[i];
                                    if v != 0 {
                                        st.cells.push(
                                            RawCell { channel: ch, measure, idx: i, cnt: n, value: v },
                                        );
                                    }
                                    proof {
                                        assert(st.model().cells =~= cells0 + cells_from(
                                            decoded@,
                                            ch,
                                            measure,
                                            (i + 1) as nat,
                                        ));
                                    }
                                    i += 1;
                                }
                                proof {
                                    assert(st.model().cells == cells0 + cells_from(
                                        decoded@,
                                        ch,
                                        measure,
                                        decoded@.len(),
                                    ));
                                }
                                Ok(())
                            },
                        }
                    },
                }
            }
        },
        crate::lines::LineClass::Header { name_at, name_end, val_at, val_end } => {
            let skipping = st.skip_stack.len() > 0 && st.skip_stack[st.skip_stack.len() - 1];
            if skipping {
                Ok(())
            } else {
                let dn = data.unicode_len();
                let ll = line.len();
                proof {
                    crate::lines::lemma_word_run_end(line@, 1);
                    if crate::lines::header_match(line@) {
                        crate::lines::lemma_ws_run_end(
                            line@,
                            crate::lines::word_run_end(line@, 1),
                        );
                    }
                    assert(name_at <= name_end <= ll);
                    assert(val_at <= val_end <= ll);
                }
                let name = data.substring_char(off + name_at, off + name_end).to_owned();
                let value = data.substring_char(off + val_at, off + val_end).to_owned();
                proof {
                    assert(name@ =~= line@.subrange(name_at as int, name_end as int));
                    assert(value@ =~= line@.subrange(val_at as int, val_end as int));
                }
                headers_insert(&mut st.headers, name, value);
                proof {
                    lemma_headers_upsert_distinct(old(st).model().headers, name@, value@);
                }
                Ok(())
            }
        },
        crate::lines::LineClass::Other => Ok(()),
    }
}

/// The characters of a string, in order.
pub(crate) fn str_to_chars(data: &str) -> (v: Vec<char>)
    ensures
        v@ == data@,
{
    let n = data.unicode_len();
    let mut v: Vec<char> = Vec::new();
    let mut i: usize = 0;
    while i < n
        invariant
            0 <= i <= n,
            n == data@.len(),
            v@ == data@.take(i as int),
        decreases n - i,
    {
        v.push(data.get_char(i));
        proof {
            assert(data@.take(i + 1) =~= data@.take(i as int).push(data@[i as int]));
        }
        i += 1;
    }
    proof {
        assert(data@.take(n as int) =~= data@);
    }
    v
}

/// The bounds of the text once surrounding whitespace is removed.
fn trim_bounds(chars: &[char]) -> (r: (usize, usize))
    ensures
        r.0 <= r.1 <= chars@.len(),
        chars@.subrange(r.0 as int, r.1 as int) == spec_trim(chars@),
{
    let a = crate::lines::skip_ws(chars, 0);
    proof {
        crate::lines::lemma_ws_run_end(chars@, 0);
        crate::lines::lemma_trim_front_is_skip(chars@);
    }
    let mut b = chars.len();
    while b > a && crate::parse::is_ws_char(chars[b - 1])
        invariant
            a <= b <= chars@.len(),
            a as int == crate::lines::ws_run_end(chars@, 0),
            forall|j: int| b <= j < chars@.len() ==> crate::parse::is_ws(#[trigger] chars@[j]),
        decreases b,
    {
        b -= 1;
    }
    proof {
        let front = chars@.skip(a as int);
        assert forall|j: int| b - a <= j < front.len() implies crate::parse::is_ws(
            #[trigger] front[j],
        ) by {
            assert(front[j] == chars@[j + a]);
        }
        if b > a {
            assert(!crate::parse::is_ws(front[b - a - 1]));
        }
        crate::lines::lemma_trim_back_is_take(front, b - a as int);
        assert(front.take(b - a as int) =~= chars@.subrange(a as int, b as int));
    }
    (a, b)
}

/// First `'\n'` at or after `from`, or the length.
fn find_nl(t: &[char], from: usize) -> (r: usize)
    requires
        from <= t@.len(),
    ensures
        from <= r <= t@.len(),
        r - from == crate::parse::find_char(t@.skip(from as int), '\n'),
        r < t@.len() ==> t@[r as int] == '\n',
{
    let ghost u = t@.skip(from as int);
    let mut i = from;
    while i < t.len()
        invariant
            from <= i <= t@.len(),
            u == t@.skip(from as int),
            forall|j: int| from <= j < i ==> t@[j] != '\n',
        decreases t@.len() - i,
    {
        if t[i] == '\n' {
            proof {
                crate::parse::lemma_find_char(u, '\n');
                assert(u[i - from] == '\n');
                assert forall|j: int| 0 <= j < i - from implies u[j] != '\n' by {
                    assert(u[j] == t@[j + from]);
                }
                if crate::parse::find_char(u, '\n') < i - from {
                    assert(u[crate::parse::find_char(u, '\n')] == '\n');
                }
            }
            return i;
        }
        i += 1;
    }
    proof {
        crate::parse::lemma_find_char(u, '\n');
        assert forall|j: int| 0 <= j < u.len() implies u[j] != '\n' by {
            assert(u[j] == t@[j + from]);
        }
        if crate::parse::find_char(u, '\n') < u.len() {
            assert(u[crate::parse::find_char(u, '\n')] == '\n');
        }
    }
    i
}

/// The line spans of `spans`, read back as text slices.
pub open spec fn spans_lines(spans: Seq<(usize, usize)>, t: Seq<char>) -> Seq<Seq<char>> {
    spans.map_values(|p: (usize, usize)| t.subrange(p.0 as int, p.1 as int))
}

/// Cut the text into its lines, as spans.
fn line_spans(t: &[char]) -> (spans: Vec<(usize, usize)>)
    ensures
        spans_lines(spans@, t@) == split_lines(t@),
        forall|k: int|
            0 <= k < spans@.len() ==> (#[trigger] spans@[k]).0 <= spans@[k].1 <= t@.len(),
{
    let mut spans: Vec<(usize, usize)> = Vec::new();
    let mut pos: usize = 0;
    proof {
        assert(t@.skip(0) =~= t@);
        assert(spans_lines(spans@, t@) =~= Seq::<Seq<char>>::empty());
        assert(Seq::<Seq<char>>::empty() + split_lines(t@) =~= split_lines(t@));
    }
    while pos < t.len()
        invariant
            0 <= pos <= t@.len(),
            split_lines(t@) == spans_lines(spans@, t@) + split_lines(t@.skip(pos as int)),
            forall|k: int|
                0 <= k < spans@.len() ==> (#[trigger] spans@[k]).0 <= spans@[k].1 <= t@.len(),
        decreases t@.len() - pos,
    {
        let ghost u = t@.skip(pos as int);
        let nl = find_nl(t, pos);
        let end: usize = if nl > pos && t[nl - 1] == '\r' {
            nl - 1
        } else {
            nl
        };
        let ghost spans0 = spans@;
        spans.push((pos, end));
        proof {
            let i = nl - pos as int;
            assert(u.len() > 0);
            if i < u.len() {
                // a newline: the head line is the text up to it
                assert(split_lines(u) == seq![crate::lines::strip_cr(u.take(i))] + split_lines(
                    u.skip(i + 1),
                ));
            }
            assert(u.take(i) =~= t@.subrange(pos as int, nl as int));
            if nl > pos && t@[nl - 1] == '\r' {
                assert(crate::lines::strip_cr(u.take(i)) =~= t@.subrange(pos as int, end as int));
            } else {
                assert(crate::lines::strip_cr(u.take(i)) =~= t@.subrange(pos as int, end as int));
            }
            assert(spans_lines(spans@, t@) =~= spans_lines(spans0, t@).push(
                t@.subrange(pos as int, end as int),
            ));
            if i < u.len() {
                assert(u.skip(i + 1) =~= t@.skip(nl + 1 as int));
            } else {
                assert(crate::lines::strip_cr(u) == crate::lines::strip_cr(u.take(i)));
                assert(split_lines(u) == seq![crate::lines::strip_cr(u)]);
                assert(split_lines(t@.skip(t@.len() as int)) =~= Seq::<Seq<char>>::empty());
            }
            assert(split_lines(t@) =~= spans_lines(spans@, t@) + split_lines(
                t@.skip(if i < u.len() {
                    nl + 1 as int
                } else {
                    t@.len() as int
                }),
            ));
        }
        if nl < t.len() {
            pos = nl + 1;
        } else {
            pos = t.len();
        }
    }
    proof {
        assert(split_lines(t@.skip(pos as int)) =~= Seq::<Seq<char>>::empty());
        assert(spans_lines(spans@, t@) + Seq::<Seq<char>>::empty() =~= spans_lines(spans@, t@));
    }
    spans
}

/// A failed scan stays failed however many more lines follow.
proof fn lemma_scan_err<R: RandomSource>(lines: Seq<Seq<char>>, k: int, n: int, rng: &R)
    requires
        spec_scan(lines, k, rng) is Err,
        k <= n,
    ensures
        spec_scan(lines, n, rng) == spec_scan(lines, k, rng),
    decreases n - k,
{
    if n > k {
        lemma_scan_err(lines, k, n - 1, rng);
    }
}

/// The greatest measure among the cells.
fn max_measure_exec(cells: &Vec<RawCell>) -> (r: u32)
    ensures
        r == max_measure(cells@),
{
    let mut m: u32 = 0;
    let mut i: usize = 0;
    while i < cells.len()
        invariant
            0 <= i <= cells@.len(),
            m == max_measure(cells@.take(i as int)),
        decreases cells@.len() - i,
    {
        let c = cells[i];
        proof {
            assert(cells@.take(i + 1).drop_last() =~= cells@.take(i as int));
            assert(cells@.take(i + 1).last() == cells@[i as int]);
        }
        if c.measure > m {
            m = c.measure;
        }
        i += 1;
    }
    proof {
        assert(cells@.take(cells@.len() as int) =~= cells@);
    }
    m
}

/// With all cell measures bounded, so is the maximum.
proof fn lemma_max_measure_bound(cells: Seq<RawCell>)
    requires
        forall|i: int| 0 <= i < cells.len() ==> (#[trigger] cells[i]).measure <= 999,
    ensures
        max_measure(cells) <= 999,
    decreases cells.len(),
{
    if cells.len() > 0 {
        assert(cells.last() == cells[cells.len() - 1]);
        lemma_max_measure_bound(cells.drop_last());
    }
}

/// The time signature in force for measure `m`.
fn sig_lookup(sigs: &Vec<(u32, Rat)>, m: u32) -> (r: Rat)
    requires
        forall|i: int| 0 <= i < sigs@.len() ==> (#[trigger] sigs@[i]).1.wf(),
    ensures
        r == sig_of(sigs@, m),
        r.wf(),
{
    let ghost h = sigs@;
    let mut i: usize = 0;
    while i < sigs.len()
        invariant
            0 <= i <= sigs@.len(),
            h == sigs@,
            forall|j: int| 0 <= j < i ==> (#[trigger] h[j]).0 != m,
            forall|j: int| 0 <= j < h.len() ==> (#[trigger] h[j]).1.wf(),
        decreases sigs@.len() - i,
    {
        if sigs[i].0 == m {
            proof {
                lemma_sigs_find(h, m);
                if sigs_find(h, m) < i as int {
                    assert(h[sigs_find(h, m)].0 == m);
                } else if sigs_find(h, m) > i as int {
                    assert(h[i as int].0 != m);
                }
            }
            return sigs[i].1;
        }
        i += 1;
    }
    proof {
        lemma_sigs_find(h, m);
        if sigs_find(h, m) < h.len() {
            assert(h[sigs_find(h, m)].0 == m);
        }
    }
    Rat { num: 1, den: 1 }
}

/// Ticks a measure spans, computed exactly.
fn measure_width_exec(sig: Rat, res: u32) -> (w: u128)
    requires
        sig.wf(),
        res >= 1,
    ensures
        w as int == measure_width(sig, res),
{
    proof {
        crate::rat::lemma_mul_bounds(
            sig.num * 4,
            res as int,
            0x2_0000_0000_0000_0000,
            0x1_0000_0000,
        );
    }
    let a: i128 = sig.num as i128 * 4;
    let num: i128 = a * (res as i128);
    let den: u128 = sig.den as u128;
    if num <= 0 {
        proof {
            vstd::arithmetic::div_mod::lemma_div_of0(den as int);
            if num < 0 {
                vstd::arithmetic::div_mod::lemma_div_is_ordered(
                    0,
                    (-(num as int)) + (den as int) / 2,
                    den as int,
                );
            } else {
                vstd::arithmetic::div_mod::lemma_basic_div((den as int) / 2, den as int);
            }
        }
        0
    } else {
        let mag: u128 = num as u128;
        let q: u128 = (mag + den / 2) / den;
        proof {
            vstd::arithmetic::div_mod::lemma_div_of0(den as int);
            vstd::arithmetic::div_mod::lemma_div_is_ordered(
                0,
                mag + (den as int) / 2,
                den as int,
            );
        }
        q
    }
}

/// A cell's rounded offset never passes the end of its measure.
proof fn lemma_cell_offset_le(idx: int, cnt: int, w: int)
    by (nonlinear_arith)
    requires
        0 <= idx < cnt,
        w >= 0,
    ensures
        0 <= (idx * w + cnt / 2) / cnt <= w,
{
}

/// A cell's tick offset within its measure.
fn cell_offset(idx: usize, cnt: usize, width: u64) -> (off: u64)
    requires
        1 <= cnt,
        idx < cnt,
        width <= 0x7fff_ffff_ffff_ffff,
    ensures
        off as int == round_div(idx * width, cnt as int),
        off <= width,
{
    proof {
        crate::rat::lemma_mul_bounds(
            idx as int,
            width as int,
            0xffff_ffff_ffff_ffff,
            0x7fff_ffff_ffff_ffff,
        );
        lemma_cell_offset_le(idx as int, cnt as int, width as int);
    }
    let p: u128 = idx as u128 * width as u128;
    let q: u128 = (p + (cnt as u128) / 2) / (cnt as u128);
    q as u64
}

/// The compiled chart as a function of the source text, the resolution
/// and the random source: the whole compiler in one specification.
pub open spec fn spec_compile<R: RandomSource>(
    data: Seq<char>,
    resolution: u32,
    rng: &R,
) -> Result<ChartModel, ParseError> {
    let lines = split_lines(spec_trim(data));
    match spec_scan(lines, lines.len() as int, rng) {
        Err(e) => Err(e),
        Ok(st) => {
            if st.cells.len() == 0 {
                Ok(
                    ChartModel {
                        resolution,
                        headers: st.headers,
                        objects: Seq::empty(),
                        barlines: Seq::empty(),
                    },
                )
            } else {
                match spec_layout(
                    st.cells,
                    st.sigs,
                    resolution,
                    0,
                    max_measure(st.cells) as int,
                    LayoutAcc::init(),
                ) {
                    Err(e) => Err(e),
                    Ok(acc) => Ok(
                        ChartModel {
                            resolution,
                            headers: st.headers,
                            objects: spec_normalize(acc.objects),
                            barlines: acc.barlines,
                        },
                    ),
                }
            }
        },
    }
}

/// `place_cells` reads only the first `k` cells of its selection.
proof fn lemma_place_cells_prefix(sel: Seq<RawCell>, c: RawCell, base: int, width: int, k: int)
    requires
        0 <= k <= sel.len(),
    ensures
        place_cells(sel.push(c), base, width, k) == place_cells(sel, base, width, k),
    decreases k,
{
    if k > 0 {
        lemma_place_cells_prefix(sel, c, base, width, k - 1);
        assert(sel.push(c)[k - 1] == sel[k - 1]);
    }
}

impl BmsChart {
    /// Compile chart text.
    ///
    /// Lines are classified per the chart grammar; `#RANDOM`/`#IF`
    /// branches are resolved through `rng`; grid cells are placed on an
    /// absolute tick grid of `resolution` ticks per quarter note; the
    /// object list is normalized. The result is pinned to
    /// [`spec_compile`], a pure function of the inputs, so compilation
    /// is deterministic; every rejected input is reported through
    /// [`ParseError`] exactly as that function states.
    ///
    /// A zero resolution is excluded: quarter-note positions are ticks
    /// over the resolution, which a zero denominator would leave
    /// undefined everywhere downstream.
    #[verifier::rlimit(100)]
    pub fn compile<R: RandomSource>(data: &str, resolution: u32, rng: &R) -> (r: Result<
        BmsChart,
        ParseError,
    >)
        requires
            resolution >= 1,
        ensures
            match r {
                Ok(chart) => spec_compile(data@, resolution, rng) == Ok::<ChartModel, ParseError>(
                    chart@,
                ) && chart.wf(),
                Err(e) => spec_compile(data@, resolution, rng) == Err::<ChartModel, ParseError>(e),
            },
    {
        let chars = str_to_chars(data);
        let cslice = chars.as_slice();
        let (a, b) = trim_bounds(cslice);
        let t = vstd::slice::slice_subrange(cslice, a, b);
        proof {
            assert(t@ == spec_trim(data@));
        }
        let ghost lines = split_lines(t@);
        let spans = line_spans(t);
        let mut st = ScanState {
            rng_stack: Vec::new(),
            skip_stack: Vec::new(),
            headers: Vec::new(),
            sigs: Vec::new(),
            cells: Vec::new(),
        };
        proof {
            assert(spans_lines(spans@, t@).len() == lines.len());
            assert(st.model() =~= ScanModel::init());
        }
        let mut k: usize = 0;
        while k < spans.len()
            invariant
                0 <= k <= spans@.len(),
                lines == split_lines(t@),
                spans_lines(spans@, t@) == lines,
                forall|j: int|
                    0 <= j < spans@.len() ==> (#[trigger] spans@[j]).0 <= spans@[j].1 <= t@.len(),
                t@ == chars@.subrange(a as int, b as int),
                t@ == spec_trim(data@),
                chars@ == data@,
                a <= b <= chars@.len(),
                spec_scan(lines, k as int, rng) == Ok::<ScanModel, ParseError>(st.model()),
                st.model().wf(),
            decreases spans@.len() - k,
        {
            let sp = spans[k];
            let line = vstd::slice::slice_subrange(t, sp.0, sp.1);
            proof {
                assert(line@ == t@.subrange(sp.0 as int, sp.1 as int));
                assert(spans_lines(spans@, t@)[k as int] == line@);
                assert(line@ =~= data@.subrange(a + sp.0 as int, a + sp.1 as int));
            }
            match scan_line(&mut st, data, a + sp.0, line, rng) {
                Ok(()) => {},
                Err(e) => {
                    proof {
                        assert(spec_scan(lines, k + 1 as int, rng) == Err::<ScanModel, ParseError>(
                            e,
                        ));
                        lemma_scan_err(lines, k + 1 as int, lines.len() as int, rng);
                    }
                    return Err(e);
                },
            }
            k += 1;
        }
        proof {
            assert(spec_scan(lines, lines.len() as int, rng) == Ok::<ScanModel, ParseError>(
                st.model(),
            ));
        }
        let ghost scanm = st.model();
        let ScanState { rng_stack: _, skip_stack: _, headers, sigs, cells } = st;
        if cells.len() == 0 {
            let chart = BmsChart { resolution, headers, objects: Vec::new(), barlines: Vec::new() };
            proof {
                assert(chart@.objects =~= Seq::<BmsObject>::empty());
                assert(chart@.barlines =~= Seq::<u64>::empty());
            }
            return Ok(chart);
        }
        let maxm = max_measure_exec(&cells);
        proof {
            lemma_max_measure_bound(cells@);
        }
        let mut ticks: u64 = 0;
        let mut barlines: Vec<u64> = Vec::new();
        let mut objects: Vec<BmsObject> = Vec::new();
        let mut m: u32 = 0;
        let ghost sigsv = sigs@;
        let ghost cellsv = cells@;
        proof {
            assert((LayoutAcc {
                ticks: ticks as int,
                barlines: barlines@,
                objects: objects@,
            }) =~= LayoutAcc::init());
        }
        while m <= maxm
            invariant
                0 <= m <= maxm + 1,
                maxm <= 999,
                maxm == max_measure(cellsv),
                sigsv == sigs@,
                cellsv == cells@,
                cellsv.len() > 0,
                spec_scan(
                    split_lines(spec_trim(data@)),
                    split_lines(spec_trim(data@)).len() as int,
                    rng,
                ) == Ok::<ScanModel, ParseError>(scanm),
                scanm.cells == cellsv,
                scanm.sigs == sigsv,
                scanm.headers == headers_view(headers@),
                headers_distinct(scanm.headers),
                forall|i: int| 0 <= i < sigsv.len() ==> (#[trigger] sigsv[i]).1.wf(),
                forall|i: int|
                    0 <= i < cellsv.len() ==> (#[trigger] cellsv[i]).idx < cellsv[i].cnt
                        && cellsv[i].measure <= 999,
                resolution >= 1,
                ticks <= 0x7fff_ffff_ffff_ffff,
                forall|i: int|
                    0 <= i < objects@.len() ==> (#[trigger] objects@[i]).tick
                        <= 0x7fff_ffff_ffff_ffff,
                spec_layout(
                    cellsv,
                    sigsv,
                    resolution,
                    m as int,
                    maxm as int,
                    LayoutAcc { ticks: ticks as int, barlines: barlines@, objects: objects@ },
                ) == spec_layout(cellsv, sigsv, resolution, 0, maxm as int, LayoutAcc::init()),
            decreases maxm + 1 - m,
        {
            let ghost acc0 = LayoutAcc {
                ticks: ticks as int,
                barlines: barlines@,
                objects: objects@,
            };
            let sig = sig_lookup(&sigs, m);
            let width = measure_width_exec(sig, resolution);
            if width > (0x7fff_ffff_ffff_ffff - ticks) as u128 {
                proof {
                    assert(spec_layout(cellsv, sigsv, resolution, m as int, maxm as int, acc0)
                        == Err::<LayoutAcc, ParseError>(ParseError::TickOverflow));
                }
                return Err(ParseError::TickOverflow);
            }
            let width64: u64 = width as u64;
            barlines.push(ticks);
            let ghost objs0 = objects@;
            let mut j: usize = 0;
            while j < cells.len()
                invariant
                    0 <= j <= cells@.len(),
                    cellsv == cells@,
                    forall|i: int|
                        0 <= i < cellsv.len() ==> (#[trigger] cellsv[i]).idx < cellsv[i].cnt
                            && cellsv[i].measure <= 999,
                    width64 <= 0x7fff_ffff_ffff_ffff,
                    ticks + width64 <= 0x7fff_ffff_ffff_ffff,
                    forall|i: int|
                        0 <= i < objs0.len() ==> (#[trigger] objs0[i]).tick
                            <= 0x7fff_ffff_ffff_ffff,
                    objects@ == objs0 + place_cells(
                        cells_in(cellsv, m, j as int),
                        ticks as int,
                        width64 as int,
                        cells_in(cellsv, m, j as int).len() as int,
                    ),
                    forall|i: int|
                        0 <= i < objects@.len() ==> (#[trigger] objects@[i]).tick
                            <= 0x7fff_ffff_ffff_ffff,
                decreases cells@.len() - j,
            {
                let c = cells[j];
                let ghost sel0 = cells_in(cellsv, m, j as int);
                if c.measure == m {
                    let off = cell_offset(c.idx, c.cnt, width64);
                    objects.push(
                        BmsObject { channel: c.channel, tick: ticks + off, value: c.value },
                    );
                    proof {
                        let sel1 = cells_in(cellsv, m, j + 1 as int);
                        assert(sel1 == sel0.push(c));
                        lemma_place_cells_prefix(
                            sel0,
                            c,
                            ticks as int,
                            width64 as int,
                            sel0.len() as int,
                        );
                        assert(place_cells(sel1, ticks as int, width64 as int, sel1.len() as int)
                            == place_cells(
                            sel0,
                            ticks as int,
                            width64 as int,
                            sel0.len() as int,
                        ).push(
                            BmsObject {
                                channel: c.channel,
                                tick: (ticks + round_div(
                                    c.idx * width64,
                                    c.cnt as int,
                                )) as u64,
                                value: c.value,
                            },
                        ));
                    }
                } else {
                    proof {
                        assert(cells_in(cellsv, m, j + 1 as int) == sel0);
                    }
                }
                j += 1;
            }
            proof {
                assert(cells_in(cellsv, m, cellsv.len() as int) == cells_in(
                    cellsv,
                    m,
                    cells@.len() as int,
                ));
                assert(spec_layout(cellsv, sigsv, resolution, m as int, maxm as int, acc0)
                    == spec_layout(
                    cellsv,
                    sigsv,
                    resolution,
                    m + 1 as int,
                    maxm as int,
                    LayoutAcc { ticks: ticks + width64 as int, barlines: barlines@, objects: objects@ },
                ));
            }
            ticks = ticks + width64;
            m = m + 1;
        }
        let mut chart = BmsChart { resolution, headers, objects, barlines };
        chart.update_objects();
        proof {
            let acc = LayoutAcc {
                ticks: ticks as int,
                barlines: chart.barlines@,
                objects: objects@,
            };
            assert(spec_layout(cellsv, sigsv, resolution, m as int, maxm as int, acc) == Ok::<
                LayoutAcc,
                ParseError,
            >(acc));
            assert forall|i: int|
                0 <= i < chart.objects@.len() implies (#[trigger] chart.objects@[i]).tick
                <= 0x7fff_ffff_ffff_ffff by {
                lemma_normalize_elems(objects@, i);
                let k2 = choose|k2: int|
                    0 <= k2 < objects@.len() && objects@[k2] == spec_normalize(objects@)[i];
                assert(objects@[k2].tick <= 0x7fff_ffff_ffff_ffff);
            }
        }
        Ok(chart)
    }
}

} // verus!
