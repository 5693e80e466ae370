//! The keysound table: header entries `WAVxx` (name read
//! case-insensitively, `xx` a two-character base-36 id) map keysound
//! ids to file names. A one-pass lookup over a compiled chart's
//! headers.

use vstd::prelude::*;

use crate::chart::{eq_ci_char, BmsChart};
use crate::parse::{is_ws, spec_parse_uint, parse_uint};

verus! {

/// First index whose key equals `id`, or the length.
pub open spec fn ks_find(s: Seq<(u16, Seq<char>)>, id: u16) -> int
    decreases s.len(),
{
    if s.len() == 0 {
        0
    } else if s[0].0 == id {
        0
    } else {
        1 + ks_find(s.skip(1), id)
    }
}

pub proof fn lemma_ks_find(s: Seq<(u16, Seq<char>)>, id: u16)
    ensures
        0 <= ks_find(s, id) <= s.len(),
        ks_find(s, id) < s.len() ==> s[ks_find(s, id)].0 == id,
        forall|j: int| 0 <= j < ks_find(s, id) ==> (#[trigger] s[j]).0 != id,
    decreases s.len(),
{
    if s.len() > 0 && s[0].0 != id {
        lemma_ks_find(s.skip(1), id);
        assert forall|j: int| 0 <= j < ks_find(s, id) implies (#[trigger] s[j]).0 != id by {
            if j >= 1 {
                assert(s.skip(1)[j - 1] == s[j]);
            }
        }
    }
}

/// Bind `id` to `name`, replacing any previous binding.
pub open spec fn ks_upsert(s: Seq<(u16, Seq<char>)>, id: u16, name: Seq<char>) -> Seq<
    (u16, Seq<char>),
> {
    let k = ks_find(s, id);
    if k < s.len() {
        s.update(k, (id, name))
    } else {
        s.push((id, name))
    }
}

/// The key is `WAV` (any case) followed by two non-whitespace
/// characters.
pub open spec fn wav_matches(key: Seq<char>) -> bool {
    &&& key.len() == 5
    &&& eq_ci_char(key[0], 'w')
    &&& eq_ci_char(key[1], 'a')
    &&& eq_ci_char(key[2], 'v')
    &&& !is_ws(key[3])
    &&& !is_ws(key[4])
}

/// The keysound table of the first `n` headers: each `WAVxx` entry
/// whose id reads as base 36 binds that id to the header's value; an
/// unreadable id is silently skipped.
pub open spec fn spec_keysounds(headers: Seq<(Seq<char>, Seq<char>)>, n: int) -> Seq<
    (u16, Seq<char>),
>
    decreases n,
{
    if n <= 0 {
        Seq::empty()
    } else {
        let pref = spec_keysounds(headers, n - 1);
        let key = headers[n - 1].0;
        if wav_matches(key) {
            match spec_parse_uint(key.subrange(3, 5), 36, u16::MAX as int) {
                Some(id) => ks_upsert(pref, id as u16, headers[n - 1].1),
                None => pref,
            }
        } else {
            pref
        }
    }
}

/// Mathematical image of a keysound table.
pub open spec fn keysounds_view(v: Seq<(u16, String)>) -> Seq<(u16, Seq<char>)> {
    v.map_values(|p: (u16, String)| (p.0, p.1@))
}

/// Bind `id` to `name` in a keysound table.
fn ks_insert(m: &mut Vec<(u16, String)>, id: u16, name: String)
    ensures
        keysounds_view(final(m)@) == ks_upsert(keysounds_view(old(m)@), id, name@),
{
    let ghost h = keysounds_view(old(m)@);
    let mut i: usize = 0;
    while i < m.len()
        invariant
            0 <= i <= m@.len(),
            m@ == old(m)@,
            h == keysounds_view(m@),
            forall|j: int| 0 <= j < i ==> (#[trigger] h[j]).0 != id,
        decreases m@.len() - i,
    {
        proof {
            assert(h[i as int] == (m@[i as int].0, m@[i as int].1@));
        }
        if m[i].0 == id {
            proof {
                lemma_ks_find(h, id);
                if ks_find(h, id) < i as int {
                    assert(h[ks_find(h, id)].0 == id);
                } else if ks_find(h, id) > i as int {
                    assert(h[i as int].0 != id);
                }
            }
            m[i] = (id, name);
            proof {
                assert(keysounds_view(m@) =~= ks_upsert(h, id, name@));
            }
            return ;
        }
        i += 1;
    }
    proof {
        lemma_ks_find(h, id);
        if ks_find(h, id) < h.len() {
            assert(h[ks_find(h, id)].0 == id);
        }
    }
    m.push((id, name));
    proof {
        assert(keysounds_view(m@) =~= ks_upsert(h, id, name@));
    }
}

/// Build the keysound id-to-filename table from a chart's headers.
pub fn generate_keysounds(chart: &BmsChart) -> (r: Vec<(u16, String)>)
    ensures
        keysounds_view(r@) == spec_keysounds(chart@.headers, chart@.headers.len() as int),
{
    let ghost hv = chart@.headers;
    let mut out: Vec<(u16, String)> = Vec::new();
    let mut i: usize = 0;
    while i < chart.headers.len()
        invariant
            0 <= i <= hv.len(),
            hv == chart@.headers,
            keysounds_view(out@) == spec_keysounds(hv, i as int),
        decreases hv.len() - i,
    {
        proof {
            assert(hv[i as int] == (chart.headers@[i as int].0@, chart.headers@[i as int].1@));
        }
        let key = &chart.headers[i].0;
        let kl = key.as_str().unicode_len();
        if kl == 5 {
            let c0 = key.as_str().get_char(0);
            let c1 = key.as_str().get_char(1);
            let c2 = key.as_str().get_char(2);
            let ok_prefix = ci_is(c0, 'w') && ci_is(c1, 'a') && ci_is(c2, 'v');
            let c3 = key.as_str().get_char(3);
            let c4 = key.as_str().get_char(4);
            if ok_prefix && !crate::parse::is_ws_char(c3) && !crate::parse::is_ws_char(c4) {
                assert(wav_matches(key@));
                let kchars = crate::chart::str_to_chars(key.as_str());
                let suffix = vstd::slice::slice_subrange(kchars.as_slice(), 3, 5);
                proof {
                    assert(suffix@ =~= key@.subrange(3, 5));
                }
                match parse_uint(suffix, 36, 0xffff) {
                    Some(id) => {
                        let value = chart.headers[i].1.clone();
                        ks_insert(&mut out, id as u16, value);
                    },
                    None => {},
                }
            }
        }
        i += 1;
    }
    out
}

/// Case-insensitive single-character comparison.
fn ci_is(a: char, b: char) -> (r: bool)
    ensures
        r == eq_ci_char(a, b),
{
    let ua = a as u32;
    let ub = b as u32;
    let la = if 65 <= ua && ua <= 90 {
        ua + 32
    } else {
        ua
    };
    let lb = if 65 <= ub && ub <= 90 {
        ub + 32
    } else {
        ub
    };
    la == lb
}

} // verus!
