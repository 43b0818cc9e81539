//! Pruning the chord universe to the notes of a scale.
use vstd::prelude::*;
use crate::chord::{bit_set, chord_views, key_ok, lemma_mask_within, mask_with, Chord, ChordView};
use crate::ordering::{ordered_if, ordered_table, sort_reproducibly, sort_table_reproducibly};
use crate::text::same_text;
use crate::universe::{
    all_keys_ok, contains_same, dedup, expand_chords, expanded, keep, lemma_dedup_unique,
    lemma_keep_commute, lemma_keep_contains, lemma_keep_ext, lemma_keep_none, table_of,
    table_of_list, table_views, unique_identities,
};

verus! {

/// A closed choice among the named scales.
#[derive(Clone, Copy, Debug, PartialEq, Eq, Structural)]
pub enum Scale {
    Disabled,
    Natural,
    Melodic,
    Harmonic,
    Pentatonic,
    Romanian,
    Hungarian,
    AllNotes,
    HalfWhole,
    WholeHalf,
    Unrecognized,
}

/// The scale a name selects; an unknown name selects `Unrecognized`.
pub open spec fn scale_of(name: Seq<char>) -> Scale {
    if name == "disabled"@ {
        Scale::Disabled
    } else if name == "natural"@ {
        Scale::Natural
    } else if name == "melodic"@ {
        Scale::Melodic
    } else if name == "harmonic"@ {
        Scale::Harmonic
    } else if name == "pentatonic"@ {
        Scale::Pentatonic
    } else if name == "romanian"@ {
        Scale::Romanian
    } else if name == "hungarian"@ {
        Scale::Hungarian
    } else if name == "all_notes"@ {
        Scale::AllNotes
    } else if name == "half_whole"@ {
        Scale::HalfWhole
    } else if name == "whole_half"@ {
        Scale::WholeHalf
    } else {
        Scale::Unrecognized
    }
}

/// The pitch classes of a scale in the key of C minor, ascending; `None`
/// for a disabled or unrecognized scale, which prunes nothing.
pub open spec fn scale_notes(s: Scale) -> Option<Seq<int>> {
    match s {
        Scale::Natural => Some(seq![0int, 2, 3, 5, 7, 8, 10]),
        Scale::Melodic => Some(seq![0int, 2, 3, 5, 7, 9, 11]),
        Scale::Harmonic => Some(seq![0int, 2, 3, 5, 7, 8, 11]),
        Scale::Pentatonic => Some(seq![0int, 3, 5, 7, 10]),
        Scale::Romanian => Some(seq![0int, 2, 3, 6, 7, 9, 10]),
        Scale::Hungarian => Some(seq![0int, 2, 3, 6, 7, 8, 11]),
        Scale::AllNotes => Some(seq![0int, 1, 2, 3, 4, 5, 6, 7, 8, 9, 10, 11]),
        Scale::HalfWhole => Some(seq![0int, 1, 3, 4, 6, 7, 9, 10]),
        Scale::WholeHalf => Some(seq![0int, 2, 3, 5, 6, 8, 9, 11]),
        _ => None,
    }
}

impl Scale {
    /// Reads a scale name.
    pub fn from_name(name: &str) -> (r: Self)
        ensures
            r == scale_of(name@),
    {
        if same_text(name, "disabled") {
            Scale::Disabled
        } else if same_text(name, "natural") {
            Scale::Natural
        } else if same_text(name, "melodic") {
            Scale::Melodic
        } else if same_text(name, "harmonic") {
            Scale::Harmonic
        } else if same_text(name, "pentatonic") {
            Scale::Pentatonic
        } else if same_text(name, "romanian") {
            Scale::Romanian
        } else if same_text(name, "hungarian") {
            Scale::Hungarian
        } else if same_text(name, "all_notes") {
            Scale::AllNotes
        } else if same_text(name, "half_whole") {
            Scale::HalfWhole
        } else if same_text(name, "whole_half") {
            Scale::WholeHalf
        } else {
            Scale::Unrecognized
        }
    }

    /// The scale's pitch classes in the key of C minor, ascending.
    pub fn notes(self) -> (r: Option<Vec<i16>>)
        ensures
            match scale_notes(self) {
                None => r is None,
                Some(g) => r is Some && int_views(r->Some_0@) =~= g,
            },
    {
        let v: Vec<i16> = match self {
            Scale::Natural => vec![0, 2, 3, 5, 7, 8, 10],
            Scale::Melodic => vec![0, 2, 3, 5, 7, 9, 11],
            Scale::Harmonic => vec![0, 2, 3, 5, 7, 8, 11],
            Scale::Pentatonic => vec![0, 3, 5, 7, 10],
            Scale::Romanian => vec![0, 2, 3, 6, 7, 9, 10],
            Scale::Hungarian => vec![0, 2, 3, 6, 7, 8, 11],
            Scale::AllNotes => vec![0, 1, 2, 3, 4, 5, 6, 7, 8, 9, 10, 11],
            Scale::HalfWhole => vec![0, 1, 3, 4, 6, 7, 9, 10],
            Scale::WholeHalf => vec![0, 2, 3, 5, 6, 8, 9, 11],
            _ => {
                return None;
            },
        };
        Some(v)
    }
}

/// A list of small integers as mathematical integers.
pub open spec fn int_views(v: Seq<i16>) -> Seq<int> {
    v.map_values(|n: i16| n as int)
}

/// Whether pitch class `p` lies outside the scale `good` once the scale is
/// moved up by `key` semitones: `p` is `(b + key) % 12` for a pitch class
/// `b` outside `good`.
pub open spec fn is_bad(good: Seq<int>, key: int, p: int) -> bool {
    0 <= p < 12 && !good.contains((p - key) % 12)
}

/// Whether none of the chord's pitch classes is bad.
pub open spec fn avoids_bad(good: Seq<int>, key: int, c: ChordView) -> bool {
    forall|p: int| 0 <= p < 12 && #[trigger] c.has_pitch_class(p) ==> !is_bad(good, key, p)
}

/// Whether a chord with the identity of `c` lies in a bucket of a bad pitch
/// class.
pub open spec fn in_bad_buckets(table: Seq<Seq<ChordView>>, good: Seq<int>, key: int, c: ChordView) -> bool {
    exists|p: int| #[trigger] is_bad(good, key, p) && contains_same(table[p], c)
}

/// The list left by pruning with the full chord sets: the expanded list
/// without every chord that a bucket of a bad pitch class holds.
pub open spec fn set_pruned_list(list: Seq<ChordView>, good: Seq<int>, key: int) -> Seq<ChordView> {
    keep(
        expanded(list),
        |c: ChordView| !in_bad_buckets(table_of(expanded(list)), good, key, c),
    )
}

/// The table left by pruning with the full chord sets: bad buckets are
/// emptied, and the other buckets lose the chords of the bad buckets.
pub open spec fn set_pruned_table(list: Seq<ChordView>, good: Seq<int>, key: int) -> Seq<Seq<ChordView>> {
    Seq::new(
        12,
        |q: int|
            if is_bad(good, key, q) {
                Seq::empty()
            } else {
                keep(
                    table_of(expanded(list))[q],
                    |c: ChordView| !in_bad_buckets(table_of(expanded(list)), good, key, c),
                )
            },
    )
}

/// The list left by pruning with masks: the expanded chords whose pitch
/// classes all lie in the scale.
pub open spec fn mask_pruned_list(list: Seq<ChordView>, good: Seq<int>, key: int) -> Seq<ChordView> {
    keep(expanded(list), |c: ChordView| avoids_bad(good, key, c))
}

/// The pitch classes from 0 to 11 that `good` does not hold, ascending.
pub fn complement_pitch_classes(good: &Vec<i16>) -> (bad: Vec<usize>)
    ensures
        forall|p: int| 0 <= p < 12 ==> (bad@.map_values(|n: usize| n as int).contains(p) <==> !int_views(good@).contains(p)),
        forall|i: int| 0 <= i < bad@.len() ==> (#[trigger] bad@[i]) < 12,
        forall|i: int, j: int| 0 <= i < j < bad@.len() ==> bad@[i] < bad@[j],
{
    let ghost gv = int_views(good@);
    let mut bad: Vec<usize> = Vec::new();
    let mut p: usize = 0;
    while p < 12
        invariant
            p <= 12,
            gv == int_views(good@),
            forall|i: int| 0 <= i < bad@.len() ==> (#[trigger] bad@[i]) < p,
            forall|i: int, j: int| 0 <= i < j < bad@.len() ==> bad@[i] < bad@[j],
            forall|x: int| 0 <= x < p ==> (bad@.map_values(|n: usize| n as int).contains(x) <==> !gv.contains(x)),
        decreases 12 - p,
    {
        let mut found = false;
        let mut i: usize = 0;
        while i < good.len()
            invariant
                i <= good@.len(),
                gv == int_views(good@),
                found == exists|j: int| 0 <= j < i && gv[j] == p as int,
            decreases good@.len() - i,
        {
            if good[i] as usize == p && good[i] >= 0 {
                found = true;
            }
            assert(gv[i as int] == good@[i as int] as int);
            i = i + 1;
        }
        let ghost before = bad@;
        if !found {
            bad.push(p);
        }
        proof {
            let bv = bad@.map_values(|n: usize| n as int);
            let bb = before.map_values(|n: usize| n as int);
            if !found {
                assert(bv =~= bb.push(p as int));
            } else {
                assert(bv =~= bb);
            }
            assert forall|x: int| 0 <= x < p + 1 implies (bv.contains(x) <==> !gv.contains(x)) by {
                if x == p {
                    if found {
                        let j = choose|j: int| 0 <= j < good@.len() && gv[j] == p as int;
                        assert(gv.contains(x));
                        if bv.contains(x) {
                            let k = choose|k: int| 0 <= k < bv.len() && bv[k] == x;
                            assert(bb[k] == x);
                        }
                    } else {
                        assert(bv[bv.len() - 1] == x);
                    }
                } else {
                    if bv.contains(x) && !found {
                        let k = choose|k: int| 0 <= k < bv.len() && bv[k] == x;
                        if k < bb.len() {
                            assert(bb[k] == x);
                        }
                    }
                    if bb.contains(x) {
                        let k = choose|k: int| 0 <= k < bb.len() && bb[k] == x;
                        assert(bv[k] == x);
                    }
                }
            }
        }
        p = p + 1;
    }
    bad
}

/// The scale's good pitch classes and the bad ones (its complement), both
/// ascending, in the key of C minor; `None` for `disabled` and for an
/// unrecognized name.
pub fn get_good_notes_set(scale: &str) -> (r: Option<(Vec<i16>, Vec<usize>)>)
    ensures
        match scale_notes(scale_of(scale@)) {
            None => r is None,
            Some(g) => r is Some && int_views(r->Some_0.0@) == g && (forall|p: int|
                0 <= p < 12 ==> (r->Some_0.1@.map_values(|n: usize| n as int).contains(p) <==> !g.contains(p)))
                && (forall|i: int| 0 <= i < r->Some_0.1@.len() ==> (#[trigger] r->Some_0.1@[i]) < 12)
                && (forall|i: int, j: int| 0 <= i < j < r->Some_0.1@.len() ==> r->Some_0.1@[i] < r->Some_0.1@[j]),
        },
{
    let s = Scale::from_name(scale);
    let good = match s.notes() {
        Some(g) => g,
        None => {
            return None;
        },
    };
    let bad = complement_pitch_classes(&good);
    Some((good, bad))
}

/// Whether pitch class `p` is good: the scale, moved up by `key`, holds it.
fn in_moved_scale(good: &Vec<i16>, key: i16, p: usize) -> (r: bool)
    requires
        p < 12,
        key_ok(key as int),
    ensures
        r == !is_bad(int_views(good@), key as int, p as int),
{
    let ghost gv = int_views(good@);
    let b: i16 = ((p as i16) + 12 - key) % 12;
    assert(b as int == (p - key) % 12);
    let mut i: usize = 0;
    while i < good.len()
        invariant
            i <= good@.len(),
            p < 12,
            b as int == (p - key) % 12,
            gv == int_views(good@),
            forall|j: int| 0 <= j < i ==> gv[j] != b as int,
        decreases good@.len() - i,
    {
        assert(gv[i as int] == good@[i as int] as int);
        if good[i] == b {
            assert(gv[i as int] == b as int);
            assert(gv.contains(b as int));
            assert(gv.contains((p - key) % 12));
            assert(!is_bad(gv, key as int, p as int));
            return true;
        }
        i = i + 1;
    }
    false
}

/// Whether some chord of `s` has the identity of `c`.
fn contains_same_chord(s: &Vec<Chord>, c: &Chord) -> (r: bool)
    ensures
        r == contains_same(chord_views(s@), c@),
{
    let mut i: usize = 0;
    while i < s.len()
        invariant
            i <= s@.len(),
            forall|j: int| 0 <= j < i ==> !(#[trigger] chord_views(s@)[j]).same_chord(c@),
        decreases s@.len() - i,
    {
        if s[i].same_chord(c) {
            assert(chord_views(s@)[i as int].same_chord(c@));
            return true;
        }
        i = i + 1;
    }
    false
}

/// The chords of `s` whose identity is not in `bad`, in order.
fn without_same(s: &Vec<Chord>, bad: &Vec<Chord>) -> (r: Vec<Chord>)
    ensures
        chord_views(r@) == keep(chord_views(s@), |c: ChordView| !contains_same(chord_views(bad@), c)),
{
    let ghost sv = chord_views(s@);
    let ghost pred = |c: ChordView| !contains_same(chord_views(bad@), c);
    let mut r: Vec<Chord> = Vec::new();
    let mut i: usize = 0;
    while i < s.len()
        invariant
            i <= s@.len(),
            sv == chord_views(s@),
            pred == (|c: ChordView| !contains_same(chord_views(bad@), c)),
            chord_views(r@) == keep(sv.subrange(0, i as int), pred),
        decreases s@.len() - i,
    {
        assert(sv.subrange(0, i + 1).drop_last() =~= sv.subrange(0, i as int));
        if !contains_same_chord(bad, &s[i]) {
            let ghost before = chord_views(r@);
            r.push(s[i].duplicate());
            assert(chord_views(r@) =~= before.push(sv[i as int]));
        }
        i = i + 1;
    }
    assert(sv.subrange(0, s@.len() as int) =~= sv);
    r
}

/// Removes the chords that have a note outside the chosen scale, with the
/// scale moved up by `key` (the key the universe is stamped with). The
/// list is first expanded (see `expand_chords`); every chord held by the
/// bucket of a bad pitch class is a bad chord; bad buckets are emptied,
/// the other buckets and the list lose the bad chords. A disabled or
/// unrecognized scale changes nothing. When `is_reproducible` is set, the
/// list and every bucket are then ordered by `reproducible_order`.
pub fn prune_chords(
    chord_table: &mut Vec<Vec<Chord>>,
    chord_list: &mut Vec<Chord>,
    scale: &str,
    key: i16,
    is_reproducible: bool,
)
    requires
        all_keys_ok(chord_views(old(chord_list)@)),
        key_ok(key as int),
    ensures
        match scale_notes(scale_of(scale@)) {
            None => final(chord_table)@ == old(chord_table)@ && final(chord_list)@ == old(chord_list)@,
            Some(g) => chord_views(final(chord_list)@) == ordered_if(
                set_pruned_list(chord_views(old(chord_list)@), g, key as int),
                is_reproducible,
            ) && table_views(final(chord_table)@) == ordered_table(
                set_pruned_table(chord_views(old(chord_list)@), g, key as int),
                is_reproducible,
            ),
        },
{
    let good = match Scale::from_name(scale).notes() {
        Some(g) => g,
        None => {
            return ;
        },
    };
    let ghost g = int_views(good@);
    let ghost k = key as int;
    let ghost lv = chord_views(chord_list@);
    let (all, table) = expand_chords(chord_list);
    let ghost tv = table_of(expanded(lv));
    assert(table@.len() == table_views(table@).len());
    let mut bad: Vec<Chord> = Vec::new();
    let mut p: usize = 0;
    while p < 12
        invariant
            p <= 12,
            key_ok(key as int),
            g == int_views(good@),
            k == key as int,
            tv == table_of(expanded(lv)),
            lv == chord_views(chord_list@),
            table_views(table@) == tv,
            table@.len() == 12,
            forall|x: ChordView| contains_same(chord_views(bad@), x) <==> exists|p2: int|
                0 <= p2 < p && #[trigger] is_bad(g, k, p2) && contains_same(tv[p2], x),
        decreases 12 - p,
    {
        if !in_moved_scale(&good, key, p) {
            let bucket = &table[p];
            assert(chord_views(bucket@) == tv[p as int]);
            let mut i: usize = 0;
            while i < bucket.len()
                invariant
                    p < 12,
                    i <= bucket@.len(),
                    chord_views(bucket@) == tv[p as int],
                    is_bad(g, k, p as int),
                    forall|x: ChordView| contains_same(chord_views(bad@), x) <==> (exists|p2: int|
                        0 <= p2 < p && #[trigger] is_bad(g, k, p2) && contains_same(tv[p2], x)) || contains_same(
                        chord_views(bucket@).subrange(0, i as int),
                        x,
                    ),
                decreases bucket@.len() - i,
            {
                let ghost before = chord_views(bad@);
                bad.push(bucket[i].duplicate());
                proof {
                    let bv = chord_views(bad@);
                    let sub = chord_views(bucket@).subrange(0, i + 1);
                    let sub0 = chord_views(bucket@).subrange(0, i as int);
                    assert(bv =~= before.push(bucket@[i as int]@));
                    assert forall|x: ChordView| contains_same(bv, x) <==> (contains_same(before, x) || bucket@[i as int]@.same_chord(x)) by {
                        if contains_same(bv, x) {
                            let j = choose|j: int| 0 <= j < bv.len() && (#[trigger] bv[j]).same_chord(x);
                            if j < before.len() {
                                assert(before[j] == bv[j]);
                            }
                        }
                        if contains_same(before, x) {
                            let j = choose|j: int| 0 <= j < before.len() && (#[trigger] before[j]).same_chord(x);
                            assert(bv[j] == before[j]);
                        }
                        if bucket@[i as int]@.same_chord(x) {
                            assert(bv[bv.len() - 1].same_chord(x));
                        }
                    }
                    assert forall|x: ChordView| contains_same(sub, x) <==> (contains_same(sub0, x) || bucket@[i as int]@.same_chord(x)) by {
                        if contains_same(sub, x) {
                            let j = choose|j: int| 0 <= j < sub.len() && (#[trigger] sub[j]).same_chord(x);
                            if j < sub0.len() {
                                assert(sub0[j] == sub[j]);
                            }
                        }
                        if contains_same(sub0, x) {
                            let j = choose|j: int| 0 <= j < sub0.len() && (#[trigger] sub0[j]).same_chord(x);
                            assert(sub[j] == sub0[j]);
                        }
                        if bucket@[i as int]@.same_chord(x) {
                            assert(sub[i as int].same_chord(x));
                        }
                    }
                }
                i = i + 1;
            }
            assert(chord_views(bucket@).subrange(0, bucket@.len() as int) =~= tv[p as int]);
        }
        proof {
            assert forall|x: ChordView| contains_same(chord_views(bad@), x) <==> exists|p2: int|
                0 <= p2 < p + 1 && #[trigger] is_bad(g, k, p2) && contains_same(tv[p2], x) by {
                if is_bad(g, k, p as int) && contains_same(tv[p as int], x) {
                    assert(exists|p2: int| 0 <= p2 < p + 1 && #[trigger] is_bad(g, k, p2) && contains_same(tv[p2], x));
                }
                if exists|p2: int| 0 <= p2 < p + 1 && #[trigger] is_bad(g, k, p2) && contains_same(tv[p2], x) {
                    let p2 = choose|p2: int| 0 <= p2 < p + 1 && #[trigger] is_bad(g, k, p2) && contains_same(tv[p2], x);
                    if p2 < p {
                        assert(exists|p3: int| 0 <= p3 < p && #[trigger] is_bad(g, k, p3) && contains_same(tv[p3], x));
                    }
                }
            }
        }
        p = p + 1;
    }
    proof {
        assert forall|x: ChordView| contains_same(chord_views(bad@), x) == in_bad_buckets(tv, g, k, x) by {
            if in_bad_buckets(tv, g, k, x) {
                let p2 = choose|p2: int| #[trigger] is_bad(g, k, p2) && contains_same(tv[p2], x);
                assert(0 <= p2 < 12);
            }
        }
    }
    let mut new_table: Vec<Vec<Chord>> = Vec::new();
    let mut q: usize = 0;
    while q < 12
        invariant
            q <= 12,
            key_ok(key as int),
            g == int_views(good@),
            k == key as int,
            tv == table_of(expanded(lv)),
            lv == chord_views(chord_list@),
            table_views(table@) == tv,
            table@.len() == 12,
            forall|x: ChordView| contains_same(chord_views(bad@), x) == in_bad_buckets(tv, g, k, x),
            new_table@.len() == q,
            forall|q2: int| 0 <= q2 < q ==> #[trigger] table_views(new_table@)[q2] == set_pruned_table(lv, g, k)[q2],
        decreases 12 - q,
    {
        let b = if in_moved_scale(&good, key, q) {
            without_same(&table[q], &bad)
        } else {
            Vec::new()
        };
        proof {
            assert(chord_views(table@[q as int]@) == tv[q as int]);
            if !is_bad(g, k, q as int) {
                let p1 = |c: ChordView| !contains_same(chord_views(bad@), c);
                let p2 = |c: ChordView| !in_bad_buckets(table_of(expanded(lv)), g, k, c);
                assert forall|i: int| 0 <= i < tv[q as int].len() implies p1(#[trigger] tv[q as int][i]) == p2(tv[q as int][i]) by {
                    assert(contains_same(chord_views(bad@), tv[q as int][i]) == in_bad_buckets(tv, g, k, tv[q as int][i]));
                }
                lemma_keep_ext(tv[q as int], p1, p2);
                assert(chord_views(b@) == set_pruned_table(lv, g, k)[q as int]);
            } else {
                assert(chord_views(b@) =~= set_pruned_table(lv, g, k)[q as int]);
            }
        }
        let ghost bv = chord_views(b@);
        let ghost before = new_table@;
        new_table.push(b);
        proof {
            assert forall|q2: int| 0 <= q2 < q + 1 implies #[trigger] table_views(new_table@)[q2] == set_pruned_table(lv, g, k)[q2] by {
                if q2 < q {
                    assert(new_table@[q2] == before[q2]);
                    assert(table_views(before)[q2] == set_pruned_table(lv, g, k)[q2]);
                } else {
                    assert(table_views(new_table@)[q2] == bv);
                }
            }
        }
        q = q + 1;
    }
    let new_list = without_same(&all, &bad);
    proof {
        let p1 = |c: ChordView| !contains_same(chord_views(bad@), c);
        let p2 = |c: ChordView| !in_bad_buckets(table_of(expanded(lv)), g, k, c);
        assert forall|i: int| 0 <= i < expanded(lv).len() implies p1(#[trigger] expanded(lv)[i]) == p2(expanded(lv)[i]) by {
            assert(contains_same(chord_views(bad@), expanded(lv)[i]) == in_bad_buckets(tv, g, k, expanded(lv)[i]));
        }
        lemma_keep_ext(expanded(lv), p1, p2);
    }
    assert(table_views(new_table@) =~= set_pruned_table(lv, g, k));
    assert(ordered_table(set_pruned_table(lv, g, k), false) =~= set_pruned_table(lv, g, k));
    *chord_table = new_table;
    *chord_list = new_list;
    if is_reproducible {
        sort_reproducibly(chord_list);
        sort_table_reproducibly(chord_table);
    }
}


/// The good pitch classes of the scale moved up by `key`, as a mask.
fn moved_scale_mask(good: &Vec<i16>, key: i16) -> (r: u16)
    requires
        key_ok(key as int),
    ensures
        r < 4096,
        forall|p: u16| p < 12 ==> (bit_set(r, p) <==> !is_bad(int_views(good@), key as int, p as int)),
{
    let mut m: u16 = 0;
    let mut p: u16 = 0;
    proof {
        assert forall|q: u16| q < 12 implies !bit_set(0u16, q) by {
            assert((0u16 >> q) & 1u16 != 1u16) by (bit_vector);
        }
    }
    while p < 12
        invariant
            p <= 12,
            key_ok(key as int),
            m < 4096,
            forall|q: u16| q < 12 ==> (bit_set(m, q) <==> (q < p && !is_bad(int_views(good@), key as int, q as int))),
        decreases 12 - p,
    {
        if in_moved_scale(good, key, p as usize) {
            m = mask_with(m, p);
        }
        p = p + 1;
    }
    m
}

/// The chords of `s` whose pitch classes all lie in the moved scale.
fn within_mask(s: &Vec<Chord>, gm: u16, Ghost(g): Ghost<Seq<int>>, Ghost(k): Ghost<int>) -> (r: Vec<Chord>)
    requires
        gm < 4096,
        all_keys_ok(chord_views(s@)),
        forall|p: u16| p < 12 ==> (bit_set(gm, p) <==> !is_bad(g, k, p as int)),
    ensures
        chord_views(r@) == keep(chord_views(s@), |c: ChordView| avoids_bad(g, k, c)),
{
    let ghost sv = chord_views(s@);
    let ghost pred = |c: ChordView| avoids_bad(g, k, c);
    let mut r: Vec<Chord> = Vec::new();
    let mut i: usize = 0;
    while i < s.len()
        invariant
            i <= s@.len(),
            gm < 4096,
            sv == chord_views(s@),
            all_keys_ok(sv),
            forall|p: u16| p < 12 ==> (bit_set(gm, p) <==> !is_bad(g, k, p as int)),
            pred == (|c: ChordView| avoids_bad(g, k, c)),
            chord_views(r@) == keep(sv.subrange(0, i as int), pred),
        decreases s@.len() - i,
    {
        assert(sv.subrange(0, i + 1).drop_last() =~= sv.subrange(0, i as int));
        assert(sv[i as int] == s@[i as int]@);
        assert(key_ok(sv[i as int].key as int));
        let m = s[i].get_notes_u16();
        proof {
            let c = sv[i as int];
            lemma_mask_within(m, gm);
            if m & gm == m {
                assert forall|p: int| 0 <= p < 12 && #[trigger] c.has_pitch_class(p) implies !is_bad(g, k, p) by {
                    assert(bit_set(m, p as u16));
                }
            }
            if avoids_bad(g, k, c) {
                assert forall|p: u16| p < 12 implies (bit_set(m, p) ==> bit_set(gm, p)) by {
                    if bit_set(m, p) {
                        assert(c.has_pitch_class(p as int));
                    }
                }
            }
        }
        if m & gm == m {
            let ghost before = chord_views(r@);
            r.push(s[i].duplicate());
            assert(chord_views(r@) =~= before.push(sv[i as int]));
        }
        i = i + 1;
    }
    assert(sv.subrange(0, s@.len() as int) =~= sv);
    r
}

/// The second way of pruning: the expanded list is filtered by the
/// chords' pitch-class masks (`mask & good == mask`), and the table is
/// derived from the filtered list. A disabled or unrecognized scale changes
/// nothing. When `is_reproducible` is set, the list and every bucket are
/// then ordered by `reproducible_order`.
pub fn prune_chords_mask(
    chord_table: &mut Vec<Vec<Chord>>,
    chord_list: &mut Vec<Chord>,
    scale: &str,
    key: i16,
    is_reproducible: bool,
)
    requires
        all_keys_ok(chord_views(old(chord_list)@)),
        key_ok(key as int),
    ensures
        match scale_notes(scale_of(scale@)) {
            None => final(chord_table)@ == old(chord_table)@ && final(chord_list)@ == old(chord_list)@,
            Some(g) => chord_views(final(chord_list)@) == ordered_if(
                mask_pruned_list(chord_views(old(chord_list)@), g, key as int),
                is_reproducible,
            ) && table_views(final(chord_table)@) == ordered_table(
                table_of(mask_pruned_list(chord_views(old(chord_list)@), g, key as int)),
                is_reproducible,
            ),
        },
{
    let good = match Scale::from_name(scale).notes() {
        Some(g) => g,
        None => {
            return ;
        },
    };
    let gm = moved_scale_mask(&good, key);
    let (all, _table) = expand_chords(chord_list);
    let new_list = within_mask(&all, gm, Ghost(int_views(good@)), Ghost(key as int));
    proof {
        let lv = chord_views(old(chord_list)@);
        let e = expanded(lv);
        assert forall|i: int| 0 <= i < chord_views(new_list@).len() implies crate::chord::key_ok(#[trigger] chord_views(new_list@)[i].key as int) by {
            let x = chord_views(new_list@)[i];
            assert(chord_views(new_list@).contains(x));
            lemma_keep_contains(e, |c: ChordView| avoids_bad(int_views(good@), key as int, c), x);
            let j = choose|j: int| 0 <= j < e.len() && e[j] == x;
        }
    }
    let new_table = table_of_list(&new_list);
    assert(ordered_table(table_views(new_table@), false) =~= table_views(new_table@));
    *chord_table = new_table;
    *chord_list = new_list;
    if is_reproducible {
        sort_reproducibly(chord_list);
        sort_table_reproducibly(chord_table);
    }
}

/// The two ways of pruning agree: for every list of chords, scale and key,
/// pruning with the full chord sets and pruning with pitch-class masks
/// leave the same list, and the same table.
pub proof fn lemma_pruning_equivalence(list: Seq<ChordView>, good: Seq<int>, key: int)
    ensures
        set_pruned_list(list, good, key) == mask_pruned_list(list, good, key),
        set_pruned_table(list, good, key) == table_of(mask_pruned_list(list, good, key)),
{
    let e = expanded(list);
    let t = table_of(e);
    let avoid = |c: ChordView| avoids_bad(good, key, c);
    let not_bad = |c: ChordView| !in_bad_buckets(table_of(expanded(list)), good, key, c);
    lemma_dedup_unique(crate::universe::flat_variants(list));
    assert forall|i: int| 0 <= i < e.len() implies not_bad(#[trigger] e[i]) == avoid(e[i]) by {
        let c = e[i];
        if !avoids_bad(good, key, c) {
            let p = choose|p: int| 0 <= p < 12 && #[trigger] c.has_pitch_class(p) && is_bad(good, key, p);
            let has_p = |x: ChordView| x.has_pitch_class(p);
            lemma_keep_contains(e, has_p, c);
            assert(t[p] == keep(e, has_p));
            let j = choose|j: int| 0 <= j < t[p].len() && t[p][j] == c;
            assert(t[p][j].same_chord(c));
            assert(in_bad_buckets(t, good, key, c));
        }
        if in_bad_buckets(t, good, key, c) {
            let p = choose|p: int| #[trigger] is_bad(good, key, p) && contains_same(t[p], c);
            let j = choose|j: int| 0 <= j < t[p].len() && (#[trigger] t[p][j]).same_chord(c);
            let d = t[p][j];
            let has_p = |x: ChordView| x.has_pitch_class(p);
            assert(t[p] == keep(e, has_p));
            assert(t[p].contains(d));
            lemma_keep_contains(e, has_p, d);
            let i2 = choose|i2: int| 0 <= i2 < e.len() && e[i2] == d;
            assert(e[i2].same_chord(e[i]));
            assert(i2 == i);
            assert(c.has_pitch_class(p));
        }
    }
    lemma_keep_ext(e, not_bad, avoid);
    let m = keep(e, avoid);
    assert forall|q: int| 0 <= q < 12 implies #[trigger] set_pruned_table(list, good, key)[q] == table_of(m)[q] by {
        let has_q = |x: ChordView| x.has_pitch_class(q);
        assert(table_of(m)[q] == keep(m, has_q));
        if is_bad(good, key, q) {
            assert forall|i: int| 0 <= i < m.len() implies !has_q(#[trigger] m[i]) by {
                assert(m.contains(m[i]));
                lemma_keep_contains(e, avoid, m[i]);
            }
            lemma_keep_none(m, has_q);
            assert(keep(m, has_q) =~= Seq::<ChordView>::empty());
        } else {
            assert(t[q] == keep(e, has_q));
            assert forall|i: int| 0 <= i < t[q].len() implies not_bad(#[trigger] t[q][i]) == avoid(t[q][i]) by {
                assert(t[q].contains(t[q][i]));
                lemma_keep_contains(e, has_q, t[q][i]);
                let i2 = choose|i2: int| 0 <= i2 < e.len() && e[i2] == t[q][i];
                assert(not_bad(e[i2]) == avoid(e[i2]));
            }
            lemma_keep_ext(t[q], not_bad, avoid);
            lemma_keep_commute(e, has_q, avoid);
        }
    }
    assert(set_pruned_table(list, good, key) =~= table_of(m));
}


/// After pruning, table and list agree (and so, when every chord has a
/// note, hold the same chords: see `lemma_table_list_consistency`).
pub proof fn lemma_pruned_consistent(list: Seq<ChordView>, good: Seq<int>, key: int)
    ensures
        crate::universe::consistent(set_pruned_table(list, good, key), set_pruned_list(list, good, key)),
{
    lemma_pruning_equivalence(list, good, key);
    crate::universe::lemma_table_of_consistent(mask_pruned_list(list, good, key));
}

/// Pruning removes every chord with a note outside the scale: no chord left
/// in the list or in any bucket has a pitch class that is bad for the scale
/// moved up by `key`.
pub proof fn lemma_pruning_removes_bad(list: Seq<ChordView>, good: Seq<int>, key: int)
    ensures
        forall|i: int| 0 <= i < set_pruned_list(list, good, key).len() ==> avoids_bad(good, key, #[trigger] set_pruned_list(list, good, key)[i]),
        forall|q: int, i: int| 0 <= q < 12 && 0 <= i < set_pruned_table(list, good, key)[q].len() ==> avoids_bad(
            good,
            key,
            #[trigger] set_pruned_table(list, good, key)[q][i],
        ),
{
    lemma_pruning_equivalence(list, good, key);
    let m = mask_pruned_list(list, good, key);
    let avoid = |c: ChordView| avoids_bad(good, key, c);
    assert forall|i: int| 0 <= i < m.len() implies avoids_bad(good, key, #[trigger] m[i]) by {
        assert(m.contains(m[i]));
        lemma_keep_contains(expanded(list), avoid, m[i]);
    }
    assert forall|q: int, i: int| 0 <= q < 12 && 0 <= i < set_pruned_table(list, good, key)[q].len() implies avoids_bad(
        good,
        key,
        #[trigger] set_pruned_table(list, good, key)[q][i],
    ) by {
        let x = set_pruned_table(list, good, key)[q][i];
        let has_q = |c: ChordView| c.has_pitch_class(q);
        assert(table_of(m)[q] == keep(m, has_q));
        assert(keep(m, has_q).contains(x));
        lemma_keep_contains(m, has_q, x);
        let j = choose|j: int| 0 <= j < m.len() && m[j] == x;
    }
}

/// The `disabled` scale prunes nothing (`prune_chords` then leaves table
/// and list as they are).
pub proof fn lemma_disabled_scale_prunes_nothing()
    ensures
        scale_notes(scale_of("disabled"@)) is None,
{
}


/// Pruning still holds after the key rotation: once a universe pruned in C
/// minor (key 0; expansion puts every chord there) is shown in key `k`, no chord has a pitch class that is
/// bad for the scale moved up by `k`.
pub proof fn lemma_rotated_pruning_removes_bad(list: Seq<ChordView>, good: Seq<int>, k: i16)
    requires
        key_ok(k as int),
    ensures
        forall|i: int| 0 <= i < crate::universe::stamped(set_pruned_list(list, good, 0), k).len() ==> avoids_bad(
            good,
            k as int,
            #[trigger] crate::universe::stamped(set_pruned_list(list, good, 0), k)[i],
        ),
{
    lemma_pruning_removes_bad(list, good, 0);
    let pl = set_pruned_list(list, good, 0);
    lemma_pruning_equivalence(list, good, 0);
    crate::universe::lemma_expanded_in_key(list);
    crate::universe::lemma_keep_in_key(expanded(list), |c: ChordView| avoids_bad(good, 0, c), 0);
    assert forall|i: int| 0 <= i < crate::universe::stamped(pl, k).len() implies avoids_bad(
        good,
        k as int,
        #[trigger] crate::universe::stamped(pl, k)[i],
    ) by {
        let y = pl[i];
        let x = crate::universe::stamped(pl, k)[i];
        assert(x == crate::universe::stamp(y, k));
        assert(y.key == 0);
        assert(avoids_bad(good, 0, y));
        assert forall|p: int| 0 <= p < 12 && #[trigger] x.has_pitch_class(p) implies !is_bad(good, k as int, p) by {
            crate::universe::lemma_stamp_pitch_class(y, 0, k, p);
            let q = (p - k) % 12;
            assert(y.has_pitch_class(q));
            assert(!is_bad(good, 0, q));
            assert((q - 0) % 12 == q);
        }
    }
}


/// Pruned chords are in the key of C minor, so their pitch classes are
/// those of `interval + root`.
pub proof fn lemma_pruned_in_key(list: Seq<ChordView>, good: Seq<int>, key: int)
    ensures
        crate::universe::all_in_key(set_pruned_list(list, good, key), 0),
        forall|q: int| 0 <= q < 12 ==> crate::universe::all_in_key(#[trigger] set_pruned_table(list, good, key)[q], 0),
{
    lemma_pruning_equivalence(list, good, key);
    crate::universe::lemma_expanded_in_key(list);
    let m = mask_pruned_list(list, good, key);
    crate::universe::lemma_keep_in_key(expanded(list), |c: ChordView| avoids_bad(good, key, c), 0);
    assert forall|q: int| 0 <= q < 12 implies crate::universe::all_in_key(#[trigger] set_pruned_table(list, good, key)[q], 0) by {
        assert(table_of(m)[q] == keep(m, |c: ChordView| c.has_pitch_class(q)));
        crate::universe::lemma_keep_in_key(m, |c: ChordView| c.has_pitch_class(q), 0);
    }
}

} // verus!
