//! The universe of candidate chords: a flat list, and a table of twelve
//! buckets where bucket `q` holds the chords with a note at pitch class `q`.
use vstd::prelude::*;
use crate::chord::{bit_set, chord_views, Chord, ChordView};
use crate::chord_type::{ctv, type_views, ChordType, ChordTypeView};
use crate::text::copy_bytes;

verus! {

/// The elements of `s` that satisfy `pred`, in order.
pub open spec fn keep(s: Seq<ChordView>, pred: spec_fn(ChordView) -> bool) -> Seq<ChordView>
    decreases s.len(),
{
    if s.len() == 0 {
        s
    } else if pred(s.last()) {
        keep(s.drop_last(), pred).push(s.last())
    } else {
        keep(s.drop_last(), pred)
    }
}

/// `keep` only looks at the elements of the list.
pub proof fn lemma_keep_ext(s: Seq<ChordView>, p1: spec_fn(ChordView) -> bool, p2: spec_fn(ChordView) -> bool)
    requires
        forall|i: int| 0 <= i < s.len() ==> p1(#[trigger] s[i]) == p2(s[i]),
    ensures
        keep(s, p1) == keep(s, p2),
    decreases s.len(),
{
    if s.len() > 0 {
        assert(forall|i: int| 0 <= i < s.drop_last().len() ==> #[trigger] s.drop_last()[i] == s[i]);
        lemma_keep_ext(s.drop_last(), p1, p2);
        assert(p1(s[s.len() - 1]) == p2(s[s.len() - 1]));
    }
}

/// Whether some element of `s` has the identity of `c`.
pub open spec fn contains_same(s: Seq<ChordView>, c: ChordView) -> bool {
    exists|i: int| 0 <= i < s.len() && (#[trigger] s[i]).same_chord(c)
}

/// `s` without later chords whose identity occurred before.
pub open spec fn dedup(s: Seq<ChordView>) -> Seq<ChordView>
    decreases s.len(),
{
    if s.len() == 0 {
        s
    } else if contains_same(dedup(s.drop_last()), s.last()) {
        dedup(s.drop_last())
    } else {
        dedup(s.drop_last()).push(s.last())
    }
}

/// The table of a list: bucket `q` holds, in list order, the chords with a
/// note at pitch class `q`.
pub open spec fn table_of(s: Seq<ChordView>) -> Seq<Seq<ChordView>> {
    Seq::new(12, |q: int| keep(s, |c: ChordView| c.has_pitch_class(q)))
}

/// The views of a table.
pub open spec fn table_views(t: Seq<Vec<Chord>>) -> Seq<Seq<ChordView>> {
    t.map_values(|b: Vec<Chord>| chord_views(b@))
}

/// Interval lists of the forward variants: for each optional note, the
/// intervals with all optional notes up to it, then with it alone.
pub open spec fn forward_variants(iv: Seq<u8>, opt: Seq<u8>) -> Seq<Seq<u8>> {
    Seq::new(
        2 * opt.len(),
        |t: int|
            if t % 2 == 0 {
                iv + opt.subrange(0, t / 2 + 1)
            } else {
                iv.push(opt[t / 2])
            },
    )
}

/// The first `j + 1` optional notes taken from the last one backwards.
pub open spec fn reverse_prefix(opt: Seq<u8>, j: int) -> Seq<u8> {
    Seq::new((j + 1) as nat, |t: int| opt[opt.len() - 1 - t])
}

/// Interval lists of the reverse variants, made only for more than two
/// optional notes.
pub open spec fn reverse_variants(iv: Seq<u8>, opt: Seq<u8>) -> Seq<Seq<u8>> {
    if opt.len() > 2 {
        Seq::new(opt.len() as nat, |j: int| iv + reverse_prefix(opt, j))
    } else {
        Seq::empty()
    }
}

/// Interval lists of all variants of a chord, in the order they are made:
/// the mandatory notes alone, the forward variants, the reverse variants.
pub open spec fn variant_intervals(iv: Seq<u8>, opt: Seq<u8>) -> Seq<Seq<u8>> {
    seq![iv] + forward_variants(iv, opt) + reverse_variants(iv, opt)
}

/// The chord of `c` with the given intervals and no optional notes, in the
/// key of C minor.
pub open spec fn variant_view(c: ChordView, iv: Seq<u8>) -> ChordView {
    ChordView {
        chord_type: ctv(c.chord_type.name, iv, seq![c.root], Seq::empty()),
        root: c.root,
        key: 0,
    }
}

/// The chords of `c` for a list of interval lists.
pub open spec fn variant_views(c: ChordView, ivs: Seq<Seq<u8>>) -> Seq<ChordView> {
    ivs.map_values(|iv: Seq<u8>| variant_view(c, iv))
}

/// All variants of one chord.
pub open spec fn variants_of(c: ChordView) -> Seq<ChordView> {
    variant_views(c, variant_intervals(c.chord_type.note_intervals, c.chord_type.optional_notes))
}

/// The variants of every chord of a list, one chord after another.
pub open spec fn flat_variants(s: Seq<ChordView>) -> Seq<ChordView>
    decreases s.len(),
{
    if s.len() == 0 {
        Seq::empty()
    } else {
        flat_variants(s.drop_last()) + variants_of(s.last())
    }
}

/// The expanded universe of a list: every variant, each identity once.
pub open spec fn expanded(s: Seq<ChordView>) -> Seq<ChordView> {
    dedup(flat_variants(s))
}

fn variant(c: &Chord, iv: Vec<u8>) -> (r: Chord)
    ensures
        r@ == variant_view(c@, iv@),
{
    let mut roots: Vec<u8> = Vec::new();
    roots.push(c.root);
    let t = ChordType {
        note_intervals: iv,
        name: crate::text::copy_text(&c.chord_type.name),
        roots,
        optional_notes: Vec::new(),
    };
    assert(t@.roots =~= seq![c.root]);
    Chord { chord_type: t, root: c.root, key: 0 }
}

proof fn lemma_variant_views_push(c: ChordView, ivs: Seq<Seq<u8>>, iv: Seq<u8>)
    ensures
        variant_views(c, ivs.push(iv)) == variant_views(c, ivs).push(variant_view(c, iv)),
{
    assert(variant_views(c, ivs.push(iv)) =~= variant_views(c, ivs).push(variant_view(c, iv)));
}

/// The variants of one chord: the chord without its optional notes; for
/// each optional note the chord with all optional notes up to it and the
/// chord with it alone; and, for more than two optional notes, the chords
/// with the optional notes added from the last one backwards.
pub fn chord_variants(c: &Chord) -> (r: Vec<Chord>)
    ensures
        chord_views(r@) == variants_of(c@),
{
    let iv = &c.chord_type.note_intervals;
    let opt = &c.chord_type.optional_notes;
    let ghost all = variant_intervals(iv@, opt@);
    let ghost k: int = opt@.len() as int;
    let mut r: Vec<Chord> = Vec::new();
    r.push(variant(c, copy_bytes(iv)));
    proof {
        assert(chord_views(r@) =~= variant_views(c@, all.subrange(0, 1)));
    }
    let mut cumulated = copy_bytes(iv);
    let mut j: usize = 0;
    while j < opt.len()
        invariant
            j <= opt@.len(),
            k == opt@.len(),
            iv == &c.chord_type.note_intervals,
            opt == &c.chord_type.optional_notes,
            all == variant_intervals(iv@, opt@),
            cumulated@ == iv@ + opt@.subrange(0, j as int),
            chord_views(r@) == variant_views(c@, all.subrange(0, 1 + 2 * j)),
        decreases opt@.len() - j,
    {
        cumulated.push(opt[j]);
        let mut alone = copy_bytes(iv);
        alone.push(opt[j]);
        proof {
            assert(cumulated@ =~= iv@ + opt@.subrange(0, j + 1));
            assert(all[1 + 2 * j] == forward_variants(iv@, opt@)[2 * j]);
            assert(all[1 + 2 * j] == cumulated@);
            assert(all[2 + 2 * j] == forward_variants(iv@, opt@)[2 * j + 1]);
            assert((2 * j + 1) / 2 == j);
            assert(all[2 + 2 * j] == alone@);
        }
        let ghost before = chord_views(r@);
        r.push(variant(c, copy_bytes(&cumulated)));
        r.push(variant(c, alone));
        proof {
            assert(all.subrange(0, 1 + 2 * (j + 1)) =~= all.subrange(0, 1 + 2 * j).push(all[1 + 2 * j]).push(all[2 + 2 * j]));
            lemma_variant_views_push(c@, all.subrange(0, 1 + 2 * j), all[1 + 2 * j]);
            lemma_variant_views_push(c@, all.subrange(0, 1 + 2 * j).push(all[1 + 2 * j]), all[2 + 2 * j]);
            assert(chord_views(r@) =~= before.push(variant_view(c@, all[1 + 2 * j])).push(variant_view(c@, all[2 + 2 * j])));
        }
        j = j + 1;
    }
    if opt.len() > 2 {
        let mut backwards = copy_bytes(iv);
        let mut j: usize = 0;
        while j < opt.len()
            invariant
                j <= opt@.len(),
                k == opt@.len(),
                k > 2,
                iv == &c.chord_type.note_intervals,
                opt == &c.chord_type.optional_notes,
                all == variant_intervals(iv@, opt@),
                backwards@ == iv@ + Seq::new(j as nat, |t: int| opt@[opt@.len() - 1 - t]),
                chord_views(r@) == variant_views(c@, all.subrange(0, 1 + 2 * k + j)),
            decreases opt@.len() - j,
        {
            backwards.push(opt[opt.len() - 1 - j]);
            proof {
                assert(backwards@ =~= iv@ + reverse_prefix(opt@, j as int));
                assert(all[1 + 2 * k + j] == reverse_variants(iv@, opt@)[j as int]);
            }
            let ghost before = chord_views(r@);
            r.push(variant(c, copy_bytes(&backwards)));
            proof {
                assert(all.subrange(0, 1 + 2 * k + j + 1) =~= all.subrange(0, 1 + 2 * k + j).push(all[1 + 2 * k + j]));
                lemma_variant_views_push(c@, all.subrange(0, 1 + 2 * k + j), all[1 + 2 * k + j]);
                assert(backwards@ =~= iv@ + Seq::new((j + 1) as nat, |t: int| opt@[opt@.len() - 1 - t]));
            }
            j = j + 1;
        }
        assert(all.subrange(0, 1 + 2 * k + k) =~= all);
    } else {
        assert(all.subrange(0, 1 + 2 * k) =~= all);
    }
    r
}


/// Every chord of the list has a pitch class as its key.
pub open spec fn all_keys_ok(s: Seq<ChordView>) -> bool {
    forall|i: int| 0 <= i < s.len() ==> crate::chord::key_ok(#[trigger] s[i].key as int)
}

/// Appends `c` unless a chord with its identity is already in `list`.
pub(crate) fn push_new(list: &mut Vec<Chord>, c: Chord)
    ensures
        chord_views(final(list)@) == (if contains_same(chord_views(old(list)@), c@) {
            chord_views(old(list)@)
        } else {
            chord_views(old(list)@).push(c@)
        }),
{
    let mut i: usize = 0;
    while i < list.len()
        invariant
            i <= list@.len(),
            list@ == old(list)@,
            forall|j: int| 0 <= j < i ==> !(#[trigger] chord_views(list@)[j]).same_chord(c@),
        decreases list@.len() - i,
    {
        if list[i].same_chord(&c) {
            assert(chord_views(list@)[i as int].same_chord(c@));
            return;
        }
        i = i + 1;
    }
    let ghost before = chord_views(list@);
    list.push(c);
    assert(chord_views(list@) =~= before.push(c@));
}

/// The chords of `list` with a note at pitch class `q`, in list order.
pub fn bucket_of(list: &Vec<Chord>, q: u16) -> (r: Vec<Chord>)
    requires
        q < 12,
        all_keys_ok(chord_views(list@)),
    ensures
        chord_views(r@) == keep(chord_views(list@), |c: ChordView| c.has_pitch_class(q as int)),
{
    let ghost s = chord_views(list@);
    let ghost pred = |c: ChordView| c.has_pitch_class(q as int);
    let mut r: Vec<Chord> = Vec::new();
    let mut i: usize = 0;
    while i < list.len()
        invariant
            q < 12,
            i <= list@.len(),
            s == chord_views(list@),
            pred == (|c: ChordView| c.has_pitch_class(q as int)),
            all_keys_ok(s),
            chord_views(r@) == keep(s.subrange(0, i as int), pred),
        decreases list@.len() - i,
    {
        assert(s.subrange(0, i + 1).drop_last() =~= s.subrange(0, i as int));
        assert(s[i as int] == list@[i as int]@);
        assert(crate::chord::key_ok(s[i as int].key as int));
        let m = list[i].get_notes_u16();
        if (m >> q) & 1u16 == 1u16 {
            assert(bit_set(m, q));
            let ghost before = chord_views(r@);
            r.push(list[i].duplicate());
            assert(chord_views(r@) =~= before.push(s[i as int]));
        } else {
            assert(!bit_set(m, q));
        }
        i = i + 1;
    }
    assert(s.subrange(0, list@.len() as int) =~= s);
    r
}

/// The table of a list: twelve buckets, bucket `q` holding the chords with
/// a note at pitch class `q` in list order.
pub fn table_of_list(list: &Vec<Chord>) -> (r: Vec<Vec<Chord>>)
    requires
        all_keys_ok(chord_views(list@)),
    ensures
        table_views(r@) == table_of(chord_views(list@)),
{
    let mut r: Vec<Vec<Chord>> = Vec::new();
    let mut q: u16 = 0;
    while q < 12
        invariant
            q <= 12,
            all_keys_ok(chord_views(list@)),
            r@.len() == q,
            forall|p: int| 0 <= p < q ==> #[trigger] table_views(r@)[p] == table_of(chord_views(list@))[p],
        decreases 12 - q,
    {
        let b = bucket_of(list, q);
        let ghost bv = chord_views(b@);
        let ghost before = r@;
        r.push(b);
        proof {
            assert forall|p: int| 0 <= p < q + 1 implies #[trigger] table_views(r@)[p] == table_of(chord_views(list@))[p] by {
                if p < q {
                    assert(r@[p] == before[p]);
                    assert(table_views(before)[p] == table_of(chord_views(list@))[p]);
                } else {
                    assert(table_views(r@)[p] == bv);
                }
            }
        }
        q = q + 1;
    }
    assert(table_views(r@) =~= table_of(chord_views(list@)));
    r
}

proof fn lemma_flat_variants_step(s: Seq<ChordView>, i: int)
    requires
        0 <= i < s.len(),
    ensures
        flat_variants(s.subrange(0, i + 1)) == flat_variants(s.subrange(0, i)) + variants_of(s[i]),
{
    assert(s.subrange(0, i + 1).drop_last() =~= s.subrange(0, i));
}

proof fn lemma_dedup_keys_ok(s: Seq<ChordView>)
    requires
        all_keys_ok(s),
    ensures
        all_keys_ok(dedup(s)),
    decreases s.len(),
{
    if s.len() > 0 {
        lemma_dedup_keys_ok(s.drop_last());
    }
}

proof fn lemma_flat_keys_ok(s: Seq<ChordView>)
    requires
        all_keys_ok(s),
    ensures
        all_keys_ok(flat_variants(s)),
    decreases s.len(),
{
    if s.len() > 0 {
        lemma_flat_keys_ok(s.drop_last());
        let f = flat_variants(s.drop_last());
        let v = variants_of(s.last());
        assert forall|i: int| 0 <= i < (f + v).len() implies crate::chord::key_ok(#[trigger] (f + v)[i].key as int) by {
            if i >= f.len() {
                assert((f + v)[i] == v[i - f.len()]);
            }
        }
    }
}

/// Expands every chord of the list into its variants (see
/// `chord_variants`) and keeps each identity once, in the order first met;
/// returns that list and its table.
pub fn expand_chords(chord_list: &Vec<Chord>) -> (r: (Vec<Chord>, Vec<Vec<Chord>>))
    requires
        all_keys_ok(chord_views(chord_list@)),
    ensures
        chord_views(r.0@) == expanded(chord_views(chord_list@)),
        table_views(r.1@) == table_of(expanded(chord_views(chord_list@))),
        all_keys_ok(expanded(chord_views(chord_list@))),
{
    let ghost s = chord_views(chord_list@);
    let mut list: Vec<Chord> = Vec::new();
    let mut i: usize = 0;
    while i < chord_list.len()
        invariant
            i <= chord_list@.len(),
            s == chord_views(chord_list@),
            chord_views(list@) == dedup(flat_variants(s.subrange(0, i as int))),
        decreases chord_list@.len() - i,
    {
        let vs = chord_variants(&chord_list[i]);
        let ghost done = flat_variants(s.subrange(0, i as int));
        let ghost vv = chord_views(vs@);
        assert(vv == variants_of(s[i as int]));
        let mut j: usize = 0;
        while j < vs.len()
            invariant
                j <= vs@.len(),
                vv == chord_views(vs@),
                chord_views(list@) == dedup(done + vv.subrange(0, j as int)),
            decreases vs@.len() - j,
        {
            assert((done + vv.subrange(0, j + 1)).drop_last() =~= done + vv.subrange(0, j as int));
            assert((done + vv.subrange(0, j + 1)).last() == vv[j as int]);
            push_new(&mut list, vs[j].duplicate());
            j = j + 1;
        }
        proof {
            assert(vv.subrange(0, vs@.len() as int) =~= vv);
            lemma_flat_variants_step(s, i as int);
        }
        i = i + 1;
    }
    assert(s.subrange(0, chord_list@.len() as int) =~= s);
    proof {
        lemma_flat_keys_ok(s);
        lemma_dedup_keys_ok(flat_variants(s));
    }
    let table = table_of_list(&list);
    (list, table)
}


/// What `keep` holds: the elements of the list that satisfy the predicate.
pub proof fn lemma_keep_contains(s: Seq<ChordView>, pred: spec_fn(ChordView) -> bool, x: ChordView)
    ensures
        keep(s, pred).contains(x) <==> (s.contains(x) && pred(x)),
    decreases s.len(),
{
    if s.len() > 0 {
        lemma_keep_contains(s.drop_last(), pred, x);
        let k0 = keep(s.drop_last(), pred);
        if s.drop_last().contains(x) {
            let i = choose|i: int| 0 <= i < s.drop_last().len() && s.drop_last()[i] == x;
            assert(s[i] == x);
        }
        if s.contains(x) && x != s.last() {
            let i = choose|i: int| 0 <= i < s.len() && s[i] == x;
            assert(s.drop_last()[i] == x);
        }
        if pred(s.last()) {
            let k1 = k0.push(s.last());
            if k0.contains(x) {
                let i = choose|i: int| 0 <= i < k0.len() && k0[i] == x;
                assert(k1[i] == x);
            }
            if k1.contains(x) && x != s.last() {
                let i = choose|i: int| 0 <= i < k1.len() && k1[i] == x;
                assert(k0[i] == x);
            }
            assert(k1[k1.len() - 1] == s.last());
        }
        if s.len() > 0 {
            assert(s[s.len() - 1] == s.last());
        }
    }
}

/// Two `keep`s commute.
pub proof fn lemma_keep_commute(s: Seq<ChordView>, a: spec_fn(ChordView) -> bool, b: spec_fn(ChordView) -> bool)
    ensures
        keep(keep(s, a), b) == keep(keep(s, b), a),
    decreases s.len(),
{
    if s.len() > 0 {
        lemma_keep_commute(s.drop_last(), a, b);
        let x = s.last();
        if a(x) {
            assert(keep(s, a).drop_last() == keep(s.drop_last(), a));
        }
        if b(x) {
            assert(keep(s, b).drop_last() == keep(s.drop_last(), b));
        }
    }
}

/// A `keep` that no element satisfies is empty.
pub proof fn lemma_keep_none(s: Seq<ChordView>, pred: spec_fn(ChordView) -> bool)
    requires
        forall|i: int| 0 <= i < s.len() ==> !pred(#[trigger] s[i]),
    ensures
        keep(s, pred).len() == 0,
    decreases s.len(),
{
    if s.len() > 0 {
        assert(forall|i: int| 0 <= i < s.drop_last().len() ==> #[trigger] s.drop_last()[i] == s[i]);
        assert(!pred(s[s.len() - 1]));
        lemma_keep_none(s.drop_last(), pred);
    }
}

/// No two chords of a list share an identity.
pub open spec fn unique_identities(s: Seq<ChordView>) -> bool {
    forall|i: int, j: int| 0 <= i < s.len() && 0 <= j < s.len() && i != j ==> !(#[trigger] s[i]).same_chord(#[trigger] s[j])
}

/// `dedup` leaves each identity once.
pub proof fn lemma_dedup_unique(s: Seq<ChordView>)
    ensures
        unique_identities(dedup(s)),
    decreases s.len(),
{
    if s.len() > 0 {
        lemma_dedup_unique(s.drop_last());
        let d = dedup(s.drop_last());
        if !contains_same(d, s.last()) {
            let e = d.push(s.last());
            assert forall|i: int, j: int| 0 <= i < e.len() && 0 <= j < e.len() && i != j implies !(#[trigger] e[i]).same_chord(#[trigger] e[j]) by {
                if i < d.len() && j < d.len() {
                    assert(e[i] == d[i] && e[j] == d[j]);
                } else if i < d.len() {
                    assert(e[i] == d[i]);
                    assert(!d[i].same_chord(s.last()));
                } else {
                    assert(e[j] == d[j]);
                    assert(!d[j].same_chord(s.last()));
                }
            }
        }
    }
}


/// The chords of a list of chord types: each type at each of its roots,
/// in the key of C minor, in order.
pub open spec fn chords_of_types(types: Seq<ChordTypeView>) -> Seq<ChordView>
    decreases types.len(),
{
    if types.len() == 0 {
        Seq::empty()
    } else {
        chords_of_types(types.drop_last()) + types.last().roots.map_values(
            |r: u8| ChordView { chord_type: types.last(), root: r, key: 0 },
        )
    }
}

/// One copy of `c` for each of its first `n` notes at pitch class `q`.
pub open spec fn note_copies(c: ChordView, q: int, n: int) -> Seq<ChordView>
    decreases n,
{
    if n <= 0 {
        Seq::empty()
    } else if c.note(n - 1) % 12 == q {
        note_copies(c, q, n - 1).push(c)
    } else {
        note_copies(c, q, n - 1)
    }
}

/// Bucket `q` as the universe is first built: each chord of the list once
/// for every note it has at pitch class `q`.
pub open spec fn built_bucket(list: Seq<ChordView>, q: int) -> Seq<ChordView>
    decreases list.len(),
{
    if list.len() == 0 {
        Seq::empty()
    } else {
        built_bucket(list.drop_last(), q) + note_copies(list.last(), q, list.last().chord_type.note_intervals.len() as int)
    }
}

/// The table as the universe is first built.
pub open spec fn built_table(list: Seq<ChordView>) -> Seq<Seq<ChordView>> {
    Seq::new(12, |q: int| built_bucket(list, q))
}

/// Builds the universe of a list of chord types: every type at every one
/// of its roots goes to the list, and to the bucket of the pitch class of
/// each of its notes (once per note).
pub fn build_universe(types: &Vec<ChordType>) -> (r: (Vec<Vec<Chord>>, Vec<Chord>))
    ensures
        chord_views(r.1@) == chords_of_types(type_views(types@)),
        table_views(r.0@) == built_table(chord_views(r.1@)),
{
    let ghost tv = type_views(types@);
    let mut table: Vec<Vec<Chord>> = Vec::new();
    let mut q: usize = 0;
    while q < 12
        invariant
            q <= 12,
            table@.len() == q,
            forall|p: int| 0 <= p < q ==> (#[trigger] table@[p])@.len() == 0,
        decreases 12 - q,
    {
        table.push(Vec::new());
        q = q + 1;
    }
    let mut list: Vec<Chord> = Vec::new();
    proof {
        assert forall|p: int| 0 <= p < 12 implies #[trigger] table_views(table@)[p] == built_table(chord_views(list@))[p] by {
            assert(table_views(table@)[p] =~= Seq::<ChordView>::empty());
            assert(chord_views(list@) =~= Seq::<ChordView>::empty());
        }
        assert(table_views(table@) =~= built_table(chord_views(list@)));
        assert(tv.subrange(0, 0) =~= Seq::<ChordTypeView>::empty());
    }
    let mut t: usize = 0;
    while t < types.len()
        invariant
            t <= types@.len(),
            tv == type_views(types@),
            table@.len() == 12,
            chord_views(list@) == chords_of_types(tv.subrange(0, t as int)),
            table_views(table@) == built_table(chord_views(list@)),
        decreases types@.len() - t,
    {
        let ct = &types[t];
        let ghost done = chords_of_types(tv.subrange(0, t as int));
        let ghost here = ct@.roots.map_values(|r: u8| ChordView { chord_type: tv[t as int], root: r, key: 0 });
        assert(tv[t as int] == ct@);
        let mut j: usize = 0;
        while j < ct.roots.len()
            invariant
                t < types@.len(),
                ct == &types@[t as int],
                tv == type_views(types@),
                tv[t as int] == ct@,
                j <= ct@.roots.len(),
                table@.len() == 12,
                here == ct@.roots.map_values(|r: u8| ChordView { chord_type: tv[t as int], root: r, key: 0 }),
                chord_views(list@) == done + here.subrange(0, j as int),
                table_views(table@) == built_table(chord_views(list@)),
            decreases ct@.roots.len() - j,
        {
            let chord = Chord::new(ct.roots[j], ct);
            let ghost lbefore = chord_views(list@);
            list.push(chord.duplicate());
            proof {
                assert(chord_views(list@) =~= lbefore.push(chord@));
                assert(chord@ == here[j as int]);
                assert(done + here.subrange(0, j + 1) =~= (done + here.subrange(0, j as int)).push(here[j as int]));
                assert(chord_views(list@).drop_last() == lbefore);
            }
            let notes = chord.get_notes();
            let mut i: usize = 0;
            while i < notes.len()
                invariant
                    i <= notes@.len(),
                    chord.wf(),
                    notes@.len() == chord@.chord_type.note_intervals.len(),
                    forall|n: int| 0 <= n < notes@.len() ==> notes@[n] as int == #[trigger] chord@.note(n),
                    table@.len() == 12,
                    chord_views(list@) == lbefore.push(chord@),
                    forall|p: int| 0 <= p < 12 ==> #[trigger] table_views(table@)[p] == built_bucket(lbefore, p) + note_copies(chord@, p, i as int),
                decreases notes@.len() - i,
            {
                assert(notes@[i as int] as int == chord@.note(i as int));
                let pc = (notes[i] % 12) as usize;
                let ghost tb = table_views(table@);
                table[pc].push(chord.duplicate());
                proof {
                    assert forall|p: int| 0 <= p < 12 implies #[trigger] table_views(table@)[p] == built_bucket(lbefore, p) + note_copies(chord@, p, i + 1) by {
                        if p == pc {
                            assert(table_views(table@)[p] =~= tb[p].push(chord@));
                        } else {
                            assert(table_views(table@)[p] == tb[p]);
                        }
                    }
                }
                i = i + 1;
            }
            proof {
                assert forall|p: int| 0 <= p < 12 implies #[trigger] table_views(table@)[p] == built_table(chord_views(list@))[p] by {
                    assert(chord_views(list@).last() == chord@);
                }
                assert(table_views(table@) =~= built_table(chord_views(list@)));
            }
            j = j + 1;
        }
        proof {
            assert(here.subrange(0, ct@.roots.len() as int) =~= here);
            assert(tv.subrange(0, t + 1).drop_last() =~= tv.subrange(0, t as int));
        }
        t = t + 1;
    }
    assert(tv.subrange(0, types@.len() as int) =~= tv);
    (table, list)
}

/// A table agrees with a list: bucket `q` holds exactly the chords of the
/// list with a note at pitch class `q`.
pub open spec fn consistent(table: Seq<Seq<ChordView>>, list: Seq<ChordView>) -> bool {
    table.len() == 12 && forall|q: int, x: ChordView|
        0 <= q < 12 ==> (#[trigger] table[q].contains(x) <==> (list.contains(x) && x.has_pitch_class(q)))
}

/// The chords that some bucket of the table holds.
pub open spec fn table_chords(table: Seq<Seq<ChordView>>) -> Set<ChordView> {
    Set::new(|x: ChordView| exists|q: int| 0 <= q < 12 && #[trigger] table[q].contains(x))
}

/// Every chord of the list has at least one mandatory note.
pub open spec fn all_have_notes(list: Seq<ChordView>) -> bool {
    forall|i: int| 0 <= i < list.len() ==> (#[trigger] list[i]).chord_type.note_intervals.len() > 0
}

/// The table of a list agrees with the list.
pub proof fn lemma_table_of_consistent(list: Seq<ChordView>)
    ensures
        consistent(table_of(list), list),
{
    assert forall|q: int, x: ChordView| 0 <= q < 12 implies (#[trigger] table_of(list)[q].contains(x) <==> (list.contains(x) && x.has_pitch_class(q))) by {
        lemma_keep_contains(list, |c: ChordView| c.has_pitch_class(q), x);
    }
}

/// Table and list hold the same chords: in a universe whose table agrees
/// with its list and whose chords all have a note, the union of the
/// buckets is the set of the list.
pub proof fn lemma_table_list_consistency(table: Seq<Seq<ChordView>>, list: Seq<ChordView>)
    requires
        consistent(table, list),
        all_have_notes(list),
    ensures
        table_chords(table) == list.to_set(),
{
    assert forall|x: ChordView| table_chords(table).contains(x) <==> list.to_set().contains(x) by {
        if list.contains(x) {
            let i = choose|i: int| 0 <= i < list.len() && list[i] == x;
            assert(x.chord_type.note_intervals.len() > 0);
            let q = x.note(0) % 12;
            assert(x.has_pitch_class(q));
            assert(table[q].contains(x));
        }
        if table_chords(table).contains(x) {
            let q = choose|q: int| 0 <= q < 12 && #[trigger] table[q].contains(x);
        }
    }
    assert(table_chords(table) =~= list.to_set());
}

proof fn lemma_note_copies_contains(c: ChordView, q: int, n: int, x: ChordView)
    requires
        0 <= n <= c.chord_type.note_intervals.len(),
    ensures
        note_copies(c, q, n).contains(x) <==> (x == c && exists|i: int| 0 <= i < n && #[trigger] c.note(i) % 12 == q),
    decreases n,
{
    if n > 0 {
        lemma_note_copies_contains(c, q, n - 1, x);
        let s0 = note_copies(c, q, n - 1);
        if c.note(n - 1) % 12 == q {
            let s1 = s0.push(c);
            assert(s1[s1.len() - 1] == c);
            if s0.contains(x) {
                let j = choose|j: int| 0 <= j < s0.len() && s0[j] == x;
                assert(s1[j] == x);
            }
            if s1.contains(x) && x != c {
                let j = choose|j: int| 0 <= j < s1.len() && s1[j] == x;
                assert(s0[j] == x);
            }
        }
        if exists|i: int| 0 <= i < n && #[trigger] c.note(i) % 12 == q {
            let i = choose|i: int| 0 <= i < n && #[trigger] c.note(i) % 12 == q;
            if i < n - 1 {
                assert(exists|i2: int| 0 <= i2 < n - 1 && #[trigger] c.note(i2) % 12 == q);
            }
        }
    }
}

proof fn lemma_built_bucket_contains(list: Seq<ChordView>, q: int, x: ChordView)
    ensures
        built_bucket(list, q).contains(x) <==> (list.contains(x) && x.has_pitch_class(q)),
    decreases list.len(),
{
    if list.len() > 0 {
        let d = list.drop_last();
        let c = list.last();
        lemma_built_bucket_contains(d, q, x);
        lemma_note_copies_contains(c, q, c.chord_type.note_intervals.len() as int, x);
        let a = built_bucket(d, q);
        let b = note_copies(c, q, c.chord_type.note_intervals.len() as int);
        if (a + b).contains(x) {
            let j = choose|j: int| 0 <= j < (a + b).len() && (a + b)[j] == x;
            if j < a.len() {
                assert(a[j] == x);
                let i = choose|i: int| 0 <= i < d.len() && d[i] == x;
                assert(list[i] == x);
            } else {
                assert(b[j - a.len()] == x);
                assert(list[list.len() - 1] == x);
            }
        }
        if list.contains(x) && x.has_pitch_class(q) {
            let i = choose|i: int| 0 <= i < list.len() && list[i] == x;
            if i < list.len() - 1 {
                assert(d[i] == x);
                let j = choose|j: int| 0 <= j < a.len() && a[j] == x;
                assert((a + b)[j] == x);
            } else {
                let j = choose|j: int| 0 <= j < b.len() && b[j] == x;
                assert((a + b)[a.len() + j] == x);
            }
        }
    }
}

/// The table of a freshly built universe agrees with its list.
pub proof fn lemma_built_consistent(list: Seq<ChordView>)
    ensures
        consistent(built_table(list), list),
{
    assert forall|q: int, x: ChordView| 0 <= q < 12 implies (#[trigger] built_table(list)[q].contains(x) <==> (list.contains(x) && x.has_pitch_class(q))) by {
        lemma_built_bucket_contains(list, q, x);
    }
}


/// The chord shown in key `k`.
pub open spec fn stamp(c: ChordView, k: i16) -> ChordView {
    ChordView { key: k, ..c }
}

/// Every chord of the list shown in key `k`.
pub open spec fn stamped(s: Seq<ChordView>, k: i16) -> Seq<ChordView> {
    s.map_values(|c: ChordView| stamp(c, k))
}

/// The table with every chord shown in key `k` and the buckets moved
/// `shift` places to the right (bucket `q` goes to `(q + shift) % 12`).
pub open spec fn rotated_table(t: Seq<Seq<ChordView>>, k: i16, shift: int) -> Seq<Seq<ChordView>> {
    Seq::new(12, |q: int| stamped(t[(q - shift) % 12], k))
}

/// Every chord of the list is shown in key `k`.
pub open spec fn all_in_key(s: Seq<ChordView>, k: i16) -> bool {
    forall|i: int| 0 <= i < s.len() ==> (#[trigger] s[i]).key == k
}

fn stamped_copy(s: &Vec<Chord>, key: i16) -> (r: Vec<Chord>)
    ensures
        chord_views(r@) == stamped(chord_views(s@), key),
{
    let mut r: Vec<Chord> = Vec::new();
    let mut i: usize = 0;
    while i < s.len()
        invariant
            i <= s@.len(),
            chord_views(r@) == stamped(chord_views(s@.subrange(0, i as int)), key),
        decreases s@.len() - i,
    {
        let mut c = s[i].duplicate();
        c.key = key;
        let ghost before = chord_views(r@);
        r.push(c);
        assert(chord_views(r@) =~= stamped(chord_views(s@.subrange(0, i + 1)), key)) by {
            assert(chord_views(r@) =~= before.push(stamp(s@[i as int]@, key)));
        }
        i = i + 1;
    }
    assert(s@.subrange(0, s@.len() as int) =~= s@);
    r
}

/// Shows every chord in `key` and moves the buckets of the table `shift`
/// places to the right, so that bucket 0 stands for the pitch class of the
/// key's tonic when the table was in C.
pub fn rotate_universe(chord_table: &mut Vec<Vec<Chord>>, chord_list: &mut Vec<Chord>, key: i16, shift: usize)
    requires
        old(chord_table)@.len() == 12,
        shift < 12,
    ensures
        chord_views(final(chord_list)@) == stamped(chord_views(old(chord_list)@), key),
        table_views(final(chord_table)@) == rotated_table(table_views(old(chord_table)@), key, shift as int),
{
    let new_list = stamped_copy(chord_list, key);
    let mut new_table: Vec<Vec<Chord>> = Vec::new();
    let mut q: usize = 0;
    while q < 12
        invariant
            q <= 12,
            shift < 12,
            chord_table@.len() == 12,
            new_table@.len() == q,
            forall|p: int| 0 <= p < q ==> #[trigger] table_views(new_table@)[p] == rotated_table(table_views(chord_table@), key, shift as int)[p],
        decreases 12 - q,
    {
        let from = (q + 12 - shift) % 12;
        assert(from as int == (q - shift) % 12);
        let b = stamped_copy(&chord_table[from], key);
        let ghost bv = chord_views(b@);
        let ghost before = new_table@;
        new_table.push(b);
        proof {
            assert forall|p: int| 0 <= p < q + 1 implies #[trigger] table_views(new_table@)[p] == rotated_table(table_views(chord_table@), key, shift as int)[p] by {
                if p < q {
                    assert(new_table@[p] == before[p]);
                    assert(table_views(before)[p] == rotated_table(table_views(chord_table@), key, shift as int)[p]);
                } else {
                    assert(table_views(new_table@)[p] == bv);
                }
            }
        }
        q = q + 1;
    }
    assert(table_views(new_table@) =~= rotated_table(table_views(chord_table@), key, shift as int));
    *chord_table = new_table;
    *chord_list = new_list;
}

proof fn lemma_stamped_contains(s: Seq<ChordView>, k0: i16, k: i16, y: ChordView)
    requires
        all_in_key(s, k0),
    ensures
        stamped(s, k).contains(y) <==> (y.key == k && s.contains(stamp(y, k0))),
{
    if stamped(s, k).contains(y) {
        let i = choose|i: int| 0 <= i < s.len() && stamped(s, k)[i] == y;
        assert(s[i] == stamp(y, k0));
    }
    if y.key == k && s.contains(stamp(y, k0)) {
        let i = choose|i: int| 0 <= i < s.len() && s[i] == stamp(y, k0);
        assert(stamped(s, k)[i] == y);
    }
}

pub proof fn lemma_stamp_pitch_class(x: ChordView, k0: i16, k: i16, q: int)
    requires
        x.key == k0,
        0 <= q < 12,
    ensures
        stamp(x, k).has_pitch_class(q) <==> x.has_pitch_class((q - (k - k0)) % 12),
{
    let y = stamp(x, k);
    let p = (q - (k - k0)) % 12;
    assert forall|i: int| 0 <= i < x.chord_type.note_intervals.len() implies (#[trigger] y.note(i) % 12 == q <==> x.note(i) % 12 == p) by {
        let a = x.chord_type.note_intervals[i] + x.root;
        assert(y.note(i) == a + k);
        assert(x.note(i) == a + k0);
        vstd::arithmetic::div_mod::lemma_mod_sub_multiples_vanish(a + k, 12);
        assert((a + k0) % 12 == (q - (k - k0)) % 12 <==> (a + k) % 12 == q) by {
            vstd::arithmetic::div_mod::lemma_fundamental_div_mod(a + k0, 12);
            vstd::arithmetic::div_mod::lemma_fundamental_div_mod(a + k, 12);
            vstd::arithmetic::div_mod::lemma_fundamental_div_mod(q - (k - k0), 12);
            if (a + k) % 12 == q {
                vstd::arithmetic::div_mod::lemma_mod_sub_multiples_vanish(a + k0, 12);
                assert((a + k0) == (a + k) - (k - k0));
                vstd::arithmetic::div_mod::lemma_sub_mod_noop(a + k, k - k0, 12);
                vstd::arithmetic::div_mod::lemma_sub_mod_noop(q, k - k0, 12);
                vstd::arithmetic::div_mod::lemma_small_mod(q as nat, 12);
            }
            if (a + k0) % 12 == (q - (k - k0)) % 12 {
                vstd::arithmetic::div_mod::lemma_add_mod_noop(a + k0, k - k0, 12);
                vstd::arithmetic::div_mod::lemma_add_mod_noop(q - (k - k0), k - k0, 12);
                vstd::arithmetic::div_mod::lemma_small_mod(q as nat, 12);
            }
        }
    }
    if y.has_pitch_class(q) {
        let i = choose|i: int| 0 <= i < y.chord_type.note_intervals.len() && #[trigger] y.note(i) % 12 == q;
        assert(x.note(i) % 12 == p);
    }
    if x.has_pitch_class(p) {
        let i = choose|i: int| 0 <= i < x.chord_type.note_intervals.len() && #[trigger] x.note(i) % 12 == p;
        assert(y.note(i) % 12 == q);
    }
}

/// Rotation keeps the table in agreement with the list: if all chords are
/// shown in key `k0`, showing them in key `k` and moving the buckets by
/// `k - k0` places gives a table that agrees with the new list.
pub proof fn lemma_rotation_consistent(table: Seq<Seq<ChordView>>, list: Seq<ChordView>, k0: i16, k: i16)
    requires
        consistent(table, list),
        all_in_key(list, k0),
    ensures
        consistent(rotated_table(table, k, (k - k0) % 12), stamped(list, k)),
        all_in_key(stamped(list, k), k),
{
    let rt = rotated_table(table, k, (k - k0) % 12);
    let sl = stamped(list, k);
    assert forall|q: int, y: ChordView| 0 <= q < 12 implies (#[trigger] rt[q].contains(y) <==> (sl.contains(y) && y.has_pitch_class(q))) by {
        let p = (q - (k - k0) % 12) % 12;
        assert(p == (q - (k - k0)) % 12) by {
            vstd::arithmetic::div_mod::lemma_sub_mod_noop(q, k - k0, 12);
            vstd::arithmetic::div_mod::lemma_sub_mod_noop(q, (k - k0) % 12, 12);
        }
        assert(0 <= p < 12);
        let bucket = table[p];
        assert(all_in_key(bucket, k0)) by {
            assert forall|i: int| 0 <= i < bucket.len() implies (#[trigger] bucket[i]).key == k0 by {
                assert(bucket.contains(bucket[i]));
                assert(list.contains(bucket[i]));
                let j = choose|j: int| 0 <= j < list.len() && list[j] == bucket[i];
            }
        }
        lemma_stamped_contains(bucket, k0, k, y);
        lemma_stamped_contains(list, k0, k, y);
        if y.key == k {
            lemma_stamp_pitch_class(stamp(y, k0), k0, k, q);
            assert(stamp(stamp(y, k0), k) == y);
        }
    }
}


/// Chords built from chord types are all in C minor.
pub proof fn lemma_chords_of_types_in_key(types: Seq<ChordTypeView>)
    ensures
        all_in_key(chords_of_types(types), 0),
        all_keys_ok(chords_of_types(types)),
    decreases types.len(),
{
    if types.len() > 0 {
        lemma_chords_of_types_in_key(types.drop_last());
        let a = chords_of_types(types.drop_last());
        let b = types.last().roots.map_values(|r: u8| ChordView { chord_type: types.last(), root: r, key: 0 });
        assert forall|i: int| 0 <= i < (a + b).len() implies (#[trigger] (a + b)[i]).key == 0 by {
            if i < a.len() {
                assert((a + b)[i] == a[i]);
            } else {
                assert((a + b)[i] == b[i - a.len()]);
            }
        }
    }
}

/// `keep` keeps the key of the chords.
pub proof fn lemma_keep_in_key(s: Seq<ChordView>, pred: spec_fn(ChordView) -> bool, k: i16)
    requires
        all_in_key(s, k),
    ensures
        all_in_key(keep(s, pred), k),
{
    assert forall|i: int| 0 <= i < keep(s, pred).len() implies (#[trigger] keep(s, pred)[i]).key == k by {
        let x = keep(s, pred)[i];
        assert(keep(s, pred).contains(x));
        lemma_keep_contains(s, pred, x);
        let j = choose|j: int| 0 <= j < s.len() && s[j] == x;
    }
}

proof fn lemma_dedup_in_key(s: Seq<ChordView>, k: i16)
    requires
        all_in_key(s, k),
    ensures
        all_in_key(dedup(s), k),
    decreases s.len(),
{
    if s.len() > 0 {
        lemma_dedup_in_key(s.drop_last(), k);
    }
}

proof fn lemma_flat_in_key(s: Seq<ChordView>)
    ensures
        all_in_key(flat_variants(s), 0),
    decreases s.len(),
{
    if s.len() > 0 {
        lemma_flat_in_key(s.drop_last());
        let f = flat_variants(s.drop_last());
        let v = variants_of(s.last());
        assert forall|i: int| 0 <= i < (f + v).len() implies (#[trigger] (f + v)[i]).key == 0 by {
            if i >= f.len() {
                assert((f + v)[i] == v[i - f.len()]);
            } else {
                assert((f + v)[i] == f[i]);
            }
        }
    }
}

/// Expansion puts every chord in the key of C minor.
pub proof fn lemma_expanded_in_key(s: Seq<ChordView>)
    ensures
        all_in_key(expanded(s), 0),
{
    lemma_flat_in_key(s);
    lemma_dedup_in_key(flat_variants(s), 0);
}


/// Rotating a universe to the key it is already shown in changes nothing;
/// in particular rotating a fresh universe (in C minor) by key 0.
pub proof fn lemma_rotation_to_same_key(table: Seq<Seq<ChordView>>, list: Seq<ChordView>, k: i16)
    requires
        consistent(table, list),
        all_in_key(list, k),
    ensures
        stamped(list, k) == list,
        rotated_table(table, k, 0) == table,
{
    assert(stamped(list, k) =~= list);
    assert forall|q: int| 0 <= q < 12 implies #[trigger] rotated_table(table, k, 0)[q] == table[q] by {
        assert((q - 0) % 12 == q);
        assert forall|i: int| 0 <= i < table[q].len() implies (#[trigger] table[q][i]).key == k by {
            assert(table[q].contains(table[q][i]));
            let j = choose|j: int| 0 <= j < list.len() && list[j] == table[q][i];
        }
        assert(stamped(table[q], k) =~= table[q]);
    }
    assert(rotated_table(table, k, 0) =~= table);
}

proof fn lemma_append_distinct(iv: Seq<u8>, a: Seq<u8>, b: Seq<u8>)
    requires
        a != b,
    ensures
        iv + a != iv + b,
{
    if iv + a == iv + b {
        assert(a =~= (iv + a).subrange(iv.len() as int, (iv + a).len() as int));
        assert(b =~= (iv + b).subrange(iv.len() as int, (iv + b).len() as int));
    }
}

/// The distinct interval lists of the variants, in a fixed order: the
/// mandatory notes alone, the forward cumulative lists, the lists with one
/// optional note (but the first), the reverse cumulative lists (but the
/// first).
pub open spec fn distinct_variant_intervals(iv: Seq<u8>, opt: Seq<u8>) -> Seq<Seq<u8>> {
    let k = opt.len() as int;
    seq![iv] + Seq::new(k as nat, |j: int| iv + opt.subrange(0, j + 1)) + Seq::new(
        (k - 1) as nat,
        |j: int| iv.push(opt[j + 1]),
    ) + Seq::new((k - 1) as nat, |j: int| iv + reverse_prefix(opt, j + 1))
}

/// The number of variants: a chord type with `k > 2` pairwise different
/// optional notes yields `1 + 2k + (k - 2)` different variants (the
/// mandatory notes alone, the forward cumulative and one-note variants, and
/// the reverse cumulative ones; the first one-note variant repeats the first
/// cumulative one, and the first reverse variant the last one-note one).
pub proof fn lemma_variant_count(iv: Seq<u8>, opt: Seq<u8>)
    requires
        opt.len() > 2,
        opt.no_duplicates(),
    ensures
        variant_intervals(iv, opt).to_set().len() == 1 + 2 * opt.len() + (opt.len() - 2),
{
    let k = opt.len() as int;
    let d = distinct_variant_intervals(iv, opt);
    let v = variant_intervals(iv, opt);
    let f = Seq::new(k as nat, |j: int| iv + opt.subrange(0, j + 1));
    let g = Seq::new((k - 1) as nat, |j: int| iv.push(opt[j + 1]));
    let h = Seq::new((k - 1) as nat, |j: int| iv + reverse_prefix(opt, j + 1));
    assert(d == seq![iv] + f + g + h);
    assert(d.len() == 3 * k - 1);
    // each list of d is one of v, and each of v one of d
    assert forall|x: Seq<u8>| d.contains(x) <==> v.contains(x) by {
        if d.contains(x) {
            let i = choose|i: int| 0 <= i < d.len() && d[i] == x;
            if i == 0 {
                assert(v[0] == x);
            } else if i < 1 + k {
                let j = i - 1;
                assert(x == f[j]);
                assert(forward_variants(iv, opt)[2 * j] == x);
                assert(v[1 + 2 * j] == x);
            } else if i < 2 * k {
                let j = i - 1 - k;
                assert(x == g[j]);
                assert(forward_variants(iv, opt)[2 * (j + 1) + 1] == x) by {
                    assert((2 * (j + 1) + 1) / 2 == j + 1);
                }
                assert(v[1 + 2 * (j + 1) + 1] == x);
            } else {
                let j = i - 2 * k;
                assert(x == h[j]);
                assert(reverse_variants(iv, opt)[j + 1] == x);
                assert(v[1 + 2 * k + j + 1] == x);
            }
        }
        if v.contains(x) {
            let i = choose|i: int| 0 <= i < v.len() && v[i] == x;
            if i == 0 {
                assert(d[0] == x);
            } else if i < 1 + 2 * k {
                let t = i - 1;
                let j = t / 2;
                if t % 2 == 0 {
                    assert(x == iv + opt.subrange(0, j + 1));
                    assert(d[1 + j] == x);
                } else if j == 0 {
                    assert(x == iv.push(opt[0]));
                    assert(opt.subrange(0, 1) =~= seq![opt[0]]);
                    assert(iv.push(opt[0]) =~= iv + opt.subrange(0, 1));
                    assert(d[1] == x);
                } else {
                    assert(x == iv.push(opt[j]));
                    assert(d[1 + k + (j - 1)] == x);
                }
            } else {
                let j = i - 1 - 2 * k;
                assert(x == iv + reverse_prefix(opt, j));
                if j == 0 {
                    assert(reverse_prefix(opt, 0) =~= seq![opt[k - 1]]);
                    assert(iv + reverse_prefix(opt, 0) =~= iv.push(opt[k - 1]));
                    assert(d[1 + k + (k - 2)] == x);
                } else {
                    assert(d[2 * k + (j - 1)] == x);
                }
            }
        }
    }
    assert(d.to_set() =~= v.to_set());
    // the lists of d are pairwise different
    assert forall|a: int, b: int| 0 <= a < d.len() && 0 <= b < d.len() && a != b implies d[a] != d[b] by {
        let la = d[a].len();
        let lb = d[b].len();
        if a == 0 || b == 0 {
            assert(d[0].len() == iv.len());
            assert(a != 0 ==> d[a].len() > iv.len());
            assert(b != 0 ==> d[b].len() > iv.len());
        } else {
            // the group and place of each index
            let ga: int = if a < 1 + k { 0 } else if a < 2 * k { 1 } else { 2 };
            let gb: int = if b < 1 + k { 0 } else if b < 2 * k { 1 } else { 2 };
            let ja: int = if ga == 0 { a - 1 } else if ga == 1 { a - 1 - k } else { a - 2 * k };
            let jb: int = if gb == 0 { b - 1 } else if gb == 1 { b - 1 - k } else { b - 2 * k };
            let sa: Seq<u8> = if ga == 0 { opt.subrange(0, ja + 1) } else if ga == 1 { seq![opt[ja + 1]] } else { reverse_prefix(opt, ja + 1) };
            let sb: Seq<u8> = if gb == 0 { opt.subrange(0, jb + 1) } else if gb == 1 { seq![opt[jb + 1]] } else { reverse_prefix(opt, jb + 1) };
            if ga == 1 {
                assert(d[a] =~= iv + sa);
            } else {
                assert(d[a] == iv + sa);
            }
            if gb == 1 {
                assert(d[b] =~= iv + sb);
            } else {
                assert(d[b] == iv + sb);
            }
            if sa.len() == sb.len() {
                if ga == gb {
                    if ga == 1 {
                        assert(sa[0] != sb[0]);
                    } else if ga == 0 {
                        assert(ja != jb);
                    } else {
                        assert(ja != jb);
                    }
                    assert(sa != sb);
                } else if sa.len() == 1 {
                    // a one-note list against a cumulative list of one note
                    if ga == 1 && gb == 0 {
                        assert(sb[0] == opt[0]);
                        assert(sa[0] == opt[ja + 1]);
                        assert(sa[0] != sb[0]);
                    } else if ga == 0 && gb == 1 {
                        assert(sa[0] == opt[0]);
                        assert(sb[0] == opt[jb + 1]);
                        assert(sa[0] != sb[0]);
                    } else {
                        assert(false);
                    }
                } else {
                    // forward against reverse, both of two or more notes
                    assert(ga != 1 && gb != 1);
                    assert(sa[0] != sb[0]) by {
                        if ga == 0 {
                            assert(sa[0] == opt[0]);
                            assert(sb[0] == opt[k - 1]);
                        } else {
                            assert(sa[0] == opt[k - 1]);
                            assert(sb[0] == opt[0]);
                        }
                    }
                }
                lemma_append_distinct(iv, sa, sb);
            } else {
                assert(d[a].len() != d[b].len());
            }
        }
    }
    assert(d.no_duplicates());
    d.unique_seq_to_set();
}


/// `dedup` keeps only chords of the list.
pub proof fn lemma_dedup_subset(s: Seq<ChordView>, x: ChordView)
    ensures
        dedup(s).contains(x) ==> s.contains(x),
    decreases s.len(),
{
    if s.len() > 0 {
        lemma_dedup_subset(s.drop_last(), x);
        let d = dedup(s.drop_last());
        if dedup(s).contains(x) {
            if d.contains(x) {
                let i = choose|i: int| 0 <= i < s.drop_last().len() && s.drop_last()[i] == x;
                assert(s[i] == x);
            } else {
                let e = d.push(s.last());
                let i = choose|i: int| 0 <= i < e.len() && e[i] == x;
                if i < d.len() {
                    assert(d[i] == x);
                } else {
                    assert(s[s.len() - 1] == x);
                }
            }
        }
    }
}


/// Chords built from chord types that have notes have notes.
pub proof fn lemma_chords_of_types_have_notes(types: Seq<ChordTypeView>)
    requires
        crate::chord_type::types_have_notes(types),
    ensures
        all_have_notes(chords_of_types(types)),
    decreases types.len(),
{
    if types.len() > 0 {
        assert(forall|i: int| 0 <= i < types.drop_last().len() ==> #[trigger] types.drop_last()[i] == types[i]);
        lemma_chords_of_types_have_notes(types.drop_last());
        let a = chords_of_types(types.drop_last());
        let t = types.last();
        assert(t == types[types.len() - 1]);
        let b = t.roots.map_values(|r: u8| ChordView { chord_type: t, root: r, key: 0 });
        assert forall|i: int| 0 <= i < (a + b).len() implies (#[trigger] (a + b)[i]).chord_type.note_intervals.len() > 0 by {
            if i < a.len() {
                assert((a + b)[i] == a[i]);
            } else {
                assert((a + b)[i] == b[i - a.len()]);
                assert(t.roots.len() > 0);
            }
        }
    }
}

proof fn lemma_flat_have_notes(s: Seq<ChordView>)
    requires
        all_have_notes(s),
    ensures
        all_have_notes(flat_variants(s)),
    decreases s.len(),
{
    if s.len() > 0 {
        assert(forall|i: int| 0 <= i < s.drop_last().len() ==> #[trigger] s.drop_last()[i] == s[i]);
        lemma_flat_have_notes(s.drop_last());
        let f = flat_variants(s.drop_last());
        let c = s.last();
        assert(c == s[s.len() - 1]);
        let v = variants_of(c);
        let ivs = variant_intervals(c.chord_type.note_intervals, c.chord_type.optional_notes);
        assert forall|j: int| 0 <= j < ivs.len() implies (#[trigger] ivs[j]).len() >= c.chord_type.note_intervals.len() by {
            let iv = c.chord_type.note_intervals;
            let opt = c.chord_type.optional_notes;
            if j == 0 {
            } else if j < 1 + forward_variants(iv, opt).len() {
                assert(ivs[j] == forward_variants(iv, opt)[j - 1]);
            } else {
                assert(ivs[j] == reverse_variants(iv, opt)[j - 1 - forward_variants(iv, opt).len()]);
            }
        }
        assert forall|i: int| 0 <= i < (f + v).len() implies (#[trigger] (f + v)[i]).chord_type.note_intervals.len() > 0 by {
            if i < f.len() {
                assert((f + v)[i] == f[i]);
            } else {
                assert((f + v)[i] == v[i - f.len()]);
                assert(v[i - f.len()].chord_type.note_intervals == ivs[i - f.len()]);
            }
        }
    }
}

proof fn lemma_dedup_have_notes(s: Seq<ChordView>)
    requires
        all_have_notes(s),
    ensures
        all_have_notes(dedup(s)),
{
    assert forall|i: int| 0 <= i < dedup(s).len() implies (#[trigger] dedup(s)[i]).chord_type.note_intervals.len() > 0 by {
        let x = dedup(s)[i];
        assert(dedup(s).contains(x));
        lemma_dedup_subset(s, x);
        let j = choose|j: int| 0 <= j < s.len() && s[j] == x;
    }
}

/// Expansion keeps every chord with a note.
pub proof fn lemma_expanded_have_notes(s: Seq<ChordView>)
    requires
        all_have_notes(s),
    ensures
        all_have_notes(expanded(s)),
{
    lemma_flat_have_notes(s);
    lemma_dedup_have_notes(flat_variants(s));
}

/// `keep` keeps every chord with a note.
pub proof fn lemma_keep_have_notes(s: Seq<ChordView>, pred: spec_fn(ChordView) -> bool)
    requires
        all_have_notes(s),
    ensures
        all_have_notes(keep(s, pred)),
{
    assert forall|i: int| 0 <= i < keep(s, pred).len() implies (#[trigger] keep(s, pred)[i]).chord_type.note_intervals.len() > 0 by {
        let x = keep(s, pred)[i];
        assert(keep(s, pred).contains(x));
        lemma_keep_contains(s, pred, x);
        let j = choose|j: int| 0 <= j < s.len() && s[j] == x;
    }
}


proof fn lemma_dedup_covers(s: Seq<ChordView>, x: ChordView)
    requires
        s.contains(x),
    ensures
        contains_same(dedup(s), x),
    decreases s.len(),
{
    let d = dedup(s.drop_last());
    if s.last() == x {
        if !contains_same(d, x) {
            let e = d.push(x);
            assert(e[e.len() - 1].same_chord(x));
        }
    } else {
        let i = choose|i: int| 0 <= i < s.len() && s[i] == x;
        assert(s.drop_last()[i] == x);
        lemma_dedup_covers(s.drop_last(), x);
        if !contains_same(d, s.last()) {
            let e = d.push(s.last());
            let j = choose|j: int| 0 <= j < d.len() && (#[trigger] d[j]).same_chord(x);
            assert(e[j] == d[j]);
        }
    }
}

/// The interval lists of a list of chords.
pub open spec fn interval_lists(s: Seq<ChordView>) -> Seq<Seq<u8>> {
    s.map_values(|c: ChordView| c.chord_type.note_intervals)
}

/// For chords of one root without optional notes, `dedup` keeps one chord
/// per interval list.
proof fn lemma_dedup_len(s: Seq<ChordView>, root: u8)
    requires
        forall|i: int| 0 <= i < s.len() ==> (#[trigger] s[i]).root == root && s[i].chord_type.optional_notes.len() == 0,
    ensures
        dedup(s).len() == interval_lists(s).to_set().len(),
{
    let d = dedup(s);
    lemma_dedup_unique(s);
    assert forall|i: int| 0 <= i < d.len() implies (#[trigger] d[i]).root == root && d[i].chord_type.optional_notes.len() == 0 by {
        assert(d.contains(d[i]));
        lemma_dedup_subset(s, d[i]);
    }
    let di = interval_lists(d);
    assert forall|a: int, b: int| 0 <= a < di.len() && 0 <= b < di.len() && a != b implies di[a] != di[b] by {
        assert(!d[a].same_chord(d[b]));
        assert(d[a].chord_type.optional_notes =~= d[b].chord_type.optional_notes);
    }
    assert(di.no_duplicates());
    di.unique_seq_to_set();
    assert forall|v: Seq<u8>| di.to_set().contains(v) <==> interval_lists(s).to_set().contains(v) by {
        if di.contains(v) {
            let a = choose|a: int| 0 <= a < di.len() && di[a] == v;
            assert(d.contains(d[a]));
            lemma_dedup_subset(s, d[a]);
            let j = choose|j: int| 0 <= j < s.len() && s[j] == d[a];
            assert(interval_lists(s)[j] == v);
        }
        if interval_lists(s).contains(v) {
            let j = choose|j: int| 0 <= j < interval_lists(s).len() && interval_lists(s)[j] == v;
            assert(s.contains(s[j]));
            lemma_dedup_covers(s, s[j]);
            let a = choose|a: int| 0 <= a < d.len() && (#[trigger] d[a]).same_chord(s[j]);
            assert(di[a] == v);
        }
    }
    assert(di.to_set() =~= interval_lists(s).to_set());
}

/// The number of chords expansion makes of one chord type: a chord with
/// `k > 2` pairwise different optional notes expands into exactly
/// `1 + 2k + (k - 2)` chords.
pub proof fn lemma_expansion_count(c: ChordView)
    requires
        c.chord_type.optional_notes.len() > 2,
        c.chord_type.optional_notes.no_duplicates(),
    ensures
        expanded(seq![c]).len() == 1 + 2 * c.chord_type.optional_notes.len() + (c.chord_type.optional_notes.len() - 2),
{
    let v = variants_of(c);
    let s = seq![c];
    assert(s.drop_last() =~= Seq::<ChordView>::empty());
    assert(s.last() == c);
    assert(flat_variants(s.drop_last()) == Seq::<ChordView>::empty());
    assert(flat_variants(s) == flat_variants(s.drop_last()) + v);
    assert(flat_variants(s) =~= v);
    let ivl = variant_intervals(c.chord_type.note_intervals, c.chord_type.optional_notes);
    assert(interval_lists(v) =~= ivl);
    lemma_dedup_len(v, c.root);
    lemma_variant_count(c.chord_type.note_intervals, c.chord_type.optional_notes);
}

} // verus!
