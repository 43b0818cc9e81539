//! What a chord browser shows: the universe of a chord-type group pruned
//! to a scale, shown in a key, and the chords that hold given notes, each
//! list in the order of the chords' names.
use vstd::prelude::*;
use vstd::string::*;
use crate::chord::{chord_views, key_names, key_ok, Chord, ChordView};
use crate::music::Music;
use crate::notes::parse_key;
use crate::chord_type::{group_catalog, group_of, text_views};
use crate::pruning::{scale_notes, scale_of, set_pruned_list, set_pruned_table};
use crate::universe::{
    all_in_key, built_table, chords_of_types, consistent, contains_same, dedup, keep, push_new, rotated_table,
    stamped, table_views,
};

verus! {

/// The name of a chord in its key.
pub open spec fn name_of(c: ChordView) -> Seq<char> {
    key_names()[(c.root + c.key) % 12] + " "@ + c.chord_type.name
}

/// Whether `a` comes before `b` or equals it, character by character.
pub open spec fn text_le(a: Seq<char>, b: Seq<char>) -> bool
    decreases a.len(),
{
    if a.len() == 0 {
        true
    } else if b.len() == 0 {
        false
    } else if a[0] != b[0] {
        (a[0] as u32) < (b[0] as u32)
    } else {
        text_le(a.drop_first(), b.drop_first())
    }
}

fn text_le_exec(a: &String, b: &String) -> (r: bool)
    ensures
        r == text_le(a@, b@),
{
    let la = a.as_str().unicode_len();
    let lb = b.as_str().unicode_len();
    let mut i: usize = 0;
    assert(a@.subrange(0, la as int) =~= a@);
    assert(b@.subrange(0, lb as int) =~= b@);
    while i < la
        invariant
            la == a@.len(),
            lb == b@.len(),
            i <= la,
            i <= lb,
            a@.subrange(0, i as int) == b@.subrange(0, i as int),
            text_le(a@, b@) == text_le(a@.subrange(i as int, la as int), b@.subrange(i as int, lb as int)),
        decreases la - i,
    {
        let ghost sa = a@.subrange(i as int, la as int);
        let ghost sb = b@.subrange(i as int, lb as int);
        if i >= lb {
            assert(sb.len() == 0);
            return false;
        }
        let ca = a.as_str().get_char(i);
        let cb = b.as_str().get_char(i);
        if ca != cb {
            assert(sa[0] == ca && sb[0] == cb);
            return (ca as u32) < (cb as u32);
        }
        assert(sa.drop_first() =~= a@.subrange(i + 1, la as int));
        assert(sb.drop_first() =~= b@.subrange(i + 1, lb as int));
        assert(a@.subrange(0, i + 1) =~= a@.subrange(0, i as int).push(ca));
        assert(b@.subrange(0, i + 1) =~= b@.subrange(0, i as int).push(cb));
        i = i + 1;
    }
    assert(a@.subrange(i as int, la as int).len() == 0);
    true
}

/// Inserts `x` after the last chord whose name does not come after its
/// name.
pub open spec fn insert_by_name(s: Seq<ChordView>, x: ChordView) -> Seq<ChordView>
    decreases s.len(),
{
    if s.len() == 0 {
        seq![x]
    } else if text_le(name_of(s.last()), name_of(x)) {
        s.push(x)
    } else {
        insert_by_name(s.drop_last(), x).push(s.last())
    }
}

/// The chords in the order of their names (an insertion sort).
pub open spec fn name_order(s: Seq<ChordView>) -> Seq<ChordView>
    decreases s.len(),
{
    if s.len() == 0 {
        s
    } else {
        insert_by_name(name_order(s.drop_last()), s.last())
    }
}

proof fn lemma_insert_by_name_split(s: Seq<ChordView>, x: ChordView, j: int)
    requires
        0 <= j <= s.len(),
        forall|t: int| j <= t < s.len() ==> !text_le(name_of(#[trigger] s[t]), name_of(x)),
        j == 0 || text_le(name_of(s[j - 1]), name_of(x)),
    ensures
        insert_by_name(s, x) == s.subrange(0, j).push(x) + s.subrange(j, s.len() as int),
    decreases s.len(),
{
    if s.len() == j {
        assert(s.subrange(0, j) =~= s);
        assert(s.subrange(0, j).push(x) + s.subrange(j, s.len() as int) =~= s.push(x));
    } else {
        let d = s.drop_last();
        assert(forall|t: int| j <= t < d.len() ==> #[trigger] d[t] == s[t]);
        lemma_insert_by_name_split(d, x, j);
        assert(s.subrange(0, j) =~= d.subrange(0, j));
        assert(s.subrange(j, s.len() as int) =~= d.subrange(j, d.len() as int).push(s.last()));
        assert((d.subrange(0, j).push(x) + d.subrange(j, d.len() as int)).push(s.last()) =~= s.subrange(0, j).push(x)
            + s.subrange(j, s.len() as int));
    }
}

/// Orders the chords by name (see `name_order`).
pub fn sort_by_name(list: &mut Vec<Chord>)
    requires
        forall|i: int| 0 <= i < old(list)@.len() ==> key_ok((#[trigger] old(list)@[i]).key as int),
    ensures
        chord_views(final(list)@) == name_order(chord_views(old(list)@)),
{
    let ghost orig = chord_views(list@);
    let mut sorted: Vec<Chord> = Vec::new();
    let mut names: Vec<String> = Vec::new();
    let mut i: usize = 0;
    while i < list.len()
        invariant
            i <= list@.len(),
            orig == chord_views(list@),
            forall|t: int| 0 <= t < list@.len() ==> key_ok((#[trigger] list@[t]).key as int),
            names@.len() == sorted@.len(),
            forall|t: int| 0 <= t < names@.len() ==> names@[t]@ == name_of(#[trigger] sorted@[t]@),
            chord_views(sorted@) == name_order(orig.subrange(0, i as int)),
        decreases list@.len() - i,
    {
        let x = list[i].duplicate();
        assert(key_ok(list@[i as int].key as int));
        let name = x.get_name();
        assert(name@ == name_of(x@));
        let mut j: usize = sorted.len();
        while j > 0 && !text_le_exec(&names[j - 1], &name)
            invariant
                j <= sorted@.len(),
                names@.len() == sorted@.len(),
                forall|t: int| 0 <= t < names@.len() ==> names@[t]@ == name_of(#[trigger] sorted@[t]@),
                name@ == name_of(x@),
                forall|t: int| j <= t < sorted@.len() ==> !text_le(name_of(#[trigger] chord_views(sorted@)[t]), name_of(x@)),
            decreases j,
        {
            assert(names@[j - 1]@ == name_of(sorted@[j - 1]@));
            j = j - 1;
        }
        proof {
            if j > 0 {
                assert(names@[j - 1]@ == name_of(sorted@[j - 1]@));
            }
            lemma_insert_by_name_split(chord_views(sorted@), x@, j as int);
            assert(orig.subrange(0, i + 1).drop_last() =~= orig.subrange(0, i as int));
            assert(orig[i as int] == x@);
        }
        let ghost before = chord_views(sorted@);
        let ghost nbefore = names@;
        let ghost sbefore = sorted@;
        sorted.insert(j, x);
        names.insert(j, name);
        proof {
            assert(chord_views(sorted@) =~= before.subrange(0, j as int).push(x@) + before.subrange(j as int, before.len() as int));
            assert forall|t: int| 0 <= t < names@.len() implies names@[t]@ == name_of(#[trigger] sorted@[t]@) by {
                if t < j {
                    assert(names@[t] == nbefore[t] && sorted@[t] == sbefore[t]);
                } else if t > j {
                    assert(names@[t] == nbefore[t - 1] && sorted@[t] == sbefore[t - 1]);
                }
            }
        }
        i = i + 1;
    }
    assert(orig.subrange(0, orig.len() as int) =~= orig);
    *list = sorted;
}


/// The list of the universe a browser starts from: the chords of the group
/// (with the custom selection `sel`), pruned to the scale, in C minor.
pub open spec fn browser_list(sel: Seq<Seq<char>>, group: Seq<char>, scale: Seq<char>) -> Seq<ChordView> {
    let built = chords_of_types(group_catalog(group_of(group), sel));
    match scale_notes(scale_of(scale)) {
        None => built,
        Some(g) => set_pruned_list(built, g, 0),
    }
}

/// The table of the universe a browser starts from.
pub open spec fn browser_table(sel: Seq<Seq<char>>, group: Seq<char>, scale: Seq<char>) -> Seq<Seq<ChordView>> {
    let built = chords_of_types(group_catalog(group_of(group), sel));
    match scale_notes(scale_of(scale)) {
        None => built_table(built),
        Some(g) => set_pruned_table(built, g, 0),
    }
}

/// Every bucket in the order of names.
pub open spec fn name_ordered_table(t: Seq<Seq<ChordView>>) -> Seq<Seq<ChordView>> {
    Seq::new(t.len(), |q: int| name_order(t[q]))
}

fn sort_table_by_name(table: &mut Vec<Vec<Chord>>)
    requires
        forall|q: int, i: int| 0 <= q < old(table)@.len() && 0 <= i < old(table)@[q]@.len() ==> key_ok(
            (#[trigger] old(table)@[q]@[i]).key as int,
        ),
    ensures
        table_views(final(table)@) == name_ordered_table(table_views(old(table)@)),
{
    let ghost orig = table_views(table@);
    let mut q: usize = 0;
    while q < table.len()
        invariant
            q <= table@.len(),
            table@.len() == orig.len(),
            forall|p: int| 0 <= p < q ==> #[trigger] table_views(table@)[p] == name_order(orig[p]),
            forall|p: int| q <= p < table@.len() ==> #[trigger] table_views(table@)[p] == orig[p],
            forall|p: int, i: int| q <= p < table@.len() && 0 <= i < table@[p]@.len() ==> key_ok(
                (#[trigger] table@[p]@[i]).key as int,
            ),
        decreases table@.len() - q,
    {
        let ghost before = table@;
        assert(table_views(table@)[q as int] == orig[q as int]);
        assert(forall|i: int| 0 <= i < table@[q as int]@.len() ==> key_ok((#[trigger] table@[q as int]@[i]).key as int));
        sort_by_name(&mut table[q]);
        proof {
            assert forall|p: int| 0 <= p < table@.len() && p != q implies table@[p] == before[p] by {}
            assert forall|p: int| 0 <= p < q + 1 implies #[trigger] table_views(table@)[p] == name_order(orig[p]) by {
                if p < q {
                    assert(table@[p] == before[p]);
                    assert(table_views(before)[p] == name_order(orig[p]));
                }
            }
            assert forall|p: int| q + 1 <= p < table@.len() implies #[trigger] table_views(table@)[p] == orig[p] by {
                assert(table@[p] == before[p]);
                assert(table_views(before)[p] == orig[p]);
            }
            assert forall|p: int, i: int| q + 1 <= p < table@.len() && 0 <= i < table@[p]@.len() implies key_ok(
                (#[trigger] table@[p]@[i]).key as int,
            ) by {
                assert(table@[p] == before[p]);
            }
        }
        q = q + 1;
    }
    assert(table_views(table@) =~= name_ordered_table(orig));
}

proof fn lemma_session_keys(m: &Music)
    requires
        m.wf(),
    ensures
        forall|i: int| 0 <= i < m.chord_list@.len() ==> key_ok((#[trigger] m.chord_list@[i]).key as int),
        forall|q: int, i: int| 0 <= q < m.chord_table@.len() && 0 <= i < m.chord_table@[q]@.len() ==> key_ok(
            (#[trigger] m.chord_table@[q]@[i]).key as int,
        ),
{
    assert forall|i: int| 0 <= i < m.chord_list@.len() implies key_ok((#[trigger] m.chord_list@[i]).key as int) by {
        assert(chord_views(m.chord_list@)[i] == m.chord_list@[i]@);
    }
    assert forall|q: int, i: int| 0 <= q < m.chord_table@.len() && 0 <= i < m.chord_table@[q]@.len() implies key_ok(
        (#[trigger] m.chord_table@[q]@[i]).key as int,
    ) by {
        let x = m.chord_table@[q]@[i]@;
        assert(table_views(m.chord_table@)[q][i] == x);
        assert(table_views(m.chord_table@)[q].contains(x));
        assert(chord_views(m.chord_list@).contains(x));
        let j = choose|j: int| 0 <= j < chord_views(m.chord_list@).len() && chord_views(m.chord_list@)[j] == x;
    }
}

fn browser_session(key: &str, chord_selection: &Vec<String>, chord_type_group: &str, scale: &str) -> (r: Music)
    ensures
        r.wf(),
        r.table_key as int == crate::notes::key_offset(key@),
        chord_views(r.chord_list@) == stamped(
            browser_list(text_views(chord_selection@), chord_type_group@, scale@),
            r.table_key,
        ),
        table_views(r.chord_table@) == rotated_table(
            browser_table(text_views(chord_selection@), chord_type_group@, scale@),
            r.table_key,
            r.table_key as int % 12,
        ),
{
    let mut musician = Music::smoke_hash([0u8; 32], "Cmin", chord_selection, chord_type_group, scale).unwrap();
    musician.rotate_chords(key);
    musician
}

/// The chords of a group pruned to a scale and shown in a key: the list
/// and the table (rotated so that bucket `q` holds the chords with a note
/// at pitch class `q` in that key), each list in the order of names.
pub fn get_chords_of_key(key: &str, chord_selection: &Vec<String>, chord_type_group: &str, scale: &str) -> (r: (
    Vec<Vec<Chord>>,
    Vec<Chord>,
))
    ensures
        ({
            let k = crate::notes::key_offset(key@) as i16;
            &&& chord_views(r.1@) == name_order(
                stamped(browser_list(text_views(chord_selection@), chord_type_group@, scale@), k),
            )
            &&& table_views(r.0@) == name_ordered_table(
                rotated_table(browser_table(text_views(chord_selection@), chord_type_group@, scale@), k, k as int % 12),
            )
        }),
{
    let mut musician = browser_session(key, chord_selection, chord_type_group, scale);
    proof {
        lemma_session_keys(&musician);
    }
    let mut table = musician.chord_table;
    let mut list = musician.chord_list;
    sort_by_name(&mut list);
    sort_table_by_name(&mut table);
    (table, list)
}

/// Whether every bucket named by `notes` holds a chord with the identity
/// of `c`.
pub open spec fn in_all_buckets(t: Seq<Seq<ChordView>>, notes: Seq<usize>, c: ChordView) -> bool {
    forall|i: int| 0 <= i < notes.len() ==> contains_same(t[notes[i] as int], c)
}

/// The chords that hold all the notes: those of the first note's bucket
/// that every other note's bucket holds, each identity once.
pub open spec fn common_chords(t: Seq<Seq<ChordView>>, notes: Seq<usize>) -> Seq<ChordView> {
    dedup(keep(t[notes[0] as int], |c: ChordView| in_all_buckets(t, notes, c)))
}

/// A bucket reduced to the chords of `common`, each identity once.
pub open spec fn reduced_bucket(b: Seq<ChordView>, common: Seq<ChordView>) -> Seq<ChordView> {
    dedup(keep(b, |c: ChordView| contains_same(common, c)))
}

fn holds_same(s: &Vec<Chord>, c: &Chord) -> (r: bool)
    ensures
        r == contains_same(chord_views(s@), c@),
{
    let mut i: usize = 0;
    while i < s.len()
        invariant
            i <= s@.len(),
            forall|j: int| 0 <= j < i ==> !(#[trigger] chord_views(s@)[j]).same_chord(c@),
        decreases s@.len() - i,
    {
        if s[i].same_chord(c) {
            assert(chord_views(s@)[i as int].same_chord(c@));
            return true;
        }
        i = i + 1;
    }
    false
}

fn in_all(table: &Vec<Vec<Chord>>, notes: &Vec<usize>, c: &Chord) -> (r: bool)
    requires
        forall|i: int| 0 <= i < notes@.len() ==> (#[trigger] notes@[i]) < table@.len(),
    ensures
        r == in_all_buckets(table_views(table@), notes@, c@),
{
    let mut i: usize = 0;
    while i < notes.len()
        invariant
            i <= notes@.len(),
            forall|j: int| 0 <= j < notes@.len() ==> (#[trigger] notes@[j]) < table@.len(),
            forall|j: int| 0 <= j < i ==> contains_same(table_views(table@)[(#[trigger] notes@[j]) as int], c@),
        decreases notes@.len() - i,
    {
        let n = notes[i];
        if !holds_same(&table[n], c) {
            assert(!contains_same(table_views(table@)[notes@[i as int] as int], c@));
            return false;
        }
        i = i + 1;
    }
    true
}

/// The chords of `b` that `pred` (given as `keepers`) accepts, each
/// identity once, in order.
fn kept_once(b: &Vec<Chord>, table: &Vec<Vec<Chord>>, notes: &Vec<usize>, common: &Vec<Chord>, by_common: bool) -> (r: Vec<Chord>)
    requires
        forall|i: int| 0 <= i < notes@.len() ==> (#[trigger] notes@[i]) < table@.len(),
    ensures
        by_common ==> chord_views(r@) == dedup(keep(chord_views(b@), |c: ChordView| contains_same(chord_views(common@), c))),
        !by_common ==> chord_views(r@) == dedup(keep(chord_views(b@), |c: ChordView| in_all_buckets(table_views(table@), notes@, c))),
{
    let ghost bv = chord_views(b@);
    let ghost pred = if by_common {
        |c: ChordView| contains_same(chord_views(common@), c)
    } else {
        |c: ChordView| in_all_buckets(table_views(table@), notes@, c)
    };
    let mut r: Vec<Chord> = Vec::new();
    let mut i: usize = 0;
    while i < b.len()
        invariant
            i <= b@.len(),
            bv == chord_views(b@),
            forall|j: int| 0 <= j < notes@.len() ==> (#[trigger] notes@[j]) < table@.len(),
            pred == (if by_common {
                |c: ChordView| contains_same(chord_views(common@), c)
            } else {
                |c: ChordView| in_all_buckets(table_views(table@), notes@, c)
            }),
            chord_views(r@) == dedup(keep(bv.subrange(0, i as int), pred)),
        decreases b@.len() - i,
    {
        let ok = if by_common {
            holds_same(common, &b[i])
        } else {
            in_all(table, notes, &b[i])
        };
        let ghost sub0 = bv.subrange(0, i as int);
        let ghost sub1 = bv.subrange(0, i + 1);
        proof {
            assert(sub1.drop_last() =~= sub0);
            assert(sub1.last() == bv[i as int]);
            assert(bv[i as int] == b@[i as int]@);
            assert(ok == pred(bv[i as int]));
            if ok {
                assert(keep(sub1, pred) == keep(sub0, pred).push(bv[i as int]));
                assert(keep(sub0, pred).push(bv[i as int]).drop_last() =~= keep(sub0, pred));
            } else {
                assert(keep(sub1, pred) == keep(sub0, pred));
            }
        }
        if ok {
            push_new(&mut r, b[i].duplicate());
        }
        i = i + 1;
    }
    assert(bv.subrange(0, b@.len() as int) =~= bv);
    r
}

/// The chords that hold every given note (note names such as `C#`), shown
/// in `key`: their list and the table reduced to them, each list in the
/// order of names; `None` when no note is given.
pub fn chord_finder(
    key: &str,
    chord_selection: &Vec<String>,
    chord_type_group: &str,
    scale: &str,
    notes: &Vec<String>,
) -> (r: Option<(Vec<Vec<Chord>>, Vec<Chord>)>)
    ensures
        notes@.len() == 0 <==> r is None,
        r is Some ==> ({
            let k = crate::notes::key_offset(key@) as i16;
            let t = rotated_table(browser_table(text_views(chord_selection@), chord_type_group@, scale@), k, k as int % 12);
            let idx = notes@.map_values(|s: String| crate::notes::key_offset(s@) as usize);
            let common = common_chords(t, idx);
            &&& chord_views(r->Some_0.1@) == name_order(common)
            &&& table_views(r->Some_0.0@) == name_ordered_table(Seq::new(12, |q: int| reduced_bucket(t[q], common)))
        }),
{
    if notes.len() == 0 {
        return None;
    }
    let mut idx: Vec<usize> = Vec::new();
    let mut i: usize = 0;
    while i < notes.len()
        invariant
            i <= notes@.len(),
            idx@ == notes@.subrange(0, i as int).map_values(|s: String| crate::notes::key_offset(s@) as usize),
            forall|j: int| 0 <= j < idx@.len() ==> (#[trigger] idx@[j]) < 12,
        decreases notes@.len() - i,
    {
        let n = parse_key(notes[i].as_str()) as usize;
        idx.push(n);
        assert(idx@ =~= notes@.subrange(0, i + 1).map_values(|s: String| crate::notes::key_offset(s@) as usize));
        i = i + 1;
    }
    assert(notes@.subrange(0, notes@.len() as int) =~= notes@);
    let musician = browser_session(key, chord_selection, chord_type_group, scale);
    proof {
        lemma_session_keys(&musician);
    }
    let table = musician.chord_table;
    let ghost t = table_views(table@);
    let mut common = kept_once(&table[idx[0]], &table, &idx, &Vec::new(), false);
    assert(chord_views(common@) == common_chords(t, idx@));
    proof {
        let n0 = idx@[0] as int;
        let pred = |c: ChordView| in_all_buckets(t, idx@, c);
        assert forall|i: int| 0 <= i < common@.len() implies key_ok((#[trigger] common@[i]).key as int) by {
            let x = common@[i]@;
            assert(chord_views(common@)[i] == x);
            assert(chord_views(common@).contains(x));
            crate::universe::lemma_dedup_subset(keep(t[n0], pred), x);
            crate::universe::lemma_keep_contains(t[n0], pred, x);
            let j = choose|j: int| 0 <= j < t[n0].len() && t[n0][j] == x;
            assert(chord_views(table@[n0]@)[j] == table@[n0]@[j]@);
        }
    }
    let mut reduced: Vec<Vec<Chord>> = Vec::new();
    let mut q: usize = 0;
    while q < 12
        invariant
            q <= 12,
            table@.len() == 12,
            t == table_views(table@),
            forall|j: int| 0 <= j < idx@.len() ==> (#[trigger] idx@[j]) < 12,
            reduced@.len() == q,
            forall|p: int| 0 <= p < q ==> #[trigger] table_views(reduced@)[p] == reduced_bucket(t[p], chord_views(common@)),
            forall|p: int, i: int| 0 <= p < q && 0 <= i < reduced@[p]@.len() ==> key_ok((#[trigger] reduced@[p]@[i]).key as int),
            forall|i: int| 0 <= i < common@.len() ==> key_ok((#[trigger] common@[i]).key as int),
            forall|p: int, i: int| 0 <= p < 12 && 0 <= i < table@[p]@.len() ==> key_ok((#[trigger] table@[p]@[i]).key as int),
        decreases 12 - q,
    {
        let b = kept_once(&table[q], &table, &idx, &common, true);
        proof {
            assert(t[q as int] == chord_views(table@[q as int]@));
            let pred = |c: ChordView| contains_same(chord_views(common@), c);
            assert forall|i: int| 0 <= i < b@.len() implies key_ok((#[trigger] b@[i]).key as int) by {
                let x = b@[i]@;
                assert(chord_views(b@)[i] == x);
                assert(chord_views(b@).contains(x));
                crate::universe::lemma_dedup_subset(keep(t[q as int], pred), x);
                crate::universe::lemma_keep_contains(t[q as int], pred, x);
                let j = choose|j: int| 0 <= j < t[q as int].len() && t[q as int][j] == x;
                assert(chord_views(table@[q as int]@)[j] == table@[q as int]@[j]@);
            }
        }
        let ghost bv = chord_views(b@);
        let ghost before = reduced@;
        reduced.push(b);
        proof {
            assert forall|p: int, i: int| 0 <= p < q + 1 && 0 <= i < reduced@[p]@.len() implies key_ok((#[trigger] reduced@[p]@[i]).key as int) by {
                if p < q {
                    assert(reduced@[p] == before[p]);
                }
            }
            assert forall|p: int| 0 <= p < q + 1 implies #[trigger] table_views(reduced@)[p] == reduced_bucket(t[p], chord_views(common@)) by {
                if p < q {
                    assert(reduced@[p] == before[p]);
                    assert(table_views(before)[p] == reduced_bucket(t[p], chord_views(common@)));
                } else {
                    assert(table_views(reduced@)[p] == bv);
                }
            }
        }
        q = q + 1;
    }
    sort_by_name(&mut common);
    sort_table_by_name(&mut reduced);
    Some((reduced, common))
}

} // verus!
