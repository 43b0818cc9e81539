//! A reproducible order of chords: by a key taken from the SHA-256 digest
//! of each chord's identity, so that the order depends neither on the run
//! nor on the platform.
use vstd::prelude::*;
use crate::chord::{chord_views, Chord, ChordView};
use crate::encode::{sha256, sha256_of};

verus! {

/// The eight little-endian bytes of a length.
pub open spec fn length_bytes(n: u64) -> Seq<u8> {
    Seq::new(8, |i: int| ((n >> (8 * i) as u64) & 0xffu64) as u8)
}

/// The bytes that identify a chord: the root, then the intervals and the
/// optional notes, each list after its length.
pub open spec fn identity_bytes(c: ChordView) -> Seq<u8> {
    seq![c.root] + length_bytes(c.chord_type.note_intervals.len() as u64) + c.chord_type.note_intervals
        + length_bytes(c.chord_type.optional_notes.len() as u64) + c.chord_type.optional_notes
}

/// The number made of the first `n` bytes, most significant first.
pub open spec fn key_prefix(d: Seq<u8>, n: int) -> u64
    decreases n,
{
    if n <= 0 {
        0
    } else {
        (key_prefix(d, n - 1) << 8u64) | (d[n - 1] as u64)
    }
}

/// The sort key of a chord: the first eight bytes of the digest of its
/// identity.
pub open spec fn order_key(c: ChordView) -> u64 {
    key_prefix(sha256_of(identity_bytes(c)), 8)
}

/// Inserts `x` after the last chord whose key is not greater.
pub open spec fn insert_by_key(s: Seq<ChordView>, x: ChordView) -> Seq<ChordView>
    decreases s.len(),
{
    if s.len() == 0 {
        seq![x]
    } else if order_key(s.last()) <= order_key(x) {
        s.push(x)
    } else {
        insert_by_key(s.drop_last(), x).push(s.last())
    }
}

/// The chords ordered by `order_key`; chords of equal key keep their order.
pub open spec fn reproducible_order(s: Seq<ChordView>) -> Seq<ChordView>
    decreases s.len(),
{
    if s.len() == 0 {
        s
    } else {
        insert_by_key(reproducible_order(s.drop_last()), s.last())
    }
}

fn push_length(out: &mut Vec<u8>, n: u64)
    ensures
        final(out)@ == old(out)@ + length_bytes(n),
{
    let mut i: u64 = 0;
    while i < 8
        invariant
            i <= 8,
            out@ == old(out)@ + length_bytes(n).subrange(0, i as int),
        decreases 8 - i,
    {
        out.push(((n >> (8 * i)) & 0xff) as u8);
        assert(out@ =~= old(out)@ + length_bytes(n).subrange(0, i + 1));
        i = i + 1;
    }
    assert(length_bytes(n).subrange(0, 8) =~= length_bytes(n));
}

fn push_all(out: &mut Vec<u8>, v: &Vec<u8>)
    ensures
        final(out)@ == old(out)@ + v@,
{
    let mut i: usize = 0;
    while i < v.len()
        invariant
            i <= v@.len(),
            out@ == old(out)@ + v@.subrange(0, i as int),
        decreases v@.len() - i,
    {
        out.push(v[i]);
        assert(out@ =~= old(out)@ + v@.subrange(0, i + 1));
        i = i + 1;
    }
    assert(v@.subrange(0, v@.len() as int) =~= v@);
}

/// The sort key of a chord (see `order_key`).
pub fn chord_order_key(c: &Chord) -> (r: u64)
    ensures
        r == order_key(c@),
{
    let mut bytes: Vec<u8> = Vec::new();
    bytes.push(c.root);
    push_length(&mut bytes, c.chord_type.note_intervals.len() as u64);
    push_all(&mut bytes, &c.chord_type.note_intervals);
    push_length(&mut bytes, c.chord_type.optional_notes.len() as u64);
    push_all(&mut bytes, &c.chord_type.optional_notes);
    assert(bytes@ =~= identity_bytes(c@));
    let digest = sha256(bytes.as_slice());
    let mut k: u64 = 0;
    let mut i: usize = 0;
    while i < 8
        invariant
            i <= 8,
            digest@.len() == 32,
            k == key_prefix(digest@, i as int),
        decreases 8 - i,
    {
        k = (k << 8u64) | (digest[i] as u64);
        i = i + 1;
    }
    k
}

proof fn lemma_insert_by_key_split(s: Seq<ChordView>, x: ChordView, j: int)
    requires
        0 <= j <= s.len(),
        forall|t: int| j <= t < s.len() ==> order_key(#[trigger] s[t]) > order_key(x),
        j == 0 || order_key(s[j - 1]) <= order_key(x),
    ensures
        insert_by_key(s, x) == s.subrange(0, j).push(x) + s.subrange(j, s.len() as int),
    decreases s.len(),
{
    if s.len() == j {
        assert(s.subrange(0, j) =~= s);
        assert(s.subrange(0, j).push(x) + s.subrange(j, s.len() as int) =~= s.push(x));
    } else {
        let d = s.drop_last();
        assert(forall|t: int| j <= t < d.len() ==> #[trigger] d[t] == s[t]);
        lemma_insert_by_key_split(d, x, j);
        assert(s.subrange(0, j) =~= d.subrange(0, j));
        assert(s.subrange(j, s.len() as int) =~= d.subrange(j, d.len() as int).push(s.last()));
        assert((d.subrange(0, j).push(x) + d.subrange(j, d.len() as int)).push(s.last()) =~= s.subrange(0, j).push(x)
            + s.subrange(j, s.len() as int));
    }
}

/// Orders the chords by `order_key`, chords of equal key keeping their
/// order (a stable sort).
pub fn sort_reproducibly(list: &mut Vec<Chord>)
    ensures
        chord_views(final(list)@) == reproducible_order(chord_views(old(list)@)),
{
    let ghost orig = chord_views(list@);
    let mut sorted: Vec<Chord> = Vec::new();
    let mut keys: Vec<u64> = Vec::new();
    let mut i: usize = 0;
    while i < list.len()
        invariant
            i <= list@.len(),
            orig == chord_views(list@),
            keys@.len() == sorted@.len(),
            forall|t: int| 0 <= t < keys@.len() ==> keys@[t] == order_key(#[trigger] sorted@[t]@),
            chord_views(sorted@) == reproducible_order(orig.subrange(0, i as int)),
        decreases list@.len() - i,
    {
        let x = list[i].duplicate();
        let key = chord_order_key(&x);
        let mut j: usize = sorted.len();
        while j > 0 && keys[j - 1] > key
            invariant
                j <= sorted@.len(),
                keys@.len() == sorted@.len(),
                forall|t: int| 0 <= t < keys@.len() ==> keys@[t] == order_key(#[trigger] sorted@[t]@),
                key == order_key(x@),
                forall|t: int| j <= t < sorted@.len() ==> order_key(#[trigger] chord_views(sorted@)[t]) > order_key(x@),
            decreases j,
        {
            assert(keys@[j - 1] == order_key(sorted@[j - 1]@));
            j = j - 1;
        }
        proof {
            if j > 0 {
                assert(keys@[j - 1] == order_key(sorted@[j - 1]@));
            }
            lemma_insert_by_key_split(chord_views(sorted@), x@, j as int);
            assert(orig.subrange(0, i + 1).drop_last() =~= orig.subrange(0, i as int));
            assert(orig[i as int] == x@);
        }
        let ghost before = chord_views(sorted@);
        let ghost kbefore = keys@;
        let ghost sbefore = sorted@;
        sorted.insert(j, x);
        keys.insert(j, key);
        proof {
            assert(chord_views(sorted@) =~= before.subrange(0, j as int).push(x@) + before.subrange(j as int, before.len() as int));
            assert forall|t: int| 0 <= t < keys@.len() implies keys@[t] == order_key(#[trigger] sorted@[t]@) by {
                if t < j {
                    assert(keys@[t] == kbefore[t] && sorted@[t] == sbefore[t]);
                } else if t > j {
                    assert(keys@[t] == kbefore[t - 1] && sorted@[t] == sbefore[t - 1]);
                }
            }
        }
        i = i + 1;
    }
    assert(orig.subrange(0, orig.len() as int) =~= orig);
    *list = sorted;
}


/// The chords in reproducible order when `flag` is set, else as they are.
pub open spec fn ordered_if(s: Seq<ChordView>, flag: bool) -> Seq<ChordView> {
    if flag {
        reproducible_order(s)
    } else {
        s
    }
}

/// Every bucket of a table through `ordered_if`.
pub open spec fn ordered_table(t: Seq<Seq<ChordView>>, flag: bool) -> Seq<Seq<ChordView>> {
    Seq::new(t.len(), |q: int| ordered_if(t[q], flag))
}

/// Puts every bucket of the table in reproducible order.
pub fn sort_table_reproducibly(table: &mut Vec<Vec<Chord>>)
    ensures
        crate::universe::table_views(final(table)@) == ordered_table(crate::universe::table_views(old(table)@), true),
{
    let ghost orig = crate::universe::table_views(table@);
    let mut q: usize = 0;
    while q < table.len()
        invariant
            q <= table@.len(),
            table@.len() == orig.len(),
            forall|p: int| 0 <= p < q ==> #[trigger] crate::universe::table_views(table@)[p] == reproducible_order(orig[p]),
            forall|p: int| q <= p < table@.len() ==> #[trigger] crate::universe::table_views(table@)[p] == orig[p],
        decreases table@.len() - q,
    {
        let ghost before = table@;
        assert(crate::universe::table_views(table@)[q as int] == orig[q as int]);
        sort_reproducibly(&mut table[q]);
        proof {
            assert forall|p: int| 0 <= p < table@.len() && p != q implies table@[p] == before[p] by {}
            assert(chord_views(before[q as int]@) == orig[q as int]);
            assert(crate::universe::table_views(table@)[q as int] == reproducible_order(orig[q as int]));
            assert forall|p: int| 0 <= p < q + 1 implies #[trigger] crate::universe::table_views(table@)[p] == reproducible_order(orig[p]) by {
                if p < q {
                    assert(table@[p] == before[p]);
                    assert(crate::universe::table_views(before)[p] == reproducible_order(orig[p]));
                }
            }
            assert forall|p: int| q + 1 <= p < table@.len() implies #[trigger] crate::universe::table_views(table@)[p] == orig[p] by {
                assert(table@[p] == before[p]);
                assert(crate::universe::table_views(before)[p] == orig[p]);
            }
        }
        q = q + 1;
    }
    assert(crate::universe::table_views(table@) =~= ordered_table(orig, true));
}


proof fn lemma_insert_by_key_contains(s: Seq<ChordView>, x: ChordView, y: ChordView)
    ensures
        insert_by_key(s, x).contains(y) <==> (s.contains(y) || y == x),
    decreases s.len(),
{
    if s.len() == 0 {
        assert(seq![x][0] == x);
    } else if order_key(s.last()) <= order_key(x) {
        let e = s.push(x);
        assert(e[e.len() - 1] == x);
        if s.contains(y) {
            let i = choose|i: int| 0 <= i < s.len() && s[i] == y;
            assert(e[i] == y);
        }
        if e.contains(y) && y != x {
            let i = choose|i: int| 0 <= i < e.len() && e[i] == y;
            assert(s[i] == y);
        }
    } else {
        let d = s.drop_last();
        lemma_insert_by_key_contains(d, x, y);
        let r0 = insert_by_key(d, x);
        let e = r0.push(s.last());
        assert(e[e.len() - 1] == s.last());
        assert(s[s.len() - 1] == s.last());
        if s.contains(y) && y != s.last() {
            let i = choose|i: int| 0 <= i < s.len() && s[i] == y;
            assert(d[i] == y);
        }
        if d.contains(y) {
            let i = choose|i: int| 0 <= i < d.len() && d[i] == y;
            assert(s[i] == y);
        }
        if r0.contains(y) {
            let i = choose|i: int| 0 <= i < r0.len() && r0[i] == y;
            assert(e[i] == y);
        }
        if e.contains(y) && y != s.last() {
            let i = choose|i: int| 0 <= i < e.len() && e[i] == y;
            assert(r0[i] == y);
        }
    }
}

/// The reproducible order holds the same chords as the list.
pub proof fn lemma_reproducible_order_contains(s: Seq<ChordView>, y: ChordView)
    ensures
        reproducible_order(s).contains(y) <==> s.contains(y),
    decreases s.len(),
{
    if s.len() > 0 {
        lemma_reproducible_order_contains(s.drop_last(), y);
        lemma_insert_by_key_contains(reproducible_order(s.drop_last()), s.last(), y);
        assert(s[s.len() - 1] == s.last());
        if s.contains(y) && y != s.last() {
            let i = choose|i: int| 0 <= i < s.len() && s[i] == y;
            assert(s.drop_last()[i] == y);
        }
        if s.drop_last().contains(y) {
            let i = choose|i: int| 0 <= i < s.drop_last().len() && s.drop_last()[i] == y;
            assert(s[i] == y);
        }
    }
}

/// Ordering reproducibly keeps a table in agreement with its list.
pub proof fn lemma_ordered_consistent(t: Seq<Seq<ChordView>>, l: Seq<ChordView>, flag: bool)
    requires
        crate::universe::consistent(t, l),
    ensures
        crate::universe::consistent(ordered_table(t, flag), ordered_if(l, flag)),
{
    assert forall|q: int, x: ChordView| 0 <= q < 12 implies (#[trigger] ordered_table(t, flag)[q].contains(x) <==> (
    ordered_if(l, flag).contains(x) && x.has_pitch_class(q))) by {
        if flag {
            lemma_reproducible_order_contains(t[q], x);
            lemma_reproducible_order_contains(l, x);
        }
    }
}

} // verus!
