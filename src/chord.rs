//! Chords: a chord type at a root, seen in a key.
use vstd::prelude::*;
use vstd::string::*;
use crate::chord_type::{ctv, ChordType, ChordTypeView};
use crate::text::same_bytes;

verus! {

/// The mathematical value of a chord.
pub struct ChordView {
    pub chord_type: ChordTypeView,
    pub root: u8,
    pub key: i16,
}

/// A chord type instantiated at a root pitch class, displayed in a key.
/// Its identity is the root with the intervals and optional notes of its
/// type; the key only shifts derived pitches and names.
#[derive(Debug)]
pub struct Chord {
    pub chord_type: ChordType,
    pub root: u8,
    pub key: i16,
}

impl View for Chord {
    type V = ChordView;

    open spec fn view(&self) -> ChordView {
        ChordView { chord_type: self.chord_type@, root: self.root, key: self.key }
    }
}

/// The views of a list of chords.
pub open spec fn chord_views(v: Seq<Chord>) -> Seq<ChordView> {
    v.map_values(|c: Chord| c@)
}

/// A key offset is a pitch class.
pub open spec fn key_ok(k: int) -> bool {
    0 <= k < 12
}

impl ChordView {
    /// The position of the `i`-th mandatory note, in the chord's key.
    pub open spec fn note(self, i: int) -> int {
        self.chord_type.note_intervals[i] + self.root + self.key
    }

    /// Whether some mandatory note of the chord lies at pitch class `p`.
    pub open spec fn has_pitch_class(self, p: int) -> bool {
        exists|i: int| 0 <= i < self.chord_type.note_intervals.len() && #[trigger] self.note(i) % 12 == p
    }

    /// Same root, same intervals, same optional notes: the identity of a
    /// chord, which neither its key nor its name takes part in.
    pub open spec fn same_chord(self, other: ChordView) -> bool {
        self.root == other.root && self.chord_type.note_intervals == other.chord_type.note_intervals
            && self.chord_type.optional_notes == other.chord_type.optional_notes
    }

    /// The 12-bit mask of the chord's pitch classes.
    pub open spec fn mask_has(self, m: u16) -> bool {
        m < 4096 && forall|p: u16| p < 12 ==> (bit_set(m, p) <==> self.has_pitch_class(p as int))
    }
}

/// Whether bit `p` of `m` is set.
pub open spec fn bit_set(m: u16, p: u16) -> bool {
    (m >> p) & 1u16 == 1u16
}

proof fn lemma_or_bit(m: u16, p: u16, q: u16)
    requires
        p < 12,
        q < 12,
        m < 4096,
    ensures
        ((m | (1u16 << p)) >> q) & 1u16 == 1u16 <==> (((m >> q) & 1u16 == 1u16) || p == q),
        (m | (1u16 << p)) < 4096,
{
    assert(((m | (1u16 << p)) >> q) & 1u16 == 1u16 <==> (((m >> q) & 1u16 == 1u16) || p == q))
        by (bit_vector)
        requires
            p < 12,
            q < 12,
    ;
    assert((m | (1u16 << p)) < 4096) by (bit_vector)
        requires
            p < 12,
            m < 4096,
    ;
}

proof fn lemma_zero_bits(q: u16)
    requires
        q < 16,
    ensures
        (0u16 >> q) & 1u16 != 1u16,
{
    assert((0u16 >> q) & 1u16 != 1u16) by (bit_vector);
}

/// For masks of twelve bits, `m & g == m` says that every bit of `m` is a
/// bit of `g`.
pub proof fn lemma_mask_within(m: u16, g: u16)
    requires
        m < 4096,
    ensures
        (m & g == m) <==> (forall|p: u16| p < 12 ==> (bit_set(m, p) ==> bit_set(g, p))),
{
    if m & g == m {
        assert forall|p: u16| p < 12 implies (bit_set(m, p) ==> bit_set(g, p)) by {
            assert(m & g == m && p < 12 && (m >> p) & 1u16 == 1u16 ==> (g >> p) & 1u16 == 1u16)
                by (bit_vector);
        }
    }
    if forall|p: u16| p < 12 ==> (bit_set(m, p) ==> bit_set(g, p)) {
        assert(bit_set(m, 0) ==> bit_set(g, 0));
        assert(bit_set(m, 1) ==> bit_set(g, 1));
        assert(bit_set(m, 2) ==> bit_set(g, 2));
        assert(bit_set(m, 3) ==> bit_set(g, 3));
        assert(bit_set(m, 4) ==> bit_set(g, 4));
        assert(bit_set(m, 5) ==> bit_set(g, 5));
        assert(bit_set(m, 6) ==> bit_set(g, 6));
        assert(bit_set(m, 7) ==> bit_set(g, 7));
        assert(bit_set(m, 8) ==> bit_set(g, 8));
        assert(bit_set(m, 9) ==> bit_set(g, 9));
        assert(bit_set(m, 10) ==> bit_set(g, 10));
        assert(bit_set(m, 11) ==> bit_set(g, 11));
        assert(m & g == m) by (bit_vector)
            requires
                m < 4096,
                (m >> 0u16) & 1u16 == 1u16 ==> (g >> 0u16) & 1u16 == 1u16,
                (m >> 1u16) & 1u16 == 1u16 ==> (g >> 1u16) & 1u16 == 1u16,
                (m >> 2u16) & 1u16 == 1u16 ==> (g >> 2u16) & 1u16 == 1u16,
                (m >> 3u16) & 1u16 == 1u16 ==> (g >> 3u16) & 1u16 == 1u16,
                (m >> 4u16) & 1u16 == 1u16 ==> (g >> 4u16) & 1u16 == 1u16,
                (m >> 5u16) & 1u16 == 1u16 ==> (g >> 5u16) & 1u16 == 1u16,
                (m >> 6u16) & 1u16 == 1u16 ==> (g >> 6u16) & 1u16 == 1u16,
                (m >> 7u16) & 1u16 == 1u16 ==> (g >> 7u16) & 1u16 == 1u16,
                (m >> 8u16) & 1u16 == 1u16 ==> (g >> 8u16) & 1u16 == 1u16,
                (m >> 9u16) & 1u16 == 1u16 ==> (g >> 9u16) & 1u16 == 1u16,
                (m >> 10u16) & 1u16 == 1u16 ==> (g >> 10u16) & 1u16 == 1u16,
                (m >> 11u16) & 1u16 == 1u16 ==> (g >> 11u16) & 1u16 == 1u16,
        ;
    }
}

/// Adds pitch class `p` to a twelve-bit mask.
pub fn mask_with(m: u16, p: u16) -> (r: u16)
    requires
        m < 4096,
        p < 12,
    ensures
        r < 4096,
        forall|q: u16| q < 12 ==> (bit_set(r, q) <==> (bit_set(m, q) || q == p)),
{
    proof {
        assert forall|q: u16| q < 12 implies (bit_set(m | (1u16 << p), q) <==> (bit_set(m, q) || q == p)) by {
            lemma_or_bit(m, p, q);
        }
        lemma_or_bit(m, p, 0);
    }
    m | (1u16 << p)
}

/// The names of the twelve pitch classes, from C.
pub open spec fn key_names() -> Seq<Seq<char>> {
    seq!["C"@, "C#"@, "D"@, "D#"@, "E"@, "F"@, "F#"@, "G"@, "G#"@, "A"@, "A#"@, "B"@]
}

/// The name of a pitch class.
pub fn key_name(p: usize) -> (r: &'static str)
    requires
        p < 12,
    ensures
        r@ == key_names()[p as int],
{
    if p == 0 {
        "C"
    } else if p == 1 {
        "C#"
    } else if p == 2 {
        "D"
    } else if p == 3 {
        "D#"
    } else if p == 4 {
        "E"
    } else if p == 5 {
        "F"
    } else if p == 6 {
        "F#"
    } else if p == 7 {
        "G"
    } else if p == 8 {
        "G#"
    } else if p == 9 {
        "A"
    } else if p == 10 {
        "A#"
    } else {
        "B"
    }
}

/// The names of the pitch classes of some note positions, joined by `, `.
pub open spec fn note_names(notes: Seq<int>) -> Seq<char>
    decreases notes.len(),
{
    if notes.len() == 0 {
        Seq::empty()
    } else if notes.len() == 1 {
        key_names()[notes[0] % 12]
    } else {
        note_names(notes.drop_last()) + ", "@ + key_names()[notes.last() % 12]
    }
}

impl Chord {
    /// A chord's key is a pitch class.
    pub open spec fn wf(&self) -> bool {
        key_ok(self.key as int)
    }

    /// Creates a chord of the given type at a root, in the key of C minor.
    pub fn new(root_index: u8, chord_type: &ChordType) -> (r: Self)
        ensures
            r@ == (ChordView { chord_type: chord_type@, root: root_index, key: 0 }),
    {
        Chord { chord_type: chord_type.duplicate(), root: root_index, key: 0 }
    }

    /// A copy of this chord.
    pub fn duplicate(&self) -> (r: Self)
        ensures
            r@ == self@,
    {
        Chord { chord_type: self.chord_type.duplicate(), root: self.root, key: self.key }
    }

    /// Whether two chords have the same identity.
    pub fn same_chord(&self, other: &Chord) -> (r: bool)
        ensures
            r == self@.same_chord(other@),
    {
        self.root == other.root && same_bytes(&self.chord_type.note_intervals, &other.chord_type.note_intervals)
            && same_bytes(&self.chord_type.optional_notes, &other.chord_type.optional_notes)
    }

    /// The positions of the mandatory notes: each interval plus the root
    /// and the key, not reduced to a pitch class.
    pub fn get_notes(&self) -> (r: Vec<i16>)
        requires
            self.wf(),
        ensures
            r@.len() == self@.chord_type.note_intervals.len(),
            forall|i: int| 0 <= i < r@.len() ==> r@[i] as int == #[trigger] self@.note(i),
    {
        let mut r: Vec<i16> = Vec::new();
        let mut i: usize = 0;
        while i < self.chord_type.note_intervals.len()
            invariant
                self.wf(),
                i <= self@.chord_type.note_intervals.len(),
                r@.len() == i,
                forall|j: int| 0 <= j < i ==> r@[j] as int == #[trigger] self@.note(j),
            decreases self@.chord_type.note_intervals.len() - i,
        {
            let n = self.chord_type.note_intervals[i];
            r.push(n as i16 + self.root as i16 + self.key);
            i = i + 1;
        }
        r
    }

    /// The positions of the optional notes: each optional interval plus the
    /// root (the key is not added).
    pub fn get_optional_notes(&self) -> (r: Vec<i16>)
        ensures
            r@.len() == self@.chord_type.optional_notes.len(),
            forall|i: int| 0 <= i < r@.len() ==> r@[i] as int == self@.chord_type.optional_notes[i] + self.root,
    {
        let mut r: Vec<i16> = Vec::new();
        let mut i: usize = 0;
        while i < self.chord_type.optional_notes.len()
            invariant
                i <= self@.chord_type.optional_notes.len(),
                r@.len() == i,
                forall|j: int| 0 <= j < i ==> r@[j] as int == self@.chord_type.optional_notes[j] + self.root,
            decreases self@.chord_type.optional_notes.len() - i,
        {
            let n = self.chord_type.optional_notes[i];
            r.push(n as i16 + self.root as i16);
            i = i + 1;
        }
        r
    }

    /// The twelve-bit mask of the chord's pitch classes: bit `p` is set
    /// when some mandatory note lies at pitch class `p`.
    pub fn get_notes_u16(&self) -> (r: u16)
        requires
            self.wf(),
        ensures
            self@.mask_has(r),
    {
        let notes = self.get_notes();
        let mut r: u16 = 0;
        let mut i: usize = 0;
        proof {
            assert forall|q: u16| q < 12 implies !bit_set(0u16, q) by {
                lemma_zero_bits(q);
            }
        }
        while i < notes.len()
            invariant
                self.wf(),
                notes@.len() == self@.chord_type.note_intervals.len(),
                forall|j: int| 0 <= j < notes@.len() ==> notes@[j] as int == #[trigger] self@.note(j),
                i <= notes@.len(),
                r < 4096,
                forall|q: u16| q < 12 ==> (bit_set(r, q) <==> exists|j: int| 0 <= j < i && #[trigger] self@.note(j) % 12 == q),
            decreases notes@.len() - i,
        {
            assert(notes@[i as int] as int == self@.note(i as int));
            let pc = (notes[i] % 12) as u16;
            let old_r = r;
            r = mask_with(r, pc);
            proof {
                assert forall|q: u16| q < 12 implies (bit_set(r, q) <==> exists|j: int| 0 <= j < i + 1 && #[trigger] self@.note(j) % 12 == q) by {
                    if bit_set(r, q) {
                        if q == pc {
                            assert(self@.note(i as int) % 12 == q);
                        } else {
                            assert(bit_set(old_r, q));
                        }
                    }
                    if exists|j: int| 0 <= j < i + 1 && #[trigger] self@.note(j) % 12 == q {
                        let j = choose|j: int| 0 <= j < i + 1 && #[trigger] self@.note(j) % 12 == q;
                        if j < i {
                            assert(bit_set(old_r, q));
                        }
                    }
                }
            }
            i = i + 1;
        }
        r
    }

    /// The name of this chord in its key: `<letter> <type name>`.
    pub fn get_name(&self) -> (r: String)
        requires
            self.wf(),
        ensures
            r@ == key_names()[(self.root + self.key) % 12] + " "@ + self@.chord_type.name,
    {
        let p = (self.root as usize + self.key as usize) % 12;
        let r = String::from_str(key_name(p));
        let r = r.concat(" ");
        r.concat(self.chord_type.name.as_str())
    }

    /// The names of the chord's notes, such as `F, A, C#, E`.
    pub fn get_note_names(&self) -> (r: String)
        requires
            self.wf(),
        ensures
            r@ == note_names(Seq::new(self@.chord_type.note_intervals.len(), |i: int| self@.note(i))),
    {
        let notes = self.get_notes();
        let ghost all = Seq::new(self@.chord_type.note_intervals.len(), |i: int| self@.note(i));
        if notes.len() == 0 {
            return String::new();
        }
        assert(notes@[0] as int == all[0]);
        let mut r = String::from_str(key_name((notes[0] % 12) as usize));
        let mut i: usize = 1;
        assert(all.subrange(0, 1) =~= seq![all[0]]);
        while i < notes.len()
            invariant
                1 <= i <= notes@.len(),
                notes@.len() == all.len(),
                forall|j: int| 0 <= j < notes@.len() ==> notes@[j] as int == #[trigger] all[j],
                all == Seq::new(self@.chord_type.note_intervals.len(), |i: int| self@.note(i)),
                self.wf(),
                r@ == note_names(all.subrange(0, i as int)),
            decreases notes@.len() - i,
        {
            assert(notes@[i as int] as int == all[i as int]);
            r.append(", ");
            r.append(key_name((notes[i] % 12) as usize));
            assert(all.subrange(0, i + 1).drop_last() =~= all.subrange(0, i as int));
            i = i + 1;
        }
        assert(all.subrange(0, notes@.len() as int) =~= all);
        r
    }
}

impl PartialEq for Chord {
    fn eq(&self, other: &Chord) -> (r: bool) {
        self.same_chord(other)
    }
}

impl vstd::std_specs::cmp::PartialEqSpecImpl for Chord {
    open spec fn obeys_eq_spec() -> bool {
        true
    }

    open spec fn eq_spec(&self, other: &Chord) -> bool {
        self@.same_chord(other@)
    }
}

impl Default for Chord {
    /// The degenerate chord: an empty chord type at C.
    fn default() -> (r: Self)
        ensures
            r@ == (ChordView {
                chord_type: ctv(Seq::empty(), Seq::empty(), Seq::empty(), Seq::empty()),
                root: 0,
                key: 0,
            }),
    {
        Chord { chord_type: ChordType::default(), root: 0, key: 0 }
    }
}

} // verus!
