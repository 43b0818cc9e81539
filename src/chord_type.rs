//! Chord-type templates and the named catalogs of them.
use vstd::prelude::*;
use crate::notes::{A, ASHARP, C, CSHARP, D, DSHARP, F, FSHARP, G, GSHARP};
use crate::text::{contains_text, copy_bytes, copy_text, same_bytes, same_text};

verus! {

/// The mathematical value of a chord type.
pub struct ChordTypeView {
    pub name: Seq<char>,
    pub note_intervals: Seq<u8>,
    pub roots: Seq<u8>,
    pub optional_notes: Seq<u8>,
}

/// An interval pattern over an implicit root, the roots (in the C minor
/// frame) at which it is used, and optional extension intervals.
#[derive(Debug)]
pub struct ChordType {
    pub note_intervals: Vec<u8>,
    pub name: String,
    pub roots: Vec<u8>,
    pub optional_notes: Vec<u8>,
}

impl View for ChordType {
    type V = ChordTypeView;

    open spec fn view(&self) -> ChordTypeView {
        ChordTypeView {
            name: self.name@,
            note_intervals: self.note_intervals@,
            roots: self.roots@,
            optional_notes: self.optional_notes@,
        }
    }
}

/// A chord-type value from its parts.
pub open spec fn ctv(name: Seq<char>, iv: Seq<u8>, roots: Seq<u8>, opt: Seq<u8>) -> ChordTypeView {
    ChordTypeView { name, note_intervals: iv, roots, optional_notes: opt }
}

/// The twelve pitch classes in order.
pub open spec fn all_pitch_classes() -> Seq<u8> {
    seq![0u8, 1, 2, 3, 4, 5, 6, 7, 8, 9, 10, 11]
}

fn all_pitch_classes_vec() -> (r: Vec<u8>)
    ensures
        r@ == all_pitch_classes(),
{
    let r = vec![0u8, 1, 2, 3, 4, 5, 6, 7, 8, 9, 10, 11];
    assert(r@ =~= all_pitch_classes());
    r
}

fn optional_vec(v: Option<&[u8]>) -> (r: Vec<u8>)
    ensures
        r@ == (match v {
            Some(s) => s@,
            None => Seq::<u8>::empty(),
        }),
{
    match v {
        Some(s) => vstd::slice::slice_to_vec(s),
        None => Vec::new(),
    }
}

impl ChordType {
    /// A chord type used at the given roots.
    pub fn new(name: &str, intervals: &[u8], root_vec: &[u8], optional_notes_vec: Option<&[u8]>) -> (r: Self)
        ensures
            r@ == ctv(
                name@,
                intervals@,
                root_vec@,
                match optional_notes_vec {
                    Some(s) => s@,
                    None => Seq::<u8>::empty(),
                },
            ),
    {
        ChordType {
            note_intervals: vstd::slice::slice_to_vec(intervals),
            name: String::from_str(name),
            roots: vstd::slice::slice_to_vec(root_vec),
            optional_notes: optional_vec(optional_notes_vec),
        }
    }

    /// A chord type used at all twelve roots.
    pub fn all_roots(name: &str, notes: &[u8], optional_notes_vec: Option<&[u8]>) -> (r: Self)
        ensures
            r@ == ctv(
                name@,
                notes@,
                all_pitch_classes(),
                match optional_notes_vec {
                    Some(s) => s@,
                    None => Seq::<u8>::empty(),
                },
            ),
    {
        ChordType {
            note_intervals: vstd::slice::slice_to_vec(notes),
            name: String::from_str(name),
            roots: all_pitch_classes_vec(),
            optional_notes: optional_vec(optional_notes_vec),
        }
    }

    /// Sets this chord type to use all roots.
    pub fn use_all_roots(&mut self, should_use_all_roots: bool)
        ensures
            final(self)@ == (if should_use_all_roots {
                ChordTypeView { roots: all_pitch_classes(), ..old(self)@ }
            } else {
                old(self)@
            }),
    {
        if should_use_all_roots {
            self.roots = all_pitch_classes_vec();
        }
    }

    /// A copy of this chord type.
    pub fn duplicate(&self) -> (r: Self)
        ensures
            r@ == self@,
    {
        ChordType {
            note_intervals: copy_bytes(&self.note_intervals),
            name: copy_text(&self.name),
            roots: copy_bytes(&self.roots),
            optional_notes: copy_bytes(&self.optional_notes),
        }
    }

    /// Whether two chord types have the same shape: intervals, optional
    /// notes and roots (the name is not compared).
    pub fn same_shape(&self, other: &ChordType) -> (r: bool)
        ensures
            r == (self@.note_intervals == other@.note_intervals && self@.optional_notes
                == other@.optional_notes && self@.roots == other@.roots),
    {
        same_bytes(&self.note_intervals, &other.note_intervals) && same_bytes(
            &self.optional_notes,
            &other.optional_notes,
        ) && same_bytes(&self.roots, &other.roots)
    }
}

impl Default for ChordType {
    /// The empty chord type: no intervals, no roots, no name.
    fn default() -> (r: Self)
        ensures
            r@ == ctv(Seq::empty(), Seq::empty(), Seq::empty(), Seq::empty()),
    {
        let r = ChordType {
            note_intervals: Vec::new(),
            roots: Vec::new(),
            name: String::new(),
            optional_notes: Vec::new(),
        };
        assert(r@.name =~= Seq::<char>::empty());
        r
    }
}

impl PartialEq for ChordType {
    fn eq(&self, other: &ChordType) -> (r: bool) {
        self.same_shape(other)
    }
}

impl vstd::std_specs::cmp::PartialEqSpecImpl for ChordType {
    open spec fn obeys_eq_spec() -> bool {
        true
    }

    open spec fn eq_spec(&self, other: &ChordType) -> bool {
        self@.note_intervals == other@.note_intervals && self@.optional_notes
            == other@.optional_notes && self@.roots == other@.roots
    }
}

/// Default chord type definitions: the chord types of the `default` group.
pub open spec fn default_catalog() -> Seq<ChordTypeView> {
    seq![
        ctv("minor 7"@, seq![0u8, 10, 15, 19], seq![C, D, F, FSHARP, ASHARP], seq![]),
        ctv("major 7"@, seq![0u8, 11, 16, 19], seq![DSHARP, GSHARP], seq![]),
        ctv("diminished"@, seq![0u8, 3, 6], seq![DSHARP, FSHARP], seq![]),
        ctv("augmented"@, seq![0u8, 4, 8], seq![D, FSHARP, ASHARP], seq![12u8]),
        ctv("major 6"@, seq![0u8, 9, 16, 19], seq![DSHARP, GSHARP, ASHARP], seq![23u8]),
        ctv("minor 6"@, seq![0u8, 9, 15, 19], seq![C, D, F, G], seq![]),
        ctv("major 9"@, seq![0u8, 4, 10, 14], seq![C, F, G], seq![]),
        ctv("major 7 #9"@, seq![0u8, 4, 10, 15], seq![C, D, G, A], seq![]),
        ctv("major 7b5#9"@, seq![0u8, 4, 10, 15, 18], seq![C, A], seq![]),
        ctv("major 9b5"@, seq![0u8, 4, 10, 15, 17], seq![C, A], seq![]),
        ctv("major 7b9"@, seq![0u8, 4, 10, 13], seq![C, D], seq![]),
    ]
}

/// Default chord type definitions: the chord types of the `default` group.
pub fn default_chord_types() -> (r: Vec<ChordType>)
    ensures
        r@.map_values(|t: ChordType| t@) =~= default_catalog(),
{
    let opt_12: &[u8] = &[12];
    let opt_23: &[u8] = &[23];
    let mut r: Vec<ChordType> = Vec::new();
    r.push(ChordType::new("minor 7", &[0, 10, 15, 19], &[C, D, F, FSHARP, ASHARP], None));
    r.push(ChordType::new("major 7", &[0, 11, 16, 19], &[DSHARP, GSHARP], None));
    r.push(ChordType::new("diminished", &[0, 3, 6], &[DSHARP, FSHARP], None));
    r.push(ChordType::new("augmented", &[0, 4, 8], &[D, FSHARP, ASHARP], Some(opt_12)));
    r.push(ChordType::new("major 6", &[0, 9, 16, 19], &[DSHARP, GSHARP, ASHARP], Some(opt_23)));
    r.push(ChordType::new("minor 6", &[0, 9, 15, 19], &[C, D, F, G], None));
    r.push(ChordType::new("major 9", &[0, 4, 10, 14], &[C, F, G], None));
    r.push(ChordType::new("major 7 #9", &[0, 4, 10, 15], &[C, D, G, A], None));
    r.push(ChordType::new("major 7b5#9", &[0, 4, 10, 15, 18], &[C, A], None));
    r.push(ChordType::new("major 9b5", &[0, 4, 10, 15, 17], &[C, A], None));
    r.push(ChordType::new("major 7b9", &[0, 4, 10, 13], &[C, D], None));
    proof {
        assert(opt_12@ == seq![12u8]);
        assert(opt_23@ == seq![23u8]);
        assert forall|i: int| 0 <= i < 11 implies r@[i]@ == #[trigger] default_catalog()[i] by {
            if i == 0 {
                assert(r@[0]@ == default_catalog()[0]);
            } else if i == 1 {
                assert(r@[1]@ == default_catalog()[1]);
            } else if i == 2 {
                assert(r@[2]@ == default_catalog()[2]);
            } else if i == 3 {
                assert(r@[3]@ == default_catalog()[3]);
            } else if i == 4 {
                assert(r@[4]@ == default_catalog()[4]);
            } else if i == 5 {
                assert(r@[5]@ == default_catalog()[5]);
            } else if i == 6 {
                assert(r@[6]@ == default_catalog()[6]);
            } else if i == 7 {
                assert(r@[7]@ == default_catalog()[7]);
            } else if i == 8 {
                assert(r@[8]@ == default_catalog()[8]);
            } else if i == 9 {
                assert(r@[9]@ == default_catalog()[9]);
            } else {
                assert(r@[10]@ == default_catalog()[10]);
            }
        }
    }
    r
}

/// All chord types that a `custom` selection can pick from, in selection order.
pub open spec fn handpicked_catalog() -> Seq<ChordTypeView> {
    seq![
        ctv("minor 7"@, seq![0u8, 10, 15, 19], seq![C, D, F, FSHARP, ASHARP], seq![]),
        ctv("major 7"@, seq![0u8, 11, 16, 19], seq![DSHARP, GSHARP], seq![]),
        ctv("diminished"@, seq![0u8, 3, 6], seq![DSHARP, FSHARP], seq![]),
        ctv("augmented"@, seq![0u8, 4, 8], seq![D, FSHARP, ASHARP], seq![12u8]),
        ctv("major 6"@, seq![0u8, 9, 16, 19], seq![DSHARP, GSHARP, ASHARP], seq![23u8]),
        ctv("minor 6"@, seq![0u8, 9, 15, 19], seq![C, D, F, G], seq![]),
        ctv("major 9"@, seq![0u8, 4, 10, 14], seq![C, F, G], seq![]),
        ctv("major 7#9"@, seq![0u8, 4, 10, 15], seq![C, D, G, A], seq![]),
        ctv("major 7b5#9"@, seq![0u8, 4, 10, 15, 18], seq![C, A], seq![]),
        ctv("major 9b5"@, seq![0u8, 4, 10, 15, 17], seq![C, A], seq![]),
        ctv("major 7b9"@, seq![0u8, 4, 10, 13], seq![C, D], seq![]),
        ctv("major"@, seq![0u8, 4, 7], seq![DSHARP, GSHARP, ASHARP], seq![]),
        ctv("minor"@, seq![0u8, 3, 7], seq![C, D, F, G], seq![]),
        ctv("minor 9"@, seq![0u8, 3, 7, 10, 14], seq![G], seq![]),
        ctv("major 13"@, seq![0u8, 5, 10, 21, 26, 31], seq![C], seq![0u8, 5]),
        ctv("dominant 9"@, seq![0u8, 4, 9, 14, 18], seq![CSHARP], seq![]),
        ctv("add 9"@, seq![0u8, 4, 7, 14], seq![DSHARP, ASHARP], seq![]),
    ]
}

/// All chord types that a `custom` selection can pick from, in selection order.
pub fn all_custom_chord_types_handpicked() -> (r: Vec<ChordType>)
    ensures
        r@.map_values(|t: ChordType| t@) =~= handpicked_catalog(),
{
    let opt_12: &[u8] = &[12];
    let opt_23: &[u8] = &[23];
    let opt_0_5: &[u8] = &[0, 5];
    let root_g: &[u8] = &[G];
    let root_c: &[u8] = &[C];
    let root_csharp: &[u8] = &[CSHARP];
    let mut r: Vec<ChordType> = Vec::new();
    r.push(ChordType::new("minor 7", &[0, 10, 15, 19], &[C, D, F, FSHARP, ASHARP], None));
    r.push(ChordType::new("major 7", &[0, 11, 16, 19], &[DSHARP, GSHARP], None));
    r.push(ChordType::new("diminished", &[0, 3, 6], &[DSHARP, FSHARP], None));
    r.push(ChordType::new("augmented", &[0, 4, 8], &[D, FSHARP, ASHARP], Some(opt_12)));
    r.push(ChordType::new("major 6", &[0, 9, 16, 19], &[DSHARP, GSHARP, ASHARP], Some(opt_23)));
    r.push(ChordType::new("minor 6", &[0, 9, 15, 19], &[C, D, F, G], None));
    r.push(ChordType::new("major 9", &[0, 4, 10, 14], &[C, F, G], None));
    r.push(ChordType::new("major 7#9", &[0, 4, 10, 15], &[C, D, G, A], None));
    r.push(ChordType::new("major 7b5#9", &[0, 4, 10, 15, 18], &[C, A], None));
    r.push(ChordType::new("major 9b5", &[0, 4, 10, 15, 17], &[C, A], None));
    r.push(ChordType::new("major 7b9", &[0, 4, 10, 13], &[C, D], None));
    r.push(ChordType::new("major", &[0, 4, 7], &[DSHARP, GSHARP, ASHARP], None));
    r.push(ChordType::new("minor", &[0, 3, 7], &[C, D, F, G], None));
    r.push(ChordType::new("minor 9", &[0, 3, 7, 10, 14], root_g, None));
    r.push(ChordType::new("major 13", &[0, 5, 10, 21, 26, 31], root_c, Some(opt_0_5)));
    r.push(ChordType::new("dominant 9", &[0, 4, 9, 14, 18], root_csharp, None));
    r.push(ChordType::new("add 9", &[0, 4, 7, 14], &[DSHARP, ASHARP], None));
    proof {
        assert(opt_12@ == seq![12u8]);
        assert(opt_23@ == seq![23u8]);
        assert(opt_0_5@ == seq![0u8, 5]);
        assert(root_g@ == seq![G]);
        assert(root_c@ == seq![C]);
        assert(root_csharp@ == seq![CSHARP]);
        assert forall|i: int| 0 <= i < 17 implies r@[i]@ == #[trigger] handpicked_catalog()[i] by {
            if i == 0 {
                assert(r@[0]@ == handpicked_catalog()[0]);
            } else if i == 1 {
                assert(r@[1]@ == handpicked_catalog()[1]);
            } else if i == 2 {
                assert(r@[2]@ == handpicked_catalog()[2]);
            } else if i == 3 {
                assert(r@[3]@ == handpicked_catalog()[3]);
            } else if i == 4 {
                assert(r@[4]@ == handpicked_catalog()[4]);
            } else if i == 5 {
                assert(r@[5]@ == handpicked_catalog()[5]);
            } else if i == 6 {
                assert(r@[6]@ == handpicked_catalog()[6]);
            } else if i == 7 {
                assert(r@[7]@ == handpicked_catalog()[7]);
            } else if i == 8 {
                assert(r@[8]@ == handpicked_catalog()[8]);
            } else if i == 9 {
                assert(r@[9]@ == handpicked_catalog()[9]);
            } else if i == 10 {
                assert(r@[10]@ == handpicked_catalog()[10]);
            } else if i == 11 {
                assert(r@[11]@ == handpicked_catalog()[11]);
            } else if i == 12 {
                assert(r@[12]@ == handpicked_catalog()[12]);
            } else if i == 13 {
                assert(r@[13]@ == handpicked_catalog()[13]);
            } else if i == 14 {
                assert(r@[14]@ == handpicked_catalog()[14]);
            } else if i == 15 {
                assert(r@[15]@ == handpicked_catalog()[15]);
            } else {
                assert(r@[16]@ == handpicked_catalog()[16]);
            }
        }
    }
    r
}

/// The chord types of a `custom_pruning` selection: every one used at all twelve roots.
pub open spec fn all_roots_catalog() -> Seq<ChordTypeView> {
    seq![
        ctv("minor 7"@, seq![0u8, 10, 15, 19], all_pitch_classes(), seq![]),
        ctv("major 7"@, seq![0u8, 11, 16, 19], all_pitch_classes(), seq![]),
        ctv("diminished"@, seq![0u8, 3, 6], all_pitch_classes(), seq![]),
        ctv("augmented"@, seq![0u8, 4, 8], all_pitch_classes(), seq![12u8]),
        ctv("major 6"@, seq![0u8, 9, 16, 19], all_pitch_classes(), seq![23u8]),
        ctv("minor 6"@, seq![0u8, 9, 15, 19], all_pitch_classes(), seq![]),
        ctv("major 9"@, seq![0u8, 4, 10, 14], all_pitch_classes(), seq![]),
        ctv("major 7#9"@, seq![0u8, 4, 10, 15], all_pitch_classes(), seq![]),
        ctv("major 7b5#9"@, seq![0u8, 4, 10, 15, 18], all_pitch_classes(), seq![]),
        ctv("major 9b5"@, seq![0u8, 4, 10, 15, 17], all_pitch_classes(), seq![]),
        ctv("major 7b9"@, seq![0u8, 4, 10, 13], all_pitch_classes(), seq![]),
        ctv("major"@, seq![0u8, 4, 7], all_pitch_classes(), seq![]),
        ctv("minor"@, seq![0u8, 3, 7], all_pitch_classes(), seq![]),
        ctv("minor 9"@, seq![0u8, 3, 7, 10, 14], all_pitch_classes(), seq![]),
        ctv("major 13"@, seq![0u8, 5, 10, 21, 26, 31], all_pitch_classes(), seq![]),
        ctv("dominant 9"@, seq![0u8, 4, 9, 14, 18], all_pitch_classes(), seq![]),
        ctv("add 9"@, seq![0u8, 4, 7, 14], all_pitch_classes(), seq![]),
    ]
}

/// The chord types of a `custom_pruning` selection: every one used at all twelve roots.
pub fn all_custom_chord_types_all_roots() -> (r: Vec<ChordType>)
    ensures
        r@.map_values(|t: ChordType| t@) =~= all_roots_catalog(),
{
    let opt_12: &[u8] = &[12];
    let opt_23: &[u8] = &[23];
    let mut r: Vec<ChordType> = Vec::new();
    r.push(ChordType::all_roots("minor 7", &[0, 10, 15, 19], None));
    r.push(ChordType::all_roots("major 7", &[0, 11, 16, 19], None));
    r.push(ChordType::all_roots("diminished", &[0, 3, 6], None));
    r.push(ChordType::all_roots("augmented", &[0, 4, 8], Some(opt_12)));
    r.push(ChordType::all_roots("major 6", &[0, 9, 16, 19], Some(opt_23)));
    r.push(ChordType::all_roots("minor 6", &[0, 9, 15, 19], None));
    r.push(ChordType::all_roots("major 9", &[0, 4, 10, 14], None));
    r.push(ChordType::all_roots("major 7#9", &[0, 4, 10, 15], None));
    r.push(ChordType::all_roots("major 7b5#9", &[0, 4, 10, 15, 18], None));
    r.push(ChordType::all_roots("major 9b5", &[0, 4, 10, 15, 17], None));
    r.push(ChordType::all_roots("major 7b9", &[0, 4, 10, 13], None));
    r.push(ChordType::all_roots("major", &[0, 4, 7], None));
    r.push(ChordType::all_roots("minor", &[0, 3, 7], None));
    r.push(ChordType::all_roots("minor 9", &[0, 3, 7, 10, 14], None));
    r.push(ChordType::all_roots("major 13", &[0, 5, 10, 21, 26, 31], None));
    r.push(ChordType::all_roots("dominant 9", &[0, 4, 9, 14, 18], None));
    r.push(ChordType::all_roots("add 9", &[0, 4, 7, 14], None));
    proof {
        assert(opt_12@ == seq![12u8]);
        assert(opt_23@ == seq![23u8]);
        assert forall|i: int| 0 <= i < 17 implies r@[i]@ == #[trigger] all_roots_catalog()[i] by {
            if i == 0 {
                assert(r@[0]@ == all_roots_catalog()[0]);
            } else if i == 1 {
                assert(r@[1]@ == all_roots_catalog()[1]);
            } else if i == 2 {
                assert(r@[2]@ == all_roots_catalog()[2]);
            } else if i == 3 {
                assert(r@[3]@ == all_roots_catalog()[3]);
            } else if i == 4 {
                assert(r@[4]@ == all_roots_catalog()[4]);
            } else if i == 5 {
                assert(r@[5]@ == all_roots_catalog()[5]);
            } else if i == 6 {
                assert(r@[6]@ == all_roots_catalog()[6]);
            } else if i == 7 {
                assert(r@[7]@ == all_roots_catalog()[7]);
            } else if i == 8 {
                assert(r@[8]@ == all_roots_catalog()[8]);
            } else if i == 9 {
                assert(r@[9]@ == all_roots_catalog()[9]);
            } else if i == 10 {
                assert(r@[10]@ == all_roots_catalog()[10]);
            } else if i == 11 {
                assert(r@[11]@ == all_roots_catalog()[11]);
            } else if i == 12 {
                assert(r@[12]@ == all_roots_catalog()[12]);
            } else if i == 13 {
                assert(r@[13]@ == all_roots_catalog()[13]);
            } else if i == 14 {
                assert(r@[14]@ == all_roots_catalog()[14]);
            } else if i == 15 {
                assert(r@[15]@ == all_roots_catalog()[15]);
            } else {
                assert(r@[16]@ == all_roots_catalog()[16]);
            }
        }
    }
    r
}

/// The chord types of the `major and minor` group.
pub open spec fn major_and_minor_catalog() -> Seq<ChordTypeView> {
    seq![
        ctv("major"@, seq![0u8, 4, 7], seq![DSHARP, GSHARP, ASHARP], seq![]),
        ctv("minor"@, seq![0u8, 3, 7], seq![C, D, F, G], seq![]),
    ]
}

/// The chord types of the `major and minor` group.
pub fn major_and_minor_chord_types() -> (r: Vec<ChordType>)
    ensures
        r@.map_values(|t: ChordType| t@) =~= major_and_minor_catalog(),
{
    let mut r: Vec<ChordType> = Vec::new();
    r.push(ChordType::new("major", &[0, 4, 7], &[DSHARP, GSHARP, ASHARP], None));
    r.push(ChordType::new("minor", &[0, 3, 7], &[C, D, F, G], None));
    proof {
        assert forall|i: int| 0 <= i < 2 implies r@[i]@ == #[trigger] major_and_minor_catalog()[i] by {
            if i == 0 {
                assert(r@[0]@ == major_and_minor_catalog()[0]);
            } else {
                assert(r@[1]@ == major_and_minor_catalog()[1]);
            }
        }
    }
    r
}

/// The chord types of the `original` group, with their own intervals and roots.
pub open spec fn original_catalog() -> Seq<ChordTypeView> {
    seq![
        ctv("minor 7"@, seq![0u8, 3, 6, 10], seq![0u8, 2, 5, 7], seq![]),
        ctv("minor 9"@, seq![0u8, 3, 7, 10, 14], seq![G], seq![]),
        ctv("augmented"@, seq![0u8, 4, 8], seq![10u8], seq![12u8]),
        ctv("major 7"@, seq![0u8, 4, 7, 11], seq![3u8, 8], seq![]),
        ctv("diminished"@, seq![0u8, 3, 6], seq![3u8], seq![]),
        ctv("major 6"@, seq![0u8, 4, 7, 9], seq![10u8], seq![]),
    ]
}

/// The chord types of the `original` group, with their own intervals and roots.
pub fn original_chord_types() -> (r: Vec<ChordType>)
    ensures
        r@.map_values(|t: ChordType| t@) =~= original_catalog(),
{
    let opt_12: &[u8] = &[12];
    let root_g: &[u8] = &[G];
    let root_10: &[u8] = &[10];
    let root_3: &[u8] = &[3];
    let mut r: Vec<ChordType> = Vec::new();
    r.push(ChordType::new("minor 7", &[0, 3, 6, 10], &[0, 2, 5, 7], None));
    r.push(ChordType::new("minor 9", &[0, 3, 7, 10, 14], root_g, None));
    r.push(ChordType::new("augmented", &[0, 4, 8], root_10, Some(opt_12)));
    r.push(ChordType::new("major 7", &[0, 4, 7, 11], &[3, 8], None));
    r.push(ChordType::new("diminished", &[0, 3, 6], root_3, None));
    r.push(ChordType::new("major 6", &[0, 4, 7, 9], root_10, None));
    proof {
        assert(opt_12@ == seq![12u8]);
        assert(root_g@ == seq![G]);
        assert(root_10@ == seq![10u8]);
        assert(root_3@ == seq![3u8]);
        assert forall|i: int| 0 <= i < 6 implies r@[i]@ == #[trigger] original_catalog()[i] by {
            if i == 0 {
                assert(r@[0]@ == original_catalog()[0]);
            } else if i == 1 {
                assert(r@[1]@ == original_catalog()[1]);
            } else if i == 2 {
                assert(r@[2]@ == original_catalog()[2]);
            } else if i == 3 {
                assert(r@[3]@ == original_catalog()[3]);
            } else if i == 4 {
                assert(r@[4]@ == original_catalog()[4]);
            } else {
                assert(r@[5]@ == original_catalog()[5]);
            }
        }
    }
    r
}


/// The names by which a `custom` selection picks chord types, one for each
/// entry of `all_custom_chord_types_handpicked`, in the same order.
pub open spec fn custom_keys() -> Seq<Seq<char>> {
    seq![
        "minor7"@,
        "major7"@,
        "diminished"@,
        "augmented"@,
        "major6"@,
        "minor6"@,
        "major9"@,
        "major7sharp9"@,
        "major7flat5sharp9"@,
        "major9flat5"@,
        "major7flat9"@,
        "major"@,
        "minor"@,
        "minor9"@,
        "major13"@,
        "dominant9"@,
        "add9"@,
    ]
}

fn custom_keys_vec() -> (r: Vec<&'static str>)
    ensures
        r@.map_values(|s: &str| s@) =~= custom_keys(),
{
    let mut r: Vec<&'static str> = Vec::new();
    r.push("minor7");
    r.push("major7");
    r.push("diminished");
    r.push("augmented");
    r.push("major6");
    r.push("minor6");
    r.push("major9");
    r.push("major7sharp9");
    r.push("major7flat5sharp9");
    r.push("major9flat5");
    r.push("major7flat9");
    r.push("major");
    r.push("minor");
    r.push("minor9");
    r.push("major13");
    r.push("dominant9");
    r.push("add9");
    proof {
        assert forall|i: int| 0 <= i < 17 implies r@[i]@ == #[trigger] custom_keys()[i] by {
            if i == 0 {
                assert(r@[0]@ == custom_keys()[0]);
            } else if i == 1 {
                assert(r@[1]@ == custom_keys()[1]);
            } else if i == 2 {
                assert(r@[2]@ == custom_keys()[2]);
            } else if i == 3 {
                assert(r@[3]@ == custom_keys()[3]);
            } else if i == 4 {
                assert(r@[4]@ == custom_keys()[4]);
            } else if i == 5 {
                assert(r@[5]@ == custom_keys()[5]);
            } else if i == 6 {
                assert(r@[6]@ == custom_keys()[6]);
            } else if i == 7 {
                assert(r@[7]@ == custom_keys()[7]);
            } else if i == 8 {
                assert(r@[8]@ == custom_keys()[8]);
            } else if i == 9 {
                assert(r@[9]@ == custom_keys()[9]);
            } else if i == 10 {
                assert(r@[10]@ == custom_keys()[10]);
            } else if i == 11 {
                assert(r@[11]@ == custom_keys()[11]);
            } else if i == 12 {
                assert(r@[12]@ == custom_keys()[12]);
            } else if i == 13 {
                assert(r@[13]@ == custom_keys()[13]);
            } else if i == 14 {
                assert(r@[14]@ == custom_keys()[14]);
            } else if i == 15 {
                assert(r@[15]@ == custom_keys()[15]);
            } else {
                assert(r@[16]@ == custom_keys()[16]);
            }
        }
    }
    r
}

/// The chord types of `pool` whose name in `keys` (same position) is among
/// `sel`, in pool order.
pub open spec fn selected(pool: Seq<ChordTypeView>, keys: Seq<Seq<char>>, sel: Seq<Seq<char>>) -> Seq<ChordTypeView>
    decreases pool.len(),
{
    if pool.len() == 0 {
        Seq::empty()
    } else {
        let rest = selected(pool.drop_last(), keys, sel);
        if sel.contains(keys[pool.len() - 1]) {
            rest.push(pool.last())
        } else {
            rest
        }
    }
}

/// The views of a list of names.
pub open spec fn text_views(v: Seq<String>) -> Seq<Seq<char>> {
    v.map_values(|s: String| s@)
}

/// The views of a list of chord types.
pub open spec fn type_views(v: Seq<ChordType>) -> Seq<ChordTypeView> {
    v.map_values(|t: ChordType| t@)
}

fn select_chord_types(pool: &Vec<ChordType>, keys: &Vec<&str>, selections: &Vec<String>) -> (r: Vec<ChordType>)
    requires
        keys@.len() == pool@.len(),
    ensures
        type_views(r@) == selected(type_views(pool@), keys@.map_values(|s: &str| s@), text_views(selections@)),
{
    let ghost kv = keys@.map_values(|s: &str| s@);
    let ghost sel = text_views(selections@);
    let ghost pv = type_views(pool@);
    let mut r: Vec<ChordType> = Vec::new();
    let mut i: usize = 0;
    while i < pool.len()
        invariant
            i <= pool@.len(),
            keys@.len() == pool@.len(),
            kv == keys@.map_values(|s: &str| s@),
            sel == text_views(selections@),
            pv == type_views(pool@),
            type_views(r@) == selected(pv.subrange(0, i as int), kv, sel),
        decreases pool@.len() - i,
    {
        let ghost before = r@;
        assert(pv.subrange(0, i + 1).drop_last() =~= pv.subrange(0, i as int));
        let picked = contains_text(selections, keys[i]);
        assert(picked == sel.contains(kv[i as int])) by {
            if picked {
                let j = choose|j: int| 0 <= j < selections@.len() && (#[trigger] selections@[j])@ == keys@[i as int]@;
                assert(sel[j] == kv[i as int]);
            }
            if sel.contains(kv[i as int]) {
                let j = choose|j: int| 0 <= j < sel.len() && sel[j] == kv[i as int];
                assert(selections@[j]@ == keys@[i as int]@);
            }
        }
        if picked {
            r.push(pool[i].duplicate());
            assert(type_views(r@) =~= type_views(before).push(pv[i as int]));
        }
        i = i + 1;
    }
    assert(pv.subrange(0, pool@.len() as int) =~= pv);
    r
}

/// A closed choice among the named groups of chord types.
#[derive(Clone, Copy, Debug, PartialEq, Eq, Structural)]
pub enum ChordTypeGroup {
    Default,
    MajorAndMinor,
    Original,
    Custom,
    CustomPruning,
    Unrecognized,
}

/// The group a name selects; an unknown name selects `Unrecognized`.
pub open spec fn group_of(name: Seq<char>) -> ChordTypeGroup {
    if name == "default"@ {
        ChordTypeGroup::Default
    } else if name == "major and minor"@ {
        ChordTypeGroup::MajorAndMinor
    } else if name == "original"@ {
        ChordTypeGroup::Original
    } else if name == "custom"@ {
        ChordTypeGroup::Custom
    } else if name == "custom_pruning"@ || name == "all_notes"@ {
        ChordTypeGroup::CustomPruning
    } else {
        ChordTypeGroup::Unrecognized
    }
}

/// The chord types of a group, given the names of a custom selection.
pub open spec fn group_catalog(group: ChordTypeGroup, sel: Seq<Seq<char>>) -> Seq<ChordTypeView> {
    match group {
        ChordTypeGroup::Default => default_catalog(),
        ChordTypeGroup::MajorAndMinor => major_and_minor_catalog(),
        ChordTypeGroup::Original => original_catalog(),
        ChordTypeGroup::Custom => selected(handpicked_catalog(), custom_keys(), sel),
        ChordTypeGroup::CustomPruning => selected(all_roots_catalog(), custom_keys(), sel),
        ChordTypeGroup::Unrecognized => seq![ctv(Seq::empty(), Seq::empty(), Seq::empty(), Seq::empty())],
    }
}

impl ChordTypeGroup {
    /// Reads a group name: `default`, `major and minor`, `original`,
    /// `custom`, or `custom_pruning` (also called `all_notes`).
    pub fn from_name(name: &str) -> (r: Self)
        ensures
            r == group_of(name@),
    {
        if same_text(name, "default") {
            ChordTypeGroup::Default
        } else if same_text(name, "major and minor") {
            ChordTypeGroup::MajorAndMinor
        } else if same_text(name, "original") {
            ChordTypeGroup::Original
        } else if same_text(name, "custom") {
            ChordTypeGroup::Custom
        } else if same_text(name, "custom_pruning") || same_text(name, "all_notes") {
            ChordTypeGroup::CustomPruning
        } else {
            ChordTypeGroup::Unrecognized
        }
    }
}

/// The chord types of a group; `selections` names the chord types of a
/// custom group (see `custom_keys`). An unrecognized group gives a single
/// empty chord type, which yields no chords.
pub fn chord_types_of_group(group: ChordTypeGroup, selections: &Vec<String>) -> (r: Vec<ChordType>)
    ensures
        type_views(r@) == group_catalog(group, text_views(selections@)),
{
    match group {
        ChordTypeGroup::Default => default_chord_types(),
        ChordTypeGroup::MajorAndMinor => major_and_minor_chord_types(),
        ChordTypeGroup::Original => original_chord_types(),
        ChordTypeGroup::Custom => {
            let pool = all_custom_chord_types_handpicked();
            let keys = custom_keys_vec();
            select_chord_types(&pool, &keys, selections)
        },
        ChordTypeGroup::CustomPruning => {
            let pool = all_custom_chord_types_all_roots();
            let keys = custom_keys_vec();
            select_chord_types(&pool, &keys, selections)
        },
        ChordTypeGroup::Unrecognized => {
            let mut r: Vec<ChordType> = Vec::new();
            r.push(ChordType::default());
            assert(type_views(r@) =~= group_catalog(group, text_views(selections@)));
            r
        },
    }
}


/// The names of all the chord types a custom selection can pick.
pub fn custom_key_names() -> (r: Vec<String>)
    ensures
        text_views(r@) == custom_keys(),
{
    let keys = custom_keys_vec();
    let mut r: Vec<String> = Vec::new();
    let mut i: usize = 0;
    while i < keys.len()
        invariant
            i <= keys@.len(),
            keys@.map_values(|s: &str| s@) == custom_keys(),
            text_views(r@) == keys@.map_values(|s: &str| s@).subrange(0, i as int),
        decreases keys@.len() - i,
    {
        let ghost before = r@;
        r.push(String::from_str(keys[i]));
        assert(text_views(r@) =~= keys@.map_values(|s: &str| s@).subrange(0, i + 1)) by {
            assert(text_views(r@) =~= text_views(before).push(keys@[i as int]@));
        }
        i = i + 1;
    }
    assert(keys@.map_values(|s: &str| s@).subrange(0, keys@.len() as int) =~= custom_keys());
    r
}


/// Every chord type that is used at some root has a mandatory note.
pub open spec fn types_have_notes(types: Seq<ChordTypeView>) -> bool {
    forall|i: int| 0 <= i < types.len() && (#[trigger] types[i]).roots.len() > 0 ==> types[i].note_intervals.len() > 0
}

proof fn lemma_default_have_notes()
    ensures
        types_have_notes(default_catalog()),
{
    assert forall|i: int| 0 <= i < default_catalog().len() implies (#[trigger] default_catalog()[i]).note_intervals.len() > 0 by {
        if i == 0 {
            assert(default_catalog()[0].note_intervals.len() > 0);
        } else if i == 1 {
            assert(default_catalog()[1].note_intervals.len() > 0);
        } else if i == 2 {
            assert(default_catalog()[2].note_intervals.len() > 0);
        } else if i == 3 {
            assert(default_catalog()[3].note_intervals.len() > 0);
        } else if i == 4 {
            assert(default_catalog()[4].note_intervals.len() > 0);
        } else if i == 5 {
            assert(default_catalog()[5].note_intervals.len() > 0);
        } else if i == 6 {
            assert(default_catalog()[6].note_intervals.len() > 0);
        } else if i == 7 {
            assert(default_catalog()[7].note_intervals.len() > 0);
        } else if i == 8 {
            assert(default_catalog()[8].note_intervals.len() > 0);
        } else if i == 9 {
            assert(default_catalog()[9].note_intervals.len() > 0);
        } else {
            assert(default_catalog()[10].note_intervals.len() > 0);
        }
    }
}

proof fn lemma_handpicked_have_notes()
    ensures
        types_have_notes(handpicked_catalog()),
{
    assert forall|i: int| 0 <= i < handpicked_catalog().len() implies (#[trigger] handpicked_catalog()[i]).note_intervals.len() > 0 by {
        if i == 0 {
            assert(handpicked_catalog()[0].note_intervals.len() > 0);
        } else if i == 1 {
            assert(handpicked_catalog()[1].note_intervals.len() > 0);
        } else if i == 2 {
            assert(handpicked_catalog()[2].note_intervals.len() > 0);
        } else if i == 3 {
            assert(handpicked_catalog()[3].note_intervals.len() > 0);
        } else if i == 4 {
            assert(handpicked_catalog()[4].note_intervals.len() > 0);
        } else if i == 5 {
            assert(handpicked_catalog()[5].note_intervals.len() > 0);
        } else if i == 6 {
            assert(handpicked_catalog()[6].note_intervals.len() > 0);
        } else if i == 7 {
            assert(handpicked_catalog()[7].note_intervals.len() > 0);
        } else if i == 8 {
            assert(handpicked_catalog()[8].note_intervals.len() > 0);
        } else if i == 9 {
            assert(handpicked_catalog()[9].note_intervals.len() > 0);
        } else if i == 10 {
            assert(handpicked_catalog()[10].note_intervals.len() > 0);
        } else if i == 11 {
            assert(handpicked_catalog()[11].note_intervals.len() > 0);
        } else if i == 12 {
            assert(handpicked_catalog()[12].note_intervals.len() > 0);
        } else if i == 13 {
            assert(handpicked_catalog()[13].note_intervals.len() > 0);
        } else if i == 14 {
            assert(handpicked_catalog()[14].note_intervals.len() > 0);
        } else if i == 15 {
            assert(handpicked_catalog()[15].note_intervals.len() > 0);
        } else {
            assert(handpicked_catalog()[16].note_intervals.len() > 0);
        }
    }
}

proof fn lemma_all_roots_have_notes()
    ensures
        types_have_notes(all_roots_catalog()),
{
    assert forall|i: int| 0 <= i < all_roots_catalog().len() implies (#[trigger] all_roots_catalog()[i]).note_intervals.len() > 0 by {
        if i == 0 {
            assert(all_roots_catalog()[0].note_intervals.len() > 0);
        } else if i == 1 {
            assert(all_roots_catalog()[1].note_intervals.len() > 0);
        } else if i == 2 {
            assert(all_roots_catalog()[2].note_intervals.len() > 0);
        } else if i == 3 {
            assert(all_roots_catalog()[3].note_intervals.len() > 0);
        } else if i == 4 {
            assert(all_roots_catalog()[4].note_intervals.len() > 0);
        } else if i == 5 {
            assert(all_roots_catalog()[5].note_intervals.len() > 0);
        } else if i == 6 {
            assert(all_roots_catalog()[6].note_intervals.len() > 0);
        } else if i == 7 {
            assert(all_roots_catalog()[7].note_intervals.len() > 0);
        } else if i == 8 {
            assert(all_roots_catalog()[8].note_intervals.len() > 0);
        } else if i == 9 {
            assert(all_roots_catalog()[9].note_intervals.len() > 0);
        } else if i == 10 {
            assert(all_roots_catalog()[10].note_intervals.len() > 0);
        } else if i == 11 {
            assert(all_roots_catalog()[11].note_intervals.len() > 0);
        } else if i == 12 {
            assert(all_roots_catalog()[12].note_intervals.len() > 0);
        } else if i == 13 {
            assert(all_roots_catalog()[13].note_intervals.len() > 0);
        } else if i == 14 {
            assert(all_roots_catalog()[14].note_intervals.len() > 0);
        } else if i == 15 {
            assert(all_roots_catalog()[15].note_intervals.len() > 0);
        } else {
            assert(all_roots_catalog()[16].note_intervals.len() > 0);
        }
    }
}

proof fn lemma_major_and_minor_have_notes()
    ensures
        types_have_notes(major_and_minor_catalog()),
{
    assert forall|i: int| 0 <= i < major_and_minor_catalog().len() implies (#[trigger] major_and_minor_catalog()[i]).note_intervals.len() > 0 by {
        if i == 0 {
            assert(major_and_minor_catalog()[0].note_intervals.len() > 0);
        } else {
            assert(major_and_minor_catalog()[1].note_intervals.len() > 0);
        }
    }
}

proof fn lemma_original_have_notes()
    ensures
        types_have_notes(original_catalog()),
{
    assert forall|i: int| 0 <= i < original_catalog().len() implies (#[trigger] original_catalog()[i]).note_intervals.len() > 0 by {
        if i == 0 {
            assert(original_catalog()[0].note_intervals.len() > 0);
        } else if i == 1 {
            assert(original_catalog()[1].note_intervals.len() > 0);
        } else if i == 2 {
            assert(original_catalog()[2].note_intervals.len() > 0);
        } else if i == 3 {
            assert(original_catalog()[3].note_intervals.len() > 0);
        } else if i == 4 {
            assert(original_catalog()[4].note_intervals.len() > 0);
        } else {
            assert(original_catalog()[5].note_intervals.len() > 0);
        }
    }
}

proof fn lemma_selected_have_notes(pool: Seq<ChordTypeView>, keys: Seq<Seq<char>>, sel: Seq<Seq<char>>)
    requires
        types_have_notes(pool),
    ensures
        types_have_notes(selected(pool, keys, sel)),
    decreases pool.len(),
{
    if pool.len() > 0 {
        assert(forall|i: int| 0 <= i < pool.drop_last().len() ==> #[trigger] pool.drop_last()[i] == pool[i]);
        lemma_selected_have_notes(pool.drop_last(), keys, sel);
        let r = selected(pool.drop_last(), keys, sel);
        assert(pool.last() == pool[pool.len() - 1]);
        if sel.contains(keys[pool.len() - 1]) {
            assert forall|i: int| 0 <= i < r.push(pool.last()).len() && (#[trigger] r.push(pool.last())[i]).roots.len() > 0
                implies r.push(pool.last())[i].note_intervals.len() > 0 by {
                if i < r.len() {
                    assert(r.push(pool.last())[i] == r[i]);
                }
            }
        }
    }
}

/// Every chord type of a group that is used at some root has a mandatory
/// note (the empty type of an unrecognized group has no roots).
pub proof fn lemma_group_have_notes(group: ChordTypeGroup, sel: Seq<Seq<char>>)
    ensures
        types_have_notes(group_catalog(group, sel)),
{
    match group {
        ChordTypeGroup::Default => lemma_default_have_notes(),
        ChordTypeGroup::MajorAndMinor => lemma_major_and_minor_have_notes(),
        ChordTypeGroup::Original => lemma_original_have_notes(),
        ChordTypeGroup::Custom => {
            lemma_handpicked_have_notes();
            lemma_selected_have_notes(handpicked_catalog(), custom_keys(), sel);
        },
        ChordTypeGroup::CustomPruning => {
            lemma_all_roots_have_notes();
            lemma_selected_have_notes(all_roots_catalog(), custom_keys(), sel);
        },
        ChordTypeGroup::Unrecognized => {
            let g = group_catalog(group, sel);
            assert(g.len() == 1);
            assert(g[0].roots.len() == 0);
        },
    }
}

} // verus!
