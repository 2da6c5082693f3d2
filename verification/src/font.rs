//! The faces the interface draws text in: two families in three weights, at the sizes the
//! stylesheet names.
use crate::header::{be16, be32, be_at};
use vstd::prelude::*;

verus! {

/// A font family, as named by the `--font-ui` and `--font-mono` tokens.
#[derive(Clone, Copy, PartialEq, Eq, PartialOrd, Ord, Debug, Hash, Structural)]
pub enum Family {
    Ui,
    Mono,
}

/// The CSS font weights the stylesheet asks for.
#[derive(Clone, Copy, PartialEq, Eq, PartialOrd, Ord, Debug, Hash, Structural)]
pub enum Weight {
    Regular,
    SemiBold,
    Bold,
}

/// The weight a CSS numeric weight is drawn in, among the faces that ship.
pub open spec fn css_weight(weight: u16) -> Weight {
    if weight <= 549 {
        Weight::Regular
    } else if weight <= 649 {
        Weight::SemiBold
    } else {
        Weight::Bold
    }
}

pub open spec fn weight_rank(weight: Weight) -> int {
    match weight {
        Weight::Regular => 0,
        Weight::SemiBold => 1,
        Weight::Bold => 2,
    }
}

pub open spec fn family_rank(family: Family) -> int {
    match family {
        Family::Ui => 0,
        Family::Mono => 1,
    }
}

impl Weight {
    /// Maps a CSS numeric weight onto the faces that ship with the application.
    pub fn from_css(weight: u16) -> (mapped: Self)
        ensures
            mapped == css_weight(weight),
    {
        if weight <= 549 {
            Weight::Regular
        } else if weight <= 649 {
            Weight::SemiBold
        } else {
            Weight::Bold
        }
    }
}

/// A heavier CSS weight never maps onto a lighter face.
pub proof fn lemma_css_weight_monotone(light: u16, heavy: u16)
    requires
        light <= heavy,
    ensures
        weight_rank(css_weight(light)) <= weight_rank(css_weight(heavy)),
{
}

/// One rasterized face: family, weight and logical pixel size.
#[derive(Clone, Copy, PartialEq, Eq, PartialOrd, Ord, Debug, Hash, Structural)]
pub struct Face {
    pub family: Family,
    pub weight: Weight,
    /// Logical, unscaled pixel size, exactly as the stylesheet writes it.
    pub size: u16,
}

/// Where a face sorts: by family, then weight, then size, as the derived order sorts.
pub open spec fn face_rank(face: Face) -> int {
    (family_rank(face.family) * 3 + weight_rank(face.weight)) * 0x1_0000 + face.size
}

/// Two faces with the same rank are the same face.
pub proof fn lemma_face_rank_injective(a: Face, b: Face)
    ensures
        face_rank(a) == face_rank(b) ==> a == b,
{
}

impl Face {
    pub fn ui(size: u16) -> (face: Self)
        ensures
            face == (Face { family: Family::Ui, weight: Weight::Regular, size }),
    {
        Self { family: Family::Ui, weight: Weight::Regular, size }
    }

    pub fn ui_weight(size: u16, weight: Weight) -> (face: Self)
        ensures
            face == (Face { family: Family::Ui, weight, size }),
    {
        Self { family: Family::Ui, weight, size }
    }

    pub fn mono(size: u16) -> (face: Self)
        ensures
            face == (Face { family: Family::Mono, weight: Weight::Regular, size }),
    {
        Self { family: Family::Mono, weight: Weight::Regular, size }
    }

    pub fn mono_weight(size: u16, weight: Weight) -> (face: Self)
        ensures
            face == (Face { family: Family::Mono, weight, size }),
    {
        Self { family: Family::Mono, weight, size }
    }
}

/// Handle to one face in the face list.
#[derive(Clone, Copy, PartialEq, Eq, Debug, Structural)]
pub struct FontId(pub usize);

/// How many fonts are registered: the two families in three weights each.
pub const REGISTERED: usize = 6;

/// Which of the registered fonts a family and weight is.
pub fn slot(family: Family, weight: Weight) -> (index: usize)
    ensures
        index == family_rank(family) * 3 + weight_rank(weight),
        index < REGISTERED,
{
    let family = match family {
        Family::Ui => 0,
        Family::Mono => 1,
    };
    let weight = match weight {
        Weight::Regular => 0,
        Weight::SemiBold => 1,
        Weight::Bold => 2,
    };
    family * 3 + weight
}

/// The faces the size and weight tokens of the stylesheet ask for, in the order they are listed.
pub open spec fn stylesheet_faces() -> Seq<Face> {
    let ui = |size: u16, weight: Weight| Face { family: Family::Ui, weight, size };
    let mono = |size: u16, weight: Weight| Face { family: Family::Mono, weight, size };
    seq![
        ui(10, Weight::Regular), ui(11, Weight::Regular), ui(12, Weight::Regular),
        ui(13, Weight::Regular), ui(14, Weight::Regular), ui(15, Weight::Regular),
        ui(17, Weight::Regular), ui(20, Weight::Regular), ui(28, Weight::Regular),
        ui(10, Weight::SemiBold), ui(11, Weight::SemiBold), ui(12, Weight::SemiBold),
        ui(13, Weight::SemiBold), ui(14, Weight::SemiBold),
        ui(11, Weight::Bold), ui(13, Weight::Bold), ui(14, Weight::Bold), ui(17, Weight::Bold),
        ui(20, Weight::Bold), ui(28, Weight::Bold),
        mono(10, Weight::Regular), mono(11, Weight::Regular), mono(12, Weight::Regular),
        mono(13, Weight::Regular), mono(14, Weight::Regular),
        mono(11, Weight::SemiBold), mono(12, Weight::SemiBold), mono(28, Weight::SemiBold),
        mono(11, Weight::Bold), mono(13, Weight::Bold),
    ]
}

/// The requested faces, pushed in the order the stylesheet lists them.
fn requested_faces() -> (faces: Vec<Face>)
    ensures
        faces@ == stylesheet_faces(),
{
    let mut faces: Vec<Face> = Vec::new();
    let ui_regular: [u16; 9] = [10, 11, 12, 13, 14, 15, 17, 20, 28];
    let ui_semibold: [u16; 5] = [10, 11, 12, 13, 14];
    let ui_bold: [u16; 6] = [11, 13, 14, 17, 20, 28];
    let mono_regular: [u16; 5] = [10, 11, 12, 13, 14];
    let mono_semibold: [u16; 3] = [11, 12, 28];
    let mono_bold: [u16; 2] = [11, 13];
    push_sizes(&mut faces, &ui_regular, Family::Ui, Weight::Regular);
    push_sizes(&mut faces, &ui_semibold, Family::Ui, Weight::SemiBold);
    push_sizes(&mut faces, &ui_bold, Family::Ui, Weight::Bold);
    push_sizes(&mut faces, &mono_regular, Family::Mono, Weight::Regular);
    push_sizes(&mut faces, &mono_semibold, Family::Mono, Weight::SemiBold);
    push_sizes(&mut faces, &mono_bold, Family::Mono, Weight::Bold);
    assert(faces@ =~= stylesheet_faces());
    faces
}

fn push_sizes(faces: &mut Vec<Face>, sizes: &[u16], family: Family, weight: Weight)
    ensures
        final(faces)@ == old(faces)@ + sizes@.map_values(|size: u16| Face { family, weight, size }),
{
    let ghost start = faces@;
    let mut index: usize = 0;
    while index < sizes.len()
        invariant
            index <= sizes@.len(),
            faces@ == start + sizes@.take(index as int).map_values(|size: u16| Face { family, weight, size }),
        decreases sizes@.len() - index,
    {
        faces.push(Face { family, weight, size: sizes[index] });
        index = index + 1;
        assert(faces@ =~= start + sizes@.take(index as int).map_values(|size: u16| Face { family, weight, size }));
    }
    assert(sizes@.take(sizes@.len() as int) =~= sizes@);
}

/// Faces in strictly ascending order, so no face is listed twice.
pub open spec fn strictly_ascending(faces: Seq<Face>) -> bool {
    forall|i: int, j: int|
        #![trigger faces[i], faces[j]]
        0 <= i < j < faces.len() ==> face_rank(faces[i]) < face_rank(faces[j])
}

fn rank(face: Face) -> (r: u32)
    ensures
        r == face_rank(face),
{
    let family: u32 = match face.family {
        Family::Ui => 0,
        Family::Mono => 1,
    };
    let weight: u32 = match face.weight {
        Weight::Regular => 0,
        Weight::SemiBold => 1,
        Weight::Bold => 2,
    };
    (family * 3 + weight) * 0x1_0000 + face.size as u32
}

/// The faces of `faces`, each once, in ascending order: `sort_unstable` then `dedup`.
pub fn sorted_unique(faces: &Vec<Face>) -> (sorted: Vec<Face>)
    ensures
        strictly_ascending(sorted@),
        forall|face: Face| sorted@.contains(face) <==> faces@.contains(face),
{
    let mut sorted: Vec<Face> = Vec::new();
    let mut index: usize = 0;
    while index < faces.len()
        invariant
            index <= faces@.len(),
            strictly_ascending(sorted@),
            forall|face: Face| sorted@.contains(face) <==> faces@.take(index as int).contains(face),
        decreases faces@.len() - index,
    {
        let face = faces[index];
        let key = rank(face);
        let mut pos: usize = 0;
        while pos < sorted.len() && rank(sorted[pos]) < key
            invariant
                pos <= sorted@.len(),
                forall|i: int| 0 <= i < pos ==> face_rank(#[trigger] sorted@[i]) < key,
            decreases sorted@.len() - pos,
        {
            pos = pos + 1;
        }
        let ghost before = sorted@;
        let ghost taken = faces@.take(index + 1);
        assert(taken =~= faces@.take(index as int).push(face));
        if pos < sorted.len() && rank(sorted[pos]) == key {
            proof {
                lemma_face_rank_injective(sorted@[pos as int], face);
            }
            assert forall|f: Face| sorted@.contains(f) <==> taken.contains(f) by {
                if f == face {
                    assert(sorted@[pos as int] == f);
                    assert(taken[index as int] == f);
                }
                if taken.contains(f) && f != face {
                    let k = choose|k: int| 0 <= k < taken.len() && taken[k] == f;
                    assert(faces@.take(index as int)[k] == f);
                }
                if faces@.take(index as int).contains(f) {
                    let k = choose|k: int| 0 <= k < index && faces@.take(index as int)[k] == f;
                    assert(taken[k] == f);
                }
            }
        } else {
            sorted.insert(pos, face);
            assert forall|i: int, j: int|
                #![trigger sorted@[i], sorted@[j]]
                0 <= i < j < sorted@.len() implies face_rank(sorted@[i]) < face_rank(sorted@[j]) by {
                if i < pos && j < pos {
                    assert(before[i] == before[i] && before[j] == before[j]);
                } else if i < pos && j > pos {
                    assert(face_rank(before[i]) < key);
                    assert(before[pos as int] == before[pos as int] && before[j - 1] == before[j - 1]);
                } else if i == pos && j > pos {
                    assert(before[pos as int] == before[pos as int] && before[j - 1] == before[j - 1]);
                } else if i > pos {
                    assert(before[i - 1] == before[i - 1] && before[j - 1] == before[j - 1]);
                }
            }
            assert forall|f: Face| sorted@.contains(f) <==> taken.contains(f) by {
                if f == face {
                    assert(sorted@[pos as int] == f);
                    assert(taken[index as int] == f);
                }
                if sorted@.contains(f) && f != face {
                    let k = choose|k: int| 0 <= k < sorted@.len() && sorted@[k] == f;
                    if k < pos {
                        assert(before[k] == f);
                    } else {
                        assert(before[k - 1] == f);
                    }
                }
                if before.contains(f) {
                    let k = choose|k: int| 0 <= k < before.len() && before[k] == f;
                    if k < pos {
                        assert(sorted@[k] == f);
                    } else {
                        assert(sorted@[k + 1] == f);
                    }
                }
                if taken.contains(f) && f != face {
                    let k = choose|k: int| 0 <= k < taken.len() && taken[k] == f;
                    assert(faces@.take(index as int)[k] == f);
                }
                if faces@.take(index as int).contains(f) {
                    let k = choose|k: int| 0 <= k < index && faces@.take(index as int)[k] == f;
                    assert(taken[k] == f);
                }
            }
        }
        index = index + 1;
    }
    assert(faces@.take(faces@.len() as int) =~= faces@);
    sorted
}

/// Every face the interface needs, derived from the size and weight tokens of the stylesheet:
/// each requested face once, in ascending order.
pub fn default_faces() -> (faces: Vec<Face>)
    ensures
        strictly_ascending(faces@),
        forall|face: Face| faces@.contains(face) <==> stylesheet_faces().contains(face),
{
    let requested = requested_faces();
    sorted_unique(&requested)
}

/// How far apart two sizes are.
pub open spec fn size_gap(a: u16, b: u16) -> int {
    if a >= b {
        a - b
    } else {
        b - a
    }
}

/// Whether a face can stand in for another: the same family and, where asked, the same weight.
pub open spec fn stands_in(candidate: Face, face: Face, same_weight: bool) -> bool {
    candidate.family == face.family && (!same_weight || candidate.weight == face.weight)
}

/// Whether position `i` holds the first of the faces that can stand in for `face` whose size
/// is nearest to it.
pub open spec fn first_nearest(faces: Seq<Face>, face: Face, same_weight: bool, i: int) -> bool {
    &&& 0 <= i < faces.len()
    &&& stands_in(faces[i], face, same_weight)
    &&& forall|j: int|
        0 <= j < faces.len() && stands_in(faces[j], face, same_weight) ==> size_gap(faces[i].size, face.size)
            <= size_gap(#[trigger] faces[j].size, face.size)
    &&& forall|j: int|
        0 <= j < i && stands_in(faces[j], face, same_weight) ==> size_gap(faces[i].size, face.size)
            < size_gap(#[trigger] faces[j].size, face.size)
}

fn gap(a: u16, b: u16) -> (distance: u16)
    ensures
        distance == size_gap(a, b),
{
    if a >= b {
        a - b
    } else {
        b - a
    }
}

/// The first face that can stand in for `face`, nearest in size, if any can.
fn nearest(faces: &[Face], face: Face, same_weight: bool) -> (found: Option<usize>)
    ensures
        match found {
            Some(i) => first_nearest(faces@, face, same_weight, i as int),
            None => forall|j: int| 0 <= j < faces@.len() ==> !stands_in(#[trigger] faces@[j], face, same_weight),
        },
{
    let mut best: Option<usize> = None;
    let mut index: usize = 0;
    while index < faces.len()
        invariant
            index <= faces@.len(),
            match best {
                Some(b) => {
                    &&& b < index
                    &&& stands_in(faces@[b as int], face, same_weight)
                    &&& forall|j: int|
                        0 <= j < index && stands_in(faces@[j], face, same_weight) ==> size_gap(
                            faces@[b as int].size,
                            face.size,
                        ) <= size_gap(#[trigger] faces@[j].size, face.size)
                    &&& forall|j: int|
                        0 <= j < b && stands_in(faces@[j], face, same_weight) ==> size_gap(
                            faces@[b as int].size,
                            face.size,
                        ) < size_gap(#[trigger] faces@[j].size, face.size)
                },
                None => forall|j: int| 0 <= j < index ==> !stands_in(#[trigger] faces@[j], face, same_weight),
            },
        decreases faces@.len() - index,
    {
        let candidate = faces[index];
        if candidate.family == face.family && (!same_weight || candidate.weight == face.weight) {
            match best {
                None => {
                    best = Some(index);
                },
                Some(b) => {
                    if gap(candidate.size, face.size) < gap(faces[b].size, face.size) {
                        best = Some(index);
                    }
                },
            }
        }
        index = index + 1;
    }
    best
}

/// Looks a face up in a face list, falling back to the nearest size in the same family and
/// weight, then to the nearest size in the same family, then to the first face.
pub fn face_id(faces: &[Face], face: Face) -> (id: FontId)
    ensures
        faces@.contains(face) ==> faces@[id.0 as int] == face && forall|j: int|
            0 <= j < id.0 ==> #[trigger] faces@[j] != face,
        !faces@.contains(face) && (exists|j: int|
            0 <= j < faces@.len() && stands_in(#[trigger] faces@[j], face, true)) ==> first_nearest(
            faces@,
            face,
            true,
            id.0 as int,
        ),
        !faces@.contains(face) && !(exists|j: int|
            0 <= j < faces@.len() && stands_in(#[trigger] faces@[j], face, true)) && (exists|j: int|
            0 <= j < faces@.len() && stands_in(#[trigger] faces@[j], face, false)) ==> first_nearest(
            faces@,
            face,
            false,
            id.0 as int,
        ),
        !(exists|j: int| 0 <= j < faces@.len() && stands_in(#[trigger] faces@[j], face, false))
            ==> !faces@.contains(face) && id.0 == 0,
{
    let mut index: usize = 0;
    while index < faces.len()
        invariant
            index <= faces@.len(),
            forall|j: int| 0 <= j < index ==> #[trigger] faces@[j] != face,
        decreases faces@.len() - index,
    {
        if faces[index] == face {
            proof {
                assert(stands_in(faces@[index as int], face, false));
            }
            return FontId(index);
        }
        index = index + 1;
    }
    assert(!faces@.contains(face));
    match nearest(faces, face, true) {
        Some(i) => {
            return FontId(i);
        },
        None => {},
    }
    match nearest(faces, face, false) {
        Some(i) => FontId(i),
        None => FontId(0),
    }
}

/// The offset the table directory of an OpenType font gives for a table, searching its records
/// from `index` on: the first that carries the tag and, after it, a whole offset.
pub open spec fn table_from(data: Seq<u8>, tag: Seq<u8>, count: nat, index: nat) -> Option<nat>
    decreases count - index,
{
    if index >= count {
        None
    } else {
        let record: int = 12 + index as int * 16;
        if record + 4 <= data.len() && data.subrange(record, record + 4) == tag && be_at(
            data,
            record + 8,
            4,
        ) is Some {
            be_at(data, record + 8, 4)
        } else {
            table_from(data, tag, count, index + 1)
        }
    }
}

/// Where a font's table begins, by the directory at the front of the font: among as many
/// records as its big-endian count at byte four says, sixteen bytes each from byte twelve.
pub open spec fn font_table_offset(data: Seq<u8>, tag: Seq<u8>) -> Option<nat> {
    match be_at(data, 4, 2) {
        Some(count) => table_from(data, tag, count, 0),
        None => None,
    }
}

/// Finds a table in the directory of an OpenType font.
pub fn font_table(data: &[u8], tag: &[u8; 4]) -> (offset: Option<usize>)
    ensures
        match font_table_offset(data@, tag@) {
            Some(found) => offset == Some(found as usize),
            None => offset is None,
        },
{
    let count = match be16(data, 4) {
        Some(count) => count as usize,
        None => return None,
    };
    let mut index: usize = 0;
    while index < count
        invariant
            count < 0x1_0000,
            be_at(data@, 4, 2) == Some(count as nat),
            index <= count,
            font_table_offset(data@, tag@) == table_from(data@, tag@, count as nat, index as nat),
        decreases count - index,
    {
        let record: usize = 12 + index * 16;
        if record <= data.len() && 4 <= data.len() - record {
            let mut same = true;
            let mut k: usize = 0;
            while k < 4
                invariant
                    k <= 4,
                    record + 4 <= data.len(),
                    same == (forall|j: int| 0 <= j < k ==> data@[record + j] == tag@[j]),
                decreases 4 - k,
            {
                if data[record + k] != tag[k] {
                    same = false;
                }
                k = k + 1;
            }
            proof {
                if same {
                    assert(data@.subrange(record as int, record + 4) =~= tag@);
                } else {
                    let j = choose|j: int| 0 <= j < 4 && data@[record + j] != tag@[j];
                    assert(data@.subrange(record as int, record + 4)[j] != tag@[j]);
                }
            }
            if same {
                if let Some(found) = be32(data, record + 8) {
                    return Some(found as usize);
                }
            }
        }
        index = index + 1;
    }
    None
}

} // verus!
