use crate::error::IngestError;
use crate::number::{finite, is_finite, key, order_key};
use crate::order::sort_slots;
use vstd::prelude::*;

verus! {

/// A path together with what reading its stem as a decimal number gave: the
/// number's bit pattern, or nothing when the stem is no number.
pub struct Candidate {
    pub path: String,
    pub z: Option<u64>,
}

/// A layer file: its path and its elevation z, a finite number.
pub struct LayerFile {
    pub path: String,
    pub z: u64,
}

impl LayerFile {
    /// The elevation is finite.
    pub open spec fn wf(&self) -> bool {
        is_finite(self.z)
    }
}

/// Whether reading a stem gave a finite number.
pub open spec fn is_valid_z(z: Option<u64>) -> bool {
    z matches Some(bits) && is_finite(bits)
}

/// Whether a candidate's stem is the text of a finite number.
pub open spec fn has_valid_name(candidate: Candidate) -> bool {
    is_valid_z(candidate.z)
}

/// What reading the stems gave, candidate by candidate.
pub open spec fn names_of(candidates: Seq<Candidate>) -> Seq<Option<u64>> {
    candidates.map_values(|c: Candidate| c.z)
}

/// The numbers that valid names stand for.
pub open spec fn z_values_of(names: Seq<Option<u64>>) -> Seq<u64> {
    names.map_values(|z: Option<u64>| z.unwrap())
}

/// The layer files of the candidates, taken in the given order.
pub open spec fn arranged(candidates: Seq<Candidate>, order: Seq<usize>) -> Seq<LayerFile> {
    Seq::new(order.len(), |i: int| located(candidates[order[i] as int]))
}

/// Where the file name starts in a path: after its last `/`.
pub open spec fn name_start(path: Seq<char>) -> int
    decreases path.len(),
{
    if path.len() == 0 {
        0
    } else if path.last() == '/' {
        path.len() as int
    } else {
        name_start(path.drop_last())
    }
}

/// Where the last `.` of a name stands, or -1 when it has none.
pub open spec fn last_dot(name: Seq<char>) -> int
    decreases name.len(),
{
    if name.len() == 0 {
        -1
    } else if name.last() == '.' {
        name.len() - 1
    } else {
        last_dot(name.drop_last())
    }
}

/// The file name of a path: what follows its last `/`.
pub open spec fn base_name(path: Seq<char>) -> Seq<char> {
    path.subrange(name_start(path), path.len() as int)
}

/// A file name without its extension: what stands before its last `.`. A
/// name without a `.`, or with none but a leading one, is its own stem.
pub open spec fn stem_of(name: Seq<char>) -> Seq<char> {
    if last_dot(name) <= 0 {
        name
    } else {
        name.subrange(0, last_dot(name))
    }
}

/// The text of the pattern that matches the layer files of a folder.
pub open spec fn pattern_of(folder: Seq<char>) -> Seq<char> {
    folder + "/*.pcd"@
}

/// The layer file that a candidate of valid name stands for.
pub open spec fn located(candidate: Candidate) -> LayerFile {
    LayerFile { path: candidate.path, z: candidate.z.unwrap() }
}

/// Whether the layer files are in z-order: no file's z is below that of a
/// file before it.
pub open spec fn is_sorted_by_z(files: Seq<LayerFile>) -> bool {
    forall|i: int, j: int|
        0 <= i <= j < files.len() ==> order_key(files[i].z) <= order_key(files[j].z)
}

/// Whether `order` lists every position below `n` once.
pub open spec fn is_arrangement(order: Seq<usize>, n: nat) -> bool {
    &&& order.len() == n
    &&& forall|i: int| 0 <= i < order.len() ==> #[trigger] order[i] < n
    &&& order.no_duplicates()
    &&& forall|j: usize| j < n ==> #[trigger] order.contains(j)
}

/// Whether `order` lists every position of `z_values` once, in z-order.
pub open spec fn is_z_order(order: Seq<usize>, z_values: Seq<u64>) -> bool {
    &&& is_arrangement(order, z_values.len())
    &&& forall|i: int, j: int|
        0 <= i <= j < order.len() ==> order_key(z_values[order[i] as int]) <= order_key(
            z_values[order[j] as int],
        )
}

/// The slot of position `i`: its order key and the position.
pub open spec fn slot_of(z_values: Seq<u64>, i: int) -> (i64, usize) {
    (order_key(z_values[i]) as i64, i as usize)
}

/// The pattern that matches the layer files of `folder`.
pub fn layer_pattern(folder: &str) -> (pattern: String)
    ensures
        pattern@ == pattern_of(folder@),
{
    let mut pattern = folder.to_owned();
    pattern.append("/*.pcd");
    pattern
}

/// The stem of the file that `path` names: its file name without extension.
/// This is the text that holds the layer's z.
pub fn file_stem(path: &str) -> (stem: String)
    ensures
        stem@ == stem_of(base_name(path@)),
{
    let n: usize = path.unicode_len();
    let mut start: usize = 0;
    let mut i: usize = 0;
    while i < n
        invariant
            n == path@.len(),
            0 <= i <= n,
            start == name_start(path@.take(i as int)),
            0 <= start <= i,
        decreases n - i,
    {
        assert(path@.take(i + 1).drop_last() =~= path@.take(i as int));
        if path.get_char(i) == '/' {
            start = i + 1;
        }
        i += 1;
    }
    assert(path@.take(n as int) =~= path@);
    let name = path.substring_char(start, n);
    let m: usize = n - start;
    let mut dot: usize = 0;
    let mut found: bool = false;
    let mut j: usize = 0;
    while j < m
        invariant
            m == name@.len(),
            0 <= j <= m,
            found ==> dot == last_dot(name@.take(j as int)),
            !found ==> last_dot(name@.take(j as int)) == -1,
            found ==> dot < j,
        decreases m - j,
    {
        assert(name@.take(j + 1).drop_last() =~= name@.take(j as int));
        if name.get_char(j) == '.' {
            dot = j;
            found = true;
        }
        j += 1;
    }
    assert(name@.take(m as int) =~= name@);
    if found && dot > 0 {
        name.substring_char(0, dot).to_owned()
    } else {
        name.to_owned()
    }
}

/// Checks what reading the stems gave: every stem has to be a finite number.
pub fn check_names(names: &Vec<Option<u64>>) -> (r: Result<Vec<u64>, IngestError>)
    ensures
        r is Ok <==> forall|i: int| 0 <= i < names@.len() ==> is_valid_z(#[trigger] names@[i]),
        r matches Ok(z_values) ==> z_values@ == z_values_of(names@),
        r matches Err(e) ==> e == IngestError::MalformedName,
{
    let n: usize = names.len();
    let mut z_values: Vec<u64> = Vec::new();
    let mut i: usize = 0;
    while i < n
        invariant
            n == names@.len(),
            0 <= i <= n,
            z_values@.len() == i,
            forall|k: int| 0 <= k < i ==> is_valid_z(#[trigger] names@[k]),
            forall|k: int| 0 <= k < i ==> #[trigger] z_values@[k] == names@[k].unwrap(),
        decreases n - i,
    {
        match names[i] {
            Some(bits) => {
                if !finite(bits) {
                    return Err(IngestError::MalformedName);
                }
                z_values.push(bits);
            },
            None => {
                return Err(IngestError::MalformedName);
            },
        }
        i += 1;
    }
    assert(z_values@ =~= z_values_of(names@));
    Ok(z_values)
}

/// Wraps one path as a layer file. A stem that is no finite number gives
/// `MalformedName`.
pub fn discover_single(candidate: &Candidate) -> (r: Result<LayerFile, IngestError>)
    ensures
        r is Ok <==> has_valid_name(*candidate),
        r matches Ok(file) ==> file == located(*candidate) && file.wf(),
        r matches Err(e) ==> e == IngestError::MalformedName,
{
    match candidate.z {
        Some(bits) => {
            if finite(bits) {
                Ok(LayerFile { path: candidate.path.clone(), z: bits })
            } else {
                Err(IngestError::MalformedName)
            }
        },
        None => Err(IngestError::MalformedName),
    }
}

/// Wraps the paths of a list as layer files, in the order of the list. A
/// stem that is no finite number gives `MalformedName`.
pub fn discover_from_list(candidates: &Vec<Candidate>) -> (r: Result<Vec<LayerFile>, IngestError>)
    ensures
        r is Ok <==> forall|i: int|
            0 <= i < candidates@.len() ==> has_valid_name(#[trigger] candidates@[i]),
        r matches Ok(files) ==> files@ == candidates@.map_values(|c: Candidate| located(c)),
        r matches Err(e) ==> e == IngestError::MalformedName,
{
    let n: usize = candidates.len();
    let mut files: Vec<LayerFile> = Vec::new();
    let mut i: usize = 0;
    while i < n
        invariant
            n == candidates@.len(),
            0 <= i <= n,
            files@.len() == i,
            forall|k: int| 0 <= k < i ==> has_valid_name(#[trigger] candidates@[k]),
            forall|k: int| 0 <= k < i ==> #[trigger] files@[k] == located(candidates@[k]),
        decreases n - i,
    {
        match discover_single(&candidates[i]) {
            Ok(file) => {
                files.push(file);
            },
            Err(e) => {
                return Err(e);
            },
        }
        i += 1;
    }
    assert(files@ =~= candidates@.map_values(|c: Candidate| located(c)));
    Ok(files)
}

/// Orders the files that a folder's pattern matched: no match gives
/// `NotFound`, a stem that is no finite number gives `MalformedName`, and
/// otherwise the positions come back in z-order.
pub fn folder_order(names: &Vec<Option<u64>>) -> (r: Result<Vec<usize>, IngestError>)
    ensures
        r is Ok <==> (names@.len() > 0 && forall|i: int|
            0 <= i < names@.len() ==> is_valid_z(#[trigger] names@[i])),
        r matches Ok(order) ==> is_z_order(order@, z_values_of(names@)),
        r matches Err(e) ==> e == (if names@.len() == 0 {
            IngestError::NotFound
        } else {
            IngestError::MalformedName
        }),
{
    if names.len() == 0 {
        return Err(IngestError::NotFound);
    }
    match check_names(names) {
        Ok(z_values) => Ok(z_order(&z_values)),
        Err(e) => Err(e),
    }
}

/// Wraps the files that a folder's pattern matched as layer files, sorted by
/// z. No match gives `NotFound`; a stem that is no finite number gives
/// `MalformedName`. Files of equal z come in an order that is not fixed.
pub fn discover_by_folder(candidates: &Vec<Candidate>) -> (r: Result<Vec<LayerFile>, IngestError>)
    ensures
        r is Ok <==> (candidates@.len() > 0 && forall|i: int|
            0 <= i < candidates@.len() ==> has_valid_name(#[trigger] candidates@[i])),
        r matches Ok(files) ==> is_sorted_by_z(files@) && exists|order: Seq<usize>|
            is_z_order(order, z_values_of(names_of(candidates@))) && files@ == arranged(
                candidates@,
                order,
            ),
        r matches Err(e) ==> e == (if candidates@.len() == 0 {
            IngestError::NotFound
        } else {
            IngestError::MalformedName
        }),
{
    let n: usize = candidates.len();
    let mut names: Vec<Option<u64>> = Vec::new();
    let mut i: usize = 0;
    while i < n
        invariant
            n == candidates@.len(),
            0 <= i <= n,
            names@ == names_of(candidates@).take(i as int),
        decreases n - i,
    {
        names.push(candidates[i].z);
        assert(names_of(candidates@).take(i as int).push(candidates@[i as int].z) =~= names_of(
            candidates@,
        ).take(i + 1));
        i += 1;
    }
    assert(names@ =~= names_of(candidates@));
    let order = match folder_order(&names) {
        Ok(order) => order,
        Err(e) => {
            return Err(e);
        },
    };
    let ghost z_values = z_values_of(names@);
    assert forall|k: int| 0 <= k < n implies has_valid_name(#[trigger] candidates@[k]) by {
        assert(is_valid_z(names@[k]));
    }
    let mut files: Vec<LayerFile> = Vec::new();
    let mut i: usize = 0;
    while i < n
        invariant
            n == candidates@.len(),
            names@ == names_of(candidates@),
            z_values == z_values_of(names@),
            is_z_order(order@, z_values),
            forall|k: int| 0 <= k < n ==> has_valid_name(#[trigger] candidates@[k]),
            0 <= i <= n,
            files@.len() == i,
            forall|k: int|
                0 <= k < i ==> #[trigger] files@[k] == located(candidates@[order@[k] as int]),
        decreases n - i,
    {
        let candidate = &candidates[order[i]];
        match discover_single(candidate) {
            Ok(file) => {
                files.push(file);
            },
            Err(e) => {
                return Err(e);
            },
        }
        i += 1;
    }
    proof {
        assert(files@ =~= arranged(candidates@, order@));
        assert forall|a: int, b: int| 0 <= a <= b < files@.len() implies order_key(files@[a].z)
            <= order_key(files@[b].z) by {
            assert(files@[a].z == z_values[order@[a] as int]);
            assert(files@[b].z == z_values[order@[b] as int]);
        }
    }
    Ok(files)
}

/// Lists the positions of `z_values` in z-order. Positions of equal z come
/// in an order that is not fixed.
pub fn z_order(z_values: &Vec<u64>) -> (order: Vec<usize>)
    ensures
        is_z_order(order@, z_values@),
{
    let n: usize = z_values.len();
    let mut slots: Vec<(i64, usize)> = Vec::new();
    let mut i: usize = 0;
    while i < n
        invariant
            n == z_values@.len(),
            0 <= i <= n,
            slots@.len() == i,
            forall|k: int| 0 <= k < i ==> #[trigger] slots@[k] == slot_of(z_values@, k),
        decreases n - i,
    {
        slots.push((key(z_values[i]), i));
        i += 1;
    }
    let ghost unsorted = slots@;
    sort_slots(&mut slots);
    proof {
        unsorted.to_multiset_ensures();
        slots@.to_multiset_ensures();
        assert(unsorted.no_duplicates());
        unsorted.lemma_multiset_has_no_duplicates();
        slots@.lemma_multiset_has_no_duplicates_conv();
        assert(slots@.len() == n);
        assert forall|k: int| 0 <= k < n implies (#[trigger] slots@[k]).1 < n && slots@[k]
            == slot_of(z_values@, slots@[k].1 as int) by {
            assert(slots@.contains(slots@[k]));
            assert(slots@.to_multiset().count(slots@[k]) > 0);
            assert(unsorted.contains(slots@[k]));
            let j = choose|j: int| 0 <= j < unsorted.len() && unsorted[j] == slots@[k];
            assert(unsorted[j] == slot_of(z_values@, j));
        }
        assert forall|j: int| 0 <= j < n implies slots@.contains(
            #[trigger] slot_of(z_values@, j),
        ) by {
            assert(unsorted[j] == slot_of(z_values@, j));
            assert(unsorted.contains(slot_of(z_values@, j)));
            assert(slots@.to_multiset().count(slot_of(z_values@, j)) > 0);
        }
    }
    let mut order: Vec<usize> = Vec::new();
    let mut i: usize = 0;
    while i < n
        invariant
            n == z_values@.len(),
            slots@.len() == n,
            0 <= i <= n,
            order@.len() == i,
            forall|k: int| 0 <= k < i ==> #[trigger] order@[k] == slots@[k].1,
        decreases n - i,
    {
        order.push(slots[i].1);
        i += 1;
    }
    proof {
        assert forall|a: int, b: int|
            0 <= a < order@.len() && 0 <= b < order@.len() && a != b implies order@[a]
            != order@[b] by {
            if order@[a] == order@[b] {
                assert(slots@[a] == slot_of(z_values@, slots@[a].1 as int));
                assert(slots@[b] == slot_of(z_values@, slots@[b].1 as int));
                assert(slots@[a] == slots@[b]);
            }
        }
        assert forall|j: usize| j < n implies #[trigger] order@.contains(j) by {
            assert(slots@.contains(slot_of(z_values@, j as int)));
            let k = choose|k: int|
                0 <= k < slots@.len() && slots@[k] == slot_of(z_values@, j as int);
            assert(order@[k] == j);
        }
        assert forall|a: int, b: int| 0 <= a <= b < order@.len() implies order_key(
            z_values@[order@[a] as int],
        ) <= order_key(z_values@[order@[b] as int]) by {
            assert(slots@[a] == slot_of(z_values@, slots@[a].1 as int));
            assert(slots@[b] == slot_of(z_values@, slots@[b].1 as int));
            assert(slots@[a].0 <= slots@[b].0);
        }
    }
    order
}

} // verus!
