//! The storage engine's decisions: the structure cache with its object lists
//! and field caches, and the create, select, alter and delete operations on
//! them. Reading and writing files is left to the caller, which hands over
//! and takes back plain bytes.
use vstd::prelude::*;
use crate::blocks::{BlockQueue, Cell, CellView, identifier_of, is_literal_with, without_identifier, without_literal};
use crate::hexid;
use crate::location::{DatabaseLocation, level_id};
use crate::metadata::{Metadata, chars_of, metadata_text, push_chars, split, split_chars, string_of};
use crate::crypto::{decrypt_block, derived_key, encrypt_block, password_deriv, sealed};
use crate::metadata::{parse_metadata, Entries, entries_view, to_map, attribute_part, sub_data_part};
use crate::blocks::{BlockError, decode_blocks, encodable, encode_blocks};
use crate::decimal::{decimal_value, is_decimal, parse_decimal};
use crate::decimal::{decimal, decimal_text};
use crate::blocks::{LinkTarget, LinkType, TargetView};
use vstd::utf8::encode_utf8;

verus! {

broadcast use vstd::seq_lib::group_seq_properties;

/// Default payload size of a new structure's object list.
pub const DEFAULT_STRUCTURE_CELL_SIZE: u32 = 32;

/// Default payload size of field blocks, when they are written and read.
pub const FIELD_CELL_SIZE: u32 = 512;

/// Largest field block written, in bytes.
pub const FIELD_BLOCK_BYTES: u32 = 65536;

/// Draws of a random identifier before minting gives up.
pub const MINT_ATTEMPTS: u32 = 64;

/// A structure in the cache: its metadata, its object list (one literal per
/// object, naming it), and the loaded fields by identifier.
pub struct Structure {
    pub metadata: Metadata,
    pub list: BlockQueue,
    pub cached_block: Vec<([u8; 8], BlockQueue)>,
}

/// Why an engine operation was refused.
#[derive(Clone, Copy, Debug, PartialEq, Eq, Structural)]
pub enum EngineError {
    /// No database is open.
    NoRoot,
    /// No structure is selected.
    NoStructure,
    /// No object is selected.
    NoObject,
    /// The selected structure, or the field, is not in the cache.
    NotCached,
    /// The name is taken.
    AlreadyExists,
    /// No such structure, object or field.
    NotFound,
    /// `list` is not available as a field name.
    ReservedName,
    /// No unused identifier came up.
    NoFreeIdentifier,
    /// An identifier in metadata or in a command is not hexadecimal.
    BadIdentifier,
    /// A link is not `A`, `A/B` or `A/B/C`.
    BadLink,
    /// A stored file could not be opened, or its content is malformed.
    Corrupt,
    /// A cell is too large to encode.
    TooLarge,
}

/// Relies on rand::random: uniformly drawn bytes.
#[verifier::external_body]
fn random_identifier() -> (r: [u8; 8]) {
    rand::random()
}

/// Whether `id` is among `ids`.
pub fn contains_identifier(ids: &Vec<[u8; 8]>, id: &[u8; 8]) -> (r: bool)
    ensures
        r == exists|k: int| 0 <= k < ids@.len() && (#[trigger] ids@[k])@ == id@,
{
    let mut i: usize = 0;
    while i < ids.len()
        invariant
            i <= ids@.len(),
            forall|k: int| 0 <= k < i ==> (#[trigger] ids@[k])@ != id@,
        decreases ids@.len() - i,
    {
        let a = ids[i];
        let mut same = true;
        let mut j: usize = 0;
        while j < 8
            invariant
                j <= 8,
                a@.len() == 8,
                id@.len() == 8,
                same == forall|m: int| 0 <= m < j ==> a@[m] == id@[m],
            decreases 8 - j,
        {
            if a[j] != id[j] {
                same = false;
            }
            j += 1;
        }
        if same {
            assert(a@ =~= id@);
            return true;
        }
        i += 1;
    }
    false
}

/// A random identifier not among `taken`; `None` once every draw of a bounded
/// number collided.
pub fn fresh_identifier(taken: &Vec<[u8; 8]>) -> (r: Option<[u8; 8]>)
    ensures
        r is Some ==> forall|k: int| 0 <= k < taken@.len() ==> (#[trigger] taken@[k])@ != r->0@,
{
    let mut attempt: u32 = 0;
    while attempt < MINT_ATTEMPTS
        decreases MINT_ATTEMPTS - attempt,
    {
        let id = random_identifier();
        if !contains_identifier(taken, &id) {
            return Some(id);
        }
        attempt += 1;
    }
    None
}

/// The identifiers that the values of some entries name.
pub fn identifiers_in(es: &Vec<(String, String)>) -> (r: Vec<[u8; 8]>)
    ensures
        forall|k: int|
            0 <= k < es@.len() && (#[trigger] hexid::identifier_of(es@[k].1@)) is Some ==> exists|j: int|
                0 <= j < r@.len() && r@[j]@ == hexid::identifier_of(es@[k].1@)->0,
{
    let mut r: Vec<[u8; 8]> = Vec::new();
    let mut i: usize = 0;
    while i < es.len()
        invariant
            i <= es@.len(),
            forall|k: int|
                0 <= k < i && (#[trigger] hexid::identifier_of(es@[k].1@)) is Some ==> exists|j: int|
                    0 <= j < r@.len() && r@[j]@ == hexid::identifier_of(es@[k].1@)->0,
        decreases es@.len() - i,
    {
        let ghost r0 = r@;
        match hexid::from_hex(es[i].1.as_str()) {
            Some(id) => {
                r.push(id);
                assert(r@[r@.len() - 1]@ == id@);
                assert forall|k: int|
                    0 <= k < i && (#[trigger] hexid::identifier_of(es@[k].1@)) is Some implies exists|j: int|
                        0 <= j < r@.len() && r@[j]@ == hexid::identifier_of(es@[k].1@)->0 by {
                    let j = choose|j: int|
                        0 <= j < r0.len() && r0[j]@ == hexid::identifier_of(es@[k].1@)->0;
                    assert(r@[j] == r0[j]);
                }
            },
            None => {},
        }
        i += 1;
    }
    r
}

/// An identifier that no value of the entries names.
fn fresh_in(es: &Vec<(String, String)>) -> (r: Option<[u8; 8]>)
    ensures
        r is Some ==> forall|k: int|
            0 <= k < es@.len() ==> #[trigger] hexid::identifier_of(es@[k].1@) != Some(r->0@),
{
    let taken = identifiers_in(es);
    let r = fresh_identifier(&taken);
    if r.is_some() {
        assert forall|k: int| 0 <= k < es@.len() implies #[trigger] hexid::identifier_of(es@[k].1@)
            != Some(r->0@) by {
            if hexid::identifier_of(es@[k].1@) is Some {
                let j = choose|j: int|
                    0 <= j < taken@.len() && taken@[j]@ == hexid::identifier_of(es@[k].1@)->0;
                assert(taken@[j]@ != r->0@);
            }
        }
    }
    r
}

/// Index of the first cache entry with identifier `id`, or -1.
pub open spec fn entry_index<T>(s: Seq<([u8; 8], T)>, id: Seq<u8>) -> int
    decreases s.len(),
{
    if s.len() == 0 {
        -1
    } else if entry_index(s.drop_last(), id) >= 0 {
        entry_index(s.drop_last(), id)
    } else if s.last().0@ == id {
        s.len() - 1
    } else {
        -1
    }
}

proof fn lemma_entry_index<T>(s: Seq<([u8; 8], T)>, id: Seq<u8>)
    ensures
        -1 <= entry_index(s, id) < s.len(),
        entry_index(s, id) >= 0 ==> s[entry_index(s, id)].0@ == id,
        entry_index(s, id) == -1 ==> forall|k: int| 0 <= k < s.len() ==> (#[trigger] s[k]).0@ != id,
    decreases s.len(),
{
    if s.len() > 0 {
        lemma_entry_index(s.drop_last(), id);
        assert forall|k: int| 0 <= k < s.len() - 1 implies s.drop_last()[k] == #[trigger] s[k] by {}
    }
}

/// Position of the first entry with identifier `id`.
pub fn find_entry<T>(s: &Vec<([u8; 8], T)>, id: &[u8; 8]) -> (r: Option<usize>)
    ensures
        match r {
            Some(i) => i == entry_index(s@, id@) && i < s@.len(),
            None => entry_index(s@, id@) == -1,
        },
{
    let mut i: usize = 0;
    while i < s.len()
        invariant
            i <= s@.len(),
            entry_index(s@.take(i as int), id@) == -1,
        decreases s@.len() - i,
    {
        assert(s@.take(i + 1).drop_last() =~= s@.take(i as int));
        let mut ids: Vec<[u8; 8]> = Vec::new();
        ids.push(s[i].0);
        assert(ids@[0] == s@[i as int].0);
        if contains_identifier(&ids, id) {
            assert(ids@[0]@ == id@);
            proof {
                lemma_entry_index_prefix(s@, id@, i + 1);
            }
            return Some(i);
        }
        i += 1;
    }
    assert(s@.take(i as int) =~= s@);
    None
}

proof fn lemma_entry_index_prefix<T>(s: Seq<([u8; 8], T)>, id: Seq<u8>, k: int)
    requires
        0 <= k <= s.len(),
        entry_index(s.take(k), id) >= 0,
    ensures
        entry_index(s, id) == entry_index(s.take(k), id),
    decreases s.len() - k,
{
    if k < s.len() {
        assert(s.take(k + 1).drop_last() =~= s.take(k));
        lemma_entry_index_prefix(s, id, k + 1);
    } else {
        assert(s.take(k) =~= s);
    }
}

/// How many literal cells have text `text`.
pub open spec fn count_literal(cells: Seq<CellView>, text: Seq<char>) -> nat
    decreases cells.len(),
{
    if cells.len() == 0 {
        0
    } else {
        count_literal(cells.drop_last(), text) + if is_literal_with(cells.last(), text) {
            1nat
        } else {
            0nat
        }
    }
}

/// Whether some literal cell has text `text`.
pub open spec fn has_literal(cells: Seq<CellView>, text: Seq<char>) -> bool {
    exists|k: int| 0 <= k < cells.len() && is_literal_with(#[trigger] cells[k], text)
}

proof fn lemma_count_literal_none(cells: Seq<CellView>, text: Seq<char>)
    requires
        !has_literal(cells, text),
    ensures
        count_literal(cells, text) == 0,
    decreases cells.len(),
{
    if cells.len() > 0 {
        assert(!has_literal(cells.drop_last(), text)) by {
            if has_literal(cells.drop_last(), text) {
                let k = choose|k: int| 0 <= k < cells.drop_last().len() && is_literal_with(
                    #[trigger] cells.drop_last()[k],
                    text,
                );
                assert(cells[k] == cells.drop_last()[k]);
            }
        }
        lemma_count_literal_none(cells.drop_last(), text);
        assert(!is_literal_with(cells[cells.len() - 1], text));
    }
}

/// Whether some literal cell has this text.
fn literal_exists(cells: &Vec<Cell>, text: &str) -> (r: bool)
    ensures
        r == has_literal(crate::blocks::cells_view(cells@), text@),
{
    let ghost cv = crate::blocks::cells_view(cells@);
    let t = text.to_owned();
    let mut i: usize = 0;
    while i < cells.len()
        invariant
            i <= cells@.len(),
            cv == crate::blocks::cells_view(cells@),
            t@ == text@,
            forall|k: int| 0 <= k < i ==> !is_literal_with(#[trigger] cv[k], text@),
        decreases cells@.len() - i,
    {
        assert(cv[i as int] == cells@[i as int]@);
        match &cells[i] {
            Cell::Literal(s, _) => {
                if *s == t {
                    return true;
                }
            },
            _ => {},
        }
        i += 1;
    }
    false
}

/// The owners named by the literal cells: the identifiers of the objects.
fn literal_owners(cells: &Vec<Cell>) -> (r: Vec<[u8; 8]>)
    ensures
        forall|k: int|
            0 <= k < cells@.len() && (#[trigger] crate::blocks::cells_view(cells@)[k]) is Literal
                ==> exists|j: int|
                0 <= j < r@.len() && r@[j]@ == identifier_of(crate::blocks::cells_view(cells@)[k]),
{
    let ghost cv = crate::blocks::cells_view(cells@);
    let mut r: Vec<[u8; 8]> = Vec::new();
    let mut i: usize = 0;
    while i < cells.len()
        invariant
            i <= cells@.len(),
            cv == crate::blocks::cells_view(cells@),
            forall|k: int|
                0 <= k < i && (#[trigger] cv[k]) is Literal ==> exists|j: int|
                    0 <= j < r@.len() && r@[j]@ == identifier_of(cv[k]),
        decreases cells@.len() - i,
    {
        assert(cv[i as int] == cells@[i as int]@);
        let ghost r0 = r@;
        match &cells[i] {
            Cell::Literal(_, o) => {
                r.push(*o);
                assert(r@[r@.len() - 1]@ == identifier_of(cv[i as int]));
                assert forall|k: int|
                    0 <= k < i && (#[trigger] cv[k]) is Literal implies exists|j: int|
                        0 <= j < r@.len() && r@[j]@ == identifier_of(cv[k]) by {
                    let j = choose|j: int| 0 <= j < r0.len() && r0[j]@ == identifier_of(cv[k]);
                    assert(r@[j] == r0[j]);
                }
            },
            _ => {},
        }
        i += 1;
    }
    r
}

/// Why the selected structure cannot be used, if it cannot: none is
/// selected, or it is not in the cache.
pub open spec fn structure_error(l: DatabaseLocation, cache: Seq<([u8; 8], Structure)>) -> Option<EngineError> {
    if l.structure() is None {
        Some(EngineError::NoStructure)
    } else if entry_index(cache, level_id(l.structure()->0)) == -1 {
        Some(EngineError::NotCached)
    } else {
        None
    }
}

/// The selected structure's place in the cache.
pub open spec fn selected_index(l: DatabaseLocation, cache: Seq<([u8; 8], Structure)>) -> int {
    entry_index(cache, level_id(l.structure()->0))
}

/// The selected structure's identifier and its place in the cache.
fn selected_structure(
    current_location: &DatabaseLocation,
    structure_cache: &Vec<([u8; 8], Structure)>,
) -> (r: Result<([u8; 8], usize), EngineError>)
    ensures
        match r {
            Ok((id, i)) => current_location.structure() is Some && level_id(
                current_location.structure()->0,
            ) == id@ && i == entry_index(structure_cache@, id@) && i < structure_cache@.len(),
            Err(e) => (current_location.structure() is None && e == EngineError::NoStructure) || (
            current_location.structure() is Some && entry_index(
                structure_cache@,
                level_id(current_location.structure()->0),
            ) == -1 && e == EngineError::NotCached),
        },
{
    let sid = match current_location.current_structure_identifier() {
        None => {
            return Err(EngineError::NoStructure);
        },
        Some(s) => s,
    };
    match find_entry(structure_cache, &sid) {
        None => Err(EngineError::NotCached),
        Some(i) => Ok((sid, i)),
    }
}

/// Creates an object in the selected structure: a literal cell holding its
/// name, owned by a fresh identifier, at the end of the object list.
pub fn create_object(
    object_name: &str,
    current_location: &DatabaseLocation,
    structure_cache: &mut Vec<([u8; 8], Structure)>,
) -> (r: Result<[u8; 8], EngineError>)
    requires
        cache_wf(old(structure_cache)@),
    ensures
        cache_wf(final(structure_cache)@),
        match r {
            Ok(id) => {
                let i = entry_index(old(structure_cache)@, level_id(current_location.structure()->0));
                let before = old(structure_cache)@[i].1;
                let after = final(structure_cache)@[i].1;
                &&& current_location.structure() is Some
                &&& 0 <= i < old(structure_cache)@.len()
                &&& !has_literal(before.list.cells_view(), object_name@)
                &&& final(structure_cache)@.len() == old(structure_cache)@.len()
                &&& forall|k: int|
                    0 <= k < old(structure_cache)@.len() && k != i ==> final(structure_cache)@[k]
                        == old(structure_cache)@[k]
                &&& final(structure_cache)@[i].0 == old(structure_cache)@[i].0
                &&& after.metadata == before.metadata
                &&& after.cached_block == before.cached_block
                &&& after.list.queue == before.list.queue
                &&& after.list.cells_view() == before.list.cells_view().push(
                    CellView::Literal(object_name@, id@),
                )
                &&& count_literal(after.list.cells_view(), object_name@) == 1
                &&& forall|k: int|
                    0 <= k < before.list.cells_view().len() && (#[trigger] before.list.cells_view()[k]) is Literal
                        ==> identifier_of(before.list.cells_view()[k]) != id@
            },
            Err(e) => *final(structure_cache) == *old(structure_cache) && match structure_error(
                *current_location,
                old(structure_cache)@,
            ) {
                Some(x) => e == x,
                None => if has_literal(
                    old(structure_cache)@[selected_index(*current_location, old(structure_cache)@)].1.list.cells_view(),
                    object_name@,
                ) {
                    e == EngineError::AlreadyExists
                } else {
                    e == EngineError::NoFreeIdentifier
                },
            },
        },
{
    let (_sid, i) = match selected_structure(current_location, structure_cache) {
        Err(e) => {
            return Err(e);
        },
        Ok(p) => p,
    };
    if literal_exists(&structure_cache[i].1.list.cells, object_name) {
        return Err(EngineError::AlreadyExists);
    }
    let taken = literal_owners(&structure_cache[i].1.list.cells);
    let id = match fresh_identifier(&taken) {
        None => {
            return Err(EngineError::NoFreeIdentifier);
        },
        Some(id) => id,
    };
    let ghost before = structure_cache@;
    let ghost lv = before[i as int].1.list.cells_view();
    assert forall|k: int| 0 <= k < lv.len() && (#[trigger] lv[k]) is Literal implies identifier_of(lv[k]) != id@ by {
        let j = choose|j: int| 0 <= j < taken@.len() && taken@[j]@ == identifier_of(lv[k]);
        assert(taken@[j]@ != id@);
    }
    let (sid, mut s) = structure_cache.remove(i);
    let ghost cells0 = s.list.cells_view();
    s.list.import_cell(Cell::Literal(object_name.to_owned(), id));
    proof {
        lemma_count_literal_none(cells0, object_name@);
        assert(s.list.cells_view().drop_last() =~= cells0);
    }
    structure_cache.insert(i, (sid, s));
    assert(structure_cache@.len() == before.len());
    assert forall|k: int| 0 <= k < before.len() && k != i implies structure_cache@[k] == before[k] by {
        if k < i {
        } else {
        }
    }
    assert forall|m: int| 0 <= m < before.len() implies (#[trigger] before[m]).0 == structure_cache@[m].0 by {}
    proof {
        lemma_cache_wf_update(before, structure_cache@, i as int);
    }
    Ok(id)
}

/// Whether no two entries share an identifier.
pub open spec fn unique_ids<T>(s: Seq<([u8; 8], T)>) -> bool {
    forall|a: int, b: int| 0 <= a < b < s.len() ==> (#[trigger] s[a]).0 != (#[trigger] s[b]).0
}

/// Whether the structure cache is well formed: identifiers are unique in it
/// and in each structure's field cache, and each structure's metadata is well
/// formed.
pub open spec fn cache_wf(cache: Seq<([u8; 8], Structure)>) -> bool {
    &&& unique_ids(cache)
    &&& forall|k: int|
        0 <= k < cache.len() ==> (#[trigger] cache[k]).1.metadata.wf() && unique_ids(
            cache[k].1.cached_block@,
        )
}

proof fn lemma_unique_same_ids<T>(a: Seq<([u8; 8], T)>, b: Seq<([u8; 8], T)>)
    requires
        same_ids(a, b),
        unique_ids(a),
    ensures
        unique_ids(b),
{
    assert forall|x: int, y: int| 0 <= x < y < b.len() implies (#[trigger] b[x]).0 != (#[trigger] b[y]).0 by {
        assert(a[x].0 == b[x].0 && a[y].0 == b[y].0);
    }
}

proof fn lemma_unique_push<T>(s: Seq<([u8; 8], T)>, e: ([u8; 8], T))
    requires
        unique_ids(s),
        entry_index(s, e.0@) == -1,
    ensures
        unique_ids(s.push(e)),
{
    lemma_entry_index(s, e.0@);
    assert forall|x: int, y: int| 0 <= x < y < s.len() + 1 implies (#[trigger] s.push(e)[x]).0 != (
    #[trigger] s.push(e)[y]).0 by {
        assert(s.push(e)[x] == s[x]);
        if y < s.len() {
            assert(s.push(e)[y] == s[y]);
        } else {
            assert(s[x].0@ != e.0@);
        }
    }
}

proof fn lemma_cache_wf_update(before: Seq<([u8; 8], Structure)>, after: Seq<([u8; 8], Structure)>, i: int)
    requires
        cache_wf(before),
        0 <= i < before.len(),
        only_changed(before, after, i),
        after[i].1.metadata.wf(),
        unique_ids(after[i].1.cached_block@),
    ensures
        cache_wf(after),
{
    lemma_unique_same_ids(before, after);
    assert forall|k: int| 0 <= k < after.len() implies (#[trigger] after[k]).1.metadata.wf() && unique_ids(
        after[k].1.cached_block@,
    ) by {
        if k != i {
            assert(after[k] == before[k]);
        }
    }
}

proof fn lemma_cache_wf_push(before: Seq<([u8; 8], Structure)>, e: ([u8; 8], Structure))
    requires
        cache_wf(before),
        entry_index(before, e.0@) == -1,
        e.1.metadata.wf(),
        unique_ids(e.1.cached_block@),
    ensures
        cache_wf(before.push(e)),
{
    lemma_unique_push(before, e);
    assert forall|k: int| 0 <= k < before.len() + 1 implies (#[trigger] before.push(e)[k]).1.metadata.wf()
        && unique_ids(before.push(e)[k].1.cached_block@) by {
        if k < before.len() {
            assert(before.push(e)[k] == before[k]);
        }
    }
}

proof fn lemma_cache_wf_remove(before: Seq<([u8; 8], Structure)>, i: int)
    requires
        cache_wf(before),
        0 <= i < before.len(),
    ensures
        cache_wf(before.remove(i)),
{
    let after = before.remove(i);
    assert forall|x: int, y: int| 0 <= x < y < after.len() implies (#[trigger] after[x]).0 != (#[trigger] after[y]).0 by {
        let x2 = if x < i { x } else { x + 1 };
        let y2 = if y < i { y } else { y + 1 };
        assert(after[x] == before[x2] && after[y] == before[y2]);
    }
    assert forall|k: int| 0 <= k < after.len() implies (#[trigger] after[k]).1.metadata.wf() && unique_ids(
        after[k].1.cached_block@,
    ) by {
        let k2 = if k < i { k } else { k + 1 };
        assert(after[k] == before[k2]);
    }
}

/// Whether two caches hold the same identifiers at the same places.
pub open spec fn same_ids<T>(a: Seq<([u8; 8], T)>, b: Seq<([u8; 8], T)>) -> bool {
    a.len() == b.len() && forall|k: int| 0 <= k < a.len() ==> (#[trigger] a[k]).0 == b[k].0
}

proof fn lemma_entry_index_same_ids<T>(a: Seq<([u8; 8], T)>, b: Seq<([u8; 8], T)>, id: Seq<u8>)
    requires
        same_ids(a, b),
    ensures
        entry_index(a, id) == entry_index(b, id),
    decreases a.len(),
{
    if a.len() > 0 {
        assert(same_ids(a.drop_last(), b.drop_last())) by {
            assert forall|k: int| 0 <= k < a.drop_last().len() implies (#[trigger] a.drop_last()[k]).0
                == b.drop_last()[k].0 by {
                assert(a[k].0 == b[k].0);
            }
        }
        lemma_entry_index_same_ids(a.drop_last(), b.drop_last(), id);
        assert(a.last().0 == b.last().0);
    }
}

/// Whether `after` is `before` with only entry `i` replaced, under the same
/// identifier.
pub open spec fn only_changed<T>(before: Seq<([u8; 8], T)>, after: Seq<([u8; 8], T)>, i: int) -> bool {
    &&& same_ids(before, after)
    &&& forall|k: int| 0 <= k < before.len() && k != i ==> after[k] == before[k]
}

/// The owner of the last literal cell with text `text`.
pub open spec fn last_literal_owner(cells: Seq<CellView>, text: Seq<char>) -> Option<Seq<u8>>
    decreases cells.len(),
{
    if cells.len() == 0 {
        None
    } else if is_literal_with(cells.last(), text) {
        Some(identifier_of(cells.last()))
    } else {
        last_literal_owner(cells.drop_last(), text)
    }
}

/// Selects the object with this name in the selected structure; where two
/// objects share the name, the later one.
pub fn select_object(
    object_name: &str,
    current_location: &mut DatabaseLocation,
    structure_cache: &Vec<([u8; 8], Structure)>,
) -> (r: Result<(), EngineError>)
    ensures
        match r {
            Ok(()) => {
                let i = entry_index(structure_cache@, level_id(old(current_location).structure()->0));
                let owner = last_literal_owner(structure_cache@[i].1.list.cells_view(), object_name@);
                &&& old(current_location).structure() is Some
                &&& 0 <= i < structure_cache@.len()
                &&& owner is Some
                &&& final(current_location).object() == Some((owner->0, object_name@))
                &&& final(current_location).root() == old(current_location).root()
                &&& final(current_location).structure() == old(current_location).structure()
                &&& final(current_location).cell() == old(current_location).cell()
            },
            Err(e) => *final(current_location) == *old(current_location) && (old(current_location).structure() is None
                ==> e == EngineError::NoStructure) && (old(current_location).structure() is Some
                && entry_index(structure_cache@, level_id(old(current_location).structure()->0)) == -1
                ==> e == EngineError::NotCached) && (old(current_location).structure() is Some
                && entry_index(structure_cache@, level_id(old(current_location).structure()->0)) >= 0
                ==> e == EngineError::NotFound && last_literal_owner(
                structure_cache@[entry_index(
                    structure_cache@,
                    level_id(old(current_location).structure()->0),
                )].1.list.cells_view(),
                object_name@,
            ) is None),
        },
{
    let (_sid, i) = match selected_structure(current_location, structure_cache) {
        Err(e) => {
            return Err(e);
        },
        Ok(p) => p,
    };
    let cells = &structure_cache[i].1.list.cells;
    let ghost cv = crate::blocks::cells_view(cells@);
    let t = object_name.to_owned();
    let mut found: Option<[u8; 8]> = None;
    let mut k: usize = 0;
    while k < cells.len()
        invariant
            k <= cells@.len(),
            cv == crate::blocks::cells_view(cells@),
            t@ == object_name@,
            match found {
                None => last_literal_owner(cv.take(k as int), object_name@) is None,
                Some(o) => last_literal_owner(cv.take(k as int), object_name@) == Some(o@),
            },
        decreases cells@.len() - k,
    {
        assert(cv.take(k + 1).drop_last() =~= cv.take(k as int));
        assert(cv[k as int] == cells@[k as int]@);
        match &cells[k] {
            Cell::Literal(x, o) => {
                if *x == t {
                    found = Some(*o);
                }
            },
            _ => {},
        }
        k += 1;
    }
    assert(cv.take(k as int) =~= cv);
    match found {
        None => Err(EngineError::NotFound),
        Some(o) => {
            current_location.select_object((o, t));
            Ok(())
        },
    }
}

/// Removes the objects with this name from the selected structure's object
/// list.
pub fn delete_object(
    object_name: &str,
    current_location: &DatabaseLocation,
    structure_cache: &mut Vec<([u8; 8], Structure)>,
) -> (r: Result<(), EngineError>)
    requires
        cache_wf(old(structure_cache)@),
    ensures
        cache_wf(final(structure_cache)@),
        match r {
            Ok(()) => {
                let i = entry_index(old(structure_cache)@, level_id(current_location.structure()->0));
                let before = old(structure_cache)@[i].1;
                let after = final(structure_cache)@[i].1;
                &&& current_location.structure() is Some
                &&& 0 <= i < old(structure_cache)@.len()
                &&& only_changed(old(structure_cache)@, final(structure_cache)@, i)
                &&& after.metadata == before.metadata
                &&& after.cached_block == before.cached_block
                &&& after.list.cells_view() == without_literal(before.list.cells_view(), object_name@)
            },
            Err(e) => *final(structure_cache) == *old(structure_cache) && (current_location.structure() is None
                ==> e == EngineError::NoStructure) && (current_location.structure() is Some ==> e
                == EngineError::NotCached && entry_index(
                old(structure_cache)@,
                level_id(current_location.structure()->0),
            ) == -1),
        },
{
    let (_sid, i) = match selected_structure(current_location, structure_cache) {
        Err(e) => {
            return Err(e);
        },
        Ok(p) => p,
    };
    let ghost before = structure_cache@;
    let (sid, mut s) = structure_cache.remove(i);
    s.list.delete_literal_cell_based_on_content(object_name);
    structure_cache.insert(i, (sid, s));
    assert forall|k: int| 0 <= k < before.len() && k != i implies structure_cache@[k] == before[k] by {}
    assert forall|k: int| 0 <= k < before.len() implies (#[trigger] before[k]).0 == structure_cache@[k].0 by {}
    proof {
        lemma_cache_wf_update(before, structure_cache@, i as int);
    }
    Ok(())
}

/// The identifier that a structure's metadata gives a field name.
pub open spec fn field_identifier(s: Structure, name: Seq<char>) -> Option<Seq<u8>> {
    if s.metadata.sub_data_map().contains_key(name) {
        hexid::identifier_of(s.metadata.sub_data_map()[name])
    } else {
        None
    }
}

/// Where a named field's queue sits in the structure's field cache, or -1.
pub open spec fn field_index(s: Structure, name: Seq<char>) -> int {
    match field_identifier(s, name) {
        Some(id) => entry_index(s.cached_block@, id),
        None => -1,
    }
}

/// The cells of a loaded field.
pub open spec fn field_cells(s: Structure, name: Seq<char>) -> Seq<CellView> {
    s.cached_block@[field_index(s, name)].1.cells_view()
}

/// Why a named field of a structure is not loaded, if it is not: the name is
/// unknown, its value names no identifier, or the field is not in the cache.
pub open spec fn field_error(s: Structure, name: Seq<char>) -> Option<EngineError> {
    if !s.metadata.sub_data_map().contains_key(name) {
        Some(EngineError::NotFound)
    } else if hexid::identifier_of(s.metadata.sub_data_map()[name]) is None {
        Some(EngineError::BadIdentifier)
    } else if field_index(s, name) == -1 {
        Some(EngineError::NotCached)
    } else {
        None
    }
}

/// Finds a loaded field by name.
fn locate_field(s: &Structure, name: &str) -> (r: Result<usize, EngineError>)
    requires
        s.metadata.wf(),
    ensures
        match r {
            Ok(j) => j == field_index(*s, name@) && 0 <= j < s.cached_block@.len(),
            Err(e) => field_index(*s, name@) == -1 && (!s.metadata.sub_data_map().contains_key(name@)
                ==> e == EngineError::NotFound) && (s.metadata.sub_data_map().contains_key(name@)
                && hexid::identifier_of(s.metadata.sub_data_map()[name@]) is None ==> e
                == EngineError::BadIdentifier) && (field_identifier(*s, name@) is Some ==> e
                == EngineError::NotCached),
        },
{
    let v = match s.metadata.get_sub_data(name) {
        None => {
            return Err(EngineError::NotFound);
        },
        Some(v) => v,
    };
    let id = match hexid::from_hex(v.as_str()) {
        None => {
            return Err(EngineError::BadIdentifier);
        },
        Some(id) => id,
    };
    proof {
        lemma_entry_index(s.cached_block@, id@);
    }
    match find_entry(&s.cached_block, &id) {
        None => Err(EngineError::NotCached),
        Some(j) => Ok(j),
    }
}

/// A field created in the selected structure: its identifier and its sealed
/// metadata file, for the caller to write under the field's directory.
pub struct FieldPlan {
    pub identifier: [u8; 8],
    pub metadata: Vec<u8>,
    pub nonce: [u8; 24],
}

/// The encoded metadata of a field whose default payload size is `n`.
pub open spec fn size_metadata_bytes(n: nat) -> Seq<u8> {
    encode_utf8(metadata_text(seq![("size"@, decimal_text(n))], seq![]))
}

/// Whether no value of the entries names the identifier `id`.
pub open spec fn names_no(es: Entries, id: Seq<u8>) -> bool {
    forall|k: int| 0 <= k < es.len() ==> hexid::identifier_of((#[trigger] es[k]).1) != Some(id)
}

/// Creates a field in the structure at `i`: a fresh identifier under the name
/// in the structure's metadata, an empty loaded queue, and its sealed
/// metadata, which records the default payload size.
fn add_field(
    field_name: &str,
    default_cell_size: u32,
    i: usize,
    structure_cache: &mut Vec<([u8; 8], Structure)>,
    key: &[u8; 32],
) -> (r: Result<FieldPlan, EngineError>)
    requires
        i < old(structure_cache)@.len(),
        cache_wf(old(structure_cache)@),
        !old(structure_cache)@[i as int].1.metadata.sub_data_map().contains_key(field_name@),
    ensures
        cache_wf(final(structure_cache)@),
        match r {
            Ok(plan) => {
                let before = old(structure_cache)@[i as int].1;
                let after = final(structure_cache)@[i as int].1;
                &&& only_changed(old(structure_cache)@, final(structure_cache)@, i as int)
                &&& after.list == before.list
                &&& after.metadata.sub_data_map() == before.metadata.sub_data_map().insert(
                    field_name@,
                    hexid::hex_of(plan.identifier@),
                )
                &&& after.metadata.attribute_map() == before.metadata.attribute_map()
                &&& after.cached_block@.len() == before.cached_block@.len() + 1
                &&& after.cached_block@.drop_last() == before.cached_block@
                &&& after.cached_block@.last().0 == plan.identifier
                &&& after.cached_block@.last().1.cells_view().len() == 0
                &&& entry_index(before.cached_block@, plan.identifier@) == -1
                &&& names_no(before.metadata.sub_data_entries(), plan.identifier@)
                &&& plan.metadata@ == sealed(size_metadata_bytes(default_cell_size as nat), plan.nonce@, key@)
            },
            Err(e) => *final(structure_cache) == *old(structure_cache) && e == EngineError::NoFreeIdentifier,
        },
{
    let es = structure_cache[i].1.metadata.sub_data();
    let ghost esv = es@;
    let mut taken = identifiers_in(es);
    let ghost taken0 = taken@;
    let mut k: usize = 0;
    while k < structure_cache[i].1.cached_block.len()
        invariant
            i < structure_cache@.len(),
            *structure_cache == *old(structure_cache),
            k <= structure_cache@[i as int].1.cached_block@.len(),
            taken@.len() == taken0.len() + k,
            forall|m: int| 0 <= m < taken0.len() ==> taken@[m] == taken0[m],
            forall|m: int| 0 <= m < k ==> taken@[taken0.len() + m] == (#[trigger] structure_cache@[i as int].1.cached_block@[m]).0,
        decreases structure_cache@[i as int].1.cached_block@.len() - k,
    {
        taken.push(structure_cache[i].1.cached_block[k].0);
        k += 1;
    }
    let id = match fresh_identifier(&taken) {
        None => {
            return Err(EngineError::NoFreeIdentifier);
        },
        Some(id) => id,
    };
    let ghost cb = structure_cache@[i as int].1.cached_block@;
    let ghost sv = structure_cache@[i as int].1.metadata.sub_data_entries();
    assert forall|m: int| 0 <= m < sv.len() implies hexid::identifier_of((#[trigger] sv[m]).1) != Some(id@) by {
        assert(sv[m] == (esv[m].0@, esv[m].1@));
        if hexid::identifier_of(sv[m].1) is Some {
            let j = choose|j: int| 0 <= j < taken0.len() && taken0[j]@ == hexid::identifier_of(sv[m].1)->0;
            assert(taken@[j] == taken0[j]);
        }
    }
    proof {
        lemma_entry_index(cb, id@);
        if entry_index(cb, id@) >= 0 {
            let m = entry_index(cb, id@);
            assert(taken@[taken0.len() + m] == cb[m].0);
        }
    }
    let mut field_metadata = Metadata::create();
    let size_text = decimal(default_cell_size as u64);
    field_metadata.new_attribute("size", size_text.as_str());
    let bytes = field_metadata.to_vec();
    assert(field_metadata.attribute_entries() =~= seq![("size"@, decimal_text(default_cell_size as nat))]);
    assert(bytes@ == size_metadata_bytes(default_cell_size as nat));
    let (cipher, nonce) = encrypt_block(bytes.as_slice(), key);
    let ghost before = structure_cache@;
    let (sid, mut s) = structure_cache.remove(i);
    let name = hexid::into_hex(id);
    s.metadata.new_sub_data(field_name, name.as_str());
    s.cached_block.push((id, BlockQueue::new()));
    assert(s.cached_block@.drop_last() =~= cb);
    structure_cache.insert(i, (sid, s));
    assert forall|m: int| 0 <= m < before.len() && m != i implies structure_cache@[m] == before[m] by {}
    assert forall|m: int| 0 <= m < before.len() implies (#[trigger] before[m]).0 == structure_cache@[m].0 by {}
    assert forall|m: int| 0 <= m < structure_cache@.len() implies (#[trigger] structure_cache@[m]).1.metadata.wf() by {
        if m != i {
            assert(structure_cache@[m] == before[m]);
        }
    }
    Ok(FieldPlan { identifier: id, metadata: cipher, nonce })
}

/// Creates a field in the selected structure. The name must not be taken.
pub fn create_field(
    field_name: &str,
    default_cell_size: u32,
    current_location: &DatabaseLocation,
    structure_cache: &mut Vec<([u8; 8], Structure)>,
    key: &[u8; 32],
) -> (r: Result<FieldPlan, EngineError>)
    requires
        cache_wf(old(structure_cache)@),
    ensures
        cache_wf(final(structure_cache)@),
        match r {
            Ok(plan) => {
                let i = entry_index(old(structure_cache)@, level_id(current_location.structure()->0));
                let before = old(structure_cache)@[i].1;
                let after = final(structure_cache)@[i].1;
                &&& current_location.structure() is Some
                &&& 0 <= i < old(structure_cache)@.len()
                &&& !before.metadata.sub_data_map().contains_key(field_name@)
                &&& only_changed(old(structure_cache)@, final(structure_cache)@, i)
                &&& after.list == before.list
                &&& after.metadata.sub_data_map() == before.metadata.sub_data_map().insert(
                    field_name@,
                    hexid::hex_of(plan.identifier@),
                )
                &&& after.cached_block@.drop_last() == before.cached_block@
                &&& after.cached_block@.last().0 == plan.identifier
                &&& after.cached_block@.last().1.cells_view().len() == 0
                &&& names_no(before.metadata.sub_data_entries(), plan.identifier@)
                &&& plan.metadata@ == sealed(size_metadata_bytes(default_cell_size as nat), plan.nonce@, key@)
            },
            Err(e) => *final(structure_cache) == *old(structure_cache) && match structure_error(
                *current_location,
                old(structure_cache)@,
            ) {
                Some(x) => e == x,
                None => if old(structure_cache)@[selected_index(
                    *current_location,
                    old(structure_cache)@,
                )].1.metadata.sub_data_map().contains_key(field_name@) {
                    e == EngineError::AlreadyExists
                } else {
                    e == EngineError::NoFreeIdentifier
                },
            },
        },
{
    let (_sid, i) = match selected_structure(current_location, structure_cache) {
        Err(e) => {
            return Err(e);
        },
        Ok(p) => p,
    };
    if structure_cache[i].1.metadata.get_sub_data(field_name).is_some() {
        return Err(EngineError::AlreadyExists);
    }
    add_field(field_name, default_cell_size, i, structure_cache, key)
}

/// The target that link text names: `A`, `A/B` or `A/B/C` of hexadecimal
/// identifiers.
pub open spec fn link_target_of(content: Seq<char>) -> Result<TargetView, EngineError> {
    let ps = split(content, '/');
    if ps.len() == 1 {
        match hexid::identifier_of(ps[0]) {
            Some(a) => Ok(TargetView::SameBlock(a)),
            None => Err(EngineError::BadIdentifier),
        }
    } else if ps.len() == 2 {
        match (hexid::identifier_of(ps[0]), hexid::identifier_of(ps[1])) {
            (Some(a), Some(b)) => Ok(TargetView::AnotherField(a, b)),
            _ => Err(EngineError::BadIdentifier),
        }
    } else if ps.len() == 3 {
        match (hexid::identifier_of(ps[0]), hexid::identifier_of(ps[1]), hexid::identifier_of(ps[2])) {
            (Some(a), Some(b), Some(c)) => Ok(TargetView::AnotherStruct(a, b, c)),
            _ => Err(EngineError::BadIdentifier),
        }
    } else {
        Err(EngineError::BadLink)
    }
}

/// The cell that a cell command makes for an owner: `blob` takes the given
/// bytes, `link` and `revlink` a link target read from the content, and any
/// other type a literal of the content.
pub open spec fn cell_for(cell_type: Seq<char>, content: Seq<char>, blob: Seq<u8>, owner: Seq<u8>) -> Result<
    CellView,
    EngineError,
> {
    if cell_type == "blob"@ {
        Ok(CellView::Blob(blob, owner))
    } else if cell_type == "link"@ || cell_type == "revlink"@ {
        match link_target_of(content) {
            Ok(g) => Ok(
                CellView::Link(
                    if cell_type == "link"@ {
                        LinkType::Forward
                    } else {
                        LinkType::Reverse
                    },
                    g,
                    owner,
                ),
            ),
            Err(e) => Err(e),
        }
    } else {
        Ok(CellView::Literal(content, owner))
    }
}

/// Whether two strings are equal.
fn same_text(a: &str, b: &str) -> (r: bool)
    ensures
        r == (a@ == b@),
{
    a.to_owned() == b.to_owned()
}

/// An identifier named by a piece of link text.
fn piece_identifier(p: &Vec<char>) -> (r: Option<[u8; 8]>)
    ensures
        match hexid::identifier_of(p@) {
            Some(id) => r is Some && r->0@ == id,
            None => r is None,
        },
{
    let t = string_of(p.as_slice());
    hexid::from_hex(t.as_str())
}

/// Reads link text: `A`, `A/B` or `A/B/C` of hexadecimal identifiers.
pub fn parse_link(content: &str) -> (r: Result<LinkTarget, EngineError>)
    ensures
        match link_target_of(content@) {
            Ok(g) => r is Ok && r->Ok_0@ == g,
            Err(e) => r == Err::<LinkTarget, EngineError>(e),
        },
{
    let c = chars_of(content);
    let ps = split_chars(c.as_slice(), '/');
    let ghost pv = ps@.map_values(|p: Vec<char>| p@);
    if ps.len() == 1 {
        assert(pv[0] == ps@[0]@);
        match piece_identifier(&ps[0]) {
            Some(a) => Ok(LinkTarget::SameBlock(a)),
            None => Err(EngineError::BadIdentifier),
        }
    } else if ps.len() == 2 {
        assert(pv[0] == ps@[0]@ && pv[1] == ps@[1]@);
        match (piece_identifier(&ps[0]), piece_identifier(&ps[1])) {
            (Some(a), Some(b)) => Ok(LinkTarget::AnotherField(a, b)),
            _ => Err(EngineError::BadIdentifier),
        }
    } else if ps.len() == 3 {
        assert(pv[0] == ps@[0]@ && pv[1] == ps@[1]@ && pv[2] == ps@[2]@);
        match (piece_identifier(&ps[0]), piece_identifier(&ps[1]), piece_identifier(&ps[2])) {
            (Some(a), Some(b), Some(c)) => Ok(LinkTarget::AnotherStruct(a, b, c)),
            _ => Err(EngineError::BadIdentifier),
        }
    } else {
        Err(EngineError::BadLink)
    }
}

/// The cell that a cell command makes for an owner.
pub fn make_cell(cell_type: &str, content: &str, blob: Vec<u8>, owner: [u8; 8]) -> (r: Result<Cell, EngineError>)
    ensures
        match cell_for(cell_type@, content@, blob@, owner@) {
            Ok(c) => r is Ok && r->Ok_0@ == c,
            Err(e) => r == Err::<Cell, EngineError>(e),
        },
{
    if same_text(cell_type, "blob") {
        Ok(Cell::Blob(blob, owner))
    } else if same_text(cell_type, "link") || same_text(cell_type, "revlink") {
        let dir = if same_text(cell_type, "link") {
            LinkType::Forward
        } else {
            LinkType::Reverse
        };
        match parse_link(content) {
            Ok(g) => Ok(Cell::Link(dir, g, owner)),
            Err(e) => Err(e),
        }
    } else {
        Ok(Cell::Literal(content.to_owned(), owner))
    }
}

/// How many cells have `id` as owner or fragment identifier.
pub open spec fn count_owned(cells: Seq<CellView>, id: Seq<u8>) -> nat
    decreases cells.len(),
{
    if cells.len() == 0 {
        0
    } else {
        count_owned(cells.drop_last(), id) + if identifier_of(cells.last()) == id {
            1nat
        } else {
            0nat
        }
    }
}

proof fn lemma_count_owned_without(cells: Seq<CellView>, id: Seq<u8>)
    ensures
        count_owned(without_identifier(cells, id), id) == 0,
    decreases cells.len(),
{
    if cells.len() > 0 {
        lemma_count_owned_without(cells.drop_last(), id);
        let rest = without_identifier(cells.drop_last(), id);
        if identifier_of(cells.last()) != id {
            assert(rest.push(cells.last()).drop_last() =~= rest);
        }
    }
}

proof fn lemma_count_owned_push(cells: Seq<CellView>, c: CellView, id: Seq<u8>)
    ensures
        count_owned(cells.push(c), id) == count_owned(cells, id) + if identifier_of(c) == id {
            1nat
        } else {
            0nat
        },
{
    assert(cells.push(c).drop_last() =~= cells);
}

/// The owner of the selected object.
pub open spec fn object_owner(l: DatabaseLocation) -> Seq<u8> {
    level_id(l.object()->0)
}

/// Removes the selected object's cells from a loaded field of the selected
/// structure.
pub fn delete_cell(
    field_name: &str,
    current_location: &DatabaseLocation,
    structure_cache: &mut Vec<([u8; 8], Structure)>,
) -> (r: Result<(), EngineError>)
    requires
        cache_wf(old(structure_cache)@),
    ensures
        cache_wf(final(structure_cache)@),
        match r {
            Ok(()) => {
                let i = entry_index(old(structure_cache)@, level_id(current_location.structure()->0));
                let before = old(structure_cache)@[i].1;
                let after = final(structure_cache)@[i].1;
                &&& current_location.structure() is Some
                &&& current_location.object() is Some
                &&& 0 <= i < old(structure_cache)@.len()
                &&& only_changed(old(structure_cache)@, final(structure_cache)@, i)
                &&& after.metadata == before.metadata
                &&& after.list == before.list
                &&& same_ids(before.cached_block@, after.cached_block@)
                &&& field_index(before, field_name@) >= 0
                &&& field_index(after, field_name@) == field_index(before, field_name@)
                &&& field_cells(after, field_name@) == without_identifier(
                    field_cells(before, field_name@),
                    object_owner(*current_location),
                )
            },
            Err(e) => *final(structure_cache) == *old(structure_cache) && if current_location.object() is None {
                e == EngineError::NoObject
            } else if structure_error(*current_location, old(structure_cache)@) is Some {
                structure_error(*current_location, old(structure_cache)@) == Some(e)
            } else {
                field_error(
                    old(structure_cache)@[selected_index(*current_location, old(structure_cache)@)].1,
                    field_name@,
                ) == Some(e)
            },
        },
{
    let oid = match current_location.current_object_identifier() {
        None => {
            return Err(EngineError::NoObject);
        },
        Some(o) => o,
    };
    let (_sid, i) = match selected_structure(current_location, structure_cache) {
        Err(e) => {
            return Err(e);
        },
        Ok(p) => p,
    };
    assert(structure_cache@[i as int].1.metadata.wf());
    let j = match locate_field(&structure_cache[i].1, field_name) {
        Err(e) => {
            return Err(e);
        },
        Ok(j) => j,
    };
    let ghost before = structure_cache@;
    let (sid, mut s) = structure_cache.remove(i);
    let ghost s0 = s;
    let (fid, mut q) = s.cached_block.remove(j);
    q.delete_cell(oid);
    s.cached_block.insert(j, (fid, q));
    assert(same_ids(s0.cached_block@, s.cached_block@)) by {
        assert forall|m: int| 0 <= m < s0.cached_block@.len() implies (#[trigger] s0.cached_block@[m]).0
            == s.cached_block@[m].0 by {}
    }
    proof {
        lemma_entry_index_same_ids(s0.cached_block@, s.cached_block@, field_identifier(s0, field_name@)->0);
    }
    structure_cache.insert(i, (sid, s));
    assert forall|m: int| 0 <= m < before.len() && m != i implies structure_cache@[m] == before[m] by {}
    assert forall|m: int| 0 <= m < before.len() implies (#[trigger] before[m]).0 == structure_cache@[m].0 by {}
    assert forall|m: int| 0 <= m < structure_cache@.len() implies (#[trigger] structure_cache@[m]).1.metadata.wf() by {
        if m != i {
            assert(structure_cache@[m] == before[m]);
        }
    }
    Ok(())
}

/// Why a cell command is refused before any outside call could decide: no
/// object, the reserved name, bad link text, the selected structure, or a
/// named field that is not loaded. `None` where the field is loaded, or is new.
pub open spec fn cell_command_error(
    l: DatabaseLocation,
    cache: Seq<([u8; 8], Structure)>,
    name: Seq<char>,
    cell_type: Seq<char>,
    content: Seq<char>,
) -> Option<EngineError> {
    if l.object() is None {
        Some(EngineError::NoObject)
    } else if name == "list"@ {
        Some(EngineError::ReservedName)
    } else if cell_for(cell_type, content, seq![], object_owner(l)) is Err {
        Some(cell_for(cell_type, content, seq![], object_owner(l))->Err_0)
    } else if structure_error(l, cache) is Some {
        structure_error(l, cache)
    } else if cache[selected_index(l, cache)].1.metadata.sub_data_map().contains_key(name) {
        field_error(cache[selected_index(l, cache)].1, name)
    } else {
        None
    }
}

/// Whether `e` is the error a cell command may give: the one decided before
/// any outside call, or, for a new field, a content too long for its size or
/// no fresh identifier.
pub open spec fn cell_error_matches(
    e: EngineError,
    l: DatabaseLocation,
    cache: Seq<([u8; 8], Structure)>,
    name: Seq<char>,
    cell_type: Seq<char>,
    content: Seq<char>,
) -> bool {
    match cell_command_error(l, cache, name, cell_type, content) {
        Some(x) => e == x,
        None => !cache[selected_index(l, cache)].1.metadata.sub_data_map().contains_key(name) && (e
            == EngineError::NoFreeIdentifier || (e == EngineError::TooLarge && encode_utf8(content).len()
            > u32::MAX)),
    }
}

/// The cells that a field holds before a cell is added: its loaded cells, or
/// none where the field is new.
pub open spec fn prior_cells(s: Structure, name: Seq<char>, created: bool) -> Seq<CellView> {
    if created {
        seq![]
    } else {
        field_cells(s, name)
    }
}

/// Adds a cell for the selected object to a field of the selected structure;
/// a field that does not exist yet is created, with the content's length in
/// bytes as its default payload size, and its plan is returned. `list` is
/// reserved.
pub fn create_cell(
    field_name: &str,
    cell_type: &str,
    content: &str,
    blob: Vec<u8>,
    current_location: &DatabaseLocation,
    structure_cache: &mut Vec<([u8; 8], Structure)>,
    key: &[u8; 32],
) -> (r: Result<Option<FieldPlan>, EngineError>)
    requires
        cache_wf(old(structure_cache)@),
    ensures
        cache_wf(final(structure_cache)@),
        match r {
            Ok(plan) => {
                let i = entry_index(old(structure_cache)@, level_id(current_location.structure()->0));
                let before = old(structure_cache)@[i].1;
                let after = final(structure_cache)@[i].1;
                let cell = cell_for(cell_type@, content@, blob@, object_owner(*current_location));
                &&& current_location.structure() is Some
                &&& current_location.object() is Some
                &&& field_name@ != "list"@
                &&& cell is Ok
                &&& 0 <= i < old(structure_cache)@.len()
                &&& only_changed(old(structure_cache)@, final(structure_cache)@, i)
                &&& after.list == before.list
                &&& (plan is None <==> before.metadata.sub_data_map().contains_key(field_name@))
                &&& plan is None ==> after.metadata == before.metadata && field_index(before, field_name@) >= 0
                &&& plan is Some ==> after.metadata.sub_data_map() == before.metadata.sub_data_map().insert(
                    field_name@,
                    hexid::hex_of(plan->0.identifier@),
                ) && plan->0.metadata@ == sealed(
                    size_metadata_bytes(encode_utf8(content@).len()),
                    plan->0.nonce@,
                    key@,
                )
                &&& field_index(after, field_name@) >= 0
                &&& field_cells(after, field_name@) == prior_cells(before, field_name@, plan is Some).push(
                    cell->Ok_0,
                )
            },
            Err(e) => *final(structure_cache) == *old(structure_cache) && cell_error_matches(
                e,
                *current_location,
                old(structure_cache)@,
                field_name@,
                cell_type@,
                content@,
            ),
        },
{
    let oid = match current_location.current_object_identifier() {
        None => {
            return Err(EngineError::NoObject);
        },
        Some(o) => o,
    };
    if same_text(field_name, "list") {
        return Err(EngineError::ReservedName);
    }
    let cell = match make_cell(cell_type, content, blob, oid) {
        Err(e) => {
            return Err(e);
        },
        Ok(c) => c,
    };
    let (_sid, i) = match selected_structure(current_location, structure_cache) {
        Err(e) => {
            return Err(e);
        },
        Ok(p) => p,
    };
    let ghost before = structure_cache@;
    let plan = if structure_cache[i].1.metadata.get_sub_data(field_name).is_some() {
        None
    } else {
        let n = content.as_bytes().len();
        assert(n as nat == encode_utf8(content@).len());
        if n > 0xffff_ffff {
            return Err(EngineError::TooLarge);
        }
        match add_field(field_name, n as u32, i, structure_cache, key) {
            Err(e) => {
                return Err(e);
            },
            Ok(p) => {
                let ghost after = structure_cache@[i as int].1;
                proof {
                    hexid::lemma_hex_round_trip(p.identifier@);
                    assert(after.cached_block@.drop_last() =~= before[i as int].1.cached_block@);
                    assert(field_identifier(after, field_name@) == Some(p.identifier@));
                    assert(entry_index(after.cached_block@, p.identifier@) == after.cached_block@.len() - 1);
                    assert(field_index(after, field_name@) >= 0);
                }
                Some(p)
            },
        }
    };
    let ghost mid = structure_cache@;
    assert(structure_cache@[i as int].1.metadata.wf());
    assert(plan is Some ==> field_index(structure_cache@[i as int].1, field_name@) >= 0);
    assert(plan is None ==> structure_cache@ == before);
    let j = match locate_field(&structure_cache[i].1, field_name) {
        Err(e) => {
            return Err(e);
        },
        Ok(j) => j,
    };
    let (sid, mut s) = structure_cache.remove(i);
    let ghost s0 = s;
    let (fid, mut q) = s.cached_block.remove(j);
    q.import_cell(cell);
    s.cached_block.insert(j, (fid, q));
    assert(same_ids(s0.cached_block@, s.cached_block@)) by {
        assert forall|m: int| 0 <= m < s0.cached_block@.len() implies (#[trigger] s0.cached_block@[m]).0
            == s.cached_block@[m].0 by {}
    }
    proof {
        lemma_entry_index_same_ids(s0.cached_block@, s.cached_block@, field_identifier(s0, field_name@)->0);
    }
    structure_cache.insert(i, (sid, s));
    assert forall|m: int| 0 <= m < before.len() && m != i implies structure_cache@[m] == before[m] by {
        assert(structure_cache@[m] == mid[m]);
    }
    assert forall|m: int| 0 <= m < before.len() implies (#[trigger] before[m]).0 == structure_cache@[m].0 by {
        assert(mid[m].0 == before[m].0);
    }
    assert forall|m: int| 0 <= m < structure_cache@.len() implies (#[trigger] structure_cache@[m]).1.metadata.wf() by {
        if m != i {
            assert(structure_cache@[m] == mid[m]);
        }
    }
    Ok(plan)
}

/// Replaces the selected object's cells in a field by one new cell: its cells
/// there are removed, then the cell is added as `create_cell` adds it.
pub fn alter_cell(
    field_name: &str,
    cell_type: &str,
    content: &str,
    blob: Vec<u8>,
    current_location: &DatabaseLocation,
    structure_cache: &mut Vec<([u8; 8], Structure)>,
    key: &[u8; 32],
) -> (r: Result<Option<FieldPlan>, EngineError>)
    requires
        cache_wf(old(structure_cache)@),
    ensures
        cache_wf(final(structure_cache)@),
        match r {
            Ok(_) => {
                let i = entry_index(old(structure_cache)@, level_id(current_location.structure()->0));
                let after = final(structure_cache)@[i].1;
                let cell = cell_for(cell_type@, content@, blob@, object_owner(*current_location));
                &&& current_location.object() is Some
                &&& cell is Ok
                &&& 0 <= i < old(structure_cache)@.len()
                &&& only_changed(old(structure_cache)@, final(structure_cache)@, i)
                &&& after.list == old(structure_cache)@[i].1.list
                &&& field_index(after, field_name@) >= 0
                &&& count_owned(field_cells(after, field_name@), object_owner(*current_location)) == 1
                &&& field_cells(after, field_name@).last() == cell->Ok_0
                &&& field_cells(after, field_name@) == (if field_index(old(structure_cache)@[i].1, field_name@)
                    >= 0 {
                    without_identifier(
                        field_cells(old(structure_cache)@[i].1, field_name@),
                        object_owner(*current_location),
                    )
                } else {
                    seq![]
                }).push(cell->Ok_0)
            },
            Err(e) => *final(structure_cache) == *old(structure_cache) && cell_error_matches(
                e,
                *current_location,
                old(structure_cache)@,
                field_name@,
                cell_type@,
                content@,
            ),
        },
{
    if current_location.current_object_identifier().is_none() {
        return Err(EngineError::NoObject);
    }
    if same_text(field_name, "list") {
        return Err(EngineError::ReservedName);
    }
    let oid = current_location.current_object_identifier().unwrap();
    match make_cell(cell_type, content, Vec::new(), oid) {
        Err(e) => {
            return Err(e);
        },
        Ok(_) => {},
    }
    assert(cell_for(cell_type@, content@, blob@, oid@) is Err <==> cell_for(cell_type@, content@, seq![], oid@) is Err);
    let ghost c0 = structure_cache@;
    let ghost mut deleted = false;
    match delete_cell(field_name, current_location, structure_cache) {
        Ok(()) => {
            proof {
                deleted = true;
            }
        },
        Err(EngineError::NotFound) => {},
        Err(e) => {
            return Err(e);
        },
    }
    let ghost c1 = structure_cache@;
    proof {
        let sid = level_id(current_location.structure()->0);
        if deleted {
            lemma_entry_index_same_ids(c0, c1, sid);
            let i = entry_index(c0, sid);
            assert(c1[i].1.metadata == c0[i].1.metadata);
            assert(field_index(c1[i].1, field_name@) == field_index(c0[i].1, field_name@));
            assert(structure_error(*current_location, c1) is None);
            assert(field_error(c1[i].1, field_name@) is None);
        }
    }
    let ghost owner = object_owner(*current_location);
    let r = create_cell(field_name, cell_type, content, blob, current_location, structure_cache, key);
    match r {
        Ok(plan) => {
            proof {
                let sid = level_id(current_location.structure()->0);
                lemma_entry_index_same_ids(c0, c1, sid);
                lemma_entry_index_same_ids(c1, structure_cache@, sid);
                let i = entry_index(c0, sid);
                let cell = cell_for(cell_type@, content@, blob@, owner)->Ok_0;
                assert(identifier_of(cell) == owner);
                let prior = prior_cells(c1[i].1, field_name@, plan is Some);
                lemma_count_owned_push(prior, cell, owner);
                if plan is None {
                    assert(deleted);
                    lemma_count_owned_without(field_cells(c0[i].1, field_name@), owner);
                }
                assert(same_ids(c0, structure_cache@)) by {
                    assert forall|m: int| 0 <= m < c0.len() implies (#[trigger] c0[m]).0 == structure_cache@[m].0 by {
                        assert(c1[m].0 == c0[m].0);
                    }
                }
            }
            Ok(plan)
        },
        Err(e) => {
            assert(!deleted);
            Err(e)
        },
    }
}

/// A structure created on disk: its identifier, the identifier of its object
/// list, and its sealed metadata file, for the caller to write under the
/// structure's directory.
pub struct StructurePlan {
    pub identifier: [u8; 8],
    pub list_identifier: [u8; 8],
    pub metadata: Vec<u8>,
    pub nonce: [u8; 24],
}

/// The encoded metadata of a new structure.
pub open spec fn structure_metadata_bytes(size: nat, list: Seq<u8>) -> Seq<u8> {
    encode_utf8(
        metadata_text(
            seq![("type"@, "struct"@), ("size"@, decimal_text(size))],
            seq![("list"@, hexid::hex_of(list))],
        ),
    )
}

/// Creates a structure: a fresh identifier under its name in the main
/// metadata, and its sealed metadata, which records its type, the default
/// payload size of its object list (32 unless given) and a fresh identifier
/// for that list.
pub fn create_structure(
    structure_name: &str,
    default_cell_list_size: Option<u32>,
    main_metadata: &mut Metadata,
    key: &[u8; 32],
) -> (r: Result<StructurePlan, EngineError>)
    requires
        old(main_metadata).wf(),
    ensures
        final(main_metadata).wf(),
        match r {
            Ok(plan) => {
                &&& !old(main_metadata).sub_data_map().contains_key(structure_name@)
                &&& names_no(old(main_metadata).sub_data_entries(), plan.identifier@)
                &&& plan.list_identifier != plan.identifier
                &&& final(main_metadata).sub_data_map() == old(main_metadata).sub_data_map().insert(
                    structure_name@,
                    hexid::hex_of(plan.identifier@),
                )
                &&& final(main_metadata).attribute_map() == old(main_metadata).attribute_map()
                &&& final(main_metadata).modified()
                &&& plan.metadata@ == sealed(
                    structure_metadata_bytes(
                        match default_cell_list_size {
                            Some(n) => n as nat,
                            None => DEFAULT_STRUCTURE_CELL_SIZE as nat,
                        },
                        plan.list_identifier@,
                    ),
                    plan.nonce@,
                    key@,
                )
            },
            Err(e) => *final(main_metadata) == *old(main_metadata) && if old(
                main_metadata,
            ).sub_data_map().contains_key(structure_name@) {
                e == EngineError::AlreadyExists
            } else {
                e == EngineError::NoFreeIdentifier
            },
        },
{
    if main_metadata.get_sub_data(structure_name).is_some() {
        return Err(EngineError::AlreadyExists);
    }
    let size = match default_cell_list_size {
        Some(n) => n,
        None => DEFAULT_STRUCTURE_CELL_SIZE,
    };
    let es = main_metadata.sub_data();
    let ghost esv = es@;
    let id = match fresh_in(es) {
        None => {
            return Err(EngineError::NoFreeIdentifier);
        },
        Some(id) => id,
    };
    let mut taken: Vec<[u8; 8]> = Vec::new();
    taken.push(id);
    let list_id = match fresh_identifier(&taken) {
        None => {
            return Err(EngineError::NoFreeIdentifier);
        },
        Some(l) => l,
    };
    assert(taken@[0] == id);
    let ghost mv = main_metadata.sub_data_entries();
    assert forall|m: int| 0 <= m < mv.len() implies hexid::identifier_of((#[trigger] mv[m]).1) != Some(id@) by {
        assert(mv[m] == (esv[m].0@, esv[m].1@));
    }
    assert(list_id@ != id@);
    proof {
        reveal_strlit("type");
        reveal_strlit("size");
        assert("type"@[0] != "size"@[0]);
    }
    let mut structure_data = Metadata::create();
    structure_data.new_attribute("type", "struct");
    let size_text = decimal(size as u64);
    let ghost e1 = structure_data.attribute_entries();
    assert(e1 =~= seq![("type"@, "struct"@)]);
    assert(e1.drop_last() =~= Seq::<(Seq<char>, Seq<char>)>::empty());
    assert(!structure_data.attribute_map().contains_key("size"@));
    structure_data.new_attribute("size", size_text.as_str());
    let list_text = hexid::into_hex(list_id);
    structure_data.new_sub_data("list", list_text.as_str());
    assert(structure_data.attribute_entries() =~= seq![("type"@, "struct"@), ("size"@, decimal_text(size as nat))]);
    assert(structure_data.sub_data_entries() =~= seq![("list"@, hexid::hex_of(list_id@))]);
    let bytes = structure_data.into_vec();
    let (cipher, nonce) = encrypt_block(bytes.as_slice(), key);
    let name = hexid::into_hex(id);
    main_metadata.new_sub_data(structure_name, name.as_str());
    Ok(StructurePlan { identifier: id, list_identifier: list_id, metadata: cipher, nonce })
}

/// Removes a structure's entry from the main metadata; the caller removes its
/// directory first.
pub fn delete_structure(structure_name: &str, main_metadata: &mut Metadata) -> (r: Result<(), EngineError>)
    requires
        old(main_metadata).wf(),
    ensures
        final(main_metadata).wf(),
        match r {
            Ok(()) => old(main_metadata).sub_data_map().contains_key(structure_name@)
                && final(main_metadata).sub_data_map() == old(main_metadata).sub_data_map().remove(
                structure_name@,
            ) && !final(main_metadata).sub_data_map().contains_key(structure_name@)
                && final(main_metadata).attribute_map() == old(main_metadata).attribute_map(),
            Err(e) => *final(main_metadata) == *old(main_metadata) && e == EngineError::NotFound
                && !old(main_metadata).sub_data_map().contains_key(structure_name@),
        },
{
    if main_metadata.get_sub_data(structure_name).is_none() {
        return Err(EngineError::NotFound);
    }
    main_metadata.delete_sub_data(structure_name);
    Ok(())
}

/// Opens a sealed metadata file: the record it holds, or `Corrupt` where it
/// does not open under the key or does not parse.
pub fn open_metadata(cipher: &[u8], nonce: [u8; 24], key: &[u8; 32]) -> (r: Result<Metadata, EngineError>)
    ensures
        match r {
            Ok(m) => m.wf() && m.modified() && exists|p: Seq<u8>|
                sealed(p, nonce@, key@) == cipher@ && #[trigger] parse_metadata(p) is Ok
                    && m.attribute_map() == to_map(attribute_part(parse_metadata(p)->Ok_0))
                    && m.sub_data_map() == to_map(sub_data_part(parse_metadata(p)->Ok_0)),
            Err(e) => e == EngineError::Corrupt && forall|p: Seq<u8>|
                sealed(p, nonce@, key@) == cipher@ ==> #[trigger] parse_metadata(p) is Err,
        },
{
    match decrypt_block(cipher, key, nonce) {
        None => Err(EngineError::Corrupt),
        Some(plain) => {
            let ghost pv = plain@;
            match Metadata::from_vec(plain) {
                Ok(m) => {
                    assert(parse_metadata(pv) is Ok);
                    Ok(m)
                },
                Err(_) => Err(EngineError::Corrupt),
            }
        },
    }
}

/// The default payload size that metadata records, or `None` where it has none
/// or it is not a decimal number that fits in 32 bits.
pub fn recorded_size(m: &Metadata) -> (r: Option<u32>)
    requires
        m.wf(),
    ensures
        match r {
            Some(n) => m.attribute_map().contains_key("size"@) && is_decimal(m.attribute_map()["size"@])
                && decimal_value(m.attribute_map()["size"@]) == n,
            None => !m.attribute_map().contains_key("size"@) || !is_decimal(m.attribute_map()["size"@])
                || decimal_value(m.attribute_map()["size"@]) > u32::MAX,
        },
{
    match m.get_attribute("size") {
        None => None,
        Some(v) => parse_decimal(v.as_str()),
    }
}

/// A structure as read from disk: its opened metadata, and its object list
/// opened and decoded with the structure's default payload size, or empty
/// where the list file does not exist. No field is loaded.
pub fn open_structure(
    metadata: Metadata,
    list_block: Option<(Vec<u8>, [u8; 24])>,
    key: &[u8; 32],
) -> (r: Result<Structure, EngineError>)
    requires
        metadata.wf(),
    ensures
        match r {
            Ok(s) => {
                &&& s.metadata == metadata
                &&& s.cached_block@.len() == 0
                &&& recorded_size_of(metadata) is Some
                &&& match list_block {
                    None => s.list.queue@.len() == 0 && s.list.cells@.len() == 0,
                    Some((c, n)) => s.list.queue@.len() == 1 && sealed(s.list.queue@[0]@, n@, key@)
                        == c@ && decode_blocks(
                        seq![],
                        seq![s.list.queue@[0]@],
                        recorded_size_of(metadata)->0,
                    ) == Ok::<Seq<CellView>, BlockError>(s.list.cells_view()),
                }
            },
            Err(e) => e == EngineError::Corrupt && (recorded_size_of(metadata) is None || match list_block {
                None => false,
                Some((c, n)) => forall|p: Seq<u8>|
                    #[trigger] sealed(p, n@, key@) == c@ ==> decode_blocks(
                        seq![],
                        seq![p],
                        recorded_size_of(metadata)->0,
                    ) is Err,
            }),
        },
{
    let size = match recorded_size(&metadata) {
        None => {
            return Err(EngineError::Corrupt);
        },
        Some(n) => n,
    };
    let list = match list_block {
        None => BlockQueue::new(),
        Some((c, n)) => match decrypt_block(c.as_slice(), key, n) {
            None => {
                return Err(EngineError::Corrupt);
            },
            Some(plain) => match BlockQueue::from_vec(plain, size) {
                Err(_) => {
                    return Err(EngineError::Corrupt);
                },
                Ok(q) => q,
            },
        },
    };
    Ok(Structure { metadata, list, cached_block: Vec::new() })
}

/// The default payload size that metadata records, as a value.
pub open spec fn recorded_size_of(m: Metadata) -> Option<u32> {
    if m.attribute_map().contains_key("size"@) && is_decimal(m.attribute_map()["size"@])
        && decimal_value(m.attribute_map()["size"@]) <= u32::MAX {
        Some(decimal_value(m.attribute_map()["size"@]) as u32)
    } else {
        None
    }
}

/// Puts a structure into the cache under its identifier, replacing an entry
/// with that identifier.
pub fn install_structure(structure_cache: &mut Vec<([u8; 8], Structure)>, id: [u8; 8], s: Structure)
    requires
        cache_wf(old(structure_cache)@),
        s.metadata.wf(),
        unique_ids(s.cached_block@),
    ensures
        cache_wf(final(structure_cache)@),
        entry_index(final(structure_cache)@, id@) >= 0,
        final(structure_cache)@[entry_index(final(structure_cache)@, id@)].1 == s,
        forall|k: int|
            0 <= k < old(structure_cache)@.len() && (#[trigger] old(structure_cache)@[k]).0@ != id@
                ==> final(structure_cache)@.contains(old(structure_cache)@[k]),
{
    let ghost before = structure_cache@;
    match find_entry(structure_cache, &id) {
        Some(i) => {
            proof {
                lemma_entry_index(before, id@);
            }
            structure_cache.set(i, (id, s));
            assert(same_ids(before, structure_cache@)) by {
                assert forall|k: int| 0 <= k < before.len() implies (#[trigger] before[k]).0 == structure_cache@[k].0 by {}
            }
            proof {
                lemma_entry_index_same_ids(before, structure_cache@, id@);
                assert forall|k: int| 0 <= k < before.len() && k != i implies structure_cache@[k] == before[k] by {}
                lemma_cache_wf_update(before, structure_cache@, i as int);
            }
            assert forall|k: int|
                0 <= k < before.len() && (#[trigger] before[k]).0@ != id@ implies structure_cache@.contains(before[k]) by {
                assert(structure_cache@[k] == before[k]);
            }
        },
        None => {
            proof {
                lemma_cache_wf_push(before, (id, s));
            }
            structure_cache.push((id, s));
            assert(structure_cache@.drop_last() =~= before);
            assert forall|k: int|
                0 <= k < before.len() && (#[trigger] before[k]).0@ != id@ implies structure_cache@.contains(before[k]) by {
                assert(structure_cache@[k] == before[k]);
            }
        },
    }
}

/// Drops a structure from the cache, without saving it.
pub fn unload(structure_cache: &mut Vec<([u8; 8], Structure)>, id: [u8; 8])
    requires
        cache_wf(old(structure_cache)@),
    ensures
        cache_wf(final(structure_cache)@),
        entry_index(final(structure_cache)@, id@) == -1,
        forall|k: int|
            0 <= k < old(structure_cache)@.len() && (#[trigger] old(structure_cache)@[k]).0@ != id@
                ==> final(structure_cache)@.contains(old(structure_cache)@[k]),
{
    let ghost c0 = structure_cache@;
    let mut i: usize = 0;
    while i < structure_cache.len()
        invariant
            i <= structure_cache@.len(),
            cache_wf(structure_cache@),
            c0 == old(structure_cache)@,
            forall|k: int| 0 <= k < c0.len() && (#[trigger] c0[k]).0@ != id@ ==> structure_cache@.contains(c0[k]),
            forall|k: int| 0 <= k < i ==> (#[trigger] structure_cache@[k]).0@ != id@,
        decreases structure_cache@.len() - i,
    {
        let mut ids: Vec<[u8; 8]> = Vec::new();
        ids.push(structure_cache[i].0);
        if contains_identifier(&ids, &id) {
            let ghost before = structure_cache@;
            proof {
                lemma_cache_wf_remove(before, i as int);
            }
            structure_cache.remove(i);
            assert forall|k: int| 0 <= k < c0.len() && (#[trigger] c0[k]).0@ != id@ implies structure_cache@.contains(c0[k]) by {
                let m = choose|m: int| 0 <= m < before.len() && before[m] == c0[k];
                if m < i {
                    assert(structure_cache@[m] == before[m]);
                } else if m > i {
                    assert(structure_cache@[m - 1] == before[m]);
                } else {
                    assert(before[m].0@ == id@);
                }
            }
            assert forall|k: int| 0 <= k < i implies (#[trigger] structure_cache@[k]).0@ != id@ by {
                assert(structure_cache@[k] == before[k]);
            }
        } else {
            assert(ids@[0]@ != id@);
            i += 1;
        }
    }
    proof {
        lemma_entry_index(structure_cache@, id@);
        if entry_index(structure_cache@, id@) >= 0 {
            let k = entry_index(structure_cache@, id@);
            assert(structure_cache@[k].0@ != id@);
        }
    }
}

/// Version code of the database format.
pub const DATABASE_VERSION: u8 = 4;

/// The encoded main metadata of a new database.
pub open spec fn initial_metadata_bytes(version: u8) -> Seq<u8> {
    encode_utf8(metadata_text(seq![("ver"@, decimal_text(version as nat)), ("type"@, "msdb"@)], seq![]))
}

/// The main metadata of a new database: its version and its type, `msdb`.
pub fn initial_metadata(version: u8) -> (r: Metadata)
    ensures
        r.wf(),
        r.encoded() == initial_metadata_bytes(version),
{
    proof {
        reveal_strlit("ver");
        reveal_strlit("type");
        assert("ver"@[0] != "type"@[0]);
    }
    let mut m = Metadata::create();
    let v = decimal(version as u64);
    m.new_attribute("ver", v.as_str());
    assert(m.attribute_entries().drop_last() =~= Seq::<(Seq<char>, Seq<char>)>::empty());
    assert(!m.attribute_map().contains_key("type"@));
    m.new_attribute("type", "msdb");
    assert(m.attribute_entries() =~= seq![("ver"@, decimal_text(version as nat)), ("type"@, "msdb"@)]);
    assert(m.sub_data_entries() =~= Seq::<(Seq<char>, Seq<char>)>::empty());
    m
}

/// A new database's sealed main metadata, under the key derived from the
/// password and the salt; `None` where the key could not be derived.
pub fn new_database(password: &str, salt: [u8; 32], version: u8) -> (r: Option<(Vec<u8>, [u8; 24])>)
    ensures
        match r {
            Some((c, n)) => c@ == sealed(
                initial_metadata_bytes(version),
                n@,
                derived_key(encode_utf8(password@), salt@),
            ),
            None => true,
        },
{
    let key = match password_deriv(password, salt) {
        None => {
            return None;
        },
        Some(k) => k,
    };
    let m = initial_metadata(version);
    let bytes = m.to_vec();
    Some(encrypt_block(bytes.as_slice(), &key))
}

/// Why a database could not be opened.
#[derive(Clone, Copy, Debug, PartialEq, Eq, Structural)]
pub enum OpenError {
    /// The main metadata does not open under the key: a wrong password, or a
    /// damaged file.
    WrongPassword,
    /// The main metadata opens but does not parse.
    Corrupt,
    /// The type attribute is missing or is not `msdb`.
    NotDatabase,
    /// The version attribute is missing or is not a number.
    NoVersion,
    /// The version differs from the expected one.
    VersionMismatch,
}

/// What opening a database decides from the attributes of its main metadata.
pub open spec fn database_check(a: Map<Seq<char>, Seq<char>>, version: u8, strict: bool) -> Result<bool, OpenError> {
    if !a.contains_key("type"@) || a["type"@] != "msdb"@ {
        Err(OpenError::NotDatabase)
    } else if !a.contains_key("ver"@) || !is_decimal(a["ver"@]) || decimal_value(a["ver"@]) > u32::MAX {
        Err(OpenError::NoVersion)
    } else if decimal_value(a["ver"@]) != version as nat {
        if strict {
            Err(OpenError::VersionMismatch)
        } else {
            Ok(false)
        }
    } else {
        Ok(true)
    }
}

/// Opens a database's main metadata and checks that it is a database of the
/// expected version. With `strict`, another version is refused; otherwise the
/// result says whether the version matched.
pub fn select_database(
    cipher: &[u8],
    nonce: [u8; 24],
    key: &[u8; 32],
    version: u8,
    strict: bool,
) -> (r: Result<(Metadata, bool), OpenError>)
    ensures
        (forall|p: Seq<u8>| sealed(p, nonce@, key@) != cipher@) ==> r == Err::<(Metadata, bool), OpenError>(
            OpenError::WrongPassword,
        ),
        forall|p: Seq<u8>|
            #[trigger] sealed(p, nonce@, key@) == cipher@ ==> match parse_metadata(p) {
                Err(_) => r == Err::<(Metadata, bool), OpenError>(OpenError::Corrupt),
                Ok(parsed) => match database_check(to_map(attribute_part(parsed)), version, strict) {
                    Err(e) => r == Err::<(Metadata, bool), OpenError>(e),
                    Ok(same) => match r {
                        Ok((m, s)) => m.wf() && m.modified() && s == same && m.attribute_map() == to_map(
                            attribute_part(parsed),
                        ) && m.sub_data_map() == to_map(sub_data_part(parsed)),
                        Err(_) => false,
                    },
                },
            },
{
    let plain = match decrypt_block(cipher, key, nonce) {
        None => {
            return Err(OpenError::WrongPassword);
        },
        Some(p) => p,
    };
    let ghost pv = plain@;
    let m = match Metadata::from_vec(plain) {
        Err(_) => {
            return Err(OpenError::Corrupt);
        },
        Ok(m) => m,
    };
    let is_db = match m.get_attribute("type") {
        None => false,
        Some(t) => same_text(t.as_str(), "msdb"),
    };
    if !is_db {
        return Err(OpenError::NotDatabase);
    }
    let v = match m.get_attribute("ver") {
        None => {
            return Err(OpenError::NoVersion);
        },
        Some(t) => match parse_decimal(t.as_str()) {
            None => {
                return Err(OpenError::NoVersion);
            },
            Some(v) => v,
        },
    };
    if v != version as u32 {
        if strict {
            return Err(OpenError::VersionMismatch);
        }
        return Ok((m, false));
    }
    Ok((m, true))
}

/// Whether a sealed block opens under a nonce and a key: some plaintext seals
/// to it.
pub open spec fn opens(c: Seq<u8>, n: Seq<u8>, key: Seq<u8>) -> bool {
    exists|p: Seq<u8>| #[trigger] sealed(p, n, key) == c
}

/// A field's queue as read from disk: each block opened in order, then all
/// decoded with the field payload size.
pub fn open_field(blocks: Vec<(Vec<u8>, [u8; 24])>, key: &[u8; 32]) -> (r: Result<BlockQueue, EngineError>)
    ensures
        match r {
            Ok(q) => q.queue@.len() == blocks@.len() && (forall|k: int|
                0 <= k < blocks@.len() ==> sealed(#[trigger] q.queue@[k]@, blocks@[k].1@, key@)
                    == blocks@[k].0@) && decode_blocks(seq![], q.blocks_view(), FIELD_CELL_SIZE)
                == Ok::<Seq<CellView>, BlockError>(q.cells_view()),
            Err(e) => e == EngineError::Corrupt && ((exists|k: int|
                0 <= k < blocks@.len() && !opens((#[trigger] blocks@[k]).0@, blocks@[k].1@, key@)) || forall|ps: Seq<Seq<u8>>|
                ps.len() == blocks@.len() && (forall|k: int|
                    0 <= k < blocks@.len() ==> sealed(#[trigger] ps[k], blocks@[k].1@, key@) == blocks@[k].0@)
                    ==> #[trigger] decode_blocks(seq![], ps, FIELD_CELL_SIZE) is Err),
        },
{
    let mut q = BlockQueue::new();
    let mut k: usize = 0;
    while k < blocks.len()
        invariant
            k <= blocks@.len(),
            q.queue@.len() == k,
            q.cells@.len() == 0,
            forall|m: int| 0 <= m < k ==> sealed(#[trigger] q.queue@[m]@, blocks@[m].1@, key@) == blocks@[m].0@,
            forall|m: int, p: Seq<u8>|
                0 <= m < k && #[trigger] sealed(p, blocks@[m].1@, key@) == blocks@[m].0@ ==> p == q.queue@[m]@,
        decreases blocks@.len() - k,
    {
        match decrypt_block(blocks[k].0.as_slice(), key, blocks[k].1) {
            None => {
                assert(!opens(blocks@[k as int].0@, blocks@[k as int].1@, key@));
                return Err(EngineError::Corrupt);
            },
            Some(plain) => {
                q.import_from_vec(plain);
            },
        }
        k += 1;
    }
    assert(q.cells_view() =~= Seq::<CellView>::empty());
    let ghost bv = q.blocks_view();
    match q.raw_to_cell(FIELD_CELL_SIZE) {
        Err(_) => {
            assert forall|ps: Seq<Seq<u8>>|
                ps.len() == blocks@.len() && (forall|k: int|
                    0 <= k < blocks@.len() ==> sealed(#[trigger] ps[k], blocks@[k].1@, key@) == blocks@[k].0@)
                    implies #[trigger] decode_blocks(seq![], ps, FIELD_CELL_SIZE) is Err by {
                assert forall|k: int| 0 <= k < ps.len() implies ps[k] == bv[k] by {
                    assert(sealed(ps[k], blocks@[k].1@, key@) == blocks@[k].0@);
                }
                assert(ps =~= bv);
            }
            Err(EngineError::Corrupt)
        },
        Ok(()) => Ok(q),
    }
}

/// Puts a loaded field's queue into a cached structure, replacing a queue with
/// that identifier.
pub fn install_field(
    structure_cache: &mut Vec<([u8; 8], Structure)>,
    structure_id: [u8; 8],
    field_id: [u8; 8],
    queue: BlockQueue,
) -> (r: Result<(), EngineError>)
    requires
        cache_wf(old(structure_cache)@),
    ensures
        cache_wf(final(structure_cache)@),
        match r {
            Ok(()) => {
                let i = entry_index(old(structure_cache)@, structure_id@);
                let after = final(structure_cache)@[i].1;
                &&& 0 <= i < old(structure_cache)@.len()
                &&& only_changed(old(structure_cache)@, final(structure_cache)@, i)
                &&& after.metadata == old(structure_cache)@[i].1.metadata
                &&& after.list == old(structure_cache)@[i].1.list
                &&& entry_index(after.cached_block@, field_id@) >= 0
                &&& after.cached_block@[entry_index(after.cached_block@, field_id@)].1 == queue
            },
            Err(e) => *final(structure_cache) == *old(structure_cache) && e == EngineError::NotCached
                && entry_index(old(structure_cache)@, structure_id@) == -1,
        },
{
    let i = match find_entry(structure_cache, &structure_id) {
        None => {
            return Err(EngineError::NotCached);
        },
        Some(i) => i,
    };
    let ghost before = structure_cache@;
    let (sid, mut s) = structure_cache.remove(i);
    let ghost cb = s.cached_block@;
    match find_entry(&s.cached_block, &field_id) {
        Some(j) => {
            s.cached_block.set(j, (field_id, queue));
            assert(same_ids(cb, s.cached_block@)) by {
                assert forall|k: int| 0 <= k < cb.len() implies (#[trigger] cb[k]).0 == s.cached_block@[k].0 by {
                    if k == j {
                        lemma_entry_index(cb, field_id@);
                    }
                }
            }
            proof {
                lemma_entry_index_same_ids(cb, s.cached_block@, field_id@);
                lemma_unique_same_ids(cb, s.cached_block@);
            }
        },
        None => {
            proof {
                lemma_unique_push(cb, (field_id, queue));
            }
            s.cached_block.push((field_id, queue));
            assert(s.cached_block@.drop_last() =~= cb);
        },
    }
    structure_cache.insert(i, (sid, s));
    assert forall|m: int| 0 <= m < before.len() && m != i implies structure_cache@[m] == before[m] by {}
    assert forall|m: int| 0 <= m < before.len() implies (#[trigger] before[m]).0 == structure_cache@[m].0 by {}
    proof {
        lemma_cache_wf_update(before, structure_cache@, i as int);
    }
    Ok(())
}

/// The fields of a structure to load: every sub-data entry but `list`, or only
/// the one named, with the identifier its value names; entries whose value
/// names no identifier are skipped.
pub fn loadable_fields(s: &Structure, only: Option<&str>) -> (r: Vec<(String, [u8; 8])>)
    requires
        s.metadata.wf(),
    ensures
        forall|k: int|
            0 <= k < r@.len() ==> {
                let name = (#[trigger] r@[k]).0@;
                &&& name != "list"@
                &&& (only is Some ==> name == only->0@)
                &&& s.metadata.sub_data_map().contains_key(name)
                &&& hexid::identifier_of(s.metadata.sub_data_map()[name]) == Some(r@[k].1@)
            },
        forall|k: int|
            0 <= k < s.metadata.sub_data_entries().len() ==> {
                let e = #[trigger] s.metadata.sub_data_entries()[k];
                (e.0 != "list"@ && (only is Some ==> e.0 == only->0@) && hexid::identifier_of(e.1) is Some)
                    ==> exists|j: int| 0 <= j < r@.len() && r@[j].0@ == e.0 && r@[j].1@ == hexid::identifier_of(e.1)->0
            },
{
    let es = s.metadata.sub_data();
    let ghost ev = entries_view(es@);
    let mut r: Vec<(String, [u8; 8])> = Vec::new();
    let mut i: usize = 0;
    while i < es.len()
        invariant
            i <= es@.len(),
            ev == entries_view(es@),
            ev == s.metadata.sub_data_entries(),
            crate::metadata::unique_keys(ev),
            forall|k: int|
                0 <= k < r@.len() ==> {
                    let name = (#[trigger] r@[k]).0@;
                    &&& name != "list"@
                    &&& (only is Some ==> name == only->0@)
                    &&& s.metadata.sub_data_map().contains_key(name)
                    &&& hexid::identifier_of(s.metadata.sub_data_map()[name]) == Some(r@[k].1@)
                },
            forall|k: int|
                0 <= k < i ==> {
                    let e = #[trigger] ev[k];
                    (e.0 != "list"@ && (only is Some ==> e.0 == only->0@) && hexid::identifier_of(e.1) is Some)
                        ==> exists|j: int| 0 <= j < r@.len() && r@[j].0@ == e.0 && r@[j].1@ == hexid::identifier_of(e.1)->0
                },
        decreases es@.len() - i,
    {
        let name = &es[i].0;
        let wanted = match only {
            None => !same_text(name.as_str(), "list"),
            Some(o) => same_text(name.as_str(), o) && !same_text(name.as_str(), "list"),
        };
        if wanted {
            match hexid::from_hex(es[i].1.as_str()) {
                None => {},
                Some(id) => {
                    proof {
                        assert(ev[i as int] == (es@[i as int].0@, es@[i as int].1@));
                        crate::metadata::lemma_to_map_get(ev, i as int);
                    }
                    let ghost r0 = r@;
                    r.push((name.clone(), id));
                    assert forall|k: int| 0 <= k < r0.len() implies r@[k] == r0[k] by {}
                    assert forall|k: int|
                        0 <= k < i + 1 && ({
                            let e = #[trigger] ev[k];
                            e.0 != "list"@ && (only is Some ==> e.0 == only->0@) && hexid::identifier_of(e.1) is Some
                        }) implies exists|j: int|
                        0 <= j < r@.len() && r@[j].0@ == ev[k].0 && r@[j].1@ == hexid::identifier_of(ev[k].1)->0 by {
                        if k < i {
                            let j = choose|j: int|
                                0 <= j < r0.len() && r0[j].0@ == ev[k].0 && r0[j].1@ == hexid::identifier_of(ev[k].1)->0;
                            assert(r@[j] == r0[j]);
                        } else {
                            assert(r@[r0.len() as int].0@ == ev[k].0);
                        }
                    }
                },
            }
        }
        i += 1;
    }
    r
}

/// Empties every cached object list and field queue.
pub fn clear_cache(structure_cache: &mut Vec<([u8; 8], Structure)>)
    requires
        cache_wf(old(structure_cache)@),
    ensures
        cache_wf(final(structure_cache)@),
        same_ids(old(structure_cache)@, final(structure_cache)@),
        forall|k: int|
            0 <= k < final(structure_cache)@.len() ==> (#[trigger] final(structure_cache)@[k]).1.list.cells@.len()
                == 0 && final(structure_cache)@[k].1.metadata == old(structure_cache)@[k].1.metadata
                && same_ids(old(structure_cache)@[k].1.cached_block@, final(structure_cache)@[k].1.cached_block@)
                && forall|j: int|
                0 <= j < final(structure_cache)@[k].1.cached_block@.len() ==> (
                #[trigger] final(structure_cache)@[k].1.cached_block@[j]).1.cells@.len() == 0,
{
    let ghost c0 = structure_cache@;
    let mut i: usize = 0;
    while i < structure_cache.len()
        invariant
            i <= structure_cache@.len(),
            cache_wf(structure_cache@),
            same_ids(c0, structure_cache@),
            forall|k: int| i <= k < structure_cache@.len() ==> #[trigger] structure_cache@[k] == c0[k],
            forall|k: int|
                0 <= k < i ==> (#[trigger] structure_cache@[k]).1.list.cells@.len() == 0
                    && structure_cache@[k].1.metadata == c0[k].1.metadata
                    && same_ids(c0[k].1.cached_block@, structure_cache@[k].1.cached_block@)
                    && forall|j: int|
                    0 <= j < structure_cache@[k].1.cached_block@.len() ==> (
                    #[trigger] structure_cache@[k].1.cached_block@[j]).1.cells@.len() == 0,
        decreases structure_cache@.len() - i,
    {
        let ghost before = structure_cache@;
        let (sid, mut s) = structure_cache.remove(i);
        s.list.clean_cells();
        let ghost cb0 = s.cached_block@;
        let ghost s_meta = s.metadata;
        assert(s_meta == c0[i as int].1.metadata);
        let mut j: usize = 0;
        while j < s.cached_block.len()
            invariant
                s.metadata == s_meta,
                s.list.cells@.len() == 0,
                j <= s.cached_block@.len(),
                same_ids(cb0, s.cached_block@),
                forall|m: int| 0 <= m < j ==> (#[trigger] s.cached_block@[m]).1.cells@.len() == 0,
            decreases s.cached_block@.len() - j,
        {
            let (fid, mut q) = s.cached_block.remove(j);
            q.clean_cells();
            let ghost cbb = s.cached_block@;
            s.cached_block.insert(j, (fid, q));
            assert forall|m: int| 0 <= m < cb0.len() implies (#[trigger] cb0[m]).0 == s.cached_block@[m].0 by {
                if m < j {
                    assert(s.cached_block@[m] == cbb[m]);
                } else if m > j {
                    assert(s.cached_block@[m] == cbb[m - 1]);
                }
            }
            j += 1;
        }
        structure_cache.insert(i, (sid, s));
        assert forall|k: int| 0 <= k < c0.len() implies (#[trigger] c0[k]).0 == structure_cache@[k].0 by {
            if k != i {
                assert(structure_cache@[k] == before[k]);
            }
        }
        assert forall|k: int| 0 <= k < i implies #[trigger] structure_cache@[k] == before[k] by {}
        assert forall|k: int| i < k < structure_cache@.len() implies #[trigger] structure_cache@[k] == c0[k] by {
            assert(structure_cache@[k] == before[k]);
        }
        proof {
            assert(same_ids(before, structure_cache@)) by {
                assert forall|k: int| 0 <= k < before.len() implies (#[trigger] before[k]).0 == structure_cache@[k].0 by {
                    if k != i {
                        assert(structure_cache@[k] == before[k]);
                    }
                }
            }
            assert forall|k: int| 0 <= k < before.len() && k != i implies structure_cache@[k] == before[k] by {}
            lemma_unique_same_ids(cb0, structure_cache@[i as int].1.cached_block@);
            lemma_cache_wf_update(before, structure_cache@, i as int);
        }
        i += 1;
    }
}

/// The key of the last entry whose value is `v`, or empty text.
pub open spec fn key_for_value(es: Entries, v: Seq<char>) -> Seq<char>
    decreases es.len(),
{
    if es.len() == 0 {
        seq![]
    } else if es.last().1 == v {
        es.last().0
    } else {
        key_for_value(es.drop_last(), v)
    }
}

/// The name of the object with identifier `owner`: the text of the last
/// literal it owns in the object list, or empty text.
pub open spec fn object_name(list: Seq<CellView>, owner: Seq<u8>) -> Seq<char>
    decreases list.len(),
{
    if list.len() == 0 {
        seq![]
    } else if list.last() is Literal && identifier_of(list.last()) == owner {
        match list.last() {
            CellView::Literal(t, _) => t,
            _ => seq![],
        }
    } else {
        object_name(list.drop_last(), owner)
    }
}

/// What a link points to, by name: the object, the field within the selected
/// structure, and the structure from the main metadata.
pub open spec fn target_text(g: TargetView, list: Seq<CellView>, fields: Entries, structures: Entries) -> Seq<char> {
    match g {
        TargetView::SameBlock(o) => object_name(list, o) + "'s same cell"@,
        TargetView::AnotherField(f, c) => object_name(list, c) + "'s "@ + key_for_value(
            fields,
            hexid::hex_of(f),
        ),
        TargetView::AnotherStruct(t, f, c) => key_for_value(structures, hexid::hex_of(t)) + "/"@
            + object_name(list, c) + "'s "@ + key_for_value(fields, hexid::hex_of(f)),
    }
}

/// The line that lists a cell of a field.
pub open spec fn cell_line(
    field: Seq<char>,
    c: CellView,
    list: Seq<CellView>,
    fields: Entries,
    structures: Entries,
) -> Seq<char> {
    match c {
        CellView::Literal(t, _) => field + " : \""@ + t + "\""@,
        CellView::Blob(b, _) => field + ": "@ + hexid::hex_of(b),
        CellView::Link(d, g, _) => field + ": "@ + (if d is Forward {
            "Forward"@
        } else {
            "Reverse"@
        }) + " Link to "@ + target_text(g, list, fields, structures),
        CellView::LiteralIncomplete(b, _, _, _) => field + ": [LiteralIncomplete] "@ + hexid::hex_of(b),
        CellView::BlobIncomplete(b, _, _, _) => field + ": [BlobIncomplete] "@ + hexid::hex_of(b),
    }
}

/// A link target by identifiers: `a`, `a/b` or `a/b/c` in hexadecimal.
pub open spec fn debug_target_text(g: TargetView) -> Seq<char> {
    match g {
        TargetView::SameBlock(o) => hexid::hex_of(o),
        TargetView::AnotherField(f, c) => hexid::hex_of(f) + "/"@ + hexid::hex_of(c),
        TargetView::AnotherStruct(t, f, c) => hexid::hex_of(t) + "/"@ + hexid::hex_of(f) + "/"@
            + hexid::hex_of(c),
    }
}

/// The detailed line that lists a cell: its kind, and identifiers in
/// hexadecimal.
pub open spec fn debug_cell_line(field: Seq<char>, c: CellView) -> Seq<char> {
    match c {
        CellView::Literal(t, _) => field + " : [Literal] "@ + t,
        CellView::Blob(b, _) => field + ": [Blob] "@ + hexid::hex_of(b),
        CellView::Link(d, g, _) => field + ": [Link] "@ + (if d is Forward {
            "Forward"@
        } else {
            "Reverse"@
        }) + " - "@ + debug_target_text(g),
        CellView::LiteralIncomplete(b, _, _, _) => field + ": [LiteralIncomplete] "@ + hexid::hex_of(b),
        CellView::BlobIncomplete(b, _, _, _) => field + ": [BlobIncomplete] "@ + hexid::hex_of(b),
    }
}

/// The line for a cell, plain or detailed.
pub open spec fn line_for(
    debug: bool,
    field: Seq<char>,
    c: CellView,
    list: Seq<CellView>,
    fields: Entries,
    structures: Entries,
) -> Seq<char> {
    if debug {
        debug_cell_line(field, c)
    } else {
        cell_line(field, c, list, fields, structures)
    }
}

/// The label of a field in a listing: its name, followed in detailed listings
/// by its identifier in brackets.
pub open spec fn field_label(debug: bool, name: Seq<char>, id: Seq<u8>) -> Seq<char> {
    if debug {
        name + "["@ + hexid::hex_of(id) + "]"@
    } else {
        name
    }
}

/// The lines of a field's cells that `owner` owns.
pub open spec fn field_lines(
    debug: bool,
    field: Seq<char>,
    cells: Seq<CellView>,
    owner: Seq<u8>,
    list: Seq<CellView>,
    fields: Entries,
    structures: Entries,
) -> Seq<Seq<char>>
    decreases cells.len(),
{
    if cells.len() == 0 {
        seq![]
    } else {
        let rest = field_lines(debug, field, cells.drop_last(), owner, list, fields, structures);
        if identifier_of(cells.last()) == owner {
            rest.push(line_for(debug, field, cells.last(), list, fields, structures))
        } else {
            rest
        }
    }
}

/// The lines of every loaded field's cells that `owner` owns, field by field.
pub open spec fn object_lines(
    debug: bool,
    cached: Seq<([u8; 8], BlockQueue)>,
    owner: Seq<u8>,
    list: Seq<CellView>,
    fields: Entries,
    structures: Entries,
) -> Seq<Seq<char>>
    decreases cached.len(),
{
    if cached.len() == 0 {
        seq![]
    } else {
        object_lines(debug, cached.drop_last(), owner, list, fields, structures) + field_lines(
            debug,
            field_label(debug, key_for_value(fields, hexid::hex_of(cached.last().0@)), cached.last().0@),
            cached.last().1.cells_view(),
            owner,
            list,
            fields,
            structures,
        )
    }
}

/// The key of the last entry whose value is `v`.
fn find_key_for_value(es: &Vec<(String, String)>, v: &Vec<char>) -> (r: Vec<char>)
    ensures
        r@ == key_for_value(entries_view(es@), v@),
{
    let ghost ev = entries_view(es@);
    let text = string_of(v.as_slice());
    let mut found: Option<usize> = None;
    let mut i: usize = 0;
    while i < es.len()
        invariant
            i <= es@.len(),
            ev == entries_view(es@),
            text@ == v@,
            match found {
                None => key_for_value(ev.take(i as int), v@) == Seq::<char>::empty(),
                Some(k) => k < i && key_for_value(ev.take(i as int), v@) == ev[k as int].0,
            },
        decreases es@.len() - i,
    {
        assert(ev.take(i + 1).drop_last() =~= ev.take(i as int));
        assert(ev[i as int] == (es@[i as int].0@, es@[i as int].1@));
        if es[i].1 == text {
            found = Some(i);
        }
        i += 1;
    }
    assert(ev.take(i as int) =~= ev);
    match found {
        None => Vec::new(),
        Some(k) => {
            assert(ev[k as int] == (es@[k as int].0@, es@[k as int].1@));
            chars_of(es[k].0.as_str())
        },
    }
}

/// The name of the object with identifier `owner`.
fn find_object_name(list: &Vec<Cell>, owner: &[u8; 8]) -> (r: Vec<char>)
    ensures
        r@ == object_name(crate::blocks::cells_view(list@), owner@),
{
    let ghost cv = crate::blocks::cells_view(list@);
    let mut found: Option<usize> = None;
    let mut i: usize = 0;
    while i < list.len()
        invariant
            i <= list@.len(),
            cv == crate::blocks::cells_view(list@),
            match found {
                None => object_name(cv.take(i as int), owner@) == Seq::<char>::empty(),
                Some(k) => k < i && cv[k as int] is Literal && object_name(cv.take(i as int), owner@) == match cv[k as int] {
                    CellView::Literal(t, _) => t,
                    _ => Seq::<char>::empty(),
                },
            },
        decreases list@.len() - i,
    {
        assert(cv.take(i + 1).drop_last() =~= cv.take(i as int));
        assert(cv[i as int] == list@[i as int]@);
        match &list[i] {
            Cell::Literal(_, o) => {
                let mut ids: Vec<[u8; 8]> = Vec::new();
                ids.push(*o);
                if contains_identifier(&ids, owner) {
                    assert(ids@[0] == *o);
                    found = Some(i);
                } else {
                    assert(ids@[0] == *o);
                }
            },
            _ => {},
        }
        i += 1;
    }
    assert(cv.take(i as int) =~= cv);
    match found {
        None => Vec::new(),
        Some(k) => {
            assert(cv[k as int] == list@[k as int]@);
            match &list[k] {
                Cell::Literal(t, _) => chars_of(t.as_str()),
                _ => Vec::new(),
            }
        },
    }
}

/// Appends the text of a link target.
fn push_target(
    t: &mut Vec<char>,
    g: &LinkTarget,
    list: &Vec<Cell>,
    fields: &Vec<(String, String)>,
    structures: &Vec<(String, String)>,
)
    ensures
        final(t)@ == old(t)@ + target_text(
            g@,
            crate::blocks::cells_view(list@),
            entries_view(fields@),
            entries_view(structures@),
        ),
{
    match g {
        LinkTarget::SameBlock(o) => {
            push_chars(t, find_object_name(list, o).as_slice());
            push_chars(t, chars_of("'s same cell").as_slice());
        },
        LinkTarget::AnotherField(f, c) => {
            push_chars(t, find_object_name(list, c).as_slice());
            push_chars(t, chars_of("'s ").as_slice());
            let h = chars_of(hexid::into_hex(*f).as_str());
            push_chars(t, find_key_for_value(fields, &h).as_slice());
        },
        LinkTarget::AnotherStruct(s, f, c) => {
            let hs = chars_of(hexid::into_hex(*s).as_str());
            push_chars(t, find_key_for_value(structures, &hs).as_slice());
            push_chars(t, chars_of("/").as_slice());
            push_chars(t, find_object_name(list, c).as_slice());
            push_chars(t, chars_of("'s ").as_slice());
            let hf = chars_of(hexid::into_hex(*f).as_str());
            push_chars(t, find_key_for_value(fields, &hf).as_slice());
        },
    }
    assert(t@ =~= old(t)@ + target_text(
        g@,
        crate::blocks::cells_view(list@),
        entries_view(fields@),
        entries_view(structures@),
    ));
}

/// Appends a link target by identifiers.
fn push_debug_target(t: &mut Vec<char>, g: &LinkTarget)
    ensures
        final(t)@ == old(t)@ + debug_target_text(g@),
{
    match g {
        LinkTarget::SameBlock(o) => {
            push_chars(t, chars_of(hexid::into_hex(*o).as_str()).as_slice());
        },
        LinkTarget::AnotherField(f, c) => {
            push_chars(t, chars_of(hexid::into_hex(*f).as_str()).as_slice());
            push_chars(t, chars_of("/").as_slice());
            push_chars(t, chars_of(hexid::into_hex(*c).as_str()).as_slice());
        },
        LinkTarget::AnotherStruct(x, f, c) => {
            push_chars(t, chars_of(hexid::into_hex(*x).as_str()).as_slice());
            push_chars(t, chars_of("/").as_slice());
            push_chars(t, chars_of(hexid::into_hex(*f).as_str()).as_slice());
            push_chars(t, chars_of("/").as_slice());
            push_chars(t, chars_of(hexid::into_hex(*c).as_str()).as_slice());
        },
    }
    assert(t@ =~= old(t)@ + debug_target_text(g@));
}

/// The detailed line that lists a cell.
fn render_debug_cell(field: &Vec<char>, c: &Cell) -> (r: String)
    ensures
        r@ == debug_cell_line(field@, c@),
{
    let mut t: Vec<char> = Vec::new();
    push_chars(&mut t, field.as_slice());
    match c {
        Cell::Literal(x, _) => {
            push_chars(&mut t, chars_of(" : [Literal] ").as_slice());
            push_chars(&mut t, chars_of(x.as_str()).as_slice());
        },
        Cell::Blob(b, _) => {
            push_chars(&mut t, chars_of(": [Blob] ").as_slice());
            push_chars(&mut t, chars_of(hexid::encode_hex(b.as_slice()).as_str()).as_slice());
        },
        Cell::Link(d, g, _) => {
            push_chars(&mut t, chars_of(": [Link] ").as_slice());
            match d {
                LinkType::Forward => push_chars(&mut t, chars_of("Forward").as_slice()),
                LinkType::Reverse => push_chars(&mut t, chars_of("Reverse").as_slice()),
            }
            push_chars(&mut t, chars_of(" - ").as_slice());
            push_debug_target(&mut t, g);
        },
        Cell::LiteralIncomplete(b, _) => {
            push_chars(&mut t, chars_of(": [LiteralIncomplete] ").as_slice());
            push_chars(&mut t, chars_of(hexid::encode_hex(b.as_slice()).as_str()).as_slice());
        },
        Cell::BlobIncomplete(b, _) => {
            push_chars(&mut t, chars_of(": [BlobIncomplete] ").as_slice());
            push_chars(&mut t, chars_of(hexid::encode_hex(b.as_slice()).as_str()).as_slice());
        },
    }
    assert(t@ =~= debug_cell_line(field@, c@));
    string_of(t.as_slice())
}

/// The line that lists a cell.
fn render_cell(
    field: &Vec<char>,
    c: &Cell,
    list: &Vec<Cell>,
    fields: &Vec<(String, String)>,
    structures: &Vec<(String, String)>,
) -> (r: String)
    ensures
        r@ == cell_line(
            field@,
            c@,
            crate::blocks::cells_view(list@),
            entries_view(fields@),
            entries_view(structures@),
        ),
{
    let mut t: Vec<char> = Vec::new();
    push_chars(&mut t, field.as_slice());
    match c {
        Cell::Literal(x, _) => {
            push_chars(&mut t, chars_of(" : \"").as_slice());
            push_chars(&mut t, chars_of(x.as_str()).as_slice());
            push_chars(&mut t, chars_of("\"").as_slice());
        },
        Cell::Blob(b, _) => {
            push_chars(&mut t, chars_of(": ").as_slice());
            push_chars(&mut t, chars_of(hexid::encode_hex(b.as_slice()).as_str()).as_slice());
        },
        Cell::Link(d, g, _) => {
            push_chars(&mut t, chars_of(": ").as_slice());
            match d {
                LinkType::Forward => push_chars(&mut t, chars_of("Forward").as_slice()),
                LinkType::Reverse => push_chars(&mut t, chars_of("Reverse").as_slice()),
            }
            push_chars(&mut t, chars_of(" Link to ").as_slice());
            push_target(&mut t, g, list, fields, structures);
        },
        Cell::LiteralIncomplete(b, _) => {
            push_chars(&mut t, chars_of(": [LiteralIncomplete] ").as_slice());
            push_chars(&mut t, chars_of(hexid::encode_hex(b.as_slice()).as_str()).as_slice());
        },
        Cell::BlobIncomplete(b, _) => {
            push_chars(&mut t, chars_of(": [BlobIncomplete] ").as_slice());
            push_chars(&mut t, chars_of(hexid::encode_hex(b.as_slice()).as_str()).as_slice());
        },
    }
    let ghost want = cell_line(
        field@,
        c@,
        crate::blocks::cells_view(list@),
        entries_view(fields@),
        entries_view(structures@),
    );
    assert(t@ =~= want);
    string_of(t.as_slice())
}

/// The views of some strings.
pub open spec fn texts_view(v: Seq<String>) -> Seq<Seq<char>> {
    v.map_values(|s: String| s@)
}

/// Lists the selected object's cells in every loaded field of the selected
/// structure: `field : "text"` for a literal, `field: hex` for a blob, and the
/// target's names for a link.
pub fn list_cells(
    current_location: &DatabaseLocation,
    structure_cache: &Vec<([u8; 8], Structure)>,
    main_metadata: &Metadata,
) -> (r: Result<Vec<String>, EngineError>)
    requires
        cache_wf(structure_cache@),
        main_metadata.wf(),
    ensures
        match r {
            Ok(lines) => {
                let i = entry_index(structure_cache@, level_id(current_location.structure()->0));
                let s = structure_cache@[i].1;
                &&& current_location.structure() is Some
                &&& current_location.object() is Some
                &&& 0 <= i < structure_cache@.len()
                &&& texts_view(lines@) == object_lines(
                    false,
                    s.cached_block@,
                    object_owner(*current_location),
                    s.list.cells_view(),
                    s.metadata.sub_data_entries(),
                    main_metadata.sub_data_entries(),
                )
            },
            Err(e) => if current_location.object() is None {
                e == EngineError::NoObject
            } else {
                structure_error(*current_location, structure_cache@) == Some(e)
            },
        },
{
    render_object(false, current_location, structure_cache, main_metadata)
}

/// Lists the selected object's cells in every loaded field of the selected
/// structure in detail: each field with its identifier, each cell with its
/// kind, and link targets by identifier.
pub fn debug_list_cells(
    current_location: &DatabaseLocation,
    structure_cache: &Vec<([u8; 8], Structure)>,
    main_metadata: &Metadata,
) -> (r: Result<Vec<String>, EngineError>)
    requires
        cache_wf(structure_cache@),
        main_metadata.wf(),
    ensures
        match r {
            Ok(lines) => {
                let i = entry_index(structure_cache@, level_id(current_location.structure()->0));
                let s = structure_cache@[i].1;
                &&& current_location.structure() is Some
                &&& current_location.object() is Some
                &&& 0 <= i < structure_cache@.len()
                &&& texts_view(lines@) == object_lines(
                    true,
                    s.cached_block@,
                    object_owner(*current_location),
                    s.list.cells_view(),
                    s.metadata.sub_data_entries(),
                    main_metadata.sub_data_entries(),
                )
            },
            Err(e) => if current_location.object() is None {
                e == EngineError::NoObject
            } else {
                structure_error(*current_location, structure_cache@) == Some(e)
            },
        },
{
    render_object(true, current_location, structure_cache, main_metadata)
}

/// The listing of the selected object's cells, plain or detailed.
fn render_object(
    debug: bool,
    current_location: &DatabaseLocation,
    structure_cache: &Vec<([u8; 8], Structure)>,
    main_metadata: &Metadata,
) -> (r: Result<Vec<String>, EngineError>)
    requires
        cache_wf(structure_cache@),
        main_metadata.wf(),
    ensures
        match r {
            Ok(lines) => {
                let i = entry_index(structure_cache@, level_id(current_location.structure()->0));
                let s = structure_cache@[i].1;
                &&& current_location.structure() is Some
                &&& current_location.object() is Some
                &&& 0 <= i < structure_cache@.len()
                &&& texts_view(lines@) == object_lines(
                    debug,
                    s.cached_block@,
                    object_owner(*current_location),
                    s.list.cells_view(),
                    s.metadata.sub_data_entries(),
                    main_metadata.sub_data_entries(),
                )
            },
            Err(e) => if current_location.object() is None {
                e == EngineError::NoObject
            } else {
                structure_error(*current_location, structure_cache@) == Some(e)
            },
        },
{
    let oid = match current_location.current_object_identifier() {
        None => {
            return Err(EngineError::NoObject);
        },
        Some(o) => o,
    };
    let (_sid, i) = match selected_structure(current_location, structure_cache) {
        Err(e) => {
            return Err(e);
        },
        Ok(p) => p,
    };
    let s = &structure_cache[i].1;
    let fields = s.metadata.sub_data();
    let structures = main_metadata.sub_data();
    let ghost lv = s.list.cells_view();
    let ghost fv = entries_view(fields@);
    let ghost sv = entries_view(structures@);
    let mut lines: Vec<String> = Vec::new();
    let mut k: usize = 0;
    while k < s.cached_block.len()
        invariant
            k <= s.cached_block@.len(),
            lv == crate::blocks::cells_view(s.list.cells@),
            fv == entries_view(fields@),
            sv == entries_view(structures@),
            texts_view(lines@) == object_lines(debug, s.cached_block@.take(k as int), oid@, lv, fv, sv),
        decreases s.cached_block@.len() - k,
    {
        assert(s.cached_block@.take(k + 1).drop_last() =~= s.cached_block@.take(k as int));
        let fid = s.cached_block[k].0;
        let h = chars_of(hexid::into_hex(fid).as_str());
        let mut fname = find_key_for_value(fields, &h);
        if debug {
            push_chars(&mut fname, chars_of("[").as_slice());
            push_chars(&mut fname, h.as_slice());
            push_chars(&mut fname, chars_of("]").as_slice());
        }
        let cells = &s.cached_block[k].1.cells;
        let ghost cv = crate::blocks::cells_view(cells@);
        let ghost base = texts_view(lines@);
        let mut m: usize = 0;
        while m < cells.len()
            invariant
                m <= cells@.len(),
                cv == crate::blocks::cells_view(cells@),
                lv == crate::blocks::cells_view(s.list.cells@),
                fv == entries_view(fields@),
                sv == entries_view(structures@),
                texts_view(lines@) == base + field_lines(debug, fname@, cv.take(m as int), oid@, lv, fv, sv),
            decreases cells@.len() - m,
        {
            assert(cv.take(m + 1).drop_last() =~= cv.take(m as int));
            assert(cv[m as int] == cells@[m as int]@);
            let id = crate::blocks::frame_identifier(&cells[m]);
            let mut ids: Vec<[u8; 8]> = Vec::new();
            ids.push(id);
            let ghost before = lines@;
            if contains_identifier(&ids, &oid) {
                assert(ids@[0] == id);
                let line = if debug {
                    render_debug_cell(&fname, &cells[m])
                } else {
                    render_cell(&fname, &cells[m], &s.list.cells, fields, structures)
                };
                lines.push(line);
                assert(texts_view(lines@) =~= texts_view(before).push(line@));
                assert(base + field_lines(debug, fname@, cv.take(m + 1), oid@, lv, fv, sv) =~= (base + field_lines(debug, fname@, cv.take(m as int), oid@, lv, fv, sv)).push(line@));
            } else {
                assert(ids@[0] == id);
            }
            m += 1;
        }
        assert(cv.take(m as int) =~= cv);
        assert(s.cached_block@.take(k + 1).last() == s.cached_block@[k as int]);
        k += 1;
    }
    assert(s.cached_block@.take(k as int) =~= s.cached_block@);
    Ok(lines)
}

/// A sealed file to write, at a path relative to the database root.
pub struct FileWrite {
    pub path: String,
    pub data: Vec<u8>,
    pub nonce: [u8; 24],
}

/// What a sync writes: directories to make sure of, then files, both relative
/// to the database root.
pub struct SyncPlan {
    pub directories: Vec<String>,
    pub files: Vec<FileWrite>,
}

/// `a/b`.
fn join(a: &str, b: &str) -> (r: String)
    ensures
        r@ == a@ + "/"@ + b@,
{
    let mut t = chars_of(a);
    push_chars(&mut t, chars_of("/").as_slice());
    push_chars(&mut t, chars_of(b).as_slice());
    string_of(t.as_slice())
}

/// `<n>.blk`.
fn block_file_name(n: usize) -> (r: String)
    ensures
        r@ == decimal_text(n as nat) + ".blk"@,
{
    let mut t = chars_of(decimal(n as u64).as_str());
    push_chars(&mut t, chars_of(".blk").as_slice());
    string_of(t.as_slice())
}

/// A file to write: its path and its plaintext.
pub type Write = (Seq<char>, Seq<u8>);

/// Whether sealed files are the writes in order: same paths, each file's data
/// the plaintext sealed under the file's nonce and the key.
pub open spec fn sealed_writes(files: Seq<FileWrite>, writes: Seq<Write>, key: Seq<u8>) -> bool {
    &&& files.len() == writes.len()
    &&& forall|i: int|
        0 <= i < files.len() ==> (#[trigger] files[i]).path@ == writes[i].0 && files[i].data@ == sealed(
            writes[i].1,
            files[i].nonce@,
            key,
        )
}

/// Every block written to one path.
pub open spec fn list_writes(path: Seq<char>, blocks: Seq<Seq<u8>>) -> Seq<Write> {
    blocks.map_values(|b: Seq<u8>| (path, b))
}

/// The blocks of a field written as `<dir>/0.blk`, `<dir>/1.blk`, and so on.
pub open spec fn block_writes(dir: Seq<char>, blocks: Seq<Seq<u8>>) -> Seq<Write> {
    Seq::new(blocks.len(), |n: int| (dir + "/"@ + decimal_text(n as nat) + ".blk"@, blocks[n]))
}

/// The block files of every field of a structure, field by field, each under
/// `<structure>/<field>`.
pub open spec fn field_writes(shex: Seq<char>, cached: Seq<([u8; 8], BlockQueue)>) -> Seq<Write>
    decreases cached.len(),
{
    if cached.len() == 0 {
        seq![]
    } else {
        field_writes(shex, cached.drop_last()) + block_writes(
            shex + "/"@ + hexid::hex_of(cached.last().0@),
            cached.last().1.blocks_view(),
        )
    }
}

/// The files that saving a structure writes: its object list blocks under
/// `<structure>/<list>`, its field blocks, and its metadata where it changed.
pub open spec fn structure_writes(sid: Seq<u8>, before: Structure, after: Structure) -> Seq<Write> {
    let shex = hexid::hex_of(sid);
    list_writes(shex + "/"@ + before.metadata.sub_data_map()["list"@], after.list.blocks_view())
        + field_writes(shex, after.cached_block@) + if before.metadata.modified() {
        seq![(shex + "/"@ + "metadata"@, before.metadata.encoded())]
    } else {
        seq![]
    }
}

/// The directories of a structure's fields, `<structure>/<field>`, in order.
pub open spec fn field_dirs(shex: Seq<char>, cached: Seq<([u8; 8], BlockQueue)>) -> Seq<Seq<char>>
    decreases cached.len(),
{
    if cached.len() == 0 {
        seq![]
    } else {
        field_dirs(shex, cached.drop_last()).push(shex + "/"@ + hexid::hex_of(cached.last().0@))
    }
}

/// The field directories of the first `k` cached structures.
pub open spec fn cache_dirs(cache: Seq<([u8; 8], Structure)>, k: int) -> Seq<Seq<char>>
    decreases k,
{
    if k <= 0 {
        seq![]
    } else {
        cache_dirs(cache, k - 1) + field_dirs(hexid::hex_of(cache[k - 1].0@), cache[k - 1].1.cached_block@)
    }
}

proof fn lemma_cache_dirs_prefix(a: Seq<([u8; 8], Structure)>, b: Seq<([u8; 8], Structure)>, k: int)
    requires
        k <= a.len(),
        k <= b.len(),
        forall|m: int| 0 <= m < k ==> a[m] == b[m],
    ensures
        cache_dirs(a, k) == cache_dirs(b, k),
    decreases k,
{
    if k > 0 {
        lemma_cache_dirs_prefix(a, b, k - 1);
    }
}

/// The files that saving the first `k` cached structures writes.
pub open spec fn cache_writes(
    before: Seq<([u8; 8], Structure)>,
    after: Seq<([u8; 8], Structure)>,
    k: int,
) -> Seq<Write>
    decreases k,
{
    if k <= 0 {
        seq![]
    } else {
        cache_writes(before, after, k - 1) + structure_writes(before[k - 1].0@, before[k - 1].1, after[k - 1].1)
    }
}

proof fn lemma_cache_writes_prefix(
    before: Seq<([u8; 8], Structure)>,
    a: Seq<([u8; 8], Structure)>,
    b: Seq<([u8; 8], Structure)>,
    k: int,
)
    requires
        forall|m: int| 0 <= m < k ==> a[m] == b[m],
    ensures
        cache_writes(before, a, k) == cache_writes(before, b, k),
    decreases k,
{
    if k > 0 {
        lemma_cache_writes_prefix(before, a, b, k - 1);
    }
}

proof fn lemma_sealed_writes_push(files: Seq<FileWrite>, writes: Seq<Write>, f: FileWrite, w: Write, key: Seq<u8>)
    requires
        sealed_writes(files, writes, key),
        f.path@ == w.0,
        f.data@ == sealed(w.1, f.nonce@, key),
    ensures
        sealed_writes(files.push(f), writes.push(w), key),
{
    assert forall|i: int| 0 <= i < files.len() + 1 implies (#[trigger] files.push(f)[i]).path@ == writes.push(w)[i].0
        && files.push(f)[i].data@ == sealed(writes.push(w)[i].1, files.push(f)[i].nonce@, key) by {
        if i < files.len() {
            assert(files.push(f)[i] == files[i]);
        }
    }
}

proof fn lemma_sealed_writes_concat(a: Seq<FileWrite>, b: Seq<FileWrite>, wa: Seq<Write>, wb: Seq<Write>, key: Seq<u8>)
    requires
        a.len() <= b.len(),
        b.subrange(0, a.len() as int) == a,
        sealed_writes(a, wa, key),
        sealed_writes(b.subrange(a.len() as int, b.len() as int), wb, key),
    ensures
        sealed_writes(b, wa + wb, key),
{
    assert forall|i: int| 0 <= i < b.len() implies (#[trigger] b[i]).path@ == (wa + wb)[i].0 && b[i].data@
        == sealed((wa + wb)[i].1, b[i].nonce@, key) by {
        if i < a.len() {
            assert(b[i] == b.subrange(0, a.len() as int)[i]);
        } else {
            assert(b[i] == b.subrange(a.len() as int, b.len() as int)[i - a.len()]);
        }
    }
}

/// Whether a cached structure can be saved: its metadata records its object
/// list's identifier and payload size, and all its cells can be encoded.
pub open spec fn savable(s: Structure) -> bool {
    &&& s.metadata.sub_data_map().contains_key("list"@)
    &&& recorded_size_of(s.metadata) is Some
    &&& encodable(s.list.cells_view())
    &&& forall|j: int| 0 <= j < s.cached_block@.len() ==> encodable((#[trigger] s.cached_block@[j]).1.cells_view())
}

/// Whether a structure is `before` after a sync: the same cells, object list
/// and field queues re-encoded, and the metadata marked saved.
pub open spec fn synced(before: Structure, after: Structure) -> bool {
    &&& after.metadata.attribute_entries() == before.metadata.attribute_entries()
    &&& after.metadata.sub_data_entries() == before.metadata.sub_data_entries()
    &&& after.metadata.wf()
    &&& !after.metadata.modified()
    &&& after.list.cells == before.list.cells
    &&& after.list.blocks_view() == encode_blocks(
        before.list.cells_view(),
        None,
        recorded_size_of(before.metadata)->0,
    )
    &&& same_ids(before.cached_block@, after.cached_block@)
    &&& forall|j: int|
        0 <= j < before.cached_block@.len() ==> (#[trigger] after.cached_block@[j]).1.cells
            == before.cached_block@[j].1.cells && after.cached_block@[j].1.blocks_view() == encode_blocks(
            before.cached_block@[j].1.cells_view(),
            Some(FIELD_BLOCK_BYTES),
            FIELD_CELL_SIZE,
        )
}

/// Whether a cached structure can be saved.
fn check_savable(s: &Structure) -> (r: bool)
    requires
        s.metadata.wf(),
    ensures
        r == savable(*s),
{
    if s.metadata.get_sub_data("list").is_none() || recorded_size(&s.metadata).is_none() {
        return false;
    }
    if !s.list.can_encode() {
        return false;
    }
    let mut j: usize = 0;
    while j < s.cached_block.len()
        invariant
            j <= s.cached_block@.len(),
            forall|m: int| 0 <= m < j ==> encodable((#[trigger] s.cached_block@[m]).1.cells_view()),
        decreases s.cached_block@.len() - j,
    {
        if !s.cached_block[j].1.can_encode() {
            return false;
        }
        j += 1;
    }
    true
}

/// Saves one structure: re-encodes its object list and fields and lists the
/// files to write for them, and for its metadata where it changed.
fn sync_structure(sid: [u8; 8], s: &mut Structure, key: &[u8; 32], plan: &mut SyncPlan)
    requires
        old(s).metadata.wf(),
        savable(*old(s)),
    ensures
        synced(*old(s), *final(s)),
        final(plan).files@.len() >= old(plan).files@.len(),
        final(plan).files@.subrange(0, old(plan).files@.len() as int) == old(plan).files@,
        sealed_writes(
            final(plan).files@.subrange(old(plan).files@.len() as int, final(plan).files@.len() as int),
            structure_writes(sid@, *old(s), *final(s)),
            key@,
        ),
        texts_view(final(plan).directories@) == texts_view(old(plan).directories@) + field_dirs(
            hexid::hex_of(sid@),
            final(s).cached_block@,
        ),
{
    let ghost s0 = *s;
    let ghost pf = plan.files@;
    let ghost pd = plan.directories@;
    let shex = hexid::into_hex(sid);
    s.list.queue = Vec::new();
    assert(s.list.blocks_view() =~= Seq::<Seq<u8>>::empty());
    let size = match recorded_size(&s.metadata) {
        Some(n) => n,
        None => DEFAULT_STRUCTURE_CELL_SIZE,
    };
    s.list.cell_to_raw(None, size);
    let list_name = match s.metadata.get_sub_data("list") {
        Some(l) => l.clone(),
        None => String::new(),
    };
    let list_path = join(shex.as_str(), list_name.as_str());
    let ghost lp = hexid::hex_of(sid@) + "/"@ + s0.metadata.sub_data_map()["list"@];
    assert(list_path@ == lp);
    let ghost lb = s.list.blocks_view();
    let mut b: usize = 0;
    while b < s.list.queue.len()
        invariant
            b <= s.list.queue@.len(),
            s.metadata == s0.metadata,
            s.list.cells == s0.list.cells,
            s.cached_block == s0.cached_block,
            s.list.blocks_view() == encode_blocks(s0.list.cells_view(), None, recorded_size_of(s0.metadata)->0),
            lb == s.list.blocks_view(),
            list_path@ == lp,
            plan.directories@ == pd,
            plan.files@.len() >= pf.len(),
            plan.files@.subrange(0, pf.len() as int) == pf,
            sealed_writes(plan.files@.subrange(pf.len() as int, plan.files@.len() as int), list_writes(lp, lb.take(b as int)), key@),
        decreases s.list.queue@.len() - b,
    {
        let (data, nonce) = encrypt_block(s.list.queue[b].as_slice(), key);
        let f = FileWrite { path: list_path.clone(), data, nonce };
        let ghost before = plan.files@;
        proof {
            assert(lb[b as int] == s.list.queue@[b as int]@);
            lemma_sealed_writes_push(before.subrange(pf.len() as int, before.len() as int), list_writes(lp, lb.take(b as int)), f, (lp, lb[b as int]), key@);
            assert(list_writes(lp, lb.take(b as int)).push((lp, lb[b as int])) =~= list_writes(lp, lb.take(b + 1)));
        }
        plan.files.push(f);
        assert(plan.files@.subrange(pf.len() as int, plan.files@.len() as int) =~= before.subrange(pf.len() as int, before.len() as int).push(f));
        assert(plan.files@.subrange(0, pf.len() as int) =~= before.subrange(0, pf.len() as int));
        b += 1;
    }
    assert(lb.take(b as int) =~= lb);
    let ghost shx = hexid::hex_of(sid@);
    let mut j: usize = 0;
    while j < s.cached_block.len()
        invariant
            j <= s.cached_block@.len(),
            shex@ == shx,
            shx == hexid::hex_of(sid@),
            texts_view(plan.directories@) == texts_view(pd) + field_dirs(shx, s.cached_block@.take(j as int)),
            plan.files@.len() >= pf.len(),
            plan.files@.subrange(0, pf.len() as int) == pf,
            sealed_writes(
                plan.files@.subrange(pf.len() as int, plan.files@.len() as int),
                list_writes(lp, lb) + field_writes(shx, s.cached_block@.take(j as int)),
                key@,
            ),
            s.metadata == s0.metadata,
            s.list.cells == s0.list.cells,
            lb == s.list.blocks_view(),
            s.list.blocks_view() == encode_blocks(s0.list.cells_view(), None, recorded_size_of(s0.metadata)->0),
            savable(s0),
            same_ids(s0.cached_block@, s.cached_block@),
            forall|m: int| j <= m < s.cached_block@.len() ==> #[trigger] s.cached_block@[m] == s0.cached_block@[m],
            forall|m: int|
                0 <= m < j ==> (#[trigger] s.cached_block@[m]).1.cells == s0.cached_block@[m].1.cells
                    && s.cached_block@[m].1.blocks_view() == encode_blocks(
                    s0.cached_block@[m].1.cells_view(),
                    Some(FIELD_BLOCK_BYTES),
                    FIELD_CELL_SIZE,
                ),
        decreases s.cached_block@.len() - j,
    {
        let ghost cb = s.cached_block@;
        let (fid, mut q) = s.cached_block.remove(j);
        assert(q == s0.cached_block@[j as int].1);
        q.queue = Vec::new();
        assert(q.blocks_view() =~= Seq::<Seq<u8>>::empty());
        assert(q.cells_view() == s0.cached_block@[j as int].1.cells_view());
        q.cell_to_raw(Some(FIELD_BLOCK_BYTES), FIELD_CELL_SIZE);
        let dir = join(shex.as_str(), hexid::into_hex(fid).as_str());
        let ghost dv = shx + "/"@ + hexid::hex_of(fid@);
        assert(dir@ == dv);
        let ghost pdj = plan.directories@;
        plan.directories.push(dir.clone());
        assert(texts_view(plan.directories@) =~= texts_view(pdj).push(dv));
        let ghost pdn = plan.directories@;
        let ghost qb = q.blocks_view();
        let ghost base = list_writes(lp, lb) + field_writes(shx, cb.take(j as int));
        let mut n: usize = 0;
        while n < q.queue.len()
            invariant
                n <= q.queue@.len(),
                qb == q.blocks_view(),
                dir@ == dv,
                plan.directories@ == pdn,
                plan.files@.len() >= pf.len(),
                plan.files@.subrange(0, pf.len() as int) == pf,
                sealed_writes(
                    plan.files@.subrange(pf.len() as int, plan.files@.len() as int),
                    base + block_writes(dv, qb.take(n as int)),
                    key@,
                ),
            decreases q.queue@.len() - n,
        {
            let (data, nonce) = encrypt_block(q.queue[n].as_slice(), key);
            let name = block_file_name(n);
            let f = FileWrite { path: join(dir.as_str(), name.as_str()), data, nonce };
            let ghost before = plan.files@;
            proof {
                assert(qb[n as int] == q.queue@[n as int]@);
                let w = (dv + "/"@ + decimal_text(n as nat) + ".blk"@, qb[n as int]);
                assert(f.path@ =~= w.0);
                lemma_sealed_writes_push(before.subrange(pf.len() as int, before.len() as int), base + block_writes(dv, qb.take(n as int)), f, w, key@);
                assert((base + block_writes(dv, qb.take(n as int))).push(w) =~= base + block_writes(dv, qb.take(n + 1)));
            }
            plan.files.push(f);
            assert(plan.files@.subrange(pf.len() as int, plan.files@.len() as int) =~= before.subrange(pf.len() as int, before.len() as int).push(f));
            assert(plan.files@.subrange(0, pf.len() as int) =~= before.subrange(0, pf.len() as int));
            n += 1;
        }
        assert(qb.take(n as int) =~= qb);
        let ghost cbr = s.cached_block@;
        s.cached_block.insert(j, (fid, q));
        assert forall|m: int| 0 <= m < s0.cached_block@.len() implies (#[trigger] s0.cached_block@[m]).0
            == s.cached_block@[m].0 by {
            if m < j {
                assert(s.cached_block@[m] == cb[m]);
            } else if m > j {
                assert(s.cached_block@[m] == cb[m]);
            }
        }
        assert forall|m: int| j < m < s.cached_block@.len() implies #[trigger] s.cached_block@[m] == s0.cached_block@[m] by {
            assert(s.cached_block@[m] == cb[m]);
        }
        assert forall|m: int| 0 <= m < j implies #[trigger] s.cached_block@[m] == cb[m] by {}
        proof {
            assert(s.cached_block@.take(j as int) =~= cb.take(j as int));
            assert(s.cached_block@.take(j + 1).drop_last() =~= s.cached_block@.take(j as int));
            assert(s.cached_block@[j as int] == (fid, q));
            assert(fid == s0.cached_block@[j as int].0);
            assert(base + block_writes(dv, qb) =~= list_writes(lp, lb) + field_writes(shx, s.cached_block@.take(j + 1)));
            assert(texts_view(pd) + field_dirs(shx, s.cached_block@.take(j + 1)) =~= (texts_view(pd) + field_dirs(
                shx,
                s.cached_block@.take(j as int),
            )).push(dv));
        }
        j += 1;
    }
    assert(s.cached_block@.take(j as int) =~= s.cached_block@);
    let ghost wsf = list_writes(lp, lb) + field_writes(shx, s.cached_block@);
    if s.metadata.has_modified() {
        let bytes = s.metadata.to_vec();
        let (data, nonce) = encrypt_block(bytes.as_slice(), key);
        let f = FileWrite { path: join(shex.as_str(), "metadata"), data, nonce };
        let ghost before = plan.files@;
        proof {
            lemma_sealed_writes_push(before.subrange(pf.len() as int, before.len() as int), wsf, f, (shx + "/"@ + "metadata"@, s0.metadata.encoded()), key@);
        }
        plan.files.push(f);
        assert(plan.files@.subrange(pf.len() as int, plan.files@.len() as int) =~= before.subrange(pf.len() as int, before.len() as int).push(f));
        assert(plan.files@.subrange(0, pf.len() as int) =~= before.subrange(0, pf.len() as int));
        assert(wsf.push((shx + "/"@ + "metadata"@, s0.metadata.encoded())) =~= wsf + seq![(shx + "/"@ + "metadata"@, s0.metadata.encoded())]);
    } else {
        assert(wsf + Seq::<Write>::empty() =~= wsf);
    }
    s.metadata.set_not_modified();
}

/// The main metadata file, where the record changed.
pub open spec fn main_writes(m: Metadata) -> Seq<Write> {
    if m.modified() {
        seq![("metadata"@, m.encoded())]
    } else {
        seq![]
    }
}

/// Saves the session: the main metadata where it changed, then for each cached
/// structure its object list, encoded with the structure's default payload
/// size into one file, each loaded field, encoded into numbered blocks of at
/// most 64 KiB, and its metadata where it changed. Everything is marked saved.
/// Nothing changes where some structure cannot be saved.
pub fn sync(
    main_metadata: &mut Metadata,
    structure_cache: &mut Vec<([u8; 8], Structure)>,
    key: &[u8; 32],
) -> (r: Result<SyncPlan, EngineError>)
    requires
        old(main_metadata).wf(),
        cache_wf(old(structure_cache)@),
    ensures
        final(main_metadata).wf(),
        cache_wf(final(structure_cache)@),
        match r {
            Ok(plan) => {
                &&& forall|k: int| 0 <= k < old(structure_cache)@.len() ==> savable(#[trigger] old(structure_cache)@[k].1)
                &&& final(main_metadata).attribute_entries() == old(main_metadata).attribute_entries()
                &&& final(main_metadata).sub_data_entries() == old(main_metadata).sub_data_entries()
                &&& !final(main_metadata).modified()
                &&& sealed_writes(
                    plan.files@,
                    main_writes(*old(main_metadata)) + cache_writes(
                        old(structure_cache)@,
                        final(structure_cache)@,
                        old(structure_cache)@.len() as int,
                    ),
                    key@,
                )
                &&& texts_view(plan.directories@) == cache_dirs(
                    final(structure_cache)@,
                    final(structure_cache)@.len() as int,
                )
                &&& same_ids(old(structure_cache)@, final(structure_cache)@)
                &&& forall|k: int|
                    0 <= k < old(structure_cache)@.len() ==> synced(
                        #[trigger] old(structure_cache)@[k].1,
                        final(structure_cache)@[k].1,
                    )
            },
            Err(e) => e == EngineError::Corrupt && *final(main_metadata) == *old(main_metadata)
                && *final(structure_cache) == *old(structure_cache) && exists|k: int|
                0 <= k < old(structure_cache)@.len() && !savable(#[trigger] old(structure_cache)@[k].1),
        },
{
    let mut i: usize = 0;
    while i < structure_cache.len()
        invariant
            i <= structure_cache@.len(),
            *main_metadata == *old(main_metadata),
            main_metadata.wf(),
            *structure_cache == *old(structure_cache),
            cache_wf(structure_cache@),
            forall|k: int| 0 <= k < i ==> savable(#[trigger] structure_cache@[k].1),
        decreases structure_cache@.len() - i,
    {
        assert(structure_cache@[i as int].1.metadata.wf());
        if !check_savable(&structure_cache[i].1) {
            return Err(EngineError::Corrupt);
        }
        i += 1;
    }
    let mut plan = SyncPlan { directories: Vec::new(), files: Vec::new() };
    if main_metadata.has_modified() {
        let bytes = main_metadata.to_vec();
        let (data, nonce) = encrypt_block(bytes.as_slice(), key);
        plan.files.push(FileWrite { path: "metadata".to_owned(), data, nonce });
    }
    let ghost pf0 = plan.files@;
    let ghost mw = main_writes(*old(main_metadata));
    assert(sealed_writes(pf0, mw, key@));
    main_metadata.set_not_modified();
    let ghost c0 = structure_cache@;
    let mut k: usize = 0;
    while k < structure_cache.len()
        invariant
            k <= structure_cache@.len(),
            c0 == old(structure_cache)@,
            !main_metadata.modified(),
            main_metadata.wf(),
            main_metadata.attribute_entries() == old(main_metadata).attribute_entries(),
            main_metadata.sub_data_entries() == old(main_metadata).sub_data_entries(),
            old(main_metadata).modified() ==> pf0.len() > 0 && pf0[0].path@ == "metadata"@
                && pf0[0].data@ == sealed(old(main_metadata).encoded(), pf0[0].nonce@, key@),
            plan.files@.len() >= pf0.len(),
            forall|m: int| 0 <= m < pf0.len() ==> plan.files@[m] == pf0[m],
            mw == main_writes(*old(main_metadata)),
            sealed_writes(plan.files@, mw + cache_writes(c0, structure_cache@, k as int), key@),
            texts_view(plan.directories@) == cache_dirs(structure_cache@, k as int),
            same_ids(c0, structure_cache@),
            forall|m: int| 0 <= m < c0.len() ==> savable(#[trigger] c0[m].1),
            cache_wf(c0),
            forall|m: int| k <= m < structure_cache@.len() ==> #[trigger] structure_cache@[m] == c0[m],
            forall|m: int| 0 <= m < k ==> synced(#[trigger] c0[m].1, structure_cache@[m].1),
        decreases structure_cache@.len() - k,
    {
        let ghost before = structure_cache@;
        let ghost pf = plan.files@;
        let (sid, mut s) = structure_cache.remove(k);
        assert(s == c0[k as int].1);
        assert(s.metadata.wf());
        let ghost s_before = s;
        let ghost pd = plan.directories@;
        sync_structure(sid, &mut s, key, &mut plan);
        let ghost ws = structure_writes(sid@, s_before, s);
        structure_cache.insert(k, (sid, s));
        assert forall|m: int| 0 <= m < c0.len() implies (#[trigger] c0[m]).0 == structure_cache@[m].0 by {
            if m != k {
                assert(structure_cache@[m] == before[m]);
            }
        }
        assert forall|m: int| k < m < structure_cache@.len() implies #[trigger] structure_cache@[m] == c0[m] by {
            assert(structure_cache@[m] == before[m]);
        }
        assert forall|m: int| 0 <= m < k implies synced(#[trigger] c0[m].1, structure_cache@[m].1) by {
            assert(structure_cache@[m] == before[m]);
        }
        proof {
            lemma_cache_writes_prefix(c0, before, structure_cache@, k as int);
            lemma_sealed_writes_concat(pf, plan.files@, mw + cache_writes(c0, before, k as int), ws, key@);
            assert(c0[k as int].0 == sid);
            assert(structure_cache@[k as int].1 == s);
            assert(cache_writes(c0, structure_cache@, k + 1) == cache_writes(c0, structure_cache@, k as int) + ws);
            assert(mw + cache_writes(c0, before, k as int) + ws =~= mw + cache_writes(c0, structure_cache@, k + 1));
            lemma_cache_dirs_prefix(before, structure_cache@, k as int);
            assert(cache_dirs(structure_cache@, k + 1) == cache_dirs(structure_cache@, k as int) + field_dirs(
                hexid::hex_of(sid@),
                s.cached_block@,
            ));
        }
        k += 1;
    }
    proof {
        lemma_unique_same_ids(c0, structure_cache@);
        assert forall|m: int| 0 <= m < structure_cache@.len() implies (#[trigger] structure_cache@[m]).1.metadata.wf()
            && unique_ids(structure_cache@[m].1.cached_block@) by {
            assert(synced(c0[m].1, structure_cache@[m].1));
            lemma_unique_same_ids(c0[m].1.cached_block@, structure_cache@[m].1.cached_block@);
        }
    }
    Ok(plan)
}

/// The line that lists an entry of an object list: the object's name, and in
/// detailed listings its identifier; `null` for a cell that names no object.
pub open spec fn object_line(debug: bool, c: CellView) -> Seq<char> {
    match c {
        CellView::Literal(t, o) => if debug {
            t + " -> "@ + hexid::hex_of(o)
        } else {
            t
        },
        _ => if debug {
            "null -> null"@
        } else {
            "null"@
        },
    }
}

/// Lists the objects of the selected structure, one line per entry of its
/// object list.
pub fn list_objects(
    debug: bool,
    current_location: &DatabaseLocation,
    structure_cache: &Vec<([u8; 8], Structure)>,
) -> (r: Result<Vec<String>, EngineError>)
    ensures
        match r {
            Ok(lines) => {
                let i = entry_index(structure_cache@, level_id(current_location.structure()->0));
                &&& current_location.structure() is Some
                &&& 0 <= i < structure_cache@.len()
                &&& texts_view(lines@) == structure_cache@[i].1.list.cells_view().map_values(
                    |c: CellView| object_line(debug, c),
                )
            },
            Err(e) => structure_error(*current_location, structure_cache@) == Some(e),
        },
{
    let (_sid, i) = match selected_structure(current_location, structure_cache) {
        Err(e) => {
            return Err(e);
        },
        Ok(p) => p,
    };
    let cells = &structure_cache[i].1.list.cells;
    let ghost cv = crate::blocks::cells_view(cells@);
    let mut lines: Vec<String> = Vec::new();
    let mut k: usize = 0;
    while k < cells.len()
        invariant
            k <= cells@.len(),
            cv == crate::blocks::cells_view(cells@),
            texts_view(lines@) == cv.take(k as int).map_values(|c: CellView| object_line(debug, c)),
        decreases cells@.len() - k,
    {
        assert(cv[k as int] == cells@[k as int]@);
        let mut t: Vec<char> = Vec::new();
        match &cells[k] {
            Cell::Literal(name, o) => {
                push_chars(&mut t, chars_of(name.as_str()).as_slice());
                if debug {
                    push_chars(&mut t, chars_of(" -> ").as_slice());
                    push_chars(&mut t, chars_of(hexid::into_hex(*o).as_str()).as_slice());
                }
            },
            _ => {
                if debug {
                    push_chars(&mut t, chars_of("null -> null").as_slice());
                } else {
                    push_chars(&mut t, chars_of("null").as_slice());
                }
            },
        }
        assert(t@ =~= object_line(debug, cv[k as int]));
        let line = string_of(t.as_slice());
        let ghost before = lines@;
        lines.push(line);
        assert(texts_view(lines@) =~= texts_view(before).push(line@));
        assert(cv.take(k + 1).map_values(|c: CellView| object_line(debug, c)) =~= cv.take(k as int).map_values(
            |c: CellView| object_line(debug, c),
        ).push(object_line(debug, cv[k as int])));
        k += 1;
    }
    assert(cv.take(k as int) =~= cv);
    Ok(lines)
}

} // verus!
