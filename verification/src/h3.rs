//! The integer side of H3 coverage: resolution checks, cell limits and the
//! parsing of canonical cell sets.
use std::collections::HashSet;
use std::str::FromStr;
use vstd::prelude::*;
use vstd::std_specs::iter::IteratorSpec;

use crate::notation::{lemma_lower_hex_injective, lower_hex, lower_hex_text};
use crate::texts::{lemma_strictly_sorted_unique, sort_texts, strictly_sorted, texts_of};
use crate::types::{GridError, H3CellSet, MAX_H3_RESOLUTION};

verus! {

broadcast use vstd::std_specs::hash::group_hash_axioms;

/// What `h3o::CellIndex::from_str` makes of a text: the index bits of the cell
/// that the text names, or the text of the parser's error.
pub uninterp spec fn parsed_h3_cell(text: Seq<char>) -> Result<u64, Seq<char>>;

/// The index bits of the cell that a text names, if it names one.
pub open spec fn h3_cell_of_text(text: Seq<char>) -> Option<u64> {
    match parsed_h3_cell(text) {
        Ok(bits) => Some(bits),
        Err(_) => None,
    }
}

/// The parser's account of why a text names no H3 cell.
pub open spec fn h3_parse_error(text: Seq<char>) -> Seq<char> {
    match parsed_h3_cell(text) {
        Ok(_) => Seq::empty(),
        Err(reason) => reason,
    }
}

/// The display text of the error that `h3o::Resolution::try_from(u8)` gives
/// for a resolution it refuses.
pub uninterp spec fn h3_resolution_error(resolution: u8) -> Seq<char>;

/// Calls `h3o::Resolution::try_from(u8)`, which accepts exactly the resolutions
/// `0..=15`, and gives the display text of its error otherwise. That text
/// renders the refused value with `Debug`, whose output std does not fix, so it
/// is given a name rather than spelled out.
#[verifier::external_body]
fn check_h3_resolution(resolution: u8) -> (checked: Result<(), String>)
    ensures
        checked is Ok <==> resolution <= MAX_H3_RESOLUTION,
        checked matches Err(reason) ==> reason@ == h3_resolution_error(resolution),
{
    match h3o::Resolution::try_from(resolution) {
        Ok(_) => Ok(()),
        Err(error) => Err(error.to_string()),
    }
}

/// Calls `h3o::CellIndex::from_str` and gives the index bits of the cell it
/// parsed, or the display text of its error. What the parser accepts
/// (hexadecimal text naming a valid cell index) is not restated here; the
/// result is given a name.
#[verifier::external_body]
fn parse_h3_cell(text: &str) -> (cell: Result<u64, String>)
    ensures
        match cell {
            Ok(bits) => parsed_h3_cell(text@) == Ok::<u64, Seq<char>>(bits),
            Err(reason) => parsed_h3_cell(text@) == Err::<u64, Seq<char>>(reason@),
        },
{
    h3o::CellIndex::from_str(text).map(u64::from).map_err(|error| error.to_string())
}

/// The resolution that an H3 index carries in its bits 52 to 55.
pub open spec fn index_resolution(bits: u64) -> u64 {
    (bits >> 52u64) & 15u64
}

/// The resolution of an H3 index is the base-16 digit of the index at
/// position 52 to 55 counted in bits: the index divided by `2^52`, modulo 16.
pub proof fn lemma_index_resolution_digit(bits: u64)
    ensures
        index_resolution(bits) == (bits / 0x10_0000_0000_0000u64) % 16,
        index_resolution(bits) < 16,
{
    assert((bits >> 52u64) & 15u64 == (bits / 0x10_0000_0000_0000u64) % 16) by (bit_vector);
    assert((bits >> 52u64) & 15u64 < 16) by (bit_vector);
}

/// The resolution of the H3 cell with index bits `bits`, as
/// `h3o::CellIndex::resolution` reads it.
pub fn h3_index_resolution(bits: u64) -> (resolution: u8)
    ensures
        resolution == index_resolution(bits),
{
    let field = (bits >> 52u64) & 15u64;
    assert(field < 16) by (bit_vector)
        requires
            field == (bits >> 52u64) & 15u64,
    ;
    field as u8
}

/// Refuses an H3 resolution outside `0..=15`, with H3's account of the refusal.
pub fn validate_h3_resolution(resolution: u8) -> (result: Result<(), GridError>)
    ensures
        result is Ok <==> resolution <= MAX_H3_RESOLUTION,
        result is Err ==> (result matches Err(GridError::InvalidH3Resolution { resolution: r, reason })
            && r == resolution && reason@ == h3_resolution_error(resolution)),
{
    match check_h3_resolution(resolution) {
        Ok(()) => Ok(()),
        Err(reason) => Err(GridError::InvalidH3Resolution { resolution, reason }),
    }
}

/// Adds `cell` to `cells` and refuses the result when it holds more than
/// `max_cells` cells.
pub fn insert_h3_cell(cells: &mut HashSet<u64>, cell: u64, max_cells: usize) -> (result: Result<
    (),
    GridError,
>)
    ensures
        final(cells)@ == old(cells)@.insert(cell),
        result is Ok <==> final(cells)@.len() <= max_cells,
        result is Err ==> result == Err::<(), GridError>(
            GridError::H3CoverageExceedsMaxCells { max_cells },
        ),
{
    cells.insert(cell);
    if cells.len() > max_cells {
        return Err(GridError::H3CoverageExceedsMaxCells { max_cells });
    }
    Ok(())
}

/// How an H3 cell set is reconstructed.
#[derive(Debug, Clone, PartialEq, Eq)]
pub enum H3Reconstruction {
    /// The set holds no cell.
    Empty,
    /// The index bits of the set's cells, each once, in order of first occurrence.
    Cells(Vec<u64>),
}

/// The elements of `s` with every repetition of an earlier element dropped.
pub open spec fn first_occurrences(s: Seq<u64>) -> Seq<u64>
    decreases s.len(),
{
    if s.len() == 0 {
        Seq::empty()
    } else if s.drop_last().contains(s.last()) {
        first_occurrences(s.drop_last())
    } else {
        first_occurrences(s.drop_last()).push(s.last())
    }
}

/// The text names an H3 cell of resolution `resolution`.
pub open spec fn names_cell_at(text: Seq<char>, resolution: u8) -> bool {
    match h3_cell_of_text(text) {
        Some(bits) => index_resolution(bits) == resolution,
        None => false,
    }
}

/// The index bits that the texts name (zero where a text names no cell).
pub open spec fn named_cells(texts: Seq<String>) -> Seq<u64> {
    texts.map_values(
        |t: String|
            match h3_cell_of_text(t@) {
                Some(bits) => bits,
                None => 0,
            },
    )
}

proof fn lemma_first_occurrences_set(s: Seq<u64>)
    ensures
        first_occurrences(s).to_set() == s.to_set(),
        first_occurrences(s).no_duplicates(),
    decreases s.len(),
{
    if s.len() > 0 {
        let t = s.drop_last();
        lemma_first_occurrences_set(t);
        assert(s =~= t.push(s.last()));
        t.lemma_push_to_set_commute(s.last());
        let f = first_occurrences(t);
        if !t.contains(s.last()) {
            f.lemma_push_to_set_commute(s.last());
            assert(!f.contains(s.last())) by {
                if f.contains(s.last()) {
                    assert(f.to_set().contains(s.last()));
                    assert(t.to_set().contains(s.last()));
                }
            }
        } else {
            assert(t.to_set().contains(s.last()));
            assert(t.to_set().insert(s.last()) =~= t.to_set());
        }
    }
}

/// `p` is the position where `x` first occurs in `s`.
pub open spec fn is_first_position(s: Seq<u64>, x: u64, p: int) -> bool {
    &&& 0 <= p < s.len()
    &&& s[p] == x
    &&& !s.take(p).contains(x)
}

/// The position where `x` first occurs in `s`.
pub open spec fn first_position(s: Seq<u64>, x: u64) -> int {
    choose|p: int| is_first_position(s, x, p)
}

proof fn lemma_first_position(s: Seq<u64>, x: u64)
    requires
        s.contains(x),
    ensures
        is_first_position(s, x, first_position(s, x)),
        forall|p: int| #[trigger] is_first_position(s, x, p) ==> p == first_position(s, x),
    decreases s.len(),
{
    let t = s.drop_last();
    if t.contains(x) {
        lemma_first_position(t, x);
        let p = first_position(t, x);
        assert(s.take(p) =~= t.take(p));
        assert(is_first_position(s, x, p));
    } else {
        assert(s.take(s.len() - 1) =~= t);
        let i = choose|i: int| 0 <= i < s.len() && s[i] == x;
        if i < s.len() - 1 {
            assert(t[i] == x);
        }
        assert(is_first_position(s, x, s.len() - 1));
    }
    let f = first_position(s, x);
    assert forall|p: int| #[trigger] is_first_position(s, x, p) implies p == f by {
        if p < f {
            assert(s.take(f)[p] == x);
        } else if f < p {
            assert(s.take(p)[f] == x);
        }
    }
}

/// Dropping repetitions keeps the order of first occurrence: every kept value
/// occurs in `s`, and of two kept values the earlier one first occurs earlier
/// in `s`.
pub proof fn lemma_first_occurrences_order(s: Seq<u64>)
    ensures
        forall|i: int| 0 <= i < first_occurrences(s).len() ==> s.contains(#[trigger] first_occurrences(s)[i]),
        forall|i: int, j: int|
            0 <= i < j < first_occurrences(s).len() ==> first_position(s, #[trigger] first_occurrences(s)[i])
                < first_position(s, #[trigger] first_occurrences(s)[j]),
    decreases s.len(),
{
    if s.len() == 0 {
        return;
    }
    let t = s.drop_last();
    let l = s.last();
    let r = first_occurrences(s);
    let rt = first_occurrences(t);
    lemma_first_occurrences_order(t);
    assert forall|x: u64| t.contains(x) implies s.contains(x) && #[trigger] first_position(s, x) == first_position(t, x) && first_position(t, x) < t.len() by {
        lemma_first_position(t, x);
        let p = first_position(t, x);
        assert(s.take(p) =~= t.take(p));
        assert(is_first_position(s, x, p));
        lemma_first_position(s, x);
    }
    if t.contains(l) {
        assert(r == rt);
    } else {
        assert(r == rt.push(l));
        assert(s.take(s.len() - 1) =~= t);
        assert(is_first_position(s, l, s.len() - 1));
        assert(s.contains(l)) by {
            assert(s[s.len() - 1] == l);
        }
        lemma_first_position(s, l);
        assert forall|i: int| 0 <= i < r.len() implies s.contains(#[trigger] r[i]) by {
            if i < rt.len() {
                assert(r[i] == rt[i]);
            }
        }
        assert forall|i: int, j: int| 0 <= i < j < r.len() implies first_position(s, #[trigger] r[i])
            < first_position(s, #[trigger] r[j]) by {
            assert(r[i] == rt[i]);
            assert(t.contains(rt[i]));
            if j < rt.len() {
                assert(r[j] == rt[j]);
                assert(t.contains(rt[j]));
                assert(first_position(t, rt[i]) < first_position(t, rt[j]));
            } else {
                assert(r[j] == l);
            }
        }
    }
}

/// Takes the parse of one identifier of an H3 cell set into the cells read so far.
///
/// A failed parse is reported with the identifier and the parser's reason, and
/// a cell of another resolution than `resolution` with the identifier; `seen`
/// and `out` are then left as they were. Otherwise the cell is added to `seen`,
/// and to the end of `out` unless `seen` already held it.
pub fn accept_h3_cell(
    value: &String,
    parsed: Result<u64, String>,
    resolution: u8,
    seen: &mut HashSet<u64>,
    out: &mut Vec<u64>,
) -> (result: Result<(), GridError>)
    ensures
        match parsed {
            Err(reason) => {
                &&& result matches Err(GridError::InvalidH3Cell { value: v, reason: r })
                    && v@ == value@ && r@ == reason@
                &&& final(seen)@ == old(seen)@
                &&& final(out)@ == old(out)@
            },
            Ok(bits) => if index_resolution(bits) != resolution {
                &&& result matches Err(GridError::H3CellResolutionMismatch { value: v, resolution: r })
                    && v@ == value@ && r == resolution
                &&& final(seen)@ == old(seen)@
                &&& final(out)@ == old(out)@
            } else {
                &&& result is Ok
                &&& final(seen)@ == old(seen)@.insert(bits)
                &&& final(out)@ == if old(seen)@.contains(bits) {
                    old(out)@
                } else {
                    old(out)@.push(bits)
                }
            },
        },
{
    let bits = match parsed {
        Ok(bits) => bits,
        Err(reason) => {
            return Err(GridError::InvalidH3Cell { value: value.clone(), reason });
        },
    };
    if h3_index_resolution(bits) != resolution {
        return Err(GridError::H3CellResolutionMismatch { value: value.clone(), resolution });
    }
    if seen.insert(bits) {
        out.push(bits);
    }
    Ok(())
}

/// Parses an H3 cell set into the index bits of its cells.
///
/// The resolution is checked first; an empty set is then accepted as such.
/// Otherwise each text in order must name a cell of the set's resolution: the
/// first that names no cell, or a cell of another resolution, is reported.
/// Repeated cells are kept once, at their first occurrence.
pub fn h3_cell_set_indexes(cell_set: &H3CellSet) -> (result: Result<H3Reconstruction, GridError>)
    ensures
        cell_set.resolution > MAX_H3_RESOLUTION ==> (result matches Err(
            GridError::InvalidH3Resolution { resolution: r, reason },
        ) && r == cell_set.resolution && reason@ == h3_resolution_error(cell_set.resolution)),
        cell_set.resolution <= MAX_H3_RESOLUTION && cell_set.cells@.len() == 0 ==> result == Ok::<
            H3Reconstruction,
            GridError,
        >(H3Reconstruction::Empty),
        cell_set.resolution <= MAX_H3_RESOLUTION && cell_set.cells@.len() > 0 ==> match result {
            Ok(H3Reconstruction::Cells(bits)) => {
                &&& forall|i: int|
                    0 <= i < cell_set.cells@.len() ==> names_cell_at(
                        #[trigger] cell_set.cells@[i]@,
                        cell_set.resolution,
                    )
                &&& bits@ == first_occurrences(named_cells(cell_set.cells@))
                &&& bits@.no_duplicates()
                &&& bits@.to_set() == named_cells(cell_set.cells@).to_set()
            },
            Ok(H3Reconstruction::Empty) => false,
            Err(GridError::InvalidH3Cell { value, reason }) => exists|i: int|
                0 <= i < cell_set.cells@.len() && (forall|j: int|
                    0 <= j < i ==> names_cell_at(#[trigger] cell_set.cells@[j]@, cell_set.resolution))
                    && h3_cell_of_text(cell_set.cells@[i]@) is None && value@ == cell_set.cells@[i]@
                    && reason@ == h3_parse_error(cell_set.cells@[i]@),
            Err(GridError::H3CellResolutionMismatch { value, resolution }) => exists|i: int|
                0 <= i < cell_set.cells@.len() && (forall|j: int|
                    0 <= j < i ==> names_cell_at(#[trigger] cell_set.cells@[j]@, cell_set.resolution))
                    && h3_cell_of_text(cell_set.cells@[i]@) is Some && !names_cell_at(
                    cell_set.cells@[i]@,
                    cell_set.resolution,
                ) && value@ == cell_set.cells@[i]@ && resolution == cell_set.resolution,
            Err(_) => false,
        },
{
    validate_h3_resolution(cell_set.resolution)?;
    if cell_set.cells.len() == 0 {
        return Ok(H3Reconstruction::Empty);
    }
    let cells = &cell_set.cells;
    let ghost named = named_cells(cells@);
    let mut seen: HashSet<u64> = HashSet::new();
    let mut out: Vec<u64> = Vec::new();
    let mut i: usize = 0;
    assert(named.take(0) =~= Seq::<u64>::empty());
    while i < cells.len()
        invariant
            i <= cells@.len(),
            cells@.len() > 0,
            cells@ == cell_set.cells@,
            named == named_cells(cells@),
            cell_set.resolution <= MAX_H3_RESOLUTION,
            forall|j: int| 0 <= j < i ==> names_cell_at(#[trigger] cells@[j]@, cell_set.resolution),
            out@ == first_occurrences(named.take(i as int)),
            seen@ == named.take(i as int).to_set(),
        decreases cells@.len() - i,
    {
        let text = &cells[i];
        let parsed = parse_h3_cell(text.as_str());
        let ghost parse = parsed;
        let ghost prefix = named.take(i as int);
        match accept_h3_cell(text, parsed, cell_set.resolution, &mut seen, &mut out) {
            Ok(()) => {},
            Err(error) => {
                proof {
                    assert(cells@[i as int]@ == text@);
                }
                return Err(error);
            },
        }
        proof {
            let bits = parse->Ok_0;
            assert(named[i as int] == bits);
            assert(named.take(i + 1).drop_last() =~= prefix);
            assert(named.take(i + 1).last() == bits);
            assert(prefix.contains(bits) == prefix.to_set().contains(bits));
            prefix.lemma_push_to_set_commute(bits);
            assert(named.take(i + 1) =~= prefix.push(bits));
        }
        i += 1;
    }
    assert(named.take(cells@.len() as int) =~= named);
    proof {
        lemma_first_occurrences_set(named);
    }
    Ok(H3Reconstruction::Cells(out))
}

/// The text by which `h3o::CellIndex` displays a cell: the lower-case
/// hexadecimal notation of its index bits.
pub fn h3_cell_text(bits: u64) -> (text: String)
    ensures
        text@ == lower_hex(bits as nat),
{
    lower_hex_text(bits)
}

/// `set` is the canonical form of the H3 coverage `cells` at `resolution`: it
/// lists the identifiers of the cells, each once, in lexicographic order.
pub open spec fn is_canonical_h3_set(set: H3CellSet, resolution: u8, cells: Set<u64>) -> bool {
    &&& set.resolution == resolution
    &&& strictly_sorted(texts_of(set.cells@))
    &&& forall|t: Seq<char>| #[trigger] texts_of(set.cells@).contains(t) <==> exists|c: u64|
        cells.contains(c) && lower_hex(c as nat) == t
}

/// The canonical form of an H3 coverage depends on its set of cells alone:
/// two canonical forms of the same cells at the same resolution list the
/// same identifiers in the same order.
pub proof fn lemma_canonical_h3_set_unique(a: H3CellSet, b: H3CellSet, resolution: u8, cells: Set<u64>)
    requires
        is_canonical_h3_set(a, resolution, cells),
        is_canonical_h3_set(b, resolution, cells),
    ensures
        a.resolution == b.resolution,
        texts_of(a.cells@) == texts_of(b.cells@),
{
    assert forall|t: Seq<char>| texts_of(a.cells@).contains(t) <==> texts_of(b.cells@).contains(t) by {
        assert(texts_of(a.cells@).contains(t) == texts_of(b.cells@).contains(t));
    }
    lemma_strictly_sorted_unique(texts_of(a.cells@), texts_of(b.cells@));
}

/// Parsing the canonical form of an H3 coverage gives back exactly its cells,
/// each once, provided the H3 parser reads every displayed identifier back as
/// its cell: then every identifier names a cell of the coverage's resolution
/// when all cells have that resolution, and the parsed cells are the
/// coverage's cells.
pub proof fn lemma_h3_round_trip(resolution: u8, cells: Set<u64>, set: H3CellSet, bits: Seq<u64>)
    requires
        is_canonical_h3_set(set, resolution, cells),
        forall|c: u64| #[trigger] cells.contains(c) ==> parsed_h3_cell(lower_hex(c as nat)) == Ok::<u64, Seq<char>>(c),
        bits == first_occurrences(named_cells(set.cells@)),
    ensures
        bits.no_duplicates(),
        bits.to_set() == cells,
        (forall|c: u64| #[trigger] cells.contains(c) ==> index_resolution(c) == resolution) ==> forall|i: int|
            0 <= i < set.cells@.len() ==> names_cell_at(#[trigger] set.cells@[i]@, resolution),
{
    let named = named_cells(set.cells@);
    let texts = texts_of(set.cells@);
    lemma_first_occurrences_set(named);
    assert forall|i: int| 0 <= i < set.cells@.len() implies exists|c: u64|
        cells.contains(c) && lower_hex(c as nat) == set.cells@[i]@ && #[trigger] named[i] == c
        && parsed_h3_cell(set.cells@[i]@) == Ok::<u64, Seq<char>>(c) by {
        assert(texts[i] == set.cells@[i]@);
        assert(texts.contains(set.cells@[i]@));
        let c = choose|c: u64| cells.contains(c) && lower_hex(c as nat) == set.cells@[i]@;
        assert(named[i] == c);
    }
    assert forall|c: u64| named.to_set().contains(c) <==> #[trigger] cells.contains(c) by {
        if named.to_set().contains(c) {
            assert(named.contains(c));
            let i = choose|i: int| 0 <= i < named.len() && named[i] == c;
            let d = choose|d: u64|
                cells.contains(d) && lower_hex(d as nat) == set.cells@[i]@ && named[i] == d
                && parsed_h3_cell(set.cells@[i]@) == Ok::<u64, Seq<char>>(d);
        }
        if cells.contains(c) {
            assert(texts.contains(lower_hex(c as nat)));
            let i = choose|i: int| 0 <= i < texts.len() && texts[i] == lower_hex(c as nat);
            assert(named[i] == c);
            assert(named.contains(c));
        }
    }
    assert(named.to_set() =~= cells);
    if forall|c: u64| #[trigger] cells.contains(c) ==> index_resolution(c) == resolution {
        assert forall|i: int| 0 <= i < set.cells@.len() implies names_cell_at(#[trigger] set.cells@[i]@, resolution) by {
            let c = choose|c: u64|
                cells.contains(c) && lower_hex(c as nat) == set.cells@[i]@ && named[i] == c
                && parsed_h3_cell(set.cells@[i]@) == Ok::<u64, Seq<char>>(c);
        }
    }
}

/// The canonical form of an H3 coverage: the identifiers of its cells, each
/// once, in lexicographic order.
pub fn canonical_h3_cell_set(resolution: u8, cells: &HashSet<u64>) -> (set: H3CellSet)
    ensures
        is_canonical_h3_set(set, resolution, cells@),
{
    let mut texts: Vec<String> = Vec::new();
    let iter = cells.iter();
    let ghost items = iter.remaining();
    for cell in it: iter
        invariant
            items == iter.remaining(),
            it.seq() == items,
            texts@.len() == it.index(),
            forall|k: int| 0 <= k < texts@.len() ==> texts@[k]@ == lower_hex(*it.seq()[k] as nat),
    {
        texts.push(h3_cell_text(*cell));
    }
    proof {
        assert(items.unref().to_set() == cells@);
        assert(items.no_duplicates());
        let tx = texts_of(texts@);
        assert forall|a: int, b: int| 0 <= a < b < tx.len() implies tx[a] != tx[b] by {
            if tx[a] == tx[b] {
                lemma_lower_hex_injective(*items[a] as nat, *items[b] as nat);
            }
        }
        assert(tx.no_duplicates());
    }
    let sorted = sort_texts(texts);
    proof {
        assert forall|t: Seq<char>| #[trigger] texts_of(sorted@).contains(t) <==> exists|c: u64|
            cells@.contains(c) && lower_hex(c as nat) == t by {
            let tx = texts_of(texts@);
            if tx.contains(t) {
                let k = choose|k: int| 0 <= k < tx.len() && tx[k] == t;
                assert(items.unref()[k] == *items[k]);
                assert(items.unref().to_set().contains(*items[k]));
            }
            if exists|c: u64| cells@.contains(c) && lower_hex(c as nat) == t {
                let c = choose|c: u64| cells@.contains(c) && lower_hex(c as nat) == t;
                assert(items.unref().to_set().contains(c));
                let k = choose|k: int| 0 <= k < items.len() && items.unref()[k] == c;
                assert(tx[k] == t);
            }
        }
    }
    H3CellSet { resolution, cells: sorted }
}

} // verus!
