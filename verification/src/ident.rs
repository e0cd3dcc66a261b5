//! Stable `z/x/y` identifiers of square cells.
use vstd::prelude::*;

use crate::notation::{decimal, lemma_decimal_has_no_slash, lemma_decimal_injective, push_decimal};
use crate::types::SquareCell;

verus! {

/// The identifier `zoom/x/y` of a cell.
pub open spec fn cell_id(zoom: u8, cell: SquareCell) -> Seq<char> {
    decimal(zoom as nat) + seq!['/'] + decimal(cell.x as nat) + seq!['/'] + decimal(cell.y as nat)
}

/// The two separators of a cell identifier: `/` stands right after the zoom
/// and right after the column, and nowhere else, so the identifier splits at
/// `/` into exactly three parts.
pub proof fn lemma_cell_id_separators(zoom: u8, cell: SquareCell)
    ensures
        ({
            let id = cell_id(zoom, cell);
            let first = decimal(zoom as nat).len() as int;
            let second = first + 1 + decimal(cell.x as nat).len();
            &&& forall|i: int| 0 <= i < id.len() ==> (id[i] == '/' <==> i == first || i == second)
            &&& id.subrange(0, first) == decimal(zoom as nat)
            &&& id.subrange(first + 1, second) == decimal(cell.x as nat)
            &&& id.subrange(second + 1, id.len() as int) == decimal(cell.y as nat)
        }),
{
    let dz = decimal(zoom as nat);
    let dx = decimal(cell.x as nat);
    let dy = decimal(cell.y as nat);
    lemma_decimal_has_no_slash(zoom as nat);
    lemma_decimal_has_no_slash(cell.x as nat);
    lemma_decimal_has_no_slash(cell.y as nat);
    let id = cell_id(zoom, cell);
    let first = dz.len() as int;
    let second = first + 1 + dx.len();
    assert(id.len() == second + 1 + dy.len());
    assert forall|i: int| 0 <= i < id.len() implies (id[i] == '/' <==> i == first || i == second) by {
        if i < first {
            assert(id[i] == dz[i]);
        } else if first < i < second {
            assert(id[i] == dx[i - first - 1]);
        } else if i > second {
            assert(id[i] == dy[i - second - 1]);
        }
    }
    assert(id.subrange(0, first) =~= dz);
    assert(id.subrange(first + 1, second) =~= dx);
    assert(id.subrange(second + 1, id.len() as int) =~= dy);
}

/// Distinct cells have distinct identifiers at the same zoom.
pub proof fn lemma_cell_id_injective(zoom: u8, a: SquareCell, b: SquareCell)
    requires
        cell_id(zoom, a) == cell_id(zoom, b),
    ensures
        a == b,
{
    lemma_cell_id_separators(zoom, a);
    lemma_cell_id_separators(zoom, b);
    let id = cell_id(zoom, a);
    let first = decimal(zoom as nat).len() as int;
    let sa = first + 1 + decimal(a.x as nat).len();
    let sb = first + 1 + decimal(b.x as nat).len();
    lemma_decimal_has_no_slash(a.x as nat);
    lemma_decimal_has_no_slash(b.x as nat);
    assert(id[sa] == '/');
    assert(id[sb] == '/');
    assert(sa == sb);
    lemma_decimal_injective(a.x as nat, b.x as nat);
    lemma_decimal_injective(a.y as nat, b.y as nat);
}

fn push_slash(text: &mut String)
    ensures
        final(text)@ == old(text)@ + seq!['/'],
{
    proof {
        reveal_strlit("/");
    }
    text.append("/");
}

impl SquareCell {
    /// Stable `z/x/y` identifier.
    pub fn id(self, zoom: u8) -> (id: String)
        ensures
            id@ == cell_id(zoom, self),
    {
        let mut id = String::new();
        push_decimal(&mut id, zoom as u64);
        push_slash(&mut id);
        push_decimal(&mut id, self.x as u64);
        push_slash(&mut id);
        push_decimal(&mut id, self.y as u64);
        proof {
            assert(id@ =~= cell_id(zoom, self));
        }
        id
    }
}

} // verus!
