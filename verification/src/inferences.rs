use vstd::prelude::*;
use crate::types::{
    Candidate, Cell, CellStatus, Coords, Sudoku, col_drafts, coords_of_index, derefs, digits_in, draft_at,
    gn_idx, grid_drafts, idx, is_draft, keep_if, lemma_digits_in, lemma_gn_idx, lemma_idx_coords,
    lemma_index_decomp, lemma_range_concat_member, range_concat, row_drafts,
};
use crate::types::{GNCoords, RCCoords, is_filled, lemma_idx_parts, peer_coords_with, boards_view, completes, lemma_search_solutions, search, spec_coords_of_rc, first_draft, count_drafts, try_candidates};
use crate::utils::{
    IterDirection, combinations, get_coords_with_direction, get_rc_coord_with_direction, combo_views, create_simple_cell_and_value, generate_combinations,
    get_other_index_with_direction, lemma_combinations_shape, make_simple_conclusion_when_set_value,
    simple_conclusion, with_value, complement_upto,
};

verus! {

/// A position and the digits that a strategy states about it: the reason or the
/// conclusion of a deduction.
#[derive(Clone, Debug)]
pub struct TheCoordsAndTheValue {
    pub the_coords: Coords,
    pub the_value: Vec<u8>,
}

impl View for TheCoordsAndTheValue {
    type V = (Coords, Seq<u8>);

    open spec fn view(&self) -> (Coords, Seq<u8>) {
        (self.the_coords, self.the_value@)
    }
}

/// The views of an optional list of entries.
pub open spec fn opt_entry_views(o: Option<Vec<TheCoordsAndTheValue>>) -> Option<Seq<(Coords, Seq<u8>)>> {
    match o {
        Some(v) => Some(entry_views(v@)),
        None => None,
    }
}

/// The views of a list of entries.
pub open spec fn entry_views(v: Seq<TheCoordsAndTheValue>) -> Seq<(Coords, Seq<u8>)> {
    v.map_values(|e: TheCoordsAndTheValue| e@)
}

/// The solving strategies, in the order in which they are tried.
#[derive(Clone, Copy, PartialEq, Eq, Structural, Debug)]
pub enum InferenceKind {
    /// A draft cell with a single candidate.
    OnlyOneLeft,
    /// A digit that only one cell of a row can take.
    OnlyOneRightInRow,
    /// A digit that only one cell of a column can take.
    OnlyOneRightInCol,
    /// A digit that only one cell of a grid can take.
    OnlyOneRightInGrid,
    /// A digit confined to one row within a grid leaves the rest of that row.
    RowUniqueDraftByGridExclusion,
    /// A digit confined to one column within a grid leaves the rest of that column.
    ColUniqueDraftByGridExclusion,
    /// A digit of a row confined to one grid leaves the rest of that grid.
    GridUniqueDraftByRowExclusion,
    /// A digit of a column confined to one grid leaves the rest of that grid.
    GridUniqueDraftByColExclusion,
    /// Naked pairs, triples and quads in a row.
    RowExplicitNakedPairExclusion,
    /// Naked pairs, triples and quads in a column.
    ColExplicitNakedPairExclusion,
    /// Naked pairs, triples and quads in a grid.
    GridExplicitNakedPairExclusion,
    /// Hidden pairs, triples and quads in a row.
    RowExplicitHiddenPairExclusion,
    /// Hidden pairs, triples and quads in a column.
    ColExplicitHiddenPairExclusion,
    /// Hidden pairs, triples and quads in a grid.
    GridExplicitHiddenPairExclusion,
    /// X-wing, swordfish and jellyfish over rows or columns.
    NStepFish,
    /// Exhaustive search, used when a single solution exists.
    Exploit,
}

/// A deduction: the strategy, the entries it rests on, the digits to fill in and the
/// candidates to remove.
pub struct InferenceResult {
    pub inference: InferenceKind,
    pub condition: Vec<TheCoordsAndTheValue>,
    pub conclusion_set_value: Option<Vec<TheCoordsAndTheValue>>,
    pub conclusion_remove_drafts: Option<Vec<TheCoordsAndTheValue>>,
}

/// The view of a deduction.
pub type ResultView = (InferenceKind, Seq<(Coords, Seq<u8>)>, Option<Seq<(Coords, Seq<u8>)>>, Option<Seq<(Coords, Seq<u8>)>>);

impl View for InferenceResult {
    type V = ResultView;

    open spec fn view(&self) -> ResultView {
        (
            self.inference,
            entry_views(self.condition@),
            opt_entry_views(self.conclusion_set_value),
            opt_entry_views(self.conclusion_remove_drafts),
        )
    }
}

/// The deduction that digit `v` goes to `coords`: it rests on that entry, fills it in, and
/// removes the digit from the peers that have it.
pub open spec fn set_value_result(kind: InferenceKind, cells: Seq<Cell>, coords: Coords, v: u8) -> ResultView {
    (kind, seq![(coords, seq![v])], Some(seq![(coords, seq![v])]), simple_conclusion(cells, coords, v))
}

/// The pieces of unit `u` of the given kind: its draft cells, position by position.
pub open spec fn unit_fn(cells: Seq<Cell>, dir: IterDirection, u: int) -> spec_fn(int) -> Seq<Cell> {
    match dir {
        IterDirection::Row => row_drafts(cells, u),
        IterDirection::Column => col_drafts(cells, u),
        IterDirection::Grid => grid_drafts(cells, u),
    }
}

/// The draft cells of unit `u` (row, column or grid), in order.
pub open spec fn unit_drafts(cells: Seq<Cell>, dir: IterDirection, u: int) -> Seq<Cell> {
    range_concat(0, 9, unit_fn(cells, dir, u))
}

/// The board index of position `w` of unit `u`.
pub open spec fn unit_index(dir: IterDirection, u: int, w: int) -> int {
    match dir {
        IterDirection::Row => idx(u, w),
        IterDirection::Column => idx(w, u),
        IterDirection::Grid => gn_idx(u, w),
    }
}

/// The index of the unit of the given kind that `coords` lies in.
pub open spec fn unit_of(coords: Coords, dir: IterDirection) -> usize {
    match dir {
        IterDirection::Row => coords.r,
        IterDirection::Column => coords.c,
        IterDirection::Grid => coords.g,
    }
}

/// The position of `coords` within its unit of the given kind.
pub open spec fn pos_in_unit(coords: Coords, dir: IterDirection) -> usize {
    match dir {
        IterDirection::Row => coords.c,
        IterDirection::Column => coords.r,
        IterDirection::Grid => coords.n,
    }
}

/// Whether the coordinates name a position of the board.
pub open spec fn coords_ok(c: Coords) -> bool {
    c.r < 9 && c.c < 9 && c.g < 9 && c.n < 9
}

/// Every draft cell listed for a unit is a draft cell of the board lying in that unit.
pub proof fn lemma_unit_member(field: &Sudoku, dir: IterDirection, u: int, t: int)
    requires
        field.wf(),
        0 <= u < 9,
        0 <= t < unit_drafts(field@, dir, u).len(),
    ensures
        is_draft(unit_drafts(field@, dir, u)[t]),
        coords_ok(unit_drafts(field@, dir, u)[t].coords),
        unit_of(unit_drafts(field@, dir, u)[t].coords, dir) == u,
        exists|i: int| 0 <= i < 81 && field@[i] == unit_drafts(field@, dir, u)[t],
{
    let cells = field@;
    let f = unit_fn(cells, dir, u);
    assert forall|k: int| 0 <= k < 9 implies #[trigger] f(k).len() <= 1 by {}
    lemma_range_concat_member(0, 9, f, t);
    let w = choose|w: int| 0 <= w < 9 && #[trigger] f(w).len() == 1 && f(w)[0] == range_concat(0, 9, f)[t];
    let i = unit_index(dir, u, w);
    match dir {
        IterDirection::Row => {
            lemma_idx_coords(u, w);
        },
        IterDirection::Column => {
            lemma_idx_coords(w, u);
        },
        IterDirection::Grid => {
            lemma_gn_idx(u, w);
        },
    }
    lemma_index_decomp(i);
    assert(cells[i] == unit_drafts(cells, dir, u)[t]);
}

/// Every cell in the list of all draft cells is a draft cell of the board.
pub proof fn lemma_draft_member(field: &Sudoku, t: int)
    requires
        field.wf(),
        0 <= t < range_concat(0, 81, draft_at(field@)).len(),
    ensures
        is_draft(range_concat(0, 81, draft_at(field@))[t]),
        coords_ok(range_concat(0, 81, draft_at(field@))[t].coords),
        exists|i: int| 0 <= i < 81 && field@[i] == range_concat(0, 81, draft_at(field@))[t],
{
    let f = draft_at(field@);
    assert forall|k: int| 0 <= k < 81 implies #[trigger] f(k).len() <= 1 by {}
    lemma_range_concat_member(0, 81, f, t);
    let w = choose|w: int| 0 <= w < 81 && #[trigger] f(w).len() == 1 && f(w)[0] == range_concat(0, 81, f)[t];
    lemma_index_decomp(w);
}

/// The draft cells of every unit of the given kind.
pub fn draft_units(field: &Sudoku, dir: IterDirection) -> (ret: Vec<Vec<&Cell>>)
    requires
        field.wf(),
    ensures
        ret@.len() == 9,
        forall|u: int| 0 <= u < 9 ==> derefs(#[trigger] ret@[u]@) == unit_drafts(field@, dir, u),
{
    match dir {
        IterDirection::Row => field.drafts_cells_by_rows(),
        IterDirection::Column => field.drafts_cells_by_cols(),
        IterDirection::Grid => field.drafts_cells_by_grids(),
    }
}

/// The deduction that digit `v` goes to `coords`.
fn set_value_inference(kind: InferenceKind, field: &Sudoku, coords: Coords, v: u8) -> (ret: InferenceResult)
    requires
        field.wf(),
        coords_ok(coords),
        v < 9,
    ensures
        ret@ == set_value_result(kind, field@, coords, v),
{
    let condition = create_simple_cell_and_value(coords, v);
    let conclusion = create_simple_cell_and_value(coords, v);
    let ret = InferenceResult {
        inference: kind,
        condition: vec![condition],
        conclusion_set_value: Some(vec![conclusion]),
        conclusion_remove_drafts: make_simple_conclusion_when_set_value(field, &coords, v),
    };
    proof {
        assert(entry_views(ret.condition@) =~= seq![(coords, seq![v])]);
        assert(entry_views(seq![conclusion]) =~= seq![(coords, seq![v])]);
    }
    ret
}

// ---------------------------------------------------------------------------
// A draft cell with a single candidate
// ---------------------------------------------------------------------------

/// Whether the `t`-th draft cell of the board has a single candidate below 9.
pub open spec fn naked_single_at(cells: Seq<Cell>, t: int) -> bool {
    let drafts = range_concat(0, 81, draft_at(cells));
    0 <= t < drafts.len() && exists|v: u8| v < 9 && drafts[t].candidates@ == set![v]
}

/// The first draft cell with a single candidate gets that digit.
pub fn only_one_left(field: &Sudoku) -> (ret: Option<InferenceResult>)
    requires
        field.wf(),
    ensures
        naked_single_outcome(field@, result_view(ret)),
{
    let ghost drafts = range_concat(0, 81, draft_at(field@));
    let cells = field.collect_all_drafts_cells();
    let mut t: usize = 0;
    while t < cells.len()
        invariant
            field.wf(),
            drafts == range_concat(0, 81, draft_at(field@)),
            derefs(cells@) == drafts,
            t <= cells@.len(),
            forall|t2: int| t2 < t ==> !naked_single_at(field@, t2),
        decreases cells@.len() - t,
    {
        let p = cells[t];
        proof {
            assert(*p == drafts[t as int]);
        }
        match p.candidates.get_unique_candidate() {
            Some(cv) => {
                proof {
                    lemma_draft_member(field, t as int);
                }
                let ret = set_value_inference(InferenceKind::OnlyOneLeft, field, p.coords, cv);
                return Some(ret);
            },
            None => {},
        }
        t = t + 1;
    }
    proof {
        assert forall|t2: int| !naked_single_at(field@, t2) by {
            if 0 <= t2 < drafts.len() {
                assert(t2 < t);
            }
        }
    }
    None
}

// ---------------------------------------------------------------------------
// A digit that only one cell of a unit can take
// ---------------------------------------------------------------------------

/// Whether no cell of `unit` other than the one at `p`'s position has candidate `v`.
pub open spec fn only_place_for(unit: Seq<Cell>, p: Coords, v: u8, dir: IterDirection) -> bool {
    forall|s: int|
        0 <= s < unit.len() ==> pos_in_unit(#[trigger] unit[s].coords, dir) == pos_in_unit(p, dir)
            || !unit[s].candidates@.contains(v)
}

/// Whether the `j`-th candidate of the `t`-th draft cell of unit `u` can go nowhere else in
/// the unit.
pub open spec fn hidden_single_at(cells: Seq<Cell>, dir: IterDirection, u: int, t: int, j: int) -> bool {
    let unit = unit_drafts(cells, dir, u);
    &&& 0 <= u < 9
    &&& 0 <= t < unit.len()
    &&& 0 <= j < digits_in(unit[t].candidates@).len()
    &&& only_place_for(unit, unit[t].coords, digits_in(unit[t].candidates@)[j], dir)
}

/// The view of an optional deduction.
pub open spec fn result_view(r: Option<InferenceResult>) -> Option<ResultView> {
    match r {
        Some(res) => Some(res@),
        None => None,
    }
}

/// The outcome of `only_one_left`: the first draft cell with a single candidate gets it.
pub open spec fn naked_single_outcome(cells: Seq<Cell>, r: Option<ResultView>) -> bool {
    let drafts = range_concat(0, 81, draft_at(cells));
    match r {
        None => forall|t: int| !naked_single_at(cells, t),
        Some(res) => exists|t: int, v: u8|
            {
                &&& naked_single_at(cells, t)
                &&& v < 9
                &&& drafts[t].candidates@ == set![v]
                &&& forall|t2: int| t2 < t ==> !naked_single_at(cells, t2)
                &&& res == set_value_result(InferenceKind::OnlyOneLeft, cells, drafts[t].coords, v)
            },
    }
}

/// The outcome of `hidden_single`: the first hidden single, in unit, cell, digit order.
pub open spec fn hidden_single_outcome(cells: Seq<Cell>, dir: IterDirection, r: Option<ResultView>) -> bool {
    match r {
        None => forall|u: int, t: int, j: int| !hidden_single_at(cells, dir, u, t, j),
        Some(res) => exists|u: int, t: int, j: int|
            {
                &&& hidden_single_at(cells, dir, u, t, j)
                &&& forall|u2: int, t2: int, j2: int| lex_before(u2, t2, j2, u, t, j) ==> !hidden_single_at(cells, dir, u2, t2, j2)
                &&& res == set_value_result(
                    hidden_single_kind(dir),
                    cells,
                    unit_drafts(cells, dir, u)[t].coords,
                    digits_in(unit_drafts(cells, dir, u)[t].candidates@)[j],
                )
            },
    }
}

/// Whether `(u, t, j)` comes before `(u2, t2, j2)` in the order of the search.
pub open spec fn lex_before(u: int, t: int, j: int, u2: int, t2: int, j2: int) -> bool {
    u < u2 || (u == u2 && (t < t2 || (t == t2 && j < j2)))
}

/// The strategy that the unit kind gives for hidden singles.
pub open spec fn hidden_single_kind(dir: IterDirection) -> InferenceKind {
    match dir {
        IterDirection::Row => InferenceKind::OnlyOneRightInRow,
        IterDirection::Column => InferenceKind::OnlyOneRightInCol,
        IterDirection::Grid => InferenceKind::OnlyOneRightInGrid,
    }
}

/// Whether no cell of `unit` other than `p`'s position has candidate `v`.
fn only_place(unit: &Vec<&Cell>, p: &Cell, v: u8, dir: &IterDirection) -> (ret: bool)
    requires
        v < 16,
    ensures
        ret == only_place_for(derefs(unit@), p.coords, v, *dir),
{
    let ghost cells = derefs(unit@);
    let mut s: usize = 0;
    while s < unit.len()
        invariant
            v < 16,
            cells == derefs(unit@),
            s <= unit@.len(),
            forall|s2: int|
                0 <= s2 < s ==> pos_in_unit(#[trigger] cells[s2].coords, *dir) == pos_in_unit(p.coords, *dir)
                    || !cells[s2].candidates@.contains(v),
        decreases unit@.len() - s,
    {
        let q = unit[s];
        if get_other_index_with_direction(q.coords, dir) != get_other_index_with_direction(p.coords, dir)
            && q.candidates.contains(v) {
            proof {
                assert(cells[s as int] == *q);
            }
            return false;
        }
        s = s + 1;
    }
    true
}

/// For each unit of the given kind in turn, the first digit (by cell, then by digit) that
/// only one of its draft cells can take goes there.
pub fn hidden_single(field: &Sudoku, dir: IterDirection) -> (ret: Option<InferenceResult>)
    requires
        field.wf(),
    ensures
        hidden_single_outcome(field@, dir, result_view(ret)),
{
    let kind = match dir {
        IterDirection::Row => InferenceKind::OnlyOneRightInRow,
        IterDirection::Column => InferenceKind::OnlyOneRightInCol,
        IterDirection::Grid => InferenceKind::OnlyOneRightInGrid,
    };
    let units = draft_units(field, dir);
    let mut u: usize = 0;
    while u < 9
        invariant
            field.wf(),
            kind == hidden_single_kind(dir),
            units@.len() == 9,
            forall|u2: int| 0 <= u2 < 9 ==> derefs(#[trigger] units@[u2]@) == unit_drafts(field@, dir, u2),
            u <= 9,
            forall|u2: int, t2: int, j2: int| u2 < u ==> !hidden_single_at(field@, dir, u2, t2, j2),
        decreases 9 - u,
    {
        let vr = &units[u];
        let ghost unit = unit_drafts(field@, dir, u as int);
        let mut t: usize = 0;
        while t < vr.len()
            invariant
                field.wf(),
                kind == hidden_single_kind(dir),
                u < 9,
                unit == unit_drafts(field@, dir, u as int),
                derefs(vr@) == unit,
                t <= vr@.len(),
                forall|u2: int, t2: int, j2: int| u2 < u ==> !hidden_single_at(field@, dir, u2, t2, j2),
                forall|t2: int, j2: int| t2 < t ==> !hidden_single_at(field@, dir, u as int, t2, j2),
            decreases vr@.len() - t,
        {
            let p = vr[t];
            proof {
                assert(*p == unit[t as int]);
                lemma_digits_in(p.candidates@);
            }
            let vals = p.candidates.to_vec();
            let mut j: usize = 0;
            while j < vals.len()
                invariant
                    field.wf(),
                    kind == hidden_single_kind(dir),
                    u < 9,
                    unit == unit_drafts(field@, dir, u as int),
                    derefs(vr@) == unit,
                    t < vr@.len(),
                    *p == unit[t as int],
                    vals@ == digits_in(p.candidates@),
                    forall|k: int| 0 <= k < vals@.len() ==> #[trigger] vals@[k] < 9,
                    j <= vals@.len(),
                    forall|u2: int, t2: int, j2: int| u2 < u ==> !hidden_single_at(field@, dir, u2, t2, j2),
                    forall|t2: int, j2: int| t2 < t ==> !hidden_single_at(field@, dir, u as int, t2, j2),
                    forall|j2: int| j2 < j ==> !hidden_single_at(field@, dir, u as int, t as int, j2),
                decreases vals@.len() - j,
            {
                let v = vals[j];
                if only_place(vr, p, v, &dir) {
                    proof {
                        lemma_unit_member(field, dir, u as int, t as int);
                        assert(hidden_single_at(field@, dir, u as int, t as int, j as int));
                        assert forall|u2: int, t2: int, j2: int|
                            lex_before(u2, t2, j2, u as int, t as int, j as int) implies !hidden_single_at(
                            field@,
                            dir,
                            u2,
                            t2,
                            j2,
                        ) by {}
                    }
                    let ret = set_value_inference(kind, field, p.coords, v);
                    return Some(ret);
                }
                j = j + 1;
            }
            proof {
                assert forall|j2: int| !hidden_single_at(field@, dir, u as int, t as int, j2) by {
                    if 0 <= j2 < vals@.len() {
                        assert(j2 < j);
                    }
                }
            }
            t = t + 1;
        }
        proof {
            assert forall|t2: int, j2: int| !hidden_single_at(field@, dir, u as int, t2, j2) by {
                if 0 <= t2 < unit.len() {
                    assert(t2 < t);
                }
            }
        }
        u = u + 1;
    }
    proof {
        assert forall|u2: int, t2: int, j2: int| !hidden_single_at(field@, dir, u2, t2, j2) by {
            if 0 <= u2 < 9 {
                assert(u2 < u);
            }
        }
    }
    None
}

// ---------------------------------------------------------------------------
// A digit confined to one line within a grid
// ---------------------------------------------------------------------------

/// The cells of `unit` that have candidate `v`, in order.
pub open spec fn cells_with(unit: Seq<Cell>, v: u8) -> Seq<Cell> {
    range_concat(0, unit.len() as int, |s: int| keep_if(unit[s].candidates@.contains(v), unit[s]))
}

/// The cells of `unit` outside grid `g` that have candidate `v`, in order.
pub open spec fn cells_outside_grid_with(unit: Seq<Cell>, g: usize, v: u8) -> Seq<Cell> {
    range_concat(0, unit.len() as int, |s: int| keep_if(unit[s].coords.g != g && unit[s].candidates@.contains(v), unit[s]))
}

/// Each cell paired with the single digit `v`.
pub open spec fn entries_with(cells: Seq<Cell>, v: u8) -> Seq<(Coords, Seq<u8>)> {
    cells.map_values(|c: Cell| (c.coords, seq![v]))
}

/// The line kind (row or column) of the strategy that removes from a line what a grid
/// confines to it.
pub open spec fn pointing_kind(dir: IterDirection) -> InferenceKind {
    if dir == IterDirection::Row {
        InferenceKind::RowUniqueDraftByGridExclusion
    } else {
        InferenceKind::ColUniqueDraftByGridExclusion
    }
}

/// Whether in grid `g` the candidates `v` all lie on one line of the given kind, and that
/// line has cells outside the grid with candidate `v`.
pub open spec fn pointing_at(cells: Seq<Cell>, dir: IterDirection, g: int, v: u8) -> bool {
    let with_v = cells_with(unit_drafts(cells, IterDirection::Grid, g), v);
    let line = unit_of(with_v[0].coords, dir);
    &&& 0 <= g < 9
    &&& v < 9
    &&& with_v.len() > 0
    &&& forall|k: int| 0 <= k < with_v.len() ==> unit_of(#[trigger] with_v[k].coords, dir) == line
    &&& cells_outside_grid_with(unit_drafts(cells, dir, line as int), with_v[0].coords.g, v).len() > 0
}

/// The deduction of `pointing_at`.
pub open spec fn pointing_result(cells: Seq<Cell>, dir: IterDirection, g: int, v: u8) -> ResultView {
    let with_v = cells_with(unit_drafts(cells, IterDirection::Grid, g), v);
    let line = unit_of(with_v[0].coords, dir);
    (
        pointing_kind(dir),
        entries_with(with_v, v),
        None,
        Some(entries_with(cells_outside_grid_with(unit_drafts(cells, dir, line as int), with_v[0].coords.g, v), v)),
    )
}

/// The outcome of `pointing`: the first grid and digit, in that order, that confine the
/// digit to a line with cells outside the grid.
pub open spec fn pointing_outcome(cells: Seq<Cell>, dir: IterDirection, r: Option<ResultView>) -> bool {
    match r {
        None => forall|g: int, v: u8| !pointing_at(cells, dir, g, v),
        Some(res) => exists|g: int, v: u8|
            {
                &&& pointing_at(cells, dir, g, v)
                &&& forall|g2: int, v2: u8| (g2 < g || (g2 == g && v2 < v)) ==> !pointing_at(cells, dir, g2, v2)
                &&& res == pointing_result(cells, dir, g, v)
            },
    }
}

/// The cells of `unit` that have candidate `v`.
fn collect_with<'a>(unit: &Vec<&'a Cell>, v: u8) -> (ret: Vec<&'a Cell>)
    requires
        v < 16,
    ensures
        derefs(ret@) == cells_with(derefs(unit@), v),
{
    let ghost us = derefs(unit@);
    let mut ret: Vec<&Cell> = Vec::new();
    let mut s: usize = 0;
    while s < unit.len()
        invariant
            v < 16,
            us == derefs(unit@),
            s <= unit@.len(),
            derefs(ret@) == range_concat(0, s as int, |k: int| keep_if(us[k].candidates@.contains(v), us[k])),
        decreases unit@.len() - s,
    {
        let ghost before = ret@;
        let q = unit[s];
        if q.candidates.contains(v) {
            ret.push(q);
            proof {
                assert(derefs(ret@) =~= derefs(before) + seq![*q]);
            }
        }
        s = s + 1;
    }
    ret
}

/// The entries pairing each cell with digit `v`.
fn entries_of(list: &Vec<&Cell>, v: u8) -> (ret: Vec<TheCoordsAndTheValue>)
    ensures
        entry_views(ret@) == entries_with(derefs(list@), v),
{
    let mut ret: Vec<TheCoordsAndTheValue> = Vec::new();
    let mut i: usize = 0;
    while i < list.len()
        invariant
            i <= list@.len(),
            ret@.len() == i,
            forall|k: int| 0 <= k < i ==> #[trigger] ret@[k]@ == (list@[k].coords, seq![v]),
        decreases list@.len() - i,
    {
        ret.push(create_simple_cell_and_value(list[i].coords, v));
        i = i + 1;
    }
    proof {
        assert(entry_views(ret@) =~= entries_with(derefs(list@), v));
    }
    ret
}

/// Every cell of `cells_with(unit, v)` is a cell of `unit` with candidate `v`.
pub proof fn lemma_cells_with_member(unit: Seq<Cell>, v: u8, k: int)
    requires
        0 <= k < cells_with(unit, v).len(),
    ensures
        exists|s: int| 0 <= s < unit.len() && unit[s] == cells_with(unit, v)[k],
        cells_with(unit, v)[k].candidates@.contains(v),
{
    let f = |s: int| keep_if(unit[s].candidates@.contains(v), unit[s]);
    assert forall|s: int| 0 <= s < unit.len() implies #[trigger] f(s).len() <= 1 by {}
    lemma_range_concat_member(0, unit.len() as int, f, k);
}

/// For each grid in turn and each digit, when the grid's candidates for the digit all lie
/// on one line of the given kind, the digit is removed from that line's cells outside the
/// grid (when there are any).
pub fn pointing(field: &Sudoku, dir: IterDirection) -> (ret: Option<InferenceResult>)
    requires
        field.wf(),
        dir != IterDirection::Grid,
    ensures
        pointing_outcome(field@, dir, result_view(ret)),
{
    let kind = if dir == IterDirection::Row {
        InferenceKind::RowUniqueDraftByGridExclusion
    } else {
        InferenceKind::ColUniqueDraftByGridExclusion
    };
    let grids = draft_units(field, IterDirection::Grid);
    let mut g: usize = 0;
    while g < 9
        invariant
            field.wf(),
            dir != IterDirection::Grid,
            kind == pointing_kind(dir),
            grids@.len() == 9,
            forall|u2: int| 0 <= u2 < 9 ==> derefs(#[trigger] grids@[u2]@) == unit_drafts(field@, IterDirection::Grid, u2),
            g <= 9,
            forall|g2: int, v2: u8| g2 < g ==> !pointing_at(field@, dir, g2, v2),
        decreases 9 - g,
    {
        let vg = &grids[g];
        let mut v: u8 = 0;
        while v < 9
            invariant
                field.wf(),
                dir != IterDirection::Grid,
                kind == pointing_kind(dir),
                g < 9,
                derefs(vg@) == unit_drafts(field@, IterDirection::Grid, g as int),
                v <= 9,
                forall|g2: int, v2: u8| g2 < g ==> !pointing_at(field@, dir, g2, v2),
                forall|v2: u8| v2 < v ==> !pointing_at(field@, dir, g as int, v2),
            decreases 9 - v,
        {
            let cells_with_value = collect_with(vg, v);
            let ghost with_v = derefs(cells_with_value@);
            if cells_with_value.len() > 0 {
                let first = cells_with_value[0];
                proof {
                    lemma_cells_with_member(derefs(vg@), v, 0);
                    let s = choose|s: int| 0 <= s < derefs(vg@).len() && derefs(vg@)[s] == cells_with(derefs(vg@), v)[0];
                    lemma_unit_member(field, IterDirection::Grid, g as int, s);
                }
                let line = if dir == IterDirection::Row {
                    first.coords.r
                } else {
                    first.coords.c
                };
                let mut same = true;
                let mut k: usize = 0;
                while k < cells_with_value.len()
                    invariant
                        dir != IterDirection::Grid,
                        with_v == derefs(cells_with_value@),
                        line == unit_of(with_v[0].coords, dir),
                        k <= with_v.len(),
                        same == forall|k2: int| 0 <= k2 < k ==> unit_of(#[trigger] with_v[k2].coords, dir) == line,
                    decreases with_v.len() - k,
                {
                    let q = cells_with_value[k];
                    proof {
                        assert(*q == with_v[k as int]);
                    }
                    let q_line = if dir == IterDirection::Row {
                        q.coords.r
                    } else {
                        q.coords.c
                    };
                    if q_line != line {
                        same = false;
                    }
                    k = k + 1;
                }
                if same {
                    let line_cells = if dir == IterDirection::Row {
                        field.collect_all_drafts_cells_in_r(line)
                    } else {
                        field.collect_all_drafts_cells_in_c(line)
                    };
                    let ghost lc = derefs(line_cells@);
                    proof {
                        assert(lc == unit_drafts(field@, dir, line as int));
                    }
                    let mut others: Vec<&Cell> = Vec::new();
                    let mut s: usize = 0;
                    while s < line_cells.len()
                        invariant
                            v < 9,
                            lc == derefs(line_cells@),
                            s <= lc.len(),
                            derefs(others@) == range_concat(
                                0,
                                s as int,
                                |k2: int| keep_if(lc[k2].coords.g != first.coords.g && lc[k2].candidates@.contains(v), lc[k2]),
                            ),
                        decreases lc.len() - s,
                    {
                        let ghost before = others@;
                        let q = line_cells[s];
                        if q.coords.g != first.coords.g && q.candidates.contains(v) {
                            others.push(q);
                            proof {
                                assert(derefs(others@) =~= derefs(before) + seq![*q]);
                            }
                        }
                        s = s + 1;
                    }
                    if others.len() > 0 {
                        let condition = entries_of(&cells_with_value, v);
                        let conclusion = entries_of(&others, v);
                        proof {
                            assert(pointing_at(field@, dir, g as int, v));
                        }
                        return Some(
                            InferenceResult {
                                inference: kind,
                                condition,
                                conclusion_set_value: None,
                                conclusion_remove_drafts: Some(conclusion),
                            },
                        );
                    }
                }
            }
            v = v + 1;
        }
        g = g + 1;
    }
    None
}

// ---------------------------------------------------------------------------
// A digit of a line confined to one grid
// ---------------------------------------------------------------------------

/// The line kind (row or column) of the strategy that removes from a grid what a line
/// confines to it.
pub open spec fn claiming_kind(dir: IterDirection) -> InferenceKind {
    if dir == IterDirection::Row {
        InferenceKind::GridUniqueDraftByRowExclusion
    } else {
        InferenceKind::GridUniqueDraftByColExclusion
    }
}

/// The cells of grid `unit` off line `line` (of the given kind) that have candidate `v`.
pub open spec fn cells_off_line_with(unit: Seq<Cell>, dir: IterDirection, line: usize, v: u8) -> Seq<Cell> {
    range_concat(
        0,
        unit.len() as int,
        |s: int| keep_if(unit_of(unit[s].coords, dir) != line && unit[s].candidates@.contains(v), unit[s]),
    )
}

/// Whether the `s`-th draft cell of line `l` has candidate `v`, all draft cells of the line
/// lie in its grid, and the grid has draft cells off the line with candidate `v`.
pub open spec fn claiming_at(cells: Seq<Cell>, dir: IterDirection, l: int, v: u8, s: int) -> bool {
    let unit = unit_drafts(cells, dir, l);
    let p = unit[s];
    &&& 0 <= l < 9
    &&& v < 9
    &&& 0 <= s < unit.len()
    &&& p.candidates@.contains(v)
    &&& forall|k: int| 0 <= k < unit.len() ==> (#[trigger] unit[k]).coords.g == p.coords.g
    &&& cells_off_line_with(unit_drafts(cells, IterDirection::Grid, p.coords.g as int), dir, unit_of(p.coords, dir), v).len() > 0
}

/// The deduction of `claiming_at`.
pub open spec fn claiming_result(cells: Seq<Cell>, dir: IterDirection, l: int, v: u8, s: int) -> ResultView {
    let unit = unit_drafts(cells, dir, l);
    let p = unit[s];
    (
        claiming_kind(dir),
        entries_with(cells_with(unit, v), v),
        None,
        Some(entries_with(cells_off_line_with(unit_drafts(cells, IterDirection::Grid, p.coords.g as int), dir, unit_of(p.coords, dir), v), v)),
    )
}

/// The outcome of `claiming`: the first line, digit and cell, in that order, whose grid
/// confines the line's draft cells and has the digit off the line.
pub open spec fn claiming_outcome(cells: Seq<Cell>, dir: IterDirection, r: Option<ResultView>) -> bool {
    match r {
        None => forall|l: int, v: u8, s: int| !claiming_at(cells, dir, l, v, s),
        Some(res) => exists|l: int, v: u8, s: int|
            {
                &&& claiming_at(cells, dir, l, v, s)
                &&& forall|l2: int, v2: u8, s2: int| lex_before(l2, v2 as int, s2, l, v as int, s) ==> !claiming_at(cells, dir, l2, v2, s2)
                &&& res == claiming_result(cells, dir, l, v, s)
            },
    }
}

/// For each line of the given kind in turn and each digit, the first cell of the line with
/// the digit whose grid holds the whole line's draft cells and has draft cells with the
/// digit off the line: the digit is removed from those cells.
pub fn claiming(field: &Sudoku, dir: IterDirection) -> (ret: Option<InferenceResult>)
    requires
        field.wf(),
        dir != IterDirection::Grid,
    ensures
        claiming_outcome(field@, dir, result_view(ret)),
{
    let kind = if dir == IterDirection::Row {
        InferenceKind::GridUniqueDraftByRowExclusion
    } else {
        InferenceKind::GridUniqueDraftByColExclusion
    };
    let lines = draft_units(field, dir);
    let mut l: usize = 0;
    while l < 9
        invariant
            field.wf(),
            dir != IterDirection::Grid,
            kind == claiming_kind(dir),
            lines@.len() == 9,
            forall|u2: int| 0 <= u2 < 9 ==> derefs(#[trigger] lines@[u2]@) == unit_drafts(field@, dir, u2),
            l <= 9,
            forall|l2: int, v2: u8, s2: int| l2 < l ==> !claiming_at(field@, dir, l2, v2, s2),
        decreases 9 - l,
    {
        let vr = &lines[l];
        let ghost unit = unit_drafts(field@, dir, l as int);
        let mut v: u8 = 0;
        while v < 9
            invariant
                field.wf(),
                dir != IterDirection::Grid,
                kind == claiming_kind(dir),
                l < 9,
                unit == unit_drafts(field@, dir, l as int),
                derefs(vr@) == unit,
                v <= 9,
                forall|l2: int, v2: u8, s2: int| l2 < l ==> !claiming_at(field@, dir, l2, v2, s2),
                forall|v2: u8, s2: int| v2 < v ==> !claiming_at(field@, dir, l as int, v2, s2),
            decreases 9 - v,
        {
            let mut s: usize = 0;
            while s < vr.len()
                invariant
                    field.wf(),
                    dir != IterDirection::Grid,
                    kind == claiming_kind(dir),
                    l < 9,
                    v < 9,
                    unit == unit_drafts(field@, dir, l as int),
                    derefs(vr@) == unit,
                    s <= unit.len(),
                    forall|l2: int, v2: u8, s2: int| l2 < l ==> !claiming_at(field@, dir, l2, v2, s2),
                    forall|v2: u8, s2: int| v2 < v ==> !claiming_at(field@, dir, l as int, v2, s2),
                    forall|s2: int| s2 < s ==> !claiming_at(field@, dir, l as int, v, s2),
                decreases unit.len() - s,
            {
                let p = vr[s];
                proof {
                    assert(*p == unit[s as int]);
                    lemma_unit_member(field, dir, l as int, s as int);
                }
                if p.candidates.contains(v) {
                    let pg = p.coords.g;
                    let p_line = if dir == IterDirection::Row {
                        p.coords.r
                    } else {
                        p.coords.c
                    };
                    let mut all_in_same_grid = true;
                    let mut k: usize = 0;
                    while k < vr.len()
                        invariant
                            unit == derefs(vr@),
                            s < unit.len(),
                            pg == unit[s as int].coords.g,
                            k <= unit.len(),
                            all_in_same_grid == forall|k2: int| 0 <= k2 < k ==> (#[trigger] unit[k2]).coords.g == pg,
                        decreases unit.len() - k,
                    {
                        proof {
                            assert(*vr@[k as int] == unit[k as int]);
                        }
                        if vr[k].coords.g != pg {
                            all_in_same_grid = false;
                        }
                        k = k + 1;
                    }
                    let vg = field.collect_all_drafts_cells_in_g(pg);
                    let ghost gc = derefs(vg@);
                    proof {
                        assert(gc == unit_drafts(field@, IterDirection::Grid, pg as int));
                    }
                    let mut conclusion_cells: Vec<&Cell> = Vec::new();
                    let mut k: usize = 0;
                    while k < vg.len()
                        invariant
                            dir != IterDirection::Grid,
                            v < 9,
                            gc == derefs(vg@),
                            s < unit.len(),
                            p_line == unit_of(unit[s as int].coords, dir),
                            k <= gc.len(),
                            derefs(conclusion_cells@) == range_concat(
                                0,
                                k as int,
                                |k2: int| keep_if(unit_of(gc[k2].coords, dir) != p_line && gc[k2].candidates@.contains(v), gc[k2]),
                            ),
                        decreases gc.len() - k,
                    {
                        let ghost before = conclusion_cells@;
                        let q = vg[k];
                        let q_line = if dir == IterDirection::Row {
                            q.coords.r
                        } else {
                            q.coords.c
                        };
                        if q_line != p_line && q.candidates.contains(v) {
                            conclusion_cells.push(q);
                            proof {
                                assert(derefs(conclusion_cells@) =~= derefs(before) + seq![*q]);
                            }
                        }
                        k = k + 1;
                    }
                    if all_in_same_grid && conclusion_cells.len() > 0 {
                        let with_value = collect_with(vr, v);
                        let condition = entries_of(&with_value, v);
                        let conclusion = entries_of(&conclusion_cells, v);
                        proof {
                            assert(claiming_at(field@, dir, l as int, v, s as int));
                            assert forall|l2: int, v2: u8, s2: int|
                                lex_before(l2, v2 as int, s2, l as int, v as int, s as int) implies !claiming_at(
                                field@,
                                dir,
                                l2,
                                v2,
                                s2,
                            ) by {}
                        }
                        return Some(
                            InferenceResult {
                                inference: kind,
                                condition,
                                conclusion_set_value: None,
                                conclusion_remove_drafts: Some(conclusion),
                            },
                        );
                    }
                    proof {
                        let gcl = cells_off_line_with(gc, dir, p_line, v);
                        if claiming_at(field@, dir, l as int, v, s as int) {
                            assert(all_in_same_grid);
                            assert(gcl.len() > 0);
                        }
                    }
                }
                s = s + 1;
            }
            proof {
                assert forall|s2: int| !claiming_at(field@, dir, l as int, v, s2) by {
                    if 0 <= s2 < unit.len() {
                        assert(s2 < s);
                    }
                }
            }
            v = v + 1;
        }
        proof {
            assert forall|v2: u8, s2: int| !claiming_at(field@, dir, l as int, v2, s2) by {
                if v2 < 9 {
                    assert(v2 < v);
                }
            }
        }
        l = l + 1;
    }
    proof {
        assert forall|l2: int, v2: u8, s2: int| !claiming_at(field@, dir, l2, v2, s2) by {
            if 0 <= l2 < 9 {
                assert(l2 < l);
            }
        }
    }
    None
}

// ---------------------------------------------------------------------------
// Naked and hidden pairs, triples and quads
// ---------------------------------------------------------------------------

/// The index sets of sizes 2, 3 and 4 of a unit of `n` draft cells (each with the indices
/// it leaves out), in the order in which the strategies try them.
pub open spec fn all_combos(n: int) -> Seq<(Seq<usize>, Seq<usize>)> {
    combinations(n, 2, 0, Seq::empty()) + combinations(n, 3, 0, Seq::empty()) + combinations(n, 4, 0, Seq::empty())
}

/// The union of the candidates of the cells of `unit` at the indices `idxs`.
pub open spec fn union_of(unit: Seq<Cell>, idxs: Seq<usize>) -> Set<u8>
    decreases idxs.len(),
{
    if idxs.len() == 0 {
        Set::empty()
    } else {
        union_of(unit, idxs.drop_last()).union(unit[idxs.last() as int].candidates@)
    }
}

/// Whether the candidates `s` include a digit of `digits`.
pub open spec fn shares_digit(s: Set<u8>, digits: Seq<u8>) -> bool {
    exists|val: u8| digits_in(s).contains(val) && digits.contains(val)
}

/// The cells of `unit` at the indices `idxs` that share a digit with `digits`, each paired
/// with `digits`.
pub open spec fn sharing_entries(unit: Seq<Cell>, idxs: Seq<usize>, digits: Seq<u8>) -> Seq<(Coords, Seq<u8>)> {
    range_concat(
        0,
        idxs.len() as int,
        |k: int| keep_if(shares_digit(unit[idxs[k] as int].candidates@, digits), (unit[idxs[k] as int].coords, digits)),
    )
}

/// The cells of `unit` at the indices `idxs`, each paired with `digits`.
pub open spec fn idx_entries(unit: Seq<Cell>, idxs: Seq<usize>, digits: Seq<u8>) -> Seq<(Coords, Seq<u8>)> {
    idxs.map_values(|i: usize| (unit[i as int].coords, digits))
}

/// The strategy that the unit kind gives for naked subsets.
pub open spec fn naked_kind(dir: IterDirection) -> InferenceKind {
    match dir {
        IterDirection::Row => InferenceKind::RowExplicitNakedPairExclusion,
        IterDirection::Column => InferenceKind::ColExplicitNakedPairExclusion,
        IterDirection::Grid => InferenceKind::GridExplicitNakedPairExclusion,
    }
}

/// The strategy that the unit kind gives for hidden subsets.
pub open spec fn hidden_kind(dir: IterDirection) -> InferenceKind {
    match dir {
        IterDirection::Row => InferenceKind::RowExplicitHiddenPairExclusion,
        IterDirection::Column => InferenceKind::ColExplicitHiddenPairExclusion,
        IterDirection::Grid => InferenceKind::GridExplicitHiddenPairExclusion,
    }
}

/// Whether the `q`-th index set of unit `u` is a naked subset: its cells' candidates make
/// up exactly as many digits as it has cells, and some other cell of the unit shares one.
pub open spec fn naked_at(cells: Seq<Cell>, dir: IterDirection, u: int, q: int) -> bool {
    let unit = unit_drafts(cells, dir, u);
    let combos = all_combos(unit.len() as int);
    let digits = digits_in(union_of(unit, combos[q].0));
    &&& 0 <= u < 9
    &&& 0 <= q < combos.len()
    &&& digits.len() == combos[q].0.len()
    &&& sharing_entries(unit, combos[q].1, digits).len() > 0
}

/// The deduction of `naked_at`: the subset's digits leave the other cells that share them.
pub open spec fn naked_result(cells: Seq<Cell>, dir: IterDirection, u: int, q: int) -> ResultView {
    let unit = unit_drafts(cells, dir, u);
    let combos = all_combos(unit.len() as int);
    let digits = digits_in(union_of(unit, combos[q].0));
    (naked_kind(dir), idx_entries(unit, combos[q].0, digits), None, Some(sharing_entries(unit, combos[q].1, digits)))
}

/// Whether the `q`-th index set of unit `u` is a hidden subset: the other cells' candidates
/// make up exactly as many digits as there are other cells, and one of the set's cells
/// has one of those digits.
pub open spec fn hidden_at(cells: Seq<Cell>, dir: IterDirection, u: int, q: int) -> bool {
    let unit = unit_drafts(cells, dir, u);
    let combos = all_combos(unit.len() as int);
    let rest_digits = digits_in(union_of(unit, combos[q].1));
    &&& 0 <= u < 9
    &&& 0 <= q < combos.len()
    &&& rest_digits.len() == unit.len() - combos[q].0.len()
    &&& sharing_entries(unit, combos[q].0, rest_digits).len() > 0
}

/// The deduction of `hidden_at`: the set's cells keep only the digits the other cells lack.
pub open spec fn hidden_result(cells: Seq<Cell>, dir: IterDirection, u: int, q: int) -> ResultView {
    let unit = unit_drafts(cells, dir, u);
    let combos = all_combos(unit.len() as int);
    let rest_union = union_of(unit, combos[q].1);
    let hidden = union_of(unit, combos[q].0).difference(rest_union);
    (
        hidden_kind(dir),
        idx_entries(unit, combos[q].0, digits_in(hidden)),
        None,
        Some(sharing_entries(unit, combos[q].0, digits_in(rest_union))),
    )
}

/// The outcome of `naked_subset`: the first naked subset, by unit then index set.
pub open spec fn naked_subset_outcome(cells: Seq<Cell>, dir: IterDirection, r: Option<ResultView>) -> bool {
    match r {
        None => forall|u: int, q: int| !naked_at(cells, dir, u, q),
        Some(res) => exists|u: int, q: int|
            {
                &&& naked_at(cells, dir, u, q)
                &&& forall|u2: int, q2: int| (u2 < u || (u2 == u && q2 < q)) ==> !naked_at(cells, dir, u2, q2)
                &&& res == naked_result(cells, dir, u, q)
            },
    }
}

/// The outcome of `hidden_subset`: the first hidden subset, by unit then index set.
pub open spec fn hidden_subset_outcome(cells: Seq<Cell>, dir: IterDirection, r: Option<ResultView>) -> bool {
    match r {
        None => forall|u: int, q: int| !hidden_at(cells, dir, u, q),
        Some(res) => exists|u: int, q: int|
            {
                &&& hidden_at(cells, dir, u, q)
                &&& forall|u2: int, q2: int| (u2 < u || (u2 == u && q2 < q)) ==> !hidden_at(cells, dir, u2, q2)
                &&& res == hidden_result(cells, dir, u, q)
            },
    }
}

/// The index sets of sizes 2, 3 and 4 of a unit of `n` cells.
fn unit_combinations(n: usize) -> (ret: Vec<(Vec<usize>, Vec<usize>)>)
    ensures
        combo_views(ret@) == all_combos(n as int),
        forall|q: int|
            0 <= q < ret@.len() ==> {
                let e = #[trigger] combo_views(ret@)[q];
                &&& 2 <= e.0.len() < n
                &&& forall|k: int| 0 <= k < e.0.len() ==> (#[trigger] e.0[k]) < n
                &&& forall|k: int| 0 <= k < e.1.len() ==> (#[trigger] e.1[k]) < n
            },
{
    let mut all_combinations: Vec<(Vec<usize>, Vec<usize>)> = Vec::new();
    proof {
        assert(combo_views(all_combinations@) =~= Seq::<(Seq<usize>, Seq<usize>)>::empty());
    }
    let mut size: usize = 2;
    while size <= 4
        invariant
            2 <= size <= 5,
            combo_views(all_combinations@) == if size == 2 {
                Seq::empty()
            } else if size == 3 {
                combinations(n as int, 2, 0, Seq::empty())
            } else if size == 4 {
                combinations(n as int, 2, 0, Seq::empty()) + combinations(n as int, 3, 0, Seq::empty())
            } else {
                all_combos(n as int)
            },
        decreases 5 - size,
    {
        let mut paths: Vec<usize> = Vec::new();
        proof {
            assert(paths@ =~= Seq::<usize>::empty());
        }
        generate_combinations(n, size, 0, &mut paths, &mut all_combinations);
        proof {
            assert(Seq::<(Seq<usize>, Seq<usize>)>::empty() + combinations(n as int, 2, 0, Seq::empty()) =~= combinations(
                n as int,
                2,
                0,
                Seq::empty(),
            ));
        }
        size = size + 1;
    }
    proof {
        let a = combinations(n as int, 2, 0, Seq::empty());
        let b = combinations(n as int, 3, 0, Seq::empty());
        let c = combinations(n as int, 4, 0, Seq::empty());
        lemma_combinations_shape(n as int, 2, 0, Seq::empty());
        lemma_combinations_shape(n as int, 3, 0, Seq::empty());
        lemma_combinations_shape(n as int, 4, 0, Seq::empty());
        assert forall|q: int| 0 <= q < all_combinations@.len() implies {
            let e = #[trigger] combo_views(all_combinations@)[q];
            &&& 2 <= e.0.len() < n
            &&& forall|k: int| 0 <= k < e.0.len() ==> (#[trigger] e.0[k]) < n
            &&& forall|k: int| 0 <= k < e.1.len() ==> (#[trigger] e.1[k]) < n
        } by {
            let all = a + b + c;
            assert(combo_views(all_combinations@)[q] == all[q]);
            if q < a.len() {
                assert(all[q] == a[q]);
            } else if q < a.len() + b.len() {
                assert(all[q] == b[q - a.len()]);
            } else {
                assert(all[q] == c[q - a.len() - b.len()]);
            }
        }
    }
    all_combinations
}

/// The union of the candidates of the cells of `unit` at the indices `idxs`.
fn union_at(unit: &Vec<&Cell>, idxs: &Vec<usize>) -> (ret: Candidate)
    requires
        forall|k: int| 0 <= k < idxs@.len() ==> (#[trigger] idxs@[k]) < unit@.len(),
    ensures
        ret@ == union_of(derefs(unit@), idxs@),
{
    let mut acc = Candidate::default();
    let mut k: usize = 0;
    while k < idxs.len()
        invariant
            forall|k2: int| 0 <= k2 < idxs@.len() ==> (#[trigger] idxs@[k2]) < unit@.len(),
            k <= idxs@.len(),
            acc@ == union_of(derefs(unit@), idxs@.subrange(0, k as int)),
        decreases idxs@.len() - k,
    {
        let i = idxs[k];
        acc = acc.union(&unit[i].candidates);
        proof {
            assert(idxs@.subrange(0, k + 1).drop_last() =~= idxs@.subrange(0, k as int));
        }
        k = k + 1;
    }
    proof {
        assert(idxs@.subrange(0, idxs@.len() as int) =~= idxs@);
    }
    acc
}

/// Whether `v` holds `x`.
fn vec_contains_digit(v: &Vec<u8>, x: u8) -> (ret: bool)
    ensures
        ret == v@.contains(x),
{
    let mut i: usize = 0;
    while i < v.len()
        invariant
            i <= v@.len(),
            forall|j: int| 0 <= j < i ==> v@[j] != x,
        decreases v@.len() - i,
    {
        if v[i] == x {
            return true;
        }
        i = i + 1;
    }
    false
}

/// Whether the candidates `c` include a digit of `digits`.
fn shares_any(c: &Candidate, digits: &Vec<u8>) -> (ret: bool)
    ensures
        ret == shares_digit(c@, digits@),
{
    let vals = c.to_vec();
    let mut i: usize = 0;
    while i < vals.len()
        invariant
            vals@ == digits_in(c@),
            i <= vals@.len(),
            forall|j: int| 0 <= j < i ==> !digits@.contains(#[trigger] vals@[j]),
        decreases vals@.len() - i,
    {
        if vec_contains_digit(digits, vals[i]) {
            proof {
                assert(digits_in(c@).contains(vals@[i as int]));
            }
            return true;
        }
        i = i + 1;
    }
    proof {
        if shares_digit(c@, digits@) {
            let val = choose|val: u8| digits_in(c@).contains(val) && digits@.contains(val);
            let j = choose|j: int| 0 <= j < vals@.len() && vals@[j] == val;
        }
    }
    false
}

/// The cells of `unit` at `idxs` that share a digit with `digits`, each paired with them.
fn sharing(unit: &Vec<&Cell>, idxs: &Vec<usize>, digits: &Vec<u8>) -> (ret: Vec<TheCoordsAndTheValue>)
    requires
        forall|k: int| 0 <= k < idxs@.len() ==> (#[trigger] idxs@[k]) < unit@.len(),
    ensures
        entry_views(ret@) == sharing_entries(derefs(unit@), idxs@, digits@),
{
    let ghost us = derefs(unit@);
    let mut ret: Vec<TheCoordsAndTheValue> = Vec::new();
    let mut k: usize = 0;
    while k < idxs.len()
        invariant
            forall|k2: int| 0 <= k2 < idxs@.len() ==> (#[trigger] idxs@[k2]) < unit@.len(),
            us == derefs(unit@),
            k <= idxs@.len(),
            entry_views(ret@) == range_concat(
                0,
                k as int,
                |k2: int| keep_if(shares_digit(us[idxs@[k2] as int].candidates@, digits@), (us[idxs@[k2] as int].coords, digits@)),
            ),
        decreases idxs@.len() - k,
    {
        let i = idxs[k];
        let ghost before = ret@;
        if shares_any(&unit[i].candidates, digits) {
            let vals = copy_digits(digits);
            ret.push(TheCoordsAndTheValue { the_coords: unit[i].coords, the_value: vals });
            proof {
                assert(entry_views(ret@) =~= entry_views(before) + seq![(us[i as int].coords, digits@)]);
            }
        }
        k = k + 1;
    }
    ret
}

/// The cells of `unit` at `idxs`, each paired with `digits`.
fn entries_at(unit: &Vec<&Cell>, idxs: &Vec<usize>, digits: &Vec<u8>) -> (ret: Vec<TheCoordsAndTheValue>)
    requires
        forall|k: int| 0 <= k < idxs@.len() ==> (#[trigger] idxs@[k]) < unit@.len(),
    ensures
        entry_views(ret@) == idx_entries(derefs(unit@), idxs@, digits@),
{
    let mut ret: Vec<TheCoordsAndTheValue> = Vec::new();
    let mut k: usize = 0;
    while k < idxs.len()
        invariant
            forall|k2: int| 0 <= k2 < idxs@.len() ==> (#[trigger] idxs@[k2]) < unit@.len(),
            k <= idxs@.len(),
            ret@.len() == k,
            forall|k2: int| 0 <= k2 < k ==> #[trigger] ret@[k2]@ == (unit@[idxs@[k2] as int].coords, digits@),
        decreases idxs@.len() - k,
    {
        let i = idxs[k];
        let vals = copy_digits(digits);
        ret.push(TheCoordsAndTheValue { the_coords: unit[i].coords, the_value: vals });
        k = k + 1;
    }
    proof {
        assert(entry_views(ret@) =~= idx_entries(derefs(unit@), idxs@, digits@));
    }
    ret
}

/// A copy of a list of digits.
fn copy_digits(v: &Vec<u8>) -> (ret: Vec<u8>)
    ensures
        ret@ == v@,
{
    let mut ret: Vec<u8> = Vec::new();
    let mut i: usize = 0;
    while i < v.len()
        invariant
            i <= v@.len(),
            ret@ == v@.subrange(0, i as int),
        decreases v@.len() - i,
    {
        ret.push(v[i]);
        proof {
            assert(ret@ =~= v@.subrange(0, i + 1));
        }
        i = i + 1;
    }
    proof {
        assert(ret@ =~= v@);
    }
    ret
}

/// For each unit of the given kind in turn, the first set of 2 to 4 draft cells whose
/// candidates make up as many digits as there are cells, when another cell of the unit
/// shares one of them: those digits are removed from the other cells.
pub fn naked_subset(field: &Sudoku, dir: IterDirection) -> (ret: Option<InferenceResult>)
    requires
        field.wf(),
    ensures
        naked_subset_outcome(field@, dir, result_view(ret)),
{
    let kind = match dir {
        IterDirection::Row => InferenceKind::RowExplicitNakedPairExclusion,
        IterDirection::Column => InferenceKind::ColExplicitNakedPairExclusion,
        IterDirection::Grid => InferenceKind::GridExplicitNakedPairExclusion,
    };
    let units = draft_units(field, dir);
    let mut u: usize = 0;
    while u < 9
        invariant
            field.wf(),
            kind == naked_kind(dir),
            units@.len() == 9,
            forall|u2: int| 0 <= u2 < 9 ==> derefs(#[trigger] units@[u2]@) == unit_drafts(field@, dir, u2),
            u <= 9,
            forall|u2: int, q2: int| u2 < u ==> !naked_at(field@, dir, u2, q2),
        decreases 9 - u,
    {
        let vr = &units[u];
        let ghost unit = unit_drafts(field@, dir, u as int);
        let all_combinations = unit_combinations(vr.len());
        let mut q: usize = 0;
        while q < all_combinations.len()
            invariant
                field.wf(),
                kind == naked_kind(dir),
                u < 9,
                unit == unit_drafts(field@, dir, u as int),
                derefs(vr@) == unit,
                combo_views(all_combinations@) == all_combos(vr@.len() as int),
                forall|q2: int|
                    0 <= q2 < all_combinations@.len() ==> {
                        let e = #[trigger] combo_views(all_combinations@)[q2];
                        &&& 2 <= e.0.len() < vr@.len()
                        &&& forall|k: int| 0 <= k < e.0.len() ==> (#[trigger] e.0[k]) < vr@.len()
                        &&& forall|k: int| 0 <= k < e.1.len() ==> (#[trigger] e.1[k]) < vr@.len()
                    },
                q <= all_combinations@.len(),
                forall|u2: int, q2: int| u2 < u ==> !naked_at(field@, dir, u2, q2),
                forall|q2: int| q2 < q ==> !naked_at(field@, dir, u as int, q2),
            decreases all_combinations@.len() - q,
        {
            let combo = &all_combinations[q].0;
            let rest = &all_combinations[q].1;
            proof {
                assert(combo_views(all_combinations@)[q as int] == (combo@, rest@));
                let e = combo_views(all_combinations@)[q as int];
                assert forall|k: int| 0 <= k < rest@.len() implies (#[trigger] rest@[k]) < vr@.len() by {
                    assert(e.1[k] == rest@[k]);
                }
                assert forall|k: int| 0 <= k < combo@.len() implies (#[trigger] combo@[k]) < vr@.len() by {
                    assert(e.0[k] == combo@[k]);
                }
            }
            let union_drafts = union_at(vr, combo);
            let union_drafts_vec = union_drafts.to_vec();
            if union_drafts_vec.len() == combo.len() {
                let condition = entries_at(vr, combo, &union_drafts_vec);
                let conclusion = sharing(vr, rest, &union_drafts_vec);
                if conclusion.len() > 0 {
                    proof {
                        assert(naked_at(field@, dir, u as int, q as int));
                    }
                    return Some(
                        InferenceResult {
                            inference: kind,
                            condition,
                            conclusion_set_value: None,
                            conclusion_remove_drafts: Some(conclusion),
                        },
                    );
                }
            }
            q = q + 1;
        }
        proof {
            assert forall|q2: int| !naked_at(field@, dir, u as int, q2) by {
                if 0 <= q2 < all_combinations@.len() {
                    assert(q2 < q);
                }
            }
        }
        u = u + 1;
    }
    proof {
        assert forall|u2: int, q2: int| !naked_at(field@, dir, u2, q2) by {
            if 0 <= u2 < 9 {
                assert(u2 < u);
            }
        }
    }
    None
}

/// For each unit of the given kind in turn, the first set of 2 to 4 draft cells such that
/// the other cells' candidates make up as many digits as there are other cells, when one
/// of the set's cells has one of those digits: those digits are removed from the set.
pub fn hidden_subset(field: &Sudoku, dir: IterDirection) -> (ret: Option<InferenceResult>)
    requires
        field.wf(),
    ensures
        hidden_subset_outcome(field@, dir, result_view(ret)),
{
    let kind = match dir {
        IterDirection::Row => InferenceKind::RowExplicitHiddenPairExclusion,
        IterDirection::Column => InferenceKind::ColExplicitHiddenPairExclusion,
        IterDirection::Grid => InferenceKind::GridExplicitHiddenPairExclusion,
    };
    let units = draft_units(field, dir);
    let mut u: usize = 0;
    while u < 9
        invariant
            field.wf(),
            kind == hidden_kind(dir),
            units@.len() == 9,
            forall|u2: int| 0 <= u2 < 9 ==> derefs(#[trigger] units@[u2]@) == unit_drafts(field@, dir, u2),
            u <= 9,
            forall|u2: int, q2: int| u2 < u ==> !hidden_at(field@, dir, u2, q2),
        decreases 9 - u,
    {
        let vr = &units[u];
        let ghost unit = unit_drafts(field@, dir, u as int);
        let all_combinations = unit_combinations(vr.len());
        let mut q: usize = 0;
        while q < all_combinations.len()
            invariant
                field.wf(),
                kind == hidden_kind(dir),
                u < 9,
                unit == unit_drafts(field@, dir, u as int),
                derefs(vr@) == unit,
                combo_views(all_combinations@) == all_combos(vr@.len() as int),
                forall|q2: int|
                    0 <= q2 < all_combinations@.len() ==> {
                        let e = #[trigger] combo_views(all_combinations@)[q2];
                        &&& 2 <= e.0.len() < vr@.len()
                        &&& forall|k: int| 0 <= k < e.0.len() ==> (#[trigger] e.0[k]) < vr@.len()
                        &&& forall|k: int| 0 <= k < e.1.len() ==> (#[trigger] e.1[k]) < vr@.len()
                    },
                q <= all_combinations@.len(),
                forall|u2: int, q2: int| u2 < u ==> !hidden_at(field@, dir, u2, q2),
                forall|q2: int| q2 < q ==> !hidden_at(field@, dir, u as int, q2),
            decreases all_combinations@.len() - q,
        {
            let combo = &all_combinations[q].0;
            let rest = &all_combinations[q].1;
            proof {
                assert(combo_views(all_combinations@)[q as int] == (combo@, rest@));
                let e = combo_views(all_combinations@)[q as int];
                assert forall|k: int| 0 <= k < rest@.len() implies (#[trigger] rest@[k]) < vr@.len() by {
                    assert(e.1[k] == rest@[k]);
                }
                assert forall|k: int| 0 <= k < combo@.len() implies (#[trigger] combo@[k]) < vr@.len() by {
                    assert(e.0[k] == combo@[k]);
                }
            }
            let rest_union_drafts = union_at(vr, rest);
            let rest_union_drafts_vec = rest_union_drafts.to_vec();
            if rest_union_drafts_vec.len() == vr.len() - combo.len() {
                let combo_union_drafts = union_at(vr, combo);
                let hidden_pair_drafts = combo_union_drafts.subtract(&rest_union_drafts);
                let hidden_vec = hidden_pair_drafts.to_vec();
                let condition = entries_at(vr, combo, &hidden_vec);
                let conclusion = sharing(vr, combo, &rest_union_drafts_vec);
                if conclusion.len() > 0 {
                    proof {
                        assert(hidden_at(field@, dir, u as int, q as int));
                    }
                    return Some(
                        InferenceResult {
                            inference: kind,
                            condition,
                            conclusion_set_value: None,
                            conclusion_remove_drafts: Some(conclusion),
                        },
                    );
                }
            }
            q = q + 1;
        }
        proof {
            assert forall|q2: int| !hidden_at(field@, dir, u as int, q2) by {
                if 0 <= q2 < all_combinations@.len() {
                    assert(q2 < q);
                }
            }
        }
        u = u + 1;
    }
    proof {
        assert forall|u2: int, q2: int| !hidden_at(field@, dir, u2, q2) by {
            if 0 <= u2 < 9 {
                assert(u2 < u);
            }
        }
    }
    None
}

// ---------------------------------------------------------------------------
// Fish: X-wing, swordfish, jellyfish
// ---------------------------------------------------------------------------

/// The board index of position `other` on line `one` of the given kind (row or column).
pub open spec fn line_index(dir: IterDirection, one: int, other: int) -> int {
    if dir == IterDirection::Row {
        idx(one, other)
    } else {
        idx(other, one)
    }
}

/// The row/column position of position `other` on line `one` of the given kind.
pub open spec fn line_rc(dir: IterDirection, one: usize, other: usize) -> RCCoords {
    if dir == IterDirection::Row {
        RCCoords { r: one, c: other }
    } else {
        RCCoords { r: other, c: one }
    }
}

/// Where candidate `v` lies on line `one`: for each draft cell of the line with candidate
/// `v`, its line and its position on the line, in order.
pub open spec fn fish_positions(cells: Seq<Cell>, dir: IterDirection, v: u8, one: int) -> Seq<(usize, usize)> {
    range_concat(
        0,
        9,
        |o: int|
            keep_if(
                is_draft(cells[line_index(dir, one, o)]) && cells[line_index(dir, one, o)].candidates@.contains(v),
                (unit_of(cells[line_index(dir, one, o)].coords, dir), pos_in_unit(cells[line_index(dir, one, o)].coords, dir)),
            ),
    )
}

/// Whether position `c` occurs among the positions `v1`.
pub open spec fn has_position(v1: Seq<(usize, usize)>, c: usize) -> bool {
    exists|m: int| 0 <= m < v1.len() && v1[m].1 == c
}

/// Whether `v2` is non-empty and each of its positions occurs among those of `v1`.
pub open spec fn fish_pair(v1: Seq<(usize, usize)>, v2: Seq<(usize, usize)>) -> bool {
    &&& v2.len() > 0
    &&& forall|k: int| 0 <= k < v2.len() ==> has_position(v1, (#[trigger] v2[k]).1)
}

/// Line `o` when it differs from `one` and its positions of `v` fall within those of `one`.
pub open spec fn fish_partner(cells: Seq<Cell>, dir: IterDirection, v: u8, one: int) -> spec_fn(int) -> Seq<usize> {
    |o: int| keep_if(o != one && fish_pair(fish_positions(cells, dir, v, one), fish_positions(cells, dir, v, o)), o as usize)
}

/// Line `one` followed by the other lines whose positions of `v` fall within its own.
pub open spec fn fish_lines(cells: Seq<Cell>, dir: IterDirection, v: u8, one: int) -> Seq<usize> {
    seq![one as usize] + range_concat(0, 9, fish_partner(cells, dir, v, one))
}

/// The positions of `v` on line `one`.
pub open spec fn fish_others(cells: Seq<Cell>, dir: IterDirection, v: u8, one: int) -> Seq<usize> {
    fish_positions(cells, dir, v, one).map_values(|p: (usize, usize)| p.1)
}

/// The entries of the fish: every crossing of its lines and positions, with `v`.
pub open spec fn fish_condition(dir: IterDirection, v: u8, lines: Seq<usize>, others: Seq<usize>) -> Seq<(Coords, Seq<u8>)> {
    range_concat(
        0,
        lines.len() as int,
        |i: int|
            Seq::new(
                others.len(),
                |j: int| (spec_coords_of_rc(line_rc(dir, lines[i], others[j])), seq![v]),
            ),
    )
}

/// The draft cells with candidate `v` at the fish's positions on the other lines.
pub open spec fn fish_conclusion(cells: Seq<Cell>, dir: IterDirection, v: u8, lines: Seq<usize>, others: Seq<usize>) -> Seq<
    (Coords, Seq<u8>),
> {
    range_concat(
        0,
        9,
        |o: int|
            if lines.contains(o as usize) {
                Seq::empty()
            } else {
                range_concat(
                    0,
                    others.len() as int,
                    |j: int|
                        keep_if(
                            is_draft(cells[line_index(dir, o, others[j] as int)]) && cells[line_index(
                                dir,
                                o,
                                others[j] as int,
                            )].candidates@.contains(v),
                            (spec_coords_of_rc(line_rc(dir, o as usize, others[j])), seq![v]),
                        ),
                )
            },
    )
}

/// Whether line `one` anchors a fish for `v`: it holds 2 to 4 positions of `v`, exactly
/// that many lines (itself included) hold `v` only at those positions, and some other line
/// has `v` at one of them.
pub open spec fn fish_at(cells: Seq<Cell>, dir: IterDirection, v: u8, one: int) -> bool {
    let n = fish_positions(cells, dir, v, one).len();
    &&& v < 9
    &&& 0 <= one < 9
    &&& 2 <= n <= 4
    &&& fish_lines(cells, dir, v, one).len() == n
    &&& fish_conclusion(cells, dir, v, fish_lines(cells, dir, v, one), fish_others(cells, dir, v, one)).len() > 0
}

/// The deduction of `fish_at`.
pub open spec fn fish_result(cells: Seq<Cell>, dir: IterDirection, v: u8, one: int) -> ResultView {
    let lines = fish_lines(cells, dir, v, one);
    let others = fish_others(cells, dir, v, one);
    (InferenceKind::NStepFish, fish_condition(dir, v, lines, others), None, Some(fish_conclusion(cells, dir, v, lines, others)))
}

/// Whether `v2` is non-empty and each of its positions occurs among those of `v1`.
pub fn is_n_fish_pair(v1: &Vec<(usize, usize)>, v2: &Vec<(usize, usize)>) -> (ret: bool)
    ensures
        ret == fish_pair(v1@, v2@),
{
    if v2.len() == 0 {
        return false;
    }
    let mut k: usize = 0;
    while k < v2.len()
        invariant
            v2@.len() > 0,
            k <= v2@.len(),
            forall|k2: int| 0 <= k2 < k ==> has_position(v1@, (#[trigger] v2@[k2]).1),
        decreases v2@.len() - k,
    {
        let (_, v2_c) = v2[k];
        let mut found = false;
        let mut m: usize = 0;
        while m < v1.len()
            invariant
                m <= v1@.len(),
                k < v2@.len(),
                v2_c == v2@[k as int].1,
                found == exists|m2: int| 0 <= m2 < m && v1@[m2].1 == v2_c,
            decreases v1@.len() - m,
        {
            let (_, v1_c) = v1[m];
            if v1_c == v2_c {
                found = true;
            }
            m = m + 1;
        }
        if !found {
            proof {
                assert(!has_position(v1@, v2@[k as int].1));
            }
            return false;
        }
        proof {
            let m0 = choose|m2: int| 0 <= m2 < v1@.len() && v1@[m2].1 == v2_c;
            assert(has_position(v1@, v2@[k as int].1));
        }
        k = k + 1;
    }
    proof {
        assert(fish_pair(v1@, v2@));
    }
    true
}

/// For each line of the given kind, where candidate `v` lies on it.
fn positions_of(field: &Sudoku, v: u8, direction: &IterDirection) -> (ret: Vec<Vec<(usize, usize)>>)
    requires
        field.wf(),
        v < 9,
        *direction != IterDirection::Grid,
    ensures
        ret@.len() == 9,
        forall|one: int| 0 <= one < 9 ==> (#[trigger] ret@[one])@ == fish_positions(field@, *direction, v, one),
{
    let mut all_v_in_field: Vec<Vec<(usize, usize)>> = Vec::new();
    let mut one_index: usize = 0;
    while one_index < 9
        invariant
            field.wf(),
            v < 9,
            *direction != IterDirection::Grid,
            one_index <= 9,
            all_v_in_field@.len() == one_index,
            forall|one: int| 0 <= one < one_index ==> (#[trigger] all_v_in_field@[one])@ == fish_positions(field@, *direction, v, one),
        decreases 9 - one_index,
    {
        let mut all_v_in_one_index: Vec<(usize, usize)> = Vec::new();
        let mut other_index: usize = 0;
        while other_index < 9
            invariant
                field.wf(),
                v < 9,
                *direction != IterDirection::Grid,
                one_index < 9,
                other_index <= 9,
                all_v_in_one_index@ == range_concat(
                    0,
                    other_index as int,
                    |o: int|
                        keep_if(
                            is_draft(field@[line_index(*direction, one_index as int, o)]) && field@[line_index(*direction, one_index as int, o)].candidates@.contains(v),
                            (unit_of(field@[line_index(*direction, one_index as int, o)].coords, *direction), pos_in_unit(field@[line_index(*direction, one_index as int, o)].coords, *direction)),
                        ),
                ),
            decreases 9 - other_index,
        {
            let rc = get_rc_coord_with_direction(one_index, other_index, direction);
            let p = field.get_cell_ref_by_rc(rc);
            let ghost before = all_v_in_one_index@;
            if p.status == CellStatus::DRAFT && p.candidates.contains(v) {
                let pair = if *direction == IterDirection::Row {
                    (p.coords.r, p.coords.c)
                } else {
                    (p.coords.c, p.coords.r)
                };
                all_v_in_one_index.push(pair);
            }
            proof {
                let f = |o: int|
                    keep_if(
                        is_draft(field@[line_index(*direction, one_index as int, o)]) && field@[line_index(*direction, one_index as int, o)].candidates@.contains(v),
                        (unit_of(field@[line_index(*direction, one_index as int, o)].coords, *direction), pos_in_unit(field@[line_index(*direction, one_index as int, o)].coords, *direction)),
                    );
                assert(all_v_in_one_index@ =~= before + f(other_index as int));
            }
            other_index = other_index + 1;
        }
        all_v_in_field.push(all_v_in_one_index);
        one_index = one_index + 1;
    }
    all_v_in_field
}

/// The entries of a fish: each line crossed with each position, with digit `v`.
fn create_condition(v: u8, direction: &IterDirection, one_indexes: &Vec<usize>, other_indexes: &Vec<usize>) -> (ret: Vec<
    TheCoordsAndTheValue,
>)
    requires
        *direction != IterDirection::Grid,
        one_indexes@.len() == other_indexes@.len(),
    ensures
        entry_views(ret@) == fish_condition(*direction, v, one_indexes@, other_indexes@),
{
    let mut condition: Vec<TheCoordsAndTheValue> = Vec::new();
    let n = one_indexes.len();
    let mut i: usize = 0;
    while i < n
        invariant
            *direction != IterDirection::Grid,
            n == one_indexes@.len(),
            n == other_indexes@.len(),
            i <= n,
            entry_views(condition@) == range_concat(
                0,
                i as int,
                |i2: int|
                    Seq::new(
                        other_indexes@.len(),
                        |j: int| (spec_coords_of_rc(line_rc(*direction, one_indexes@[i2], other_indexes@[j])), seq![v]),
                    ),
            ),
        decreases n - i,
    {
        let ghost before = entry_views(condition@);
        let mut j: usize = 0;
        while j < n
            invariant
                *direction != IterDirection::Grid,
                n == one_indexes@.len(),
                n == other_indexes@.len(),
                i < n,
                j <= n,
                entry_views(condition@) == before + Seq::new(
                    j as nat,
                    |j2: int| (spec_coords_of_rc(line_rc(*direction, one_indexes@[i as int], other_indexes@[j2])), seq![v]),
                ),
            decreases n - j,
        {
            let (one_index, other_index) = (one_indexes[i], other_indexes[j]);
            let ghost prev = condition@;
            let entry = create_simple_cell_and_value(get_coords_with_direction(one_index, other_index, direction), v);
            condition.push(entry);
            proof {
                assert(entry_views(condition@) =~= entry_views(prev).push(entry@));
                assert(entry_views(condition@) =~= before + Seq::new(
                    (j + 1) as nat,
                    |j2: int| (spec_coords_of_rc(line_rc(*direction, one_indexes@[i as int], other_indexes@[j2])), seq![v]),
                ));
            }
            j = j + 1;
        }
        i = i + 1;
    }
    condition
}

/// The draft cells with candidate `v` at the fish's positions on the lines not in the
/// fish, with `v`.
fn create_conclusion(field: &Sudoku, v: u8, direction: &IterDirection, one_indexes: &Vec<usize>, other_indexes: &Vec<usize>) -> (ret: Vec<
    TheCoordsAndTheValue,
>)
    requires
        field.wf(),
        v < 9,
        *direction != IterDirection::Grid,
        one_indexes@.len() == other_indexes@.len(),
        forall|j: int| 0 <= j < other_indexes@.len() ==> (#[trigger] other_indexes@[j]) < 9,
    ensures
        entry_views(ret@) == fish_conclusion(field@, *direction, v, one_indexes@, other_indexes@),
{
    let mut conclusion: Vec<TheCoordsAndTheValue> = Vec::new();
    let ghost others = other_indexes@;
    let ghost lines = one_indexes@;
    let mut one_index: usize = 0;
    while one_index < 9
        invariant
            field.wf(),
            v < 9,
            *direction != IterDirection::Grid,
            others == other_indexes@,
            lines == one_indexes@,
            forall|j: int| 0 <= j < others.len() ==> (#[trigger] others[j]) < 9,
            one_index <= 9,
            entry_views(conclusion@) == range_concat(
                0,
                one_index as int,
                |o: int|
                    if lines.contains(o as usize) {
                        Seq::empty()
                    } else {
                        range_concat(
                            0,
                            others.len() as int,
                            |j: int|
                                keep_if(
                                    is_draft(field@[line_index(*direction, o, others[j] as int)]) && field@[line_index(
                                        *direction,
                                        o,
                                        others[j] as int,
                                    )].candidates@.contains(v),
                                    (spec_coords_of_rc(line_rc(*direction, o as usize, others[j])), seq![v]),
                                ),
                        )
                    },
            ),
        decreases 9 - one_index,
    {
        let ghost before = entry_views(conclusion@);
        if !crate::utils::vec_contains(one_indexes, one_index) {
            let mut j: usize = 0;
            while j < other_indexes.len()
                invariant
                    field.wf(),
                    v < 9,
                    *direction != IterDirection::Grid,
                    others == other_indexes@,
                    forall|j2: int| 0 <= j2 < others.len() ==> (#[trigger] others[j2]) < 9,
                    one_index < 9,
                    j <= others.len(),
                    entry_views(conclusion@) == before + range_concat(
                        0,
                        j as int,
                        |j2: int|
                            keep_if(
                                is_draft(field@[line_index(*direction, one_index as int, others[j2] as int)]) && field@[line_index(
                                    *direction,
                                    one_index as int,
                                    others[j2] as int,
                                )].candidates@.contains(v),
                                (spec_coords_of_rc(line_rc(*direction, one_index, others[j2])), seq![v]),
                            ),
                    ),
                decreases others.len() - j,
            {
                let other_index = other_indexes[j];
                let rc = get_rc_coord_with_direction(one_index, other_index, direction);
                let cell = field.get_cell_ref_by_rc(rc);
                let ghost prev = conclusion@;
                if cell.status == CellStatus::DRAFT && cell.candidates.contains(v) {
                    let entry = create_simple_cell_and_value(Coords::from(rc), v);
                    conclusion.push(entry);
                    proof {
                        assert(entry_views(conclusion@) =~= entry_views(prev).push(entry@));
                    }
                }
                proof {
                    let f = |j2: int|
                        keep_if(
                            is_draft(field@[line_index(*direction, one_index as int, others[j2] as int)]) && field@[line_index(
                                *direction,
                                one_index as int,
                                others[j2] as int,
                            )].candidates@.contains(v),
                            (spec_coords_of_rc(line_rc(*direction, one_index, others[j2])), seq![v]),
                        );
                    assert(range_concat(0, j + 1, f) == range_concat(0, j as int, f) + f(j as int));
                    assert(entry_views(conclusion@) =~= before + range_concat(0, j + 1, f));
                }
                j = j + 1;
            }
        } else {
            proof {
                assert(entry_views(conclusion@) =~= before + Seq::<(Coords, Seq<u8>)>::empty());
            }
        }
        one_index = one_index + 1;
    }
    conclusion
}

/// The first line of the given kind that anchors a fish for `v`.
fn self_analyze_with_direction(field: &Sudoku, v: u8, direction: &IterDirection) -> (ret: Option<InferenceResult>)
    requires
        field.wf(),
        v < 9,
        *direction != IterDirection::Grid,
    ensures
        match ret {
            None => forall|one: int| !fish_at(field@, *direction, v, one),
            Some(res) => exists|one: int|
                {
                    &&& fish_at(field@, *direction, v, one)
                    &&& forall|one2: int| one2 < one ==> !fish_at(field@, *direction, v, one2)
                    &&& res@ == fish_result(field@, *direction, v, one)
                },
        },
{
    let all_v_in_field = positions_of(field, v, direction);
    let mut one_index: usize = 0;
    while one_index < 9
        invariant
            field.wf(),
            v < 9,
            *direction != IterDirection::Grid,
            all_v_in_field@.len() == 9,
            forall|one: int| 0 <= one < 9 ==> (#[trigger] all_v_in_field@[one])@ == fish_positions(field@, *direction, v, one),
            one_index <= 9,
            forall|one2: int| one2 < one_index ==> !fish_at(field@, *direction, v, one2),
        decreases 9 - one_index,
    {
        let cur_len = all_v_in_field[one_index].len();
        let ghost pos = fish_positions(field@, *direction, v, one_index as int);
        proof {
            assert(all_v_in_field@[one_index as int]@ == pos);
        }
        if cur_len >= 2 && cur_len <= 4 {
            let mut pair_one_index: Vec<usize> = vec![one_index];
            let mut one_index_2: usize = 0;
            while one_index_2 < 9
                invariant
                    field.wf(),
                    v < 9,
                    *direction != IterDirection::Grid,
                    all_v_in_field@.len() == 9,
                    forall|one: int| 0 <= one < 9 ==> (#[trigger] all_v_in_field@[one])@ == fish_positions(field@, *direction, v, one),
                    one_index < 9,
                    one_index_2 <= 9,
                    pair_one_index@ == seq![one_index] + range_concat(
                        0,
                        one_index_2 as int,
                        fish_partner(field@, *direction, v, one_index as int),
                    ),
                decreases 9 - one_index_2,
            {
                let ghost before = pair_one_index@;
                if one_index_2 != one_index && is_n_fish_pair(&all_v_in_field[one_index], &all_v_in_field[one_index_2]) {
                    pair_one_index.push(one_index_2);
                }
                proof {
                    let f = fish_partner(field@, *direction, v, one_index as int);
                    assert(range_concat(0, one_index_2 + 1, f) == range_concat(0, one_index_2 as int, f) + f(one_index_2 as int));
                    assert(pair_one_index@ =~= seq![one_index] + range_concat(0, one_index_2 + 1, f));
                }
                one_index_2 = one_index_2 + 1;
            }
            if pair_one_index.len() == cur_len {
                let mut others: Vec<usize> = Vec::new();
                let mut k: usize = 0;
                while k < all_v_in_field[one_index].len()
                    invariant
                        field.wf(),
                        all_v_in_field@.len() == 9,
                        one_index < 9,
                        pos == all_v_in_field@[one_index as int]@,
                        k <= pos.len(),
                        others@ == pos.subrange(0, k as int).map_values(|p: (usize, usize)| p.1),
                    decreases pos.len() - k,
                {
                    let (_, other_index) = all_v_in_field[one_index][k];
                    others.push(other_index);
                    proof {
                        assert(others@ =~= pos.subrange(0, k + 1).map_values(|p: (usize, usize)| p.1));
                    }
                    k = k + 1;
                }
                proof {
                    assert(pos.subrange(0, pos.len() as int) =~= pos);
                    assert(others@ == fish_others(field@, *direction, v, one_index as int));
                    lemma_fish_positions_bounded(field, *direction, v, one_index as int);
                }
                let condition = create_condition(v, direction, &pair_one_index, &others);
                let conclusion = create_conclusion(field, v, direction, &pair_one_index, &others);
                if conclusion.len() > 0 {
                    proof {
                        assert(pair_one_index@ == fish_lines(field@, *direction, v, one_index as int));
                        assert(entry_views(conclusion@).len() > 0);
                        assert(fish_at(field@, *direction, v, one_index as int));
                    }
                    return Some(
                        InferenceResult {
                            inference: InferenceKind::NStepFish,
                            condition,
                            conclusion_set_value: None,
                            conclusion_remove_drafts: Some(conclusion),
                        },
                    );
                }
            }
        }
        one_index = one_index + 1;
    }
    None
}

/// The positions recorded for candidate `v` on a line are board positions.
proof fn lemma_fish_positions_bounded(field: &Sudoku, dir: IterDirection, v: u8, one: int)
    requires
        field.wf(),
        0 <= one < 9,
        dir != IterDirection::Grid,
    ensures
        forall|j: int|
            0 <= j < fish_others(field@, dir, v, one).len() ==> (#[trigger] fish_others(field@, dir, v, one)[j]) < 9,
{
    let cells = field@;
    let f = |o: int|
        keep_if(
            is_draft(cells[line_index(dir, one, o)]) && cells[line_index(dir, one, o)].candidates@.contains(v),
            (unit_of(cells[line_index(dir, one, o)].coords, dir), pos_in_unit(cells[line_index(dir, one, o)].coords, dir)),
        );
    assert forall|j: int| 0 <= j < fish_others(cells, dir, v, one).len() implies (#[trigger] fish_others(cells, dir, v, one)[j]) < 9 by {
        assert forall|k: int| 0 <= k < 9 implies #[trigger] f(k).len() <= 1 by {}
        lemma_range_concat_member(0, 9, f, j);
        let o = choose|o: int| 0 <= o < 9 && #[trigger] f(o).len() == 1 && f(o)[0] == range_concat(0, 9, f)[j];
        if dir == IterDirection::Row {
            lemma_idx_coords(one, o);
        } else {
            lemma_idx_coords(o, one);
        }
    }
}

/// The outcome of `n_step_fish`: for the first digit with a fish, the first row fish, else
/// the first column fish.
pub open spec fn fish_outcome(cells: Seq<Cell>, r: Option<ResultView>) -> bool {
    match r {
        None => forall|v: u8, one: int| !fish_at(cells, IterDirection::Row, v, one) && !fish_at(cells, IterDirection::Column, v, one),
        Some(res) => exists|v: u8, dir: IterDirection, one: int|
            {
                &&& v < 9
                &&& dir != IterDirection::Grid
                &&& fish_at(cells, dir, v, one)
                &&& forall|v2: u8, one2: int| v2 < v ==> !fish_at(cells, IterDirection::Row, v2, one2) && !fish_at(cells, IterDirection::Column, v2, one2)
                &&& forall|one2: int| one2 < one ==> !fish_at(cells, dir, v, one2)
                &&& dir == IterDirection::Column ==> forall|one2: int| !fish_at(cells, IterDirection::Row, v, one2)
                &&& res == fish_result(cells, dir, v, one)
            },
    }
}

/// For each digit in turn, the first fish over rows, else the first fish over columns.
pub fn n_step_fish(field: &Sudoku) -> (ret: Option<InferenceResult>)
    requires
        field.wf(),
    ensures
        fish_outcome(field@, result_view(ret)),
{
    let mut v: u8 = 0;
    while v < 9
        invariant
            field.wf(),
            v <= 9,
            forall|v2: u8, one2: int| v2 < v ==> !fish_at(field@, IterDirection::Row, v2, one2) && !fish_at(field@, IterDirection::Column, v2, one2),
        decreases 9 - v,
    {
        let by_rows = self_analyze_with_direction(field, v, &IterDirection::Row);
        let by_cols = self_analyze_with_direction(field, v, &IterDirection::Column);
        if by_rows.is_some() {
            return by_rows;
        }
        if by_cols.is_some() {
            return by_cols;
        }
        v = v + 1;
    }
    None
}

// ---------------------------------------------------------------------------
// Exhaustive search
// ---------------------------------------------------------------------------

/// The cells whose status the solution `sol` changed, each with the digit it got.
pub open spec fn exploit_entries(cells: Seq<Cell>, sol: Seq<Cell>) -> Seq<(Coords, Seq<u8>)> {
    range_concat(0, 81, |k: int| keep_if(sol[k].status != cells[k].status, (cells[k].coords, seq![sol[k].value->0])))
}

/// What exhaustive search concludes: when the search finds exactly one solution, fill in
/// every cell it filled; otherwise nothing.
pub open spec fn exploit_outcome(cells: Seq<Cell>) -> Option<ResultView> {
    let sols = search(cells, Seq::empty()).1;
    if sols.len() == 1 {
        Some((InferenceKind::Exploit, Seq::empty(), Some(exploit_entries(cells, sols[0])), None))
    } else {
        None
    }
}

/// Solves the board by search; when exactly one solution turns up, every cell it filled
/// in is to be set.
pub fn exploit(field: &Sudoku) -> (ret: Option<InferenceResult>)
    requires
        field.wf(),
    ensures
        exploit_outcome(field@) == result_view(ret),
{
    let solve_field = field.sovle();
    proof {
        lemma_search_solutions(field@, Seq::empty());
    }
    if solve_field.len() == 0 {
        None
    } else {
        if solve_field.len() == 1 {
            let sol = &solve_field[0];
            let ghost sol_cells = boards_view(solve_field@)[0];
            proof {
                assert(sol@ == sol_cells);
                assert(completes(field@, sol_cells));
                assert forall|i: int| 0 <= i < 81 implies #[trigger] sol@[i].coords == coords_of_index(i) by {
                    assert(crate::types::completes_cell(field@[i], sol_cells[i]));
                }
            }
            let mut conclusion: Vec<TheCoordsAndTheValue> = Vec::new();
            let mut r: usize = 0;
            while r < 9
                invariant
                    field.wf(),
                    sol.wf(),
                    completes(field@, sol@),
                    r <= 9,
                    entry_views(conclusion@) == range_concat(
                        0,
                        idx(r as int, 0),
                        |k: int| keep_if(sol@[k].status != field@[k].status, (field@[k].coords, seq![sol@[k].value->0])),
                    ),
                decreases 9 - r,
            {
                let mut c: usize = 0;
                while c < 9
                    invariant
                        field.wf(),
                        sol.wf(),
                        completes(field@, sol@),
                        r < 9,
                        c <= 9,
                        entry_views(conclusion@) == range_concat(
                            0,
                            idx(r as int, c as int),
                            |k: int| keep_if(sol@[k].status != field@[k].status, (field@[k].coords, seq![sol@[k].value->0])),
                        ),
                    decreases 9 - c,
                {
                    let rc = RCCoords { r, c };
                    let p1 = sol.get_cell_ref_by_rc(rc);
                    let p2 = field.get_cell_ref_by_rc(rc);
                    let ghost k = idx(r as int, c as int);
                    let ghost before = conclusion@;
                    proof {
                        assert(crate::types::completes_cell(field@[k], sol@[k]));
                    }
                    if p1.status != p2.status {
                        let entry = create_simple_cell_and_value(p2.coords, p1.value.unwrap());
                        conclusion.push(entry);
                        proof {
                            assert(entry_views(conclusion@) =~= entry_views(before).push(entry@));
                        }
                    }
                    proof {
                        let f = |k2: int| keep_if(sol@[k2].status != field@[k2].status, (field@[k2].coords, seq![sol@[k2].value->0]));
                        assert(range_concat(0, k + 1, f) == range_concat(0, k, f) + f(k));
                        assert(entry_views(conclusion@) =~= range_concat(0, k + 1, f));
                        assert(idx(r as int, c as int + 1) == k + 1);
                    }
                    c = c + 1;
                }
                r = r + 1;
            }
            let ret = InferenceResult {
                inference: InferenceKind::Exploit,
                condition: Vec::new(),
                conclusion_set_value: Some(conclusion),
                conclusion_remove_drafts: None,
            };
            proof {
                assert(entry_views(ret.condition@) =~= Seq::<(Coords, Seq<u8>)>::empty());
                assert(exploit_entries(field@, sol_cells) == entry_views(conclusion@));
            }
            Some(ret)
        } else {
            None
        }
    }
}

// ---------------------------------------------------------------------------
// The set of strategies
// ---------------------------------------------------------------------------

/// What the strategy `kind` gives on the board: its deduction, or `None`.
pub open spec fn strategy_outcome(cells: Seq<Cell>, kind: InferenceKind, r: Option<ResultView>) -> bool {
    match kind {
        InferenceKind::OnlyOneLeft => naked_single_outcome(cells, r),
        InferenceKind::OnlyOneRightInRow => hidden_single_outcome(cells, IterDirection::Row, r),
        InferenceKind::OnlyOneRightInCol => hidden_single_outcome(cells, IterDirection::Column, r),
        InferenceKind::OnlyOneRightInGrid => hidden_single_outcome(cells, IterDirection::Grid, r),
        InferenceKind::RowUniqueDraftByGridExclusion => pointing_outcome(cells, IterDirection::Row, r),
        InferenceKind::ColUniqueDraftByGridExclusion => pointing_outcome(cells, IterDirection::Column, r),
        InferenceKind::GridUniqueDraftByRowExclusion => claiming_outcome(cells, IterDirection::Row, r),
        InferenceKind::GridUniqueDraftByColExclusion => claiming_outcome(cells, IterDirection::Column, r),
        InferenceKind::RowExplicitNakedPairExclusion => naked_subset_outcome(cells, IterDirection::Row, r),
        InferenceKind::ColExplicitNakedPairExclusion => naked_subset_outcome(cells, IterDirection::Column, r),
        InferenceKind::GridExplicitNakedPairExclusion => naked_subset_outcome(cells, IterDirection::Grid, r),
        InferenceKind::RowExplicitHiddenPairExclusion => hidden_subset_outcome(cells, IterDirection::Row, r),
        InferenceKind::ColExplicitHiddenPairExclusion => hidden_subset_outcome(cells, IterDirection::Column, r),
        InferenceKind::GridExplicitHiddenPairExclusion => hidden_subset_outcome(cells, IterDirection::Grid, r),
        InferenceKind::NStepFish => fish_outcome(cells, r),
        InferenceKind::Exploit => exploit_outcome(cells) == r,
    }
}

/// Runs the strategy `kind` on the board.
pub fn analyze_kind(kind: InferenceKind, field: &Sudoku) -> (ret: Option<InferenceResult>)
    requires
        field.wf(),
    ensures
        strategy_outcome(field@, kind, result_view(ret)),
        ret matches Some(res) ==> applicable(res@),
{
    let ret = match kind {
        InferenceKind::OnlyOneLeft => only_one_left(field),
        InferenceKind::OnlyOneRightInRow => hidden_single(field, IterDirection::Row),
        InferenceKind::OnlyOneRightInCol => hidden_single(field, IterDirection::Column),
        InferenceKind::OnlyOneRightInGrid => hidden_single(field, IterDirection::Grid),
        InferenceKind::RowUniqueDraftByGridExclusion => pointing(field, IterDirection::Row),
        InferenceKind::ColUniqueDraftByGridExclusion => pointing(field, IterDirection::Column),
        InferenceKind::GridUniqueDraftByRowExclusion => claiming(field, IterDirection::Row),
        InferenceKind::GridUniqueDraftByColExclusion => claiming(field, IterDirection::Column),
        InferenceKind::RowExplicitNakedPairExclusion => naked_subset(field, IterDirection::Row),
        InferenceKind::ColExplicitNakedPairExclusion => naked_subset(field, IterDirection::Column),
        InferenceKind::GridExplicitNakedPairExclusion => naked_subset(field, IterDirection::Grid),
        InferenceKind::RowExplicitHiddenPairExclusion => hidden_subset(field, IterDirection::Row),
        InferenceKind::ColExplicitHiddenPairExclusion => hidden_subset(field, IterDirection::Column),
        InferenceKind::GridExplicitHiddenPairExclusion => hidden_subset(field, IterDirection::Grid),
        InferenceKind::NStepFish => n_step_fish(field),
        InferenceKind::Exploit => exploit(field),
    };
    proof {
        if ret is Some {
            lemma_outcome_applicable(field, kind, ret->0@);
        }
    }
    ret
}

/// The strategies in the order in which `InferenceSet::new` lists them.
pub open spec fn default_strategies() -> Seq<InferenceKind> {
    seq![
        InferenceKind::OnlyOneLeft,
        InferenceKind::OnlyOneRightInRow,
        InferenceKind::OnlyOneRightInCol,
        InferenceKind::OnlyOneRightInGrid,
        InferenceKind::RowUniqueDraftByGridExclusion,
        InferenceKind::ColUniqueDraftByGridExclusion,
        InferenceKind::GridUniqueDraftByRowExclusion,
        InferenceKind::GridUniqueDraftByColExclusion,
        InferenceKind::RowExplicitNakedPairExclusion,
        InferenceKind::ColExplicitNakedPairExclusion,
        InferenceKind::GridExplicitNakedPairExclusion,
        InferenceKind::RowExplicitHiddenPairExclusion,
        InferenceKind::ColExplicitHiddenPairExclusion,
        InferenceKind::GridExplicitHiddenPairExclusion,
        InferenceKind::NStepFish,
        InferenceKind::Exploit,
    ]
}

/// The board with digit `e.1[0]` filled in at `e.0`.
pub open spec fn set_entry(cells: Seq<Cell>, e: (Coords, Seq<u8>)) -> Seq<Cell> {
    let k = idx(e.0.r as int, e.0.c as int);
    cells.update(k, Cell { value: Some(e.1[0]), status: CellStatus::SOLVE, ..cells[k] })
}

/// The board with the entries' digits filled in, one after the other.
pub open spec fn apply_sets(cells: Seq<Cell>, es: Seq<(Coords, Seq<u8>)>) -> Seq<Cell>
    decreases es.len(),
{
    if es.len() == 0 {
        cells
    } else {
        set_entry(apply_sets(cells, es.drop_last()), es.last())
    }
}

/// The candidates with the digits `vals` removed, one after the other.
pub open spec fn remove_digits(c: Candidate, vals: Seq<u8>) -> Candidate
    decreases vals.len(),
{
    if vals.len() == 0 {
        c
    } else {
        remove_digits(c, vals.drop_last()).spec_remove(vals.last())
    }
}

/// The board with the digits `e.1` removed from the candidates at `e.0`.
pub open spec fn remove_entry(cells: Seq<Cell>, e: (Coords, Seq<u8>)) -> Seq<Cell> {
    let k = idx(e.0.r as int, e.0.c as int);
    cells.update(k, Cell { candidates: remove_digits(cells[k].candidates, e.1), ..cells[k] })
}

/// The board with the entries' digits removed from the candidates, one after the other.
pub open spec fn apply_removes(cells: Seq<Cell>, es: Seq<(Coords, Seq<u8>)>) -> Seq<Cell>
    decreases es.len(),
{
    if es.len() == 0 {
        cells
    } else {
        remove_entry(apply_removes(cells, es.drop_last()), es.last())
    }
}

/// The board after a deduction: its digits filled in, then its candidates removed.
pub open spec fn applied(cells: Seq<Cell>, r: ResultView) -> Seq<Cell> {
    let filled = match r.2 {
        Some(es) => apply_sets(cells, es),
        None => cells,
    };
    match r.3 {
        Some(es) => apply_removes(filled, es),
        None => filled,
    }
}

/// Whether an entry to fill in names a row and column of the board and carries a digit.
pub open spec fn set_entry_ok(e: (Coords, Seq<u8>)) -> bool {
    e.0.r < 9 && e.0.c < 9 && e.1.len() > 0
}

/// Whether an entry to remove names a row and column of the board and carries only digits
/// below 16.
pub open spec fn remove_entry_ok(e: (Coords, Seq<u8>)) -> bool {
    e.0.r < 9 && e.0.c < 9 && forall|j: int| 0 <= j < e.1.len() ==> e.1[j] < 16
}

/// Whether a deduction names board positions, has a digit for every cell to fill, and
/// removes only digits below 16.
pub open spec fn applicable(r: ResultView) -> bool {
    &&& r.2 matches Some(es) ==> forall|i: int| 0 <= i < es.len() ==> set_entry_ok(#[trigger] es[i])
    &&& r.3 matches Some(es) ==> forall|i: int| 0 <= i < es.len() ==> remove_entry_ok(#[trigger] es[i])
}

/// If every piece holds only items that satisfy `pred`, so does their concatenation.
pub proof fn lemma_range_concat_all<A>(lo: int, hi: int, f: spec_fn(int) -> Seq<A>, pred: spec_fn(A) -> bool)
    requires
        forall|k: int, j: int| lo <= k < hi && 0 <= j < f(k).len() ==> pred(#[trigger] f(k)[j]),
    ensures
        forall|t: int| 0 <= t < range_concat(lo, hi, f).len() ==> pred(#[trigger] range_concat(lo, hi, f)[t]),
    decreases hi - lo,
{
    if hi > lo {
        lemma_range_concat_all(lo, hi - 1, f, pred);
        let prev = range_concat(lo, hi - 1, f);
        assert forall|t: int| 0 <= t < range_concat(lo, hi, f).len() implies pred(#[trigger] range_concat(lo, hi, f)[t]) by {
            if t < prev.len() {
                assert(range_concat(lo, hi, f)[t] == prev[t]);
            } else {
                assert(range_concat(lo, hi, f)[t] == f(hi - 1)[t - prev.len()]);
            }
        }
    }
}

/// The cells of a well-formed board name board positions.
pub proof fn lemma_board_coords(field: &Sudoku, k: int)
    requires
        field.wf(),
        0 <= k < 81,
    ensures
        coords_ok(field@[k].coords),
{
    lemma_index_decomp(k);
}

/// The coordinates computed from a row and a column of the board name a board position.
pub proof fn lemma_rc_coords_ok(r: usize, c: usize)
    requires
        r < 9,
        c < 9,
    ensures
        coords_ok(spec_coords_of_rc(RCCoords { r, c })),
{
}

/// Each cell paired with `v`, for cells at board positions and `v` below 16, can be removed.
pub proof fn lemma_entries_with_ok(cs: Seq<Cell>, v: u8)
    requires
        forall|i: int| 0 <= i < cs.len() ==> coords_ok((#[trigger] cs[i]).coords),
        v < 16,
    ensures
        forall|i: int| 0 <= i < entries_with(cs, v).len() ==> remove_entry_ok(#[trigger] entries_with(cs, v)[i]),
{
    assert forall|i: int| 0 <= i < entries_with(cs, v).len() implies remove_entry_ok(#[trigger] entries_with(cs, v)[i]) by {
        assert(entries_with(cs, v)[i] == (cs[i].coords, seq![v]));
    }
}

/// Setting a digit below 9 at a board position gives an applicable deduction.
pub proof fn lemma_set_value_ok(field: &Sudoku, kind: InferenceKind, coords: Coords, v: u8)
    requires
        field.wf(),
        coords_ok(coords),
        v < 9,
    ensures
        applicable(set_value_result(kind, field@, coords, v)),
{
    let cells = field@;
    let (r, c, g) = (coords.r as int, coords.c as int, coords.g as int);
    let f = peer_coords_with(cells, r, c, g, v);
    let pred = |p: Coords| coords_ok(p);
    assert forall|k: int, j: int| 0 <= k < 9 && 0 <= j < f(k).len() implies pred(#[trigger] f(k)[j]) by {
        lemma_idx_coords(k, c);
        lemma_idx_coords(r, k);
        lemma_gn_idx(g, k);
        lemma_board_coords(field, idx(k, c));
        lemma_board_coords(field, idx(r, k));
        lemma_board_coords(field, gn_idx(g, k));
    }
    lemma_range_concat_all(0, 9, f, pred);
    let peers = range_concat(0, 9, f);
    let es = with_value(peers, v);
    assert forall|i: int| 0 <= i < es.len() implies remove_entry_ok(#[trigger] es[i]) by {
        assert(pred(peers[i]));
        assert(es[i] == (peers[i], seq![v]));
    }
    let sets = seq![(coords, seq![v])];
    assert forall|i: int| 0 <= i < sets.len() implies set_entry_ok(#[trigger] sets[i]) by {}
}

/// Every cell of `cells_outside_grid_with(unit, g, v)` is a cell of `unit`.
pub proof fn lemma_outside_grid_member(unit: Seq<Cell>, g: usize, v: u8, k: int)
    requires
        0 <= k < cells_outside_grid_with(unit, g, v).len(),
    ensures
        exists|s: int| 0 <= s < unit.len() && unit[s] == cells_outside_grid_with(unit, g, v)[k],
        cells_outside_grid_with(unit, g, v)[k].coords.g != g,
{
    let f = |s: int| keep_if(unit[s].coords.g != g && unit[s].candidates@.contains(v), unit[s]);
    assert forall|s: int| 0 <= s < unit.len() implies #[trigger] f(s).len() <= 1 by {}
    lemma_range_concat_member(0, unit.len() as int, f, k);
}

/// Every cell of `cells_off_line_with(unit, dir, line, v)` is a cell of `unit`.
pub proof fn lemma_off_line_member(unit: Seq<Cell>, dir: IterDirection, line: usize, v: u8, k: int)
    requires
        0 <= k < cells_off_line_with(unit, dir, line, v).len(),
    ensures
        exists|s: int| 0 <= s < unit.len() && unit[s] == cells_off_line_with(unit, dir, line, v)[k],
        unit_of(cells_off_line_with(unit, dir, line, v)[k].coords, dir) != line,
{
    let f = |s: int| keep_if(unit_of(unit[s].coords, dir) != line && unit[s].candidates@.contains(v), unit[s]);
    assert forall|s: int| 0 <= s < unit.len() implies #[trigger] f(s).len() <= 1 by {}
    lemma_range_concat_member(0, unit.len() as int, f, k);
}

/// The cells of a unit of the board name board positions.
pub proof fn lemma_unit_coords(field: &Sudoku, dir: IterDirection, u: int)
    requires
        field.wf(),
        0 <= u < 9,
    ensures
        forall|t: int|
            0 <= t < unit_drafts(field@, dir, u).len() ==> coords_ok((#[trigger] unit_drafts(field@, dir, u)[t]).coords),
{
    assert forall|t: int| 0 <= t < unit_drafts(field@, dir, u).len() implies coords_ok(
        (#[trigger] unit_drafts(field@, dir, u)[t]).coords,
    ) by {
        lemma_unit_member(field, dir, u, t);
    }
}

/// The deductions of `pointing_at` are applicable.
pub proof fn lemma_pointing_ok(field: &Sudoku, dir: IterDirection, g: int, v: u8)
    requires
        field.wf(),
        pointing_at(field@, dir, g, v),
    ensures
        applicable(pointing_result(field@, dir, g, v)),
{
    let cells = field@;
    let grid = unit_drafts(cells, IterDirection::Grid, g);
    let with_v = cells_with(grid, v);
    lemma_cells_with_member(grid, v, 0);
    lemma_unit_coords(field, IterDirection::Grid, g);
    let line = unit_of(with_v[0].coords, dir);
    assert(line < 9);
    lemma_unit_coords(field, dir, line as int);
    let unit = unit_drafts(cells, dir, line as int);
    let outside = cells_outside_grid_with(unit, with_v[0].coords.g, v);
    assert forall|i: int| 0 <= i < outside.len() implies coords_ok((#[trigger] outside[i]).coords) by {
        lemma_outside_grid_member(unit, with_v[0].coords.g, v, i);
    }
    lemma_entries_with_ok(outside, v);
}

/// The deductions of `claiming_at` are applicable.
pub proof fn lemma_claiming_ok(field: &Sudoku, dir: IterDirection, l: int, v: u8, s: int)
    requires
        field.wf(),
        claiming_at(field@, dir, l, v, s),
    ensures
        applicable(claiming_result(field@, dir, l, v, s)),
{
    let cells = field@;
    let unit = unit_drafts(cells, dir, l);
    lemma_unit_coords(field, dir, l);
    let p = unit[s];
    assert(coords_ok(p.coords));
    lemma_unit_coords(field, IterDirection::Grid, p.coords.g as int);
    let grid = unit_drafts(cells, IterDirection::Grid, p.coords.g as int);
    let off = cells_off_line_with(grid, dir, unit_of(p.coords, dir), v);
    assert forall|i: int| 0 <= i < off.len() implies coords_ok((#[trigger] off[i]).coords) by {
        lemma_off_line_member(grid, dir, unit_of(p.coords, dir), v, i);
    }
    lemma_entries_with_ok(off, v);
}

/// The cells at indices below the unit's length, each paired with digits below 9, can
/// be removed.
pub proof fn lemma_sharing_ok(field: &Sudoku, dir: IterDirection, u: int, idxs: Seq<usize>, digits: Seq<u8>)
    requires
        field.wf(),
        0 <= u < 9,
        forall|k: int| 0 <= k < idxs.len() ==> (#[trigger] idxs[k]) < unit_drafts(field@, dir, u).len(),
        forall|j: int| 0 <= j < digits.len() ==> #[trigger] digits[j] < 9,
    ensures
        forall|i: int|
            0 <= i < sharing_entries(unit_drafts(field@, dir, u), idxs, digits).len() ==> remove_entry_ok(
                #[trigger] sharing_entries(unit_drafts(field@, dir, u), idxs, digits)[i],
            ),
{
    let unit = unit_drafts(field@, dir, u);
    lemma_unit_coords(field, dir, u);
    let f = |k: int| keep_if(shares_digit(unit[idxs[k] as int].candidates@, digits), (unit[idxs[k] as int].coords, digits));
    let pred = |e: (Coords, Seq<u8>)| remove_entry_ok(e);
    assert forall|k: int, j: int| 0 <= k < idxs.len() && 0 <= j < f(k).len() implies pred(#[trigger] f(k)[j]) by {
        assert(coords_ok(unit[idxs[k] as int].coords));
    }
    lemma_range_concat_all(0, idxs.len() as int, f, pred);
}

/// The index sets of `all_combos(n)` hold indices below `n`.
pub proof fn lemma_all_combos_shape(n: int, q: int)
    requires
        0 <= n,
        0 <= q < all_combos(n).len(),
    ensures
        forall|k: int| 0 <= k < all_combos(n)[q].0.len() ==> (#[trigger] all_combos(n)[q].0[k]) < n,
        forall|k: int| 0 <= k < all_combos(n)[q].1.len() ==> (#[trigger] all_combos(n)[q].1[k]) < n,
{
    let c2 = combinations(n, 2, 0, Seq::empty());
    let c3 = combinations(n, 3, 0, Seq::empty());
    let c4 = combinations(n, 4, 0, Seq::empty());
    lemma_combinations_shape(n, 2, 0, Seq::empty());
    lemma_combinations_shape(n, 3, 0, Seq::empty());
    lemma_combinations_shape(n, 4, 0, Seq::empty());
    if q < c2.len() {
        assert(all_combos(n)[q] == c2[q]);
    } else if q < c2.len() + c3.len() {
        assert(all_combos(n)[q] == c3[q - c2.len()]);
    } else {
        assert(all_combos(n)[q] == c4[q - c2.len() - c3.len()]);
    }
}

/// The deductions of `naked_at` are applicable.
pub proof fn lemma_naked_ok(field: &Sudoku, dir: IterDirection, u: int, q: int)
    requires
        field.wf(),
        naked_at(field@, dir, u, q),
    ensures
        applicable(naked_result(field@, dir, u, q)),
{
    let unit = unit_drafts(field@, dir, u);
    let combos = all_combos(unit.len() as int);
    lemma_all_combos_shape(unit.len() as int, q);
    let digits = digits_in(union_of(unit, combos[q].0));
    lemma_digits_in(union_of(unit, combos[q].0));
    lemma_sharing_ok(field, dir, u, combos[q].1, digits);
}

/// The deductions of `hidden_at` are applicable.
pub proof fn lemma_hidden_ok(field: &Sudoku, dir: IterDirection, u: int, q: int)
    requires
        field.wf(),
        hidden_at(field@, dir, u, q),
    ensures
        applicable(hidden_result(field@, dir, u, q)),
{
    let unit = unit_drafts(field@, dir, u);
    let combos = all_combos(unit.len() as int);
    lemma_all_combos_shape(unit.len() as int, q);
    let rest = union_of(unit, combos[q].1);
    lemma_digits_in(rest);
    lemma_sharing_ok(field, dir, u, combos[q].0, digits_in(rest));
}

/// The deductions of `fish_at` are applicable.
pub proof fn lemma_fish_ok(field: &Sudoku, dir: IterDirection, v: u8, one: int)
    requires
        field.wf(),
        dir != IterDirection::Grid,
        fish_at(field@, dir, v, one),
    ensures
        applicable(fish_result(field@, dir, v, one)),
{
    let cells = field@;
    let lines = fish_lines(cells, dir, v, one);
    let others = fish_others(cells, dir, v, one);
    lemma_fish_positions_bounded(field, dir, v, one);
    let pred = |e: (Coords, Seq<u8>)| remove_entry_ok(e);
    let f = |o: int|
        if lines.contains(o as usize) {
            Seq::empty()
        } else {
            range_concat(
                0,
                others.len() as int,
                |j: int|
                    keep_if(
                        is_draft(cells[line_index(dir, o, others[j] as int)]) && cells[line_index(
                            dir,
                            o,
                            others[j] as int,
                        )].candidates@.contains(v),
                        (spec_coords_of_rc(line_rc(dir, o as usize, others[j])), seq![v]),
                    ),
            )
        };
    assert forall|o: int, j: int| 0 <= o < 9 && 0 <= j < f(o).len() implies pred(#[trigger] f(o)[j]) by {
        let g = |j2: int|
            keep_if(
                is_draft(cells[line_index(dir, o, others[j2] as int)]) && cells[line_index(
                    dir,
                    o,
                    others[j2] as int,
                )].candidates@.contains(v),
                (spec_coords_of_rc(line_rc(dir, o as usize, others[j2])), seq![v]),
            );
        assert forall|k: int, j2: int| 0 <= k < others.len() && 0 <= j2 < g(k).len() implies pred(#[trigger] g(k)[j2]) by {
            assert(others[k] < 9);
            lemma_rc_coords_ok(if dir == IterDirection::Row { o as usize } else { others[k] }, if dir == IterDirection::Row {
                others[k]
            } else {
                o as usize
            });
        }
        lemma_range_concat_all(0, others.len() as int, g, pred);
    }
    lemma_range_concat_all(0, 9, f, pred);
}

/// The deduction of exhaustive search is applicable.
pub proof fn lemma_exploit_ok(field: &Sudoku, sol: Seq<Cell>)
    requires
        field.wf(),
    ensures
        forall|i: int|
            0 <= i < exploit_entries(field@, sol).len() ==> set_entry_ok(#[trigger] exploit_entries(field@, sol)[i]),
{
    let cells = field@;
    let f = |k: int| keep_if(sol[k].status != cells[k].status, (cells[k].coords, seq![sol[k].value->0]));
    let pred = |e: (Coords, Seq<u8>)| set_entry_ok(e);
    assert forall|k: int, j: int| 0 <= k < 81 && 0 <= j < f(k).len() implies pred(#[trigger] f(k)[j]) by {
        lemma_board_coords(field, k);
    }
    lemma_range_concat_all(0, 81, f, pred);
}

/// Whatever a strategy deduces is applicable.
pub proof fn lemma_outcome_applicable(field: &Sudoku, kind: InferenceKind, r: ResultView)
    requires
        field.wf(),
        strategy_outcome(field@, kind, Some(r)),
    ensures
        applicable(r),
{
    let cells = field@;
    match kind {
        InferenceKind::OnlyOneLeft => {
            let (t, v) = choose|t: int, v: u8|
                {
                    &&& naked_single_at(cells, t)
                    &&& v < 9
                    &&& range_concat(0, 81, draft_at(cells))[t].candidates@ == set![v]
                    &&& forall|t2: int| t2 < t ==> !naked_single_at(cells, t2)
                    &&& r == set_value_result(InferenceKind::OnlyOneLeft, cells, range_concat(0, 81, draft_at(cells))[t].coords, v)
                };
            lemma_draft_member(field, t);
            lemma_set_value_ok(field, InferenceKind::OnlyOneLeft, range_concat(0, 81, draft_at(cells))[t].coords, v);
        },
        InferenceKind::OnlyOneRightInRow => lemma_hidden_single_ok(field, IterDirection::Row, r),
        InferenceKind::OnlyOneRightInCol => lemma_hidden_single_ok(field, IterDirection::Column, r),
        InferenceKind::OnlyOneRightInGrid => lemma_hidden_single_ok(field, IterDirection::Grid, r),
        InferenceKind::RowUniqueDraftByGridExclusion => lemma_pointing_outcome_ok(field, IterDirection::Row, r),
        InferenceKind::ColUniqueDraftByGridExclusion => lemma_pointing_outcome_ok(field, IterDirection::Column, r),
        InferenceKind::GridUniqueDraftByRowExclusion => lemma_claiming_outcome_ok(field, IterDirection::Row, r),
        InferenceKind::GridUniqueDraftByColExclusion => lemma_claiming_outcome_ok(field, IterDirection::Column, r),
        InferenceKind::RowExplicitNakedPairExclusion => lemma_naked_outcome_ok(field, IterDirection::Row, r),
        InferenceKind::ColExplicitNakedPairExclusion => lemma_naked_outcome_ok(field, IterDirection::Column, r),
        InferenceKind::GridExplicitNakedPairExclusion => lemma_naked_outcome_ok(field, IterDirection::Grid, r),
        InferenceKind::RowExplicitHiddenPairExclusion => lemma_hidden_outcome_ok(field, IterDirection::Row, r),
        InferenceKind::ColExplicitHiddenPairExclusion => lemma_hidden_outcome_ok(field, IterDirection::Column, r),
        InferenceKind::GridExplicitHiddenPairExclusion => lemma_hidden_outcome_ok(field, IterDirection::Grid, r),
        InferenceKind::NStepFish => {
            let (v, dir, one) = choose|v: u8, dir: IterDirection, one: int|
                {
                    &&& v < 9
                    &&& dir != IterDirection::Grid
                    &&& fish_at(cells, dir, v, one)
                    &&& forall|v2: u8, one2: int| v2 < v ==> !fish_at(cells, IterDirection::Row, v2, one2) && !fish_at(cells, IterDirection::Column, v2, one2)
                    &&& forall|one2: int| one2 < one ==> !fish_at(cells, dir, v, one2)
                    &&& dir == IterDirection::Column ==> forall|one2: int| !fish_at(cells, IterDirection::Row, v, one2)
                    &&& r == fish_result(cells, dir, v, one)
                };
            lemma_fish_ok(field, dir, v, one);
        },
        InferenceKind::Exploit => {
            let sols = search(cells, Seq::empty()).1;
            lemma_exploit_ok(field, sols[0]);
        },
    }
}

/// The deduction of a hidden-single outcome is applicable.
proof fn lemma_hidden_single_ok(field: &Sudoku, dir: IterDirection, r: ResultView)
    requires
        field.wf(),
        hidden_single_outcome(field@, dir, Some(r)),
    ensures
        applicable(r),
{
    let cells = field@;
    let (u, t, j) = choose|u: int, t: int, j: int|
        {
            &&& hidden_single_at(cells, dir, u, t, j)
            &&& forall|u2: int, t2: int, j2: int| lex_before(u2, t2, j2, u, t, j) ==> !hidden_single_at(cells, dir, u2, t2, j2)
            &&& r == set_value_result(
                hidden_single_kind(dir),
                cells,
                unit_drafts(cells, dir, u)[t].coords,
                digits_in(unit_drafts(cells, dir, u)[t].candidates@)[j],
            )
        };
    lemma_unit_member(field, dir, u, t);
    lemma_digits_in(unit_drafts(cells, dir, u)[t].candidates@);
    lemma_set_value_ok(
        field,
        hidden_single_kind(dir),
        unit_drafts(cells, dir, u)[t].coords,
        digits_in(unit_drafts(cells, dir, u)[t].candidates@)[j],
    );
}

/// The deduction of a pointing outcome is applicable.
proof fn lemma_pointing_outcome_ok(field: &Sudoku, dir: IterDirection, r: ResultView)
    requires
        field.wf(),
        pointing_outcome(field@, dir, Some(r)),
    ensures
        applicable(r),
{
    let (g, v) = choose|g: int, v: u8|
        {
            &&& pointing_at(field@, dir, g, v)
            &&& forall|g2: int, v2: u8| (g2 < g || (g2 == g && v2 < v)) ==> !pointing_at(field@, dir, g2, v2)
            &&& r == pointing_result(field@, dir, g, v)
        };
    lemma_pointing_ok(field, dir, g, v);
}

/// The deduction of a claiming outcome is applicable.
proof fn lemma_claiming_outcome_ok(field: &Sudoku, dir: IterDirection, r: ResultView)
    requires
        field.wf(),
        claiming_outcome(field@, dir, Some(r)),
    ensures
        applicable(r),
{
    let (l, v, s) = choose|l: int, v: u8, s: int|
        {
            &&& claiming_at(field@, dir, l, v, s)
            &&& forall|l2: int, v2: u8, s2: int| lex_before(l2, v2 as int, s2, l, v as int, s) ==> !claiming_at(field@, dir, l2, v2, s2)
            &&& r == claiming_result(field@, dir, l, v, s)
        };
    lemma_claiming_ok(field, dir, l, v, s);
}

/// The deduction of a naked-subset outcome is applicable.
proof fn lemma_naked_outcome_ok(field: &Sudoku, dir: IterDirection, r: ResultView)
    requires
        field.wf(),
        naked_subset_outcome(field@, dir, Some(r)),
    ensures
        applicable(r),
{
    let (u, q) = choose|u: int, q: int|
        {
            &&& naked_at(field@, dir, u, q)
            &&& forall|u2: int, q2: int| (u2 < u || (u2 == u && q2 < q)) ==> !naked_at(field@, dir, u2, q2)
            &&& r == naked_result(field@, dir, u, q)
        };
    lemma_naked_ok(field, dir, u, q);
}

/// The deduction of a hidden-subset outcome is applicable.
proof fn lemma_hidden_outcome_ok(field: &Sudoku, dir: IterDirection, r: ResultView)
    requires
        field.wf(),
        hidden_subset_outcome(field@, dir, Some(r)),
    ensures
        applicable(r),
{
    let (u, q) = choose|u: int, q: int|
        {
            &&& hidden_at(field@, dir, u, q)
            &&& forall|u2: int, q2: int| (u2 < u || (u2 == u && q2 < q)) ==> !hidden_at(field@, dir, u2, q2)
            &&& r == hidden_result(field@, dir, u, q)
        };
    lemma_hidden_ok(field, dir, u, q);
}

// ---------------------------------------------------------------------------
// Single-digit deductions stay on the way to a solution
// ---------------------------------------------------------------------------

/// Whether `s` is a solved board of digits 0 to 8: no digit twice in a row, column or grid.
pub open spec fn solved_digits(s: Seq<u8>) -> bool {
    &&& s.len() == 81
    &&& forall|k: int| 0 <= k < 81 ==> #[trigger] s[k] < 9
    &&& forall|a: int, b: int|
        0 <= a < 81 && 0 <= b < 81 && a != b && crate::same_unit(a, b) ==> #[trigger] s[a] != #[trigger] s[b]
}

/// Whether the board is on the way to `s`: every filled cell holds its digit of `s`, and
/// every draft cell keeps its digit of `s` among its candidates and has no digit that a
/// peer holds.
pub open spec fn on_way_to(cells: Seq<Cell>, s: Seq<u8>) -> bool {
    &&& cells.len() == 81
    &&& forall|i: int| 0 <= i < 81 && #[trigger] is_filled(cells[i]) ==> cells[i].value == Some(s[i])
    &&& forall|i: int| 0 <= i < 81 && #[trigger] is_draft(cells[i]) ==> cells[i].candidates@.contains(s[i])
    &&& forall|i: int, j: int|
        0 <= i < 81 && 0 <= j < 81 && i != j && crate::same_unit(i, j) && #[trigger] is_draft(cells[i])
            && #[trigger] is_filled(cells[j]) ==> !cells[i].candidates@.contains(s[j])
}

/// The board index that an entry names.
pub open spec fn entry_index(e: (Coords, Seq<u8>)) -> int {
    idx(e.0.r as int, e.0.c as int)
}

/// Whether some entry names board index `j`.
pub open spec fn names(es: Seq<(Coords, Seq<u8>)>, j: int) -> bool {
    exists|t: int| 0 <= t < es.len() && entry_index(#[trigger] es[t]) == j
}

/// Removing the single digit `v` at each entry's cell removes `v` from the candidates of
/// the cells the entries name, and changes nothing else.
pub proof fn lemma_apply_removes_digit(cells: Seq<Cell>, es: Seq<(Coords, Seq<u8>)>, v: u8)
    requires
        cells.len() == 81,
        v < 16,
        forall|t: int| 0 <= t < es.len() ==> (#[trigger] es[t]).1 == seq![v] && 0 <= entry_index(es[t]) < 81,
    ensures
        apply_removes(cells, es).len() == 81,
        forall|j: int|
            0 <= j < 81 ==> {
                let after = #[trigger] apply_removes(cells, es)[j];
                &&& after.status == cells[j].status
                &&& after.value == cells[j].value
                &&& after.candidates@ == if names(es, j) {
                    cells[j].candidates@.remove(v)
                } else {
                    cells[j].candidates@
                }
            },
    decreases es.len(),
{
    if es.len() > 0 {
        let prev = es.drop_last();
        lemma_apply_removes_digit(cells, prev, v);
        let e = es.last();
        let k = entry_index(e);
        let mid = apply_removes(cells, prev);
        assert(remove_digits(mid[k].candidates, seq![v]) == remove_digits(mid[k].candidates, seq![v].drop_last()).spec_remove(v));
        assert(seq![v].drop_last() =~= Seq::<u8>::empty());
        mid[k].candidates.lemma_spec_remove(v);
        assert forall|j: int| 0 <= j < 81 implies names(es, j) == (names(prev, j) || j == k) by {
            if names(prev, j) {
                let t = choose|t: int| 0 <= t < prev.len() && entry_index(#[trigger] prev[t]) == j;
                assert(es[t] == prev[t]);
            }
            if j == k {
                assert(entry_index(es[es.len() - 1]) == j);
            }
            if names(es, j) && !names(prev, j) {
                let t = choose|t: int| 0 <= t < es.len() && entry_index(#[trigger] es[t]) == j;
                if t < prev.len() {
                    assert(prev[t] == es[t]);
                }
            }
        }
        assert forall|j: int| 0 <= j < 81 implies {
            let after = #[trigger] apply_removes(cells, es)[j];
            &&& after.status == cells[j].status
            &&& after.value == cells[j].value
            &&& after.candidates@ == if names(es, j) {
                cells[j].candidates@.remove(v)
            } else {
                cells[j].candidates@
            }
        } by {
            if j == k {
                assert(cells[j].candidates@.remove(v).remove(v) =~= cells[j].candidates@.remove(v));
            }
        }
    }
}

/// Every item of a piece appears in the concatenation.
pub proof fn lemma_range_concat_has<A>(lo: int, hi: int, f: spec_fn(int) -> Seq<A>, k: int, x: A)
    requires
        lo <= k < hi,
        f(k).contains(x),
    ensures
        range_concat(lo, hi, f).contains(x),
    decreases hi - lo,
{
    let prev = range_concat(lo, hi - 1, f);
    if k < hi - 1 {
        lemma_range_concat_has(lo, hi - 1, f, k, x);
        let t = choose|t: int| 0 <= t < prev.len() && #[trigger] prev[t] == x;
        assert(range_concat(lo, hi, f)[t] == x);
    } else {
        let piece = f(k);
        let t = choose|t: int| 0 <= t < piece.len() && #[trigger] piece[t] == x;
        assert(range_concat(lo, hi, f)[prev.len() + t] == x);
    }
}


/// Whether the coordinates name cell `i` of the board or a cell sharing a unit with it.
pub open spec fn peer_or_self(i: int, p: Coords) -> bool {
    0 <= idx(p.r as int, p.c as int) < 81 && (idx(p.r as int, p.c as int) == i || crate::same_unit(
        i,
        idx(p.r as int, p.c as int),
    ))
}

/// The coordinates that one step of `peer_coords_with` gathers name peers of the cell.
proof fn lemma_peer_piece(field: &Sudoku, i: int, v: u8, k: int)
    requires
        field.wf(),
        0 <= i < 81,
        0 <= k < 9,
    ensures
        ({
            let co = field@[i].coords;
            let piece = peer_coords_with(field@, co.r as int, co.c as int, co.g as int, v)(k);
            forall|t: int| 0 <= t < piece.len() ==> peer_or_self(i, #[trigger] piece[t])
        }),
{
    let cells = field@;
    let co = cells[i].coords;
    lemma_index_decomp(i);
    let (r, c, g) = (co.r as int, co.c as int, co.g as int);
    lemma_idx_coords(r, c);
    assert(idx(r, c) == i);
    assert(g == r / 3 * 3 + c / 3);
    lemma_idx_coords(k, c);
    lemma_idx_coords(r, k);
    lemma_gn_idx(g, k);
    lemma_board_coords(field, idx(k, c));
    lemma_board_coords(field, idx(r, k));
    lemma_board_coords(field, gn_idx(g, k));
    assert(peer_or_self(i, cells[idx(k, c)].coords)) by {
        lemma_idx_parts(k, c);
    }
    assert(peer_or_self(i, cells[idx(r, k)].coords)) by {
        lemma_idx_parts(r, k);
    }
    assert(peer_or_self(i, cells[gn_idx(g, k)].coords)) by {
        let gr = g / 3 * 3 + k / 3;
        let gc = g % 3 * 3 + k % 3;
        lemma_idx_parts(gr, gc);
        assert(gr / 3 == r / 3 && gc / 3 == c / 3);
    }
}

/// The entries that name peers of cell `i` when the digit `v` is set there name cell `i`
/// or cells that share a unit with it.
proof fn lemma_peers_in_units(field: &Sudoku, i: int, v: u8)
    requires
        field.wf(),
        0 <= i < 81,
    ensures
        ({
            let co = field@[i].coords;
            let peers = range_concat(0, 9, peer_coords_with(field@, co.r as int, co.c as int, co.g as int, v));
            forall|t: int| 0 <= t < peers.len() ==> peer_or_self(i, #[trigger] peers[t])
        }),
{
    let co = field@[i].coords;
    let f = peer_coords_with(field@, co.r as int, co.c as int, co.g as int, v);
    let pred = |p: Coords| peer_or_self(i, p);
    assert forall|k: int, t: int| 0 <= k < 9 && 0 <= t < f(k).len() implies pred(#[trigger] f(k)[t]) by {
        lemma_peer_piece(field, i, v, k);
    }
    lemma_range_concat_all(0, 9, f, pred);
}

/// Every draft peer of cell `i` with candidate `v` is among the coordinates gathered when
/// `v` is set at `i`.
proof fn lemma_peers_complete(field: &Sudoku, i: int, v: u8, j: int)
    requires
        field.wf(),
        0 <= i < 81,
        0 <= j < 81,
        j != i,
        crate::same_unit(i, j),
        is_draft(field@[j]),
        field@[j].candidates@.contains(v),
    ensures
        ({
            let co = field@[i].coords;
            range_concat(0, 9, peer_coords_with(field@, co.r as int, co.c as int, co.g as int, v)).contains(
                field@[j].coords,
            )
        }),
{
    let cells = field@;
    let co = cells[i].coords;
    lemma_index_decomp(i);
    lemma_index_decomp(j);
    let (r, c, g) = (co.r as int, co.c as int, co.g as int);
    lemma_idx_coords(r, c);
    assert(idx(r, c) == i);
    let f = peer_coords_with(cells, r, c, g, v);
    let cj = cells[j].coords;
    if j % 9 == c {
        let k = j / 9;
        assert(idx(k, c) == j);
        assert(f(k)[0] == cj);
        lemma_range_concat_has(0, 9, f, k, cj);
    } else if j / 9 == r {
        let k = j % 9;
        assert(idx(r, k) == j);
        let col_part = keep_if(is_draft(cells[idx(k, c)]) && cells[idx(k, c)].candidates@.contains(v), cells[idx(k, c)].coords);
        assert(f(k)[col_part.len() as int] == cj);
        lemma_range_concat_has(0, 9, f, k, cj);
    } else {
        let k = cj.n as int;
        lemma_idx_coords(j / 9, j % 9);
        assert(cj.g as int == g);
        assert(gn_idx(g, k) == j);
        let col_part = keep_if(is_draft(cells[idx(k, c)]) && cells[idx(k, c)].candidates@.contains(v), cells[idx(k, c)].coords);
        let row_part = keep_if(
            cells[idx(r, k)].coords.c != c && is_draft(cells[idx(r, k)]) && cells[idx(r, k)].candidates@.contains(v),
            cells[idx(r, k)].coords,
        );
        assert(f(k)[(col_part.len() + row_part.len()) as int] == cj);
        lemma_range_concat_has(0, 9, f, k, cj);
    }
}

/// Setting at a draft cell its digit of a solution keeps the board on the way to that
/// solution.
pub proof fn lemma_set_value_on_way(field: &Sudoku, kind: InferenceKind, i: int, s: Seq<u8>)
    requires
        field.wf(),
        solved_digits(s),
        on_way_to(field@, s),
        0 <= i < 81,
        is_draft(field@[i]),
    ensures
        on_way_to(applied(field@, set_value_result(kind, field@, field@[i].coords, s[i])), s),
{
    let cells = field@;
    let co = cells[i].coords;
    let v = s[i];
    lemma_index_decomp(i);
    lemma_idx_coords(co.r as int, co.c as int);
    assert(idx(co.r as int, co.c as int) == i);
    let e = (co, seq![v]);
    assert(seq![e].drop_last() =~= Seq::<(Coords, Seq<u8>)>::empty());
    let c1 = apply_sets(cells, seq![e]);
    assert(apply_sets(cells, seq![e].drop_last()) == cells);
    assert(seq![e].last() == e);
    assert(e.1[0] == v);
    assert(c1 == cells.update(i, Cell { value: Some(v), status: CellStatus::SOLVE, ..cells[i] }));
    let r = set_value_result(kind, cells, co, v);
    let peers = range_concat(0, 9, peer_coords_with(cells, co.r as int, co.c as int, co.g as int, v));
    lemma_peers_in_units(field, i, v);
    assert forall|j: int|
        0 <= j < 81 && j != i && crate::same_unit(i, j) && #[trigger] is_draft(cells[j])
            && cells[j].candidates@.contains(v) implies peers.contains(cells[j].coords) by {
        lemma_peers_complete(field, i, v, j);
    }
    let fin = applied(cells, r);
    // What happens to each cell: the cell at `i` is filled; draft peers lose `v`.
    assert((forall|j: int| 0 <= j < 81 ==> #[trigger] fin[j].status == if j == i { CellStatus::SOLVE } else { cells[j].status }
        && fin[j].value == if j == i { Some(v) } else { cells[j].value }
        && (j != i ==> (fin[j].candidates@ == cells[j].candidates@ || (fin[j].candidates@ == cells[j].candidates@.remove(v)
            && crate::same_unit(i, j))))
        && (j != i && crate::same_unit(i, j) && is_draft(cells[j]) ==> !fin[j].candidates@.contains(v))) && fin.len() == 81) by {
        if peers.len() > 0 {
            let es = with_value(peers, v);
            assert forall|t: int| 0 <= t < es.len() implies (#[trigger] es[t]).1 == seq![v] && 0 <= entry_index(es[t]) < 81 by {
                assert(es[t] == (peers[t], seq![v]));
                assert(peer_or_self(i, peers[t]));
            }
            lemma_apply_removes_digit(c1, es, v);
            assert forall|j: int| 0 <= j < 81 implies #[trigger] fin[j].status == if j == i { CellStatus::SOLVE } else { cells[j].status }
                && fin[j].value == if j == i { Some(v) } else { cells[j].value }
                && (j != i ==> (fin[j].candidates@ == cells[j].candidates@ || (fin[j].candidates@ == cells[j].candidates@.remove(v)
                    && crate::same_unit(i, j))))
                && (j != i && crate::same_unit(i, j) && is_draft(cells[j]) ==> !fin[j].candidates@.contains(v)) by {
                if j != i && names(es, j) {
                    let t = choose|t: int| 0 <= t < es.len() && entry_index(#[trigger] es[t]) == j;
                    assert(es[t] == (peers[t], seq![v]));
                    assert(peer_or_self(i, peers[t]));
                }
                if j != i && crate::same_unit(i, j) && is_draft(cells[j]) && cells[j].candidates@.contains(v) {
                    assert(peers.contains(cells[j].coords));
                    let t = choose|t: int| 0 <= t < peers.len() && peers[t] == cells[j].coords;
                    lemma_index_decomp(j);
                    lemma_idx_coords(j / 9, j % 9);
                    assert(es[t] == (peers[t], seq![v]));
                    assert(entry_index(es[t]) == j);
                    assert(names(es, j));
                }
            }
        } else {
            assert forall|j: int| 0 <= j < 81 && j != i && crate::same_unit(i, j) && is_draft(cells[j]) implies !fin[j].candidates@.contains(v) by {
                if cells[j].candidates@.contains(v) {
                    assert(peers.contains(cells[j].coords));
                }
            }
        }
    }
    assert forall|j: int| 0 <= j < 81 && #[trigger] is_filled(fin[j]) implies fin[j].value == Some(s[j]) by {
        assert(fin[j].status == if j == i { CellStatus::SOLVE } else { cells[j].status });
        if j != i {
            assert(is_filled(cells[j]));
        }
    }
    assert forall|j: int| 0 <= j < 81 && #[trigger] is_draft(fin[j]) implies fin[j].candidates@.contains(s[j]) by {
        assert(fin[j].status == if j == i { CellStatus::SOLVE } else { cells[j].status });
        assert(is_draft(cells[j]));
        if crate::same_unit(i, j) {
            assert(s[i] != s[j]);
        }
    }
    assert forall|a: int, b: int|
        0 <= a < 81 && 0 <= b < 81 && a != b && crate::same_unit(a, b) && #[trigger] is_draft(fin[a])
            && #[trigger] is_filled(fin[b]) implies !fin[a].candidates@.contains(s[b]) by {
        assert(fin[a].status == if a == i { CellStatus::SOLVE } else { cells[a].status });
        assert(fin[b].status == if b == i { CellStatus::SOLVE } else { cells[b].status });
        if b == i {
            assert(crate::same_unit(i, a));
        } else {
            assert(is_filled(cells[b]));
            assert(is_draft(cells[a]));
            assert(!cells[a].candidates@.contains(s[b]));
        }
    }
}

/// A naked single keeps the board on the way to any solution it is on the way to.
pub proof fn lemma_naked_single_on_way(field: &Sudoku, r: ResultView, s: Seq<u8>)
    requires
        field.wf(),
        solved_digits(s),
        on_way_to(field@, s),
        naked_single_outcome(field@, Some(r)),
    ensures
        on_way_to(applied(field@, r), s),
{
    let cells = field@;
    let drafts = range_concat(0, 81, draft_at(cells));
    let (t, v) = choose|t: int, v: u8|
        {
            &&& naked_single_at(cells, t)
            &&& v < 9
            &&& drafts[t].candidates@ == set![v]
            &&& forall|t2: int| t2 < t ==> !naked_single_at(cells, t2)
            &&& r == set_value_result(InferenceKind::OnlyOneLeft, cells, drafts[t].coords, v)
        };
    lemma_draft_member(field, t);
    let i = choose|i: int| 0 <= i < 81 && cells[i] == drafts[t];
    assert(is_draft(cells[i]));
    assert(cells[i].candidates@.contains(s[i]));
    assert(v == s[i]);
    lemma_set_value_on_way(field, InferenceKind::OnlyOneLeft, i, s);
}

/// Position `w` of unit `u` is a board cell of that unit, at that position.
proof fn lemma_unit_cell(dir: IterDirection, u: int, w: int)
    requires
        0 <= u < 9,
        0 <= w < 9,
    ensures
        0 <= unit_index(dir, u, w) < 81,
        unit_of(coords_of_index(unit_index(dir, u, w)), dir) == u,
        pos_in_unit(coords_of_index(unit_index(dir, u, w)), dir) == w,
{
    match dir {
        IterDirection::Row => lemma_idx_coords(u, w),
        IterDirection::Column => lemma_idx_coords(w, u),
        IterDirection::Grid => lemma_gn_idx(u, w),
    }
}

/// Two positions of one unit are different cells that share a unit.
proof fn lemma_unit_pair(dir: IterDirection, u: int, w1: int, w2: int)
    requires
        0 <= u < 9,
        0 <= w1 < 9,
        0 <= w2 < 9,
        w1 != w2,
    ensures
        unit_index(dir, u, w1) != unit_index(dir, u, w2),
        crate::same_unit(unit_index(dir, u, w1), unit_index(dir, u, w2)),
{
    lemma_unit_cell(dir, u, w1);
    lemma_unit_cell(dir, u, w2);
    match dir {
        IterDirection::Row => {
            lemma_idx_parts(u, w1);
            lemma_idx_parts(u, w2);
        },
        IterDirection::Column => {
            lemma_idx_parts(w1, u);
            lemma_idx_parts(w2, u);
        },
        IterDirection::Grid => {
            let (r1, c1) = (u / 3 * 3 + w1 / 3, u % 3 * 3 + w1 % 3);
            let (r2, c2) = (u / 3 * 3 + w2 / 3, u % 3 * 3 + w2 % 3);
            lemma_idx_parts(r1, c1);
            lemma_idx_parts(r2, c2);
            assert(r1 / 3 == r2 / 3 && c1 / 3 == c2 / 3);
        },
    }
}

/// Every digit below 9 stands somewhere in each unit of a solved board.
proof fn lemma_unit_has_digit(dir: IterDirection, u: int, s: Seq<u8>, v: u8)
    requires
        solved_digits(s),
        0 <= u < 9,
        v < 9,
    ensures
        exists|w: int| 0 <= w < 9 && s[unit_index(dir, u, w)] == v,
{
    broadcast use vstd::set::group_set_axioms;

    let x = vstd::set_lib::set_int_range(0, 9);
    let g = |w: int| s[unit_index(dir, u, w)] as int;
    let y = x.map(g);
    assert forall|w1: int, w2: int| x.contains(w1) && x.contains(w2) && #[trigger] g(w1) == #[trigger] g(w2) implies w1 == w2 by {
        if w1 != w2 {
            lemma_unit_pair(dir, u, w1, w2);
            lemma_unit_cell(dir, u, w1);
            lemma_unit_cell(dir, u, w2);
        }
    }
    vstd::set_lib::lemma_int_range(0, 9);
    vstd::set_lib::lemma_map_size(x, y, g);
    if !(exists|w: int| 0 <= w < 9 && s[unit_index(dir, u, w)] == v) {
        let z = x.remove(v as int);
        assert forall|a: int| y.contains(a) implies z.contains(a) by {
            let w = choose|w: int| x.contains(w) && g(w) == a;
            lemma_unit_cell(dir, u, w);
        }
        vstd::set_lib::lemma_len_subset(y, z);
        assert(false);
    }
}

/// A hidden single keeps the board on the way to any solution it is on the way to.
pub proof fn lemma_hidden_single_on_way(field: &Sudoku, dir: IterDirection, r: ResultView, s: Seq<u8>)
    requires
        field.wf(),
        solved_digits(s),
        on_way_to(field@, s),
        hidden_single_outcome(field@, dir, Some(r)),
    ensures
        on_way_to(applied(field@, r), s),
{
    let cells = field@;
    let (u, t, j) = choose|u: int, t: int, j: int|
        {
            &&& hidden_single_at(cells, dir, u, t, j)
            &&& forall|u2: int, t2: int, j2: int| lex_before(u2, t2, j2, u, t, j) ==> !hidden_single_at(cells, dir, u2, t2, j2)
            &&& r == set_value_result(
                hidden_single_kind(dir),
                cells,
                unit_drafts(cells, dir, u)[t].coords,
                digits_in(unit_drafts(cells, dir, u)[t].candidates@)[j],
            )
        };
    let unit = unit_drafts(cells, dir, u);
    let p = unit[t];
    lemma_digits_in(p.candidates@);
    let v = digits_in(p.candidates@)[j];
    lemma_unit_member(field, dir, u, t);
    let i = choose|i: int| 0 <= i < 81 && cells[i] == p;
    lemma_index_decomp(i);
    let wi = pos_in_unit(p.coords, dir) as int;
    lemma_unit_cell(dir, u, wi);
    assert(unit_index(dir, u, wi) == i) by {
        lemma_idx_coords(i / 9, i % 9);
    }
    lemma_unit_has_digit(dir, u, s, v);
    let w = choose|w: int| 0 <= w < 9 && s[unit_index(dir, u, w)] == v;
    let q = unit_index(dir, u, w);
    lemma_unit_cell(dir, u, w);
    if w != wi {
        lemma_unit_pair(dir, u, w, wi);
        if is_filled(cells[q]) {
            assert(is_draft(cells[i]));
            assert(!cells[i].candidates@.contains(s[q]));
            assert(false);
        } else {
            assert(is_draft(cells[q]));
            let f = unit_fn(cells, dir, u);
            assert(f(w) == seq![cells[q]]);
            assert(f(w)[0] == cells[q]);
            lemma_range_concat_has(0, 9, f, w, cells[q]);
            let s2 = choose|s2: int| 0 <= s2 < unit.len() && unit[s2] == cells[q];
            assert(cells[q].coords == coords_of_index(q));
            assert(cells[q].candidates@.contains(v));
            assert(pos_in_unit(unit[s2].coords, dir) == pos_in_unit(p.coords, dir));
            assert(false);
        }
    }
    assert(v == s[i]);
    lemma_set_value_on_way(field, hidden_single_kind(dir), i, s);
}

/// Removing the digit `v` from cells whose digit of the solution is not `v` keeps the board
/// on the way to that solution.
proof fn lemma_removes_on_way(cells: Seq<Cell>, es: Seq<(Coords, Seq<u8>)>, v: u8, s: Seq<u8>)
    requires
        on_way_to(cells, s),
        v < 16,
        forall|t: int| 0 <= t < es.len() ==> (#[trigger] es[t]).1 == seq![v] && 0 <= entry_index(es[t]) < 81,
        forall|j: int| 0 <= j < 81 && names(es, j) && is_draft(cells[j]) ==> s[j] != v,
    ensures
        on_way_to(apply_removes(cells, es), s),
{
    lemma_apply_removes_digit(cells, es, v);
    let fin = apply_removes(cells, es);
    assert forall|j: int| 0 <= j < 81 && #[trigger] is_filled(fin[j]) implies fin[j].value == Some(s[j]) by {
        assert(is_filled(cells[j]));
    }
    assert forall|j: int| 0 <= j < 81 && #[trigger] is_draft(fin[j]) implies fin[j].candidates@.contains(s[j]) by {
        assert(is_draft(cells[j]));
    }
    assert forall|a: int, b: int|
        0 <= a < 81 && 0 <= b < 81 && a != b && crate::same_unit(a, b) && #[trigger] is_draft(fin[a])
            && #[trigger] is_filled(fin[b]) implies !fin[a].candidates@.contains(s[b]) by {
        assert(is_draft(cells[a]));
        assert(is_filled(cells[b]));
    }
}

/// The entries that pair each cell with `v` name those cells.
proof fn lemma_entries_with_names(cs: Seq<Cell>, v: u8, j: int)
    requires
        names(entries_with(cs, v), j),
    ensures
        exists|k: int| 0 <= k < cs.len() && idx(cs[k].coords.r as int, cs[k].coords.c as int) == j,
{
    let es = entries_with(cs, v);
    let t = choose|t: int| 0 <= t < es.len() && entry_index(#[trigger] es[t]) == j;
    assert(es[t] == (cs[t].coords, seq![v]));
}

/// The index of a board cell, from its coordinates.
proof fn lemma_cell_index(field: &Sudoku, q: int)
    requires
        field.wf(),
        0 <= q < 81,
    ensures
        idx(field@[q].coords.r as int, field@[q].coords.c as int) == q,
        coords_ok(field@[q].coords),
{
    lemma_index_decomp(q);
    lemma_idx_coords(q / 9, q % 9);
}

/// Where the solution puts the digit of a pointing deduction in its grid: a draft cell on
/// the deduction's line, inside the grid.
#[verifier::rlimit(100)]
#[verifier::spinoff_prover]
proof fn lemma_pointing_place(field: &Sudoku, dir: IterDirection, g: int, v: u8, s: Seq<u8>) -> (q: int)
    requires
        field.wf(),
        solved_digits(s),
        on_way_to(field@, s),
        pointing_at(field@, dir, g, v),
    ensures
        0 <= q < 81,
        s[q] == v,
        is_draft(field@[q]),
        unit_of(field@[q].coords, dir) == unit_of(cells_with(unit_drafts(field@, IterDirection::Grid, g), v)[0].coords, dir),
        field@[q].coords.g == cells_with(unit_drafts(field@, IterDirection::Grid, g), v)[0].coords.g,
{
    let cells = field@;
    let grid = unit_drafts(cells, IterDirection::Grid, g);
    let with_v = cells_with(grid, v);
    lemma_cells_with_member(grid, v, 0);
    let s0 = choose|s0: int| 0 <= s0 < grid.len() && grid[s0] == with_v[0];
    lemma_unit_member(field, IterDirection::Grid, g, s0);
    lemma_unit_has_digit(IterDirection::Grid, g, s, v);
    let w = choose|w: int| 0 <= w < 9 && s[unit_index(IterDirection::Grid, g, w)] == v;
    let q = unit_index(IterDirection::Grid, g, w);
    lemma_unit_cell(IterDirection::Grid, g, w);
    lemma_cell_index(field, q);
    let i0 = choose|i0: int| 0 <= i0 < 81 && cells[i0] == grid[s0];
    lemma_cell_index(field, i0);
    if is_filled(cells[q]) {
        assert(is_draft(cells[i0]));
        assert(crate::same_unit(i0, q)) by {
            lemma_index_decomp(i0);
            lemma_index_decomp(q);
        }
        assert(false);
    }
    let fg = unit_fn(cells, IterDirection::Grid, g);
    assert(fg(w)[0] == cells[q]);
    lemma_range_concat_has(0, 9, fg, w, cells[q]);
    let sq = choose|sq: int| 0 <= sq < grid.len() && grid[sq] == cells[q];
    let fw = |k: int| keep_if(grid[k].candidates@.contains(v), grid[k]);
    assert(fw(sq)[0] == cells[q]);
    lemma_range_concat_has(0, grid.len() as int, fw, sq, cells[q]);
    let kq = choose|kq: int| 0 <= kq < with_v.len() && with_v[kq] == cells[q];
    lemma_cells_with_member(grid, v, kq);
    let sk = choose|sk: int| 0 <= sk < grid.len() && grid[sk] == with_v[kq];
    lemma_unit_member(field, IterDirection::Grid, g, sk);
    q
}

/// A pointing deduction keeps the board on the way to any solution it is on the way to.
pub proof fn lemma_pointing_on_way(field: &Sudoku, dir: IterDirection, r: ResultView, s: Seq<u8>)
    requires
        field.wf(),
        dir != IterDirection::Grid,
        solved_digits(s),
        on_way_to(field@, s),
        pointing_outcome(field@, dir, Some(r)),
    ensures
        on_way_to(applied(field@, r), s),
{
    let cells = field@;
    let (g, v) = choose|g: int, v: u8|
        {
            &&& pointing_at(cells, dir, g, v)
            &&& forall|g2: int, v2: u8| (g2 < g || (g2 == g && v2 < v)) ==> !pointing_at(cells, dir, g2, v2)
            &&& r == pointing_result(cells, dir, g, v)
        };
    let grid = unit_drafts(cells, IterDirection::Grid, g);
    let with_v = cells_with(grid, v);
    let line = unit_of(with_v[0].coords, dir);
    let unit = unit_drafts(cells, dir, line as int);
    let outside = cells_outside_grid_with(unit, with_v[0].coords.g, v);
    let es = entries_with(outside, v);
    let q = lemma_pointing_place(field, dir, g, v, s);
    lemma_cells_with_member(grid, v, 0);
    let s0 = choose|s0: int| 0 <= s0 < grid.len() && grid[s0] == with_v[0];
    lemma_unit_member(field, IterDirection::Grid, g, s0);
    assert forall|t: int| 0 <= t < es.len() implies (#[trigger] es[t]).1 == seq![v] && 0 <= entry_index(es[t]) < 81 by {
        assert(es[t] == (outside[t].coords, seq![v]));
        lemma_outside_grid_member(unit, with_v[0].coords.g, v, t);
        let su = choose|su: int| 0 <= su < unit.len() && unit[su] == outside[t];
        lemma_unit_member(field, dir, line as int, su);
    }
    assert forall|j: int| 0 <= j < 81 && names(es, j) && is_draft(cells[j]) implies s[j] != v by {
        lemma_entries_with_names(outside, v, j);
        let k = choose|k: int| 0 <= k < outside.len() && idx(outside[k].coords.r as int, outside[k].coords.c as int) == j;
        lemma_outside_grid_member(unit, with_v[0].coords.g, v, k);
        let su = choose|su: int| 0 <= su < unit.len() && unit[su] == outside[k];
        lemma_unit_member(field, dir, line as int, su);
        let ij = choose|ij: int| 0 <= ij < 81 && cells[ij] == unit[su];
        lemma_cell_index(field, ij);
        lemma_cell_index(field, q);
        assert(ij == j);
        assert(cells[j].coords.g != cells[q].coords.g);
        assert(crate::same_unit(j, q)) by {
            lemma_index_decomp(j);
            lemma_index_decomp(q);
        }
    }
    lemma_removes_on_way(cells, es, v, s);
}

/// Where the solution puts a digit that a draft cell of a unit has as candidate: a draft
/// cell of that unit.
#[verifier::rlimit(100)]
#[verifier::spinoff_prover]
proof fn lemma_solution_place(field: &Sudoku, dir: IterDirection, l: int, v: u8, s: Seq<u8>, ip: int) -> (q: int)
    requires
        field.wf(),
        solved_digits(s),
        on_way_to(field@, s),
        0 <= l < 9,
        v < 9,
        0 <= ip < 81,
        is_draft(field@[ip]),
        field@[ip].candidates@.contains(v),
        unit_of(field@[ip].coords, dir) == l,
    ensures
        0 <= q < 81,
        s[q] == v,
        is_draft(field@[q]),
        unit_drafts(field@, dir, l).contains(field@[q]),
{
    let cells = field@;
    lemma_cell_index(field, ip);
    lemma_unit_has_digit(dir, l, s, v);
    let w = choose|w: int| 0 <= w < 9 && s[unit_index(dir, l, w)] == v;
    let q = unit_index(dir, l, w);
    lemma_unit_cell(dir, l, w);
    lemma_cell_index(field, q);
    lemma_index_decomp(ip);
    let wi = pos_in_unit(cells[ip].coords, dir) as int;
    lemma_unit_cell(dir, l, wi);
    assert(unit_index(dir, l, wi) == ip) by {
        lemma_idx_coords(ip / 9, ip % 9);
    }
    if is_filled(cells[q]) {
        assert(w != wi);
        lemma_unit_pair(dir, l, w, wi);
        assert(!cells[ip].candidates@.contains(s[q]));
        assert(false);
    }
    let fl = unit_fn(cells, dir, l);
    assert(fl(w)[0] == cells[q]);
    lemma_range_concat_has(0, 9, fl, w, cells[q]);
    q
}

/// The cells that a claiming deduction removes `v` from share a unit with a cell `q` in
/// the grid on the line, and name board cells.
#[verifier::rlimit(100)]
#[verifier::spinoff_prover]
proof fn lemma_claiming_entries(field: &Sudoku, dir: IterDirection, gg: int, line: usize, v: u8, q: int)
    requires
        field.wf(),
        0 <= gg < 9,
        0 <= q < 81,
        field@[q].coords.g == gg,
        unit_of(field@[q].coords, dir) == line,
    ensures
        ({
            let es = entries_with(cells_off_line_with(unit_drafts(field@, IterDirection::Grid, gg), dir, line, v), v);
            &&& forall|t: int| 0 <= t < es.len() ==> (#[trigger] es[t]).1 == seq![v] && 0 <= entry_index(es[t]) < 81
            &&& forall|j: int| 0 <= j < 81 && names(es, j) ==> j != q && crate::same_unit(j, q)
        }),
{
    let cells = field@;
    let grid = unit_drafts(cells, IterDirection::Grid, gg);
    let off = cells_off_line_with(grid, dir, line, v);
    let es = entries_with(off, v);
    lemma_cell_index(field, q);
    assert forall|t: int| 0 <= t < es.len() implies (#[trigger] es[t]).1 == seq![v] && 0 <= entry_index(es[t]) < 81 by {
        assert(es[t] == (off[t].coords, seq![v]));
        lemma_off_line_member(grid, dir, line, v, t);
        let su = choose|su: int| 0 <= su < grid.len() && grid[su] == off[t];
        lemma_unit_member(field, IterDirection::Grid, gg, su);
    }
    assert forall|j: int| 0 <= j < 81 && names(es, j) implies j != q && crate::same_unit(j, q) by {
        lemma_entries_with_names(off, v, j);
        let k = choose|k: int| 0 <= k < off.len() && idx(off[k].coords.r as int, off[k].coords.c as int) == j;
        lemma_off_line_member(grid, dir, line, v, k);
        let su = choose|su: int| 0 <= su < grid.len() && grid[su] == off[k];
        lemma_unit_member(field, IterDirection::Grid, gg, su);
        let ij = choose|ij: int| 0 <= ij < 81 && cells[ij] == grid[su];
        lemma_cell_index(field, ij);
        assert(ij == j);
        assert(unit_of(cells[j].coords, dir) != line);
        assert(crate::same_unit(j, q)) by {
            lemma_index_decomp(j);
            lemma_index_decomp(q);
        }
    }
}

/// A claiming deduction keeps the board on the way to any solution it is on the way to.
pub proof fn lemma_claiming_on_way(field: &Sudoku, dir: IterDirection, r: ResultView, s: Seq<u8>)
    requires
        field.wf(),
        dir != IterDirection::Grid,
        solved_digits(s),
        on_way_to(field@, s),
        claiming_outcome(field@, dir, Some(r)),
    ensures
        on_way_to(applied(field@, r), s),
{
    let cells = field@;
    let (l, v, s_) = choose|l: int, v: u8, s_: int|
        {
            &&& claiming_at(cells, dir, l, v, s_)
            &&& forall|l2: int, v2: u8, s2: int| lex_before(l2, v2 as int, s2, l, v as int, s_) ==> !claiming_at(cells, dir, l2, v2, s2)
            &&& r == claiming_result(cells, dir, l, v, s_)
        };
    let unit = unit_drafts(cells, dir, l);
    let p = unit[s_];
    lemma_unit_member(field, dir, l, s_);
    let ip = choose|ip: int| 0 <= ip < 81 && cells[ip] == p;
    let q = lemma_solution_place(field, dir, l, v, s, ip);
    let sq = choose|sq: int| 0 <= sq < unit.len() && unit[sq] == cells[q];
    lemma_unit_member(field, dir, l, sq);
    assert(cells[q].coords.g == p.coords.g);
    let gg = p.coords.g as int;
    let line = unit_of(p.coords, dir);
    let es = entries_with(cells_off_line_with(unit_drafts(cells, IterDirection::Grid, gg), dir, line, v), v);
    lemma_claiming_entries(field, dir, gg, line, v, q);
    assert forall|j: int| 0 <= j < 81 && names(es, j) && is_draft(cells[j]) implies s[j] != v by {
        assert(j != q && crate::same_unit(j, q));
    }
    lemma_removes_on_way(cells, es, v, s);
}

/// Removing digits below 16 from a candidate set removes exactly those digits.
pub proof fn lemma_remove_digits(c: Candidate, vals: Seq<u8>)
    requires
        forall|j: int| 0 <= j < vals.len() ==> #[trigger] vals[j] < 16,
    ensures
        forall|x: u8| #[trigger] remove_digits(c, vals)@.contains(x) <==> c@.contains(x) && !vals.contains(x),
    decreases vals.len(),
{
    if vals.len() > 0 {
        let prev = vals.drop_last();
        lemma_remove_digits(c, prev);
        remove_digits(c, prev).lemma_spec_remove(vals.last());
        assert forall|x: u8| #[trigger] remove_digits(c, vals)@.contains(x) <==> c@.contains(x) && !vals.contains(x) by {
            if prev.contains(x) {
                let j = choose|j: int| 0 <= j < prev.len() && prev[j] == x;
                assert(vals[j] == x);
            }
            if vals.contains(x) && x != vals.last() {
                let j = choose|j: int| 0 <= j < vals.len() && vals[j] == x;
                assert(prev[j] == x);
            }
        }
    }
}

/// Whether removing an entry's digits keeps the solution's digit of the cell it names, when
/// that cell is a draft cell, with all digits below 16.
pub open spec fn removal_keeps(cells: Seq<Cell>, s: Seq<u8>, e: (Coords, Seq<u8>)) -> bool {
    &&& 0 <= entry_index(e) < 81
    &&& forall|j: int| 0 <= j < e.1.len() ==> #[trigger] e.1[j] < 16
    &&& is_draft(cells[entry_index(e)]) ==> !e.1.contains(s[entry_index(e)])
}

/// Removals change no status and no value.
pub proof fn lemma_removes_keep_status(cells: Seq<Cell>, es: Seq<(Coords, Seq<u8>)>)
    requires
        cells.len() == 81,
        forall|t: int| 0 <= t < es.len() ==> 0 <= entry_index(#[trigger] es[t]) < 81,
    ensures
        apply_removes(cells, es).len() == 81,
        forall|j: int|
            0 <= j < 81 ==> (#[trigger] apply_removes(cells, es)[j]).status == cells[j].status && apply_removes(
                cells,
                es,
            )[j].value == cells[j].value,
    decreases es.len(),
{
    if es.len() > 0 {
        let prev = es.drop_last();
        assert forall|t: int| 0 <= t < prev.len() implies 0 <= entry_index(#[trigger] prev[t]) < 81 by {
            assert(prev[t] == es[t]);
        }
        assert(0 <= entry_index(es[es.len() - 1]) < 81);
        lemma_removes_keep_status(cells, prev);
    }
}

/// Removing digits that the solution does not put in the named cells keeps the board on
/// the way to that solution.
pub proof fn lemma_removals_on_way(cells: Seq<Cell>, es: Seq<(Coords, Seq<u8>)>, s: Seq<u8>)
    requires
        on_way_to(cells, s),
        forall|t: int| 0 <= t < es.len() ==> removal_keeps(cells, s, #[trigger] es[t]),
    ensures
        on_way_to(apply_removes(cells, es), s),
    decreases es.len(),
{
    if es.len() > 0 {
        let prev = es.drop_last();
        assert forall|t: int| 0 <= t < prev.len() implies removal_keeps(cells, s, #[trigger] prev[t]) by {
            assert(prev[t] == es[t]);
        }
        lemma_removals_on_way(cells, prev, s);
        let mid = apply_removes(cells, prev);
        let e = es.last();
        assert(removal_keeps(cells, s, es[es.len() - 1]));
        let k = entry_index(e);
        lemma_remove_digits(mid[k].candidates, e.1);
        lemma_removes_keep_status(cells, prev);
        let fin = apply_removes(cells, es);
        assert forall|j: int| 0 <= j < 81 && #[trigger] is_filled(fin[j]) implies fin[j].value == Some(s[j]) by {
            assert(is_filled(mid[j]));
        }
        assert forall|j: int| 0 <= j < 81 && #[trigger] is_draft(fin[j]) implies fin[j].candidates@.contains(s[j]) by {
            assert(is_draft(mid[j]));
            if j == k {
                assert(is_draft(cells[k]));
            }
        }
        assert forall|a: int, b: int|
            0 <= a < 81 && 0 <= b < 81 && a != b && crate::same_unit(a, b) && #[trigger] is_draft(fin[a])
                && #[trigger] is_filled(fin[b]) implies !fin[a].candidates@.contains(s[b]) by {
            assert(is_draft(mid[a]));
            assert(is_filled(mid[b]));
        }
    }
}

/// The board index of a cell of unit `u`, from its position in the unit.
pub open spec fn unit_cell_index(dir: IterDirection, u: int, cell: Cell) -> int {
    unit_index(dir, u, pos_in_unit(cell.coords, dir) as int)
}

/// The draft cells of a unit, listed through position `hi`, are board cells of the unit at
/// increasing positions below `hi`.
pub proof fn lemma_unit_positions(field: &Sudoku, dir: IterDirection, u: int, hi: int)
    requires
        field.wf(),
        0 <= u < 9,
        0 <= hi <= 9,
    ensures
        forall|t: int|
            0 <= t < range_concat(0, hi, unit_fn(field@, dir, u)).len() ==> {
                let c = #[trigger] range_concat(0, hi, unit_fn(field@, dir, u))[t];
                &&& pos_in_unit(c.coords, dir) < hi
                &&& 0 <= unit_cell_index(dir, u, c) < 81
                &&& field@[unit_cell_index(dir, u, c)] == c
                &&& is_draft(c)
            },
        forall|t1: int, t2: int|
            0 <= t1 < t2 < range_concat(0, hi, unit_fn(field@, dir, u)).len() ==> pos_in_unit(
                (#[trigger] range_concat(0, hi, unit_fn(field@, dir, u))[t1]).coords,
                dir,
            ) < pos_in_unit((#[trigger] range_concat(0, hi, unit_fn(field@, dir, u))[t2]).coords, dir),
    decreases hi,
{
    if hi > 0 {
        lemma_unit_positions(field, dir, u, hi - 1);
        let f = unit_fn(field@, dir, u);
        let prev = range_concat(0, hi - 1, f);
        let cur = range_concat(0, hi, f);
        let w = hi - 1;
        let k = unit_index(dir, u, w);
        lemma_unit_cell(dir, u, w);
        assert(field@[k].coords == coords_of_index(k));
        assert forall|t: int| 0 <= t < cur.len() implies {
            let c = #[trigger] cur[t];
            &&& pos_in_unit(c.coords, dir) < hi
            &&& 0 <= unit_cell_index(dir, u, c) < 81
            &&& field@[unit_cell_index(dir, u, c)] == c
            &&& is_draft(c)
        } by {
            if t < prev.len() {
                assert(cur[t] == prev[t]);
            } else {
                assert(cur[t] == f(w)[t - prev.len()]);
            }
        }
        assert forall|t1: int, t2: int| 0 <= t1 < t2 < cur.len() implies pos_in_unit((#[trigger] cur[t1]).coords, dir)
            < pos_in_unit((#[trigger] cur[t2]).coords, dir) by {
            assert(cur[t1] == prev[t1]);
            if t2 < prev.len() {
                assert(cur[t2] == prev[t2]);
            } else {
                assert(cur[t2] == f(w)[t2 - prev.len()]);
            }
        }
    }
}

/// The union of candidates over some cells of a unit holds each of their candidates.
pub proof fn lemma_union_of_member(unit: Seq<Cell>, xs: Seq<usize>, i: int)
    requires
        0 <= i < xs.len(),
    ensures
        unit[xs[i] as int].candidates@.subset_of(union_of(unit, xs)),
    decreases xs.len(),
{
    if i < xs.len() - 1 {
        lemma_union_of_member(unit, xs.drop_last(), i);
        assert(xs.drop_last()[i] == xs[i]);
    }
}

/// When the candidates of `n` distinct draft cells of a unit make up exactly `n` digits,
/// the solution puts those digits in those cells, so no other cell of the unit gets one.
#[verifier::rlimit(100)]
#[verifier::spinoff_prover]
pub proof fn lemma_subset_excludes(
    field: &Sudoku,
    dir: IterDirection,
    u: int,
    xs: Seq<usize>,
    y: usize,
    digits: Seq<u8>,
    s: Seq<u8>,
)
    requires
        field.wf(),
        solved_digits(s),
        on_way_to(field@, s),
        0 <= u < 9,
        crate::utils::increasing(xs),
        forall|k: int| 0 <= k < xs.len() ==> (#[trigger] xs[k]) < unit_drafts(field@, dir, u).len(),
        y < unit_drafts(field@, dir, u).len(),
        !xs.contains(y),
        digits == digits_in(union_of(unit_drafts(field@, dir, u), xs)),
        digits.len() == xs.len(),
    ensures
        !digits.contains(s[unit_cell_index(dir, u, unit_drafts(field@, dir, u)[y as int])]),
{
    broadcast use vstd::set::group_set_axioms;

    let unit = unit_drafts(field@, dir, u);
    lemma_unit_positions(field, dir, u, 9);
    let n = xs.len() as int;
    let a = |i: int| unit_cell_index(dir, u, unit[xs[i] as int]);
    let g = |i: int| s[a(i)];
    lemma_digits_in(union_of(unit, xs));
    // Each of the cells takes a digit of `digits`.
    assert forall|i: int| 0 <= i < n implies digits.contains(#[trigger] g(i)) by {
        let c = unit[xs[i] as int];
        assert(field@[a(i)] == c);
        assert(is_draft(field@[a(i)]));
        assert(c.candidates@.contains(s[a(i)]));
        lemma_union_of_member(unit, xs, i);
    }
    // They take different digits.
    let x = vstd::set_lib::set_int_range(0, n);
    assert forall|i1: int, i2: int| x.contains(i1) && x.contains(i2) && #[trigger] g(i1) == #[trigger] g(i2) implies i1 == i2 by {
        if i1 != i2 {
            let (p1, p2) = (pos_in_unit(unit[xs[i1] as int].coords, dir) as int, pos_in_unit(unit[xs[i2] as int].coords, dir) as int);
            if i1 < i2 {
                assert(xs[i1] < xs[i2]);
            } else {
                assert(xs[i2] < xs[i1]);
            }
            assert(p1 != p2);
            lemma_unit_pair(dir, u, p1, p2);
        }
    }
    vstd::set_lib::lemma_int_range(0, n);
    let img = x.map(g);
    vstd::set_lib::lemma_map_size(x, img, g);
    let dset = digits.to_set();
    assert(digits.no_duplicates()) by {
        assert forall|i: int, j: int| 0 <= i < digits.len() && 0 <= j < digits.len() && i != j implies digits[i] != digits[j] by {
            if i < j {
                assert(digits[i] < digits[j]);
            } else {
                assert(digits[j] < digits[i]);
            }
        }
    }
    digits.unique_seq_to_set();
    // So every digit of `digits` is taken by one of the cells.
    let b = unit_cell_index(dir, u, unit[y as int]);
    if digits.contains(s[b]) {
        let d = s[b];
        if !img.contains(d) {
            let z = dset.remove(d);
            assert forall|v: u8| img.contains(v) implies z.contains(v) by {
                let i = choose|i: int| x.contains(i) && g(i) == v;
                assert(digits.contains(g(i)));
            }
            assert(dset.contains(d));
            vstd::set_lib::lemma_len_subset(img, z);
            assert(false);
        }
        let i = choose|i: int| x.contains(i) && g(i) == d;
        let (p1, p2) = (pos_in_unit(unit[xs[i] as int].coords, dir) as int, pos_in_unit(unit[y as int].coords, dir) as int);
        assert(xs[i] != y);
        if xs[i] < y {
            assert(p1 < p2);
        } else {
            assert(p2 < p1);
        }
        lemma_unit_pair(dir, u, p1, p2);
        assert(false);
    }
}

/// The index sets of `all_combos(n)` increase, and each comes with the indices it leaves out.
pub proof fn lemma_all_combos_parts(n: int, q: int)
    requires
        0 <= n <= 9,
        0 <= q < all_combos(n).len(),
    ensures
        crate::utils::increasing(all_combos(n)[q].0),
        all_combos(n)[q].1 == complement_upto(n, all_combos(n)[q].0, n),
{
    let c2 = combinations(n, 2, 0, Seq::empty());
    let c3 = combinations(n, 3, 0, Seq::empty());
    let c4 = combinations(n, 4, 0, Seq::empty());
    crate::utils::lemma_combinations_parts(n, 2, 0, Seq::empty());
    crate::utils::lemma_combinations_parts(n, 3, 0, Seq::empty());
    crate::utils::lemma_combinations_parts(n, 4, 0, Seq::empty());
    if q < c2.len() {
        assert(all_combos(n)[q] == c2[q]);
    } else if q < c2.len() + c3.len() {
        assert(all_combos(n)[q] == c3[q - c2.len()]);
    } else {
        assert(all_combos(n)[q] == c4[q - c2.len() - c3.len()]);
    }
}

/// Removing `digits` from the cells at `ys` of a unit that share one of them keeps the board
/// on the way to the solution, when the solution puts none of `digits` in those cells.
proof fn lemma_sharing_on_way(field: &Sudoku, dir: IterDirection, u: int, ys: Seq<usize>, digits: Seq<u8>, s: Seq<u8>)
    requires
        field.wf(),
        on_way_to(field@, s),
        0 <= u < 9,
        forall|k: int| 0 <= k < ys.len() ==> (#[trigger] ys[k]) < unit_drafts(field@, dir, u).len(),
        forall|j: int| 0 <= j < digits.len() ==> #[trigger] digits[j] < 9,
        forall|k: int|
            0 <= k < ys.len() ==> !digits.contains(
                s[unit_cell_index(dir, u, unit_drafts(field@, dir, u)[(#[trigger] ys[k]) as int])],
            ),
    ensures
        on_way_to(apply_removes(field@, sharing_entries(unit_drafts(field@, dir, u), ys, digits)), s),
{
    let cells = field@;
    let unit = unit_drafts(cells, dir, u);
    lemma_unit_positions(field, dir, u, 9);
    let f = |k: int| keep_if(shares_digit(unit[ys[k] as int].candidates@, digits), (unit[ys[k] as int].coords, digits));
    let pred = |e: (Coords, Seq<u8>)| removal_keeps(cells, s, e);
    assert forall|k: int, j: int| 0 <= k < ys.len() && 0 <= j < f(k).len() implies pred(#[trigger] f(k)[j]) by {
        let c = unit[ys[k] as int];
        let b = unit_cell_index(dir, u, c);
        assert(cells[b] == c);
        lemma_cell_index(field, b);
        assert(f(k)[j] == (c.coords, digits));
        assert(entry_index(f(k)[j]) == b);
    }
    lemma_range_concat_all(0, ys.len() as int, f, pred);
    let es = sharing_entries(unit, ys, digits);
    assert forall|t: int| 0 <= t < es.len() implies removal_keeps(cells, s, #[trigger] es[t]) by {
        assert(pred(es[t]));
    }
    lemma_removals_on_way(cells, es, s);
}

/// A naked subset keeps the board on the way to any solution it is on the way to.
pub proof fn lemma_naked_subset_on_way(field: &Sudoku, dir: IterDirection, r: ResultView, s: Seq<u8>)
    requires
        field.wf(),
        solved_digits(s),
        on_way_to(field@, s),
        naked_subset_outcome(field@, dir, Some(r)),
    ensures
        on_way_to(applied(field@, r), s),
{
    let cells = field@;
    let (u, q) = choose|u: int, q: int|
        {
            &&& naked_at(cells, dir, u, q)
            &&& forall|u2: int, q2: int| (u2 < u || (u2 == u && q2 < q)) ==> !naked_at(cells, dir, u2, q2)
            &&& r == naked_result(cells, dir, u, q)
        };
    let unit = unit_drafts(cells, dir, u);
    let n = unit.len() as int;
    lemma_unit_positions(field, dir, u, 9);
    assert(n <= 9) by {
        lemma_range_concat_len(field, dir, u);
    }
    let combos = all_combos(n);
    lemma_all_combos_shape(n, q);
    lemma_all_combos_parts(n, q);
    let (xs, ys) = (combos[q].0, combos[q].1);
    let digits = digits_in(union_of(unit, xs));
    lemma_digits_in(union_of(unit, xs));
    crate::utils::lemma_complement_upto(n, xs, n);
    assert forall|k: int| 0 <= k < ys.len() implies !digits.contains(
        s[unit_cell_index(dir, u, unit[(#[trigger] ys[k]) as int])],
    ) by {
        lemma_subset_excludes(field, dir, u, xs, ys[k], digits, s);
    }
    lemma_sharing_on_way(field, dir, u, ys, digits, s);
}

/// A hidden subset keeps the board on the way to any solution it is on the way to.
pub proof fn lemma_hidden_subset_on_way(field: &Sudoku, dir: IterDirection, r: ResultView, s: Seq<u8>)
    requires
        field.wf(),
        solved_digits(s),
        on_way_to(field@, s),
        hidden_subset_outcome(field@, dir, Some(r)),
    ensures
        on_way_to(applied(field@, r), s),
{
    let cells = field@;
    let (u, q) = choose|u: int, q: int|
        {
            &&& hidden_at(cells, dir, u, q)
            &&& forall|u2: int, q2: int| (u2 < u || (u2 == u && q2 < q)) ==> !hidden_at(cells, dir, u2, q2)
            &&& r == hidden_result(cells, dir, u, q)
        };
    let unit = unit_drafts(cells, dir, u);
    let n = unit.len() as int;
    lemma_unit_positions(field, dir, u, 9);
    assert(n <= 9) by {
        lemma_range_concat_len(field, dir, u);
    }
    let combos = all_combos(n);
    lemma_all_combos_shape(n, q);
    lemma_all_combos_parts(n, q);
    let (xs, ys) = (combos[q].0, combos[q].1);
    let rest = digits_in(union_of(unit, ys));
    lemma_digits_in(union_of(unit, ys));
    crate::utils::lemma_complement_upto(n, xs, n);
    crate::utils::lemma_complement_count(n, xs, n);
    crate::utils::lemma_count_below_all(xs, n);
    assert(ys.len() == n - xs.len());
    assert forall|k: int| 0 <= k < xs.len() implies !rest.contains(
        s[unit_cell_index(dir, u, unit[(#[trigger] xs[k]) as int])],
    ) by {
        if ys.contains(xs[k]) {
            let j = choose|j: int| 0 <= j < ys.len() && ys[j] == xs[k];
            assert(!xs.contains(ys[j]));
            assert(xs.contains(xs[k]));
        }
        lemma_subset_excludes(field, dir, u, ys, xs[k], rest, s);
    }
    lemma_sharing_on_way(field, dir, u, xs, rest, s);
}

/// A unit lists at most nine draft cells.
proof fn lemma_range_concat_len(field: &Sudoku, dir: IterDirection, u: int)
    requires
        field.wf(),
        0 <= u < 9,
    ensures
        unit_drafts(field@, dir, u).len() <= 9,
{
    lemma_unit_positions(field, dir, u, 9);
    let unit = unit_drafts(field@, dir, u);
    if unit.len() > 9 {
        // Ten items at increasing positions below 9 cannot exist.
        lemma_increasing_positions_bound(field, dir, u, 9);
        assert(false);
    }
}

/// The `t`-th draft cell of a unit sits at position `t` or later.
proof fn lemma_increasing_positions_bound(field: &Sudoku, dir: IterDirection, u: int, t: int)
    requires
        field.wf(),
        0 <= u < 9,
        0 <= t < unit_drafts(field@, dir, u).len(),
    ensures
        pos_in_unit(unit_drafts(field@, dir, u)[t].coords, dir) >= t,
    decreases t,
{
    lemma_unit_positions(field, dir, u, 9);
    if t > 0 {
        lemma_increasing_positions_bound(field, dir, u, t - 1);
        let unit = unit_drafts(field@, dir, u);
        assert(pos_in_unit(unit[t - 1].coords, dir) < pos_in_unit(unit[t].coords, dir));
    }
}

/// The other kind of line: columns for rows, rows for columns.
pub open spec fn cross_dir(dir: IterDirection) -> IterDirection {
    if dir == IterDirection::Row {
        IterDirection::Column
    } else {
        IterDirection::Row
    }
}

/// The position on line `l` where the solution puts `v`.
pub open spec fn digit_pos(s: Seq<u8>, dir: IterDirection, l: int, v: u8) -> int {
    choose|w: int| 0 <= w < 9 && s[line_index(dir, l, w)] == v
}

/// Each line of a solution holds `v` at exactly one position.
proof fn lemma_digit_pos(s: Seq<u8>, dir: IterDirection, l: int, v: u8)
    requires
        solved_digits(s),
        dir != IterDirection::Grid,
        0 <= l < 9,
        v < 9,
    ensures
        0 <= digit_pos(s, dir, l, v) < 9,
        s[line_index(dir, l, digit_pos(s, dir, l, v))] == v,
        forall|w: int| 0 <= w < 9 && s[line_index(dir, l, w)] == v ==> w == digit_pos(s, dir, l, v),
{
    lemma_unit_has_digit(dir, l, s, v);
    let w0 = choose|w: int| 0 <= w < 9 && s[unit_index(dir, l, w)] == v;
    assert(unit_index(dir, l, w0) == line_index(dir, l, w0));
    let d = digit_pos(s, dir, l, v);
    assert forall|w: int| 0 <= w < 9 && s[line_index(dir, l, w)] == v implies w == d by {
        if w != d {
            lemma_unit_pair(dir, l, w, d);
            assert(unit_index(dir, l, w) == line_index(dir, l, w));
            assert(unit_index(dir, l, d) == line_index(dir, l, d));
        }
    }
}

/// Two lines of one kind never have the solution's `v` at the same position.
proof fn lemma_cross_distinct(s: Seq<u8>, dir: IterDirection, a: int, b: int, c: int, v: u8)
    requires
        solved_digits(s),
        dir != IterDirection::Grid,
        0 <= a < 9,
        0 <= b < 9,
        0 <= c < 9,
        a != b,
        s[line_index(dir, a, c)] == v,
    ensures
        s[line_index(dir, b, c)] != v,
{
    lemma_unit_pair(cross_dir(dir), c, a, b);
    assert(unit_index(cross_dir(dir), c, a) == line_index(dir, a, c));
    assert(unit_index(cross_dir(dir), c, b) == line_index(dir, b, c));
}

/// The kept indices of `range_concat` over single indices increase and stay below `hi`.
proof fn lemma_kept_increasing(hi: int, f: spec_fn(int) -> Seq<usize>)
    requires
        0 <= hi <= 9,
        forall|k: int| 0 <= k < hi ==> (#[trigger] f(k)).len() <= 1 && (f(k).len() == 1 ==> f(k)[0] == k),
    ensures
        crate::utils::increasing(range_concat(0, hi, f)),
        forall|t: int| 0 <= t < range_concat(0, hi, f).len() ==> (#[trigger] range_concat(0, hi, f)[t]) < hi,
    decreases hi,
{
    if hi > 0 {
        lemma_kept_increasing(hi - 1, f);
        let prev = range_concat(0, hi - 1, f);
        let cur = range_concat(0, hi, f);
        assert(f(hi - 1).len() <= 1);
        assert forall|t: int| 0 <= t < cur.len() implies (#[trigger] cur[t]) < hi by {
            if t < prev.len() {
                assert(cur[t] == prev[t]);
            }
        }
        assert forall|a: int, b: int| 0 <= a < b < cur.len() implies #[trigger] cur[a] < #[trigger] cur[b] by {
            assert(cur[a] == prev[a]);
            if b < prev.len() {
                assert(cur[b] == prev[b]);
            }
        }
    }
}

/// A draft cell of line `l` with candidate `v` shows among the positions of `v` on `l`.
proof fn lemma_fish_position_of(field: &Sudoku, dir: IterDirection, v: u8, l: int, c: int)
    requires
        field.wf(),
        dir != IterDirection::Grid,
        0 <= l < 9,
        0 <= c < 9,
        is_draft(field@[line_index(dir, l, c)]),
        field@[line_index(dir, l, c)].candidates@.contains(v),
    ensures
        has_position(fish_positions(field@, dir, v, l), c as usize),
{
    let cells = field@;
    let f = |o: int|
        keep_if(
            is_draft(cells[line_index(dir, l, o)]) && cells[line_index(dir, l, o)].candidates@.contains(v),
            (unit_of(cells[line_index(dir, l, o)].coords, dir), pos_in_unit(cells[line_index(dir, l, o)].coords, dir)),
        );
    if dir == IterDirection::Row {
        lemma_idx_coords(l, c);
    } else {
        lemma_idx_coords(c, l);
    }
    let x = (l as usize, c as usize);
    assert(f(c) == seq![x]);
    assert(f(c)[0] == x);
    lemma_range_concat_has(0, 9, f, c, x);
    assert(fish_positions(cells, dir, v, l) == range_concat(0, 9, f));
    let m = choose|m: int| 0 <= m < range_concat(0, 9, f).len() && range_concat(0, 9, f)[m] == x;
    assert(fish_positions(cells, dir, v, l)[m].1 == c as usize);
}

/// Each position of `v` on line `l` is a draft cell of the line with candidate `v`.
proof fn lemma_fish_position_cell(field: &Sudoku, dir: IterDirection, v: u8, l: int, m: int)
    requires
        field.wf(),
        dir != IterDirection::Grid,
        0 <= l < 9,
        0 <= m < fish_positions(field@, dir, v, l).len(),
    ensures
        fish_positions(field@, dir, v, l)[m].1 < 9,
        is_draft(field@[line_index(dir, l, fish_positions(field@, dir, v, l)[m].1 as int)]),
        field@[line_index(dir, l, fish_positions(field@, dir, v, l)[m].1 as int)].candidates@.contains(v),
{
    let cells = field@;
    let f = |o: int|
        keep_if(
            is_draft(cells[line_index(dir, l, o)]) && cells[line_index(dir, l, o)].candidates@.contains(v),
            (unit_of(cells[line_index(dir, l, o)].coords, dir), pos_in_unit(cells[line_index(dir, l, o)].coords, dir)),
        );
    assert(fish_positions(cells, dir, v, l) == range_concat(0, 9, f));
    assert forall|k: int| 0 <= k < 9 implies #[trigger] f(k).len() <= 1 by {}
    lemma_range_concat_member(0, 9, f, m);
    let o = choose|o: int| 0 <= o < 9 && #[trigger] f(o).len() == 1 && f(o)[0] == range_concat(0, 9, f)[m];
    if dir == IterDirection::Row {
        lemma_idx_coords(l, o);
    } else {
        lemma_idx_coords(o, l);
    }
}

/// On a line with a draft cell of candidate `v`, the solution puts `v` at one of the
/// positions of `v` on that line.
proof fn lemma_line_digit_position(field: &Sudoku, dir: IterDirection, v: u8, l: int, s: Seq<u8>)
    requires
        field.wf(),
        dir != IterDirection::Grid,
        solved_digits(s),
        on_way_to(field@, s),
        0 <= l < 9,
        v < 9,
        fish_positions(field@, dir, v, l).len() > 0,
    ensures
        has_position(fish_positions(field@, dir, v, l), digit_pos(s, dir, l, v) as usize),
{
    let cells = field@;
    lemma_fish_position_cell(field, dir, v, l, 0);
    let o = fish_positions(cells, dir, v, l)[0].1 as int;
    let ip = line_index(dir, l, o);
    lemma_digit_pos(s, dir, l, v);
    let w = digit_pos(s, dir, l, v);
    let q = line_index(dir, l, w);
    lemma_unit_cell(dir, l, o);
    lemma_unit_cell(dir, l, w);
    assert(unit_index(dir, l, o) == ip);
    assert(unit_index(dir, l, w) == q);
    if !is_draft(cells[q]) {
        assert(is_filled(cells[q]));
        if o == w {
            assert(false);
        }
        lemma_unit_pair(dir, l, o, w);
        assert(!cells[ip].candidates@.contains(s[q]));
        assert(false);
    }
    lemma_fish_position_of(field, dir, v, l, w);
}

/// The lines of a fish: distinct lines below 9, each but the first with its positions of
/// `v` among those of the first.
proof fn lemma_fish_lines(field: &Sudoku, dir: IterDirection, v: u8, one: int)
    requires
        field.wf(),
        dir != IterDirection::Grid,
        0 <= one < 9,
    ensures
        ({
            let lines = fish_lines(field@, dir, v, one);
            &&& lines[0] == one
            &&& forall|i: int| 0 <= i < lines.len() ==> (#[trigger] lines[i]) < 9
            &&& forall|i: int|
                1 <= i < lines.len() ==> fish_pair(
                    fish_positions(field@, dir, v, one),
                    fish_positions(field@, dir, v, (#[trigger] lines[i]) as int),
                )
            &&& forall|i1: int, i2: int| 0 <= i1 < lines.len() && 0 <= i2 < lines.len() && i1 != i2 ==> #[trigger] lines[i1] != #[trigger] lines[i2]
        }),
{
    let cells = field@;
    let f = fish_partner(cells, dir, v, one);
    let rest = range_concat(0, 9, f);
    let lines = fish_lines(cells, dir, v, one);
    assert(lines == seq![one as usize] + rest);
    assert forall|k: int| 0 <= k < 9 implies (#[trigger] f(k)).len() <= 1 && (f(k).len() == 1 ==> f(k)[0] == k) by {}
    lemma_kept_increasing(9, f);
    assert forall|t: int| 0 <= t < rest.len() implies (#[trigger] rest[t]) != one && fish_pair(
        fish_positions(cells, dir, v, one),
        fish_positions(cells, dir, v, rest[t] as int),
    ) by {
        lemma_range_concat_member(0, 9, f, t);
        let o = choose|o: int| 0 <= o < 9 && #[trigger] f(o).len() == 1 && f(o)[0] == rest[t];
    }
    assert forall|i: int| 0 <= i < lines.len() implies (#[trigger] lines[i]) < 9 by {
        if i > 0 {
            assert(lines[i] == rest[i - 1]);
        }
    }
    assert forall|i: int| 1 <= i < lines.len() implies fish_pair(
        fish_positions(cells, dir, v, one),
        fish_positions(cells, dir, v, (#[trigger] lines[i]) as int),
    ) by {
        assert(lines[i] == rest[i - 1]);
    }
    assert forall|i1: int, i2: int| 0 <= i1 < lines.len() && 0 <= i2 < lines.len() && i1 != i2 implies #[trigger] lines[i1]
        != #[trigger] lines[i2] by {
        if i1 > 0 && i2 > 0 {
            assert(lines[i1] == rest[i1 - 1]);
            assert(lines[i2] == rest[i2 - 1]);
            if i1 < i2 {
                assert(rest[i1 - 1] < rest[i2 - 1]);
            } else {
                assert(rest[i2 - 1] < rest[i1 - 1]);
            }
        } else if i1 > 0 {
            assert(lines[i1] == rest[i1 - 1]);
        } else {
            assert(lines[i2] == rest[i2 - 1]);
        }
    }
}

/// The lines of a fish take, in the solution, `v` at every one of its positions.
#[verifier::rlimit(50)]
#[verifier::spinoff_prover]
proof fn lemma_fish_covers(field: &Sudoku, dir: IterDirection, v: u8, one: int, s: Seq<u8>)
    requires
        field.wf(),
        dir != IterDirection::Grid,
        solved_digits(s),
        on_way_to(field@, s),
        fish_at(field@, dir, v, one),
    ensures
        forall|j: int|
            0 <= j < fish_others(field@, dir, v, one).len() ==> exists|i: int|
                0 <= i < fish_lines(field@, dir, v, one).len() && digit_pos(
                    s,
                    dir,
                    fish_lines(field@, dir, v, one)[i] as int,
                    v,
                ) == (#[trigger] fish_others(field@, dir, v, one)[j]) as int,
{
    broadcast use vstd::set::group_set_axioms, vstd::seq_lib::seq_to_set_is_finite;

    let cells = field@;
    let pos = fish_positions(cells, dir, v, one);
    let others = fish_others(cells, dir, v, one);
    let lines = fish_lines(cells, dir, v, one);
    let n = pos.len() as int;
    lemma_fish_lines(field, dir, v, one);
    lemma_fish_positions_bounded(field, dir, v, one);
    let g = |i: int| digit_pos(s, dir, lines[i] as int, v);
    let x = vstd::set_lib::set_int_range(0, n);
    // Each line takes `v` at one of the fish's positions.
    assert forall|i: int| 0 <= i < n implies has_position(pos, (#[trigger] g(i)) as usize) by {
        let l = lines[i] as int;
        lemma_digit_pos(s, dir, l, v);
        if i == 0 {
            lemma_line_digit_position(field, dir, v, one, s);
        } else {
            let pl = fish_positions(cells, dir, v, l);
            assert(fish_pair(pos, pl));
            lemma_line_digit_position(field, dir, v, l, s);
            let m = choose|m: int| 0 <= m < pl.len() && pl[m].1 == g(i) as usize;
            assert(has_position(pos, pl[m].1));
        }
    }
    // Different lines take it at different positions.
    assert forall|i1: int, i2: int| x.contains(i1) && x.contains(i2) && #[trigger] g(i1) == #[trigger] g(i2) implies i1 == i2 by {
        if i1 != i2 {
            let (l1, l2) = (lines[i1] as int, lines[i2] as int);
            assert(l1 != l2);
            lemma_digit_pos(s, dir, l1, v);
            lemma_digit_pos(s, dir, l2, v);
            lemma_cross_distinct(s, dir, l1, l2, g(i1), v);
        }
    }
    vstd::set_lib::lemma_int_range(0, n);
    let img = x.map(g);
    vstd::set_lib::lemma_map_size(x, img, g);
    let oi = others.map_values(|u: usize| u as int);
    let oset = oi.to_set();
    oi.lemma_cardinality_of_set();
    assert forall|y: int| img.contains(y) implies oset.contains(y) by {
        let i = choose|i: int| x.contains(i) && g(i) == y;
        assert(has_position(pos, g(i) as usize));
        let m = choose|m: int| 0 <= m < pos.len() && pos[m].1 == g(i) as usize;
        lemma_digit_pos(s, dir, lines[i] as int, v);
        assert(oi[m] == y);
    }
    assert forall|j: int| 0 <= j < others.len() implies exists|i: int|
        0 <= i < lines.len() && digit_pos(s, dir, lines[i] as int, v) == (#[trigger] others[j]) as int by {
        let c = others[j] as int;
        assert(oi[j] == c);
        if !img.contains(c) {
            let z = oset.remove(c);
            assert forall|y: int| img.contains(y) implies z.contains(y) by {}
            vstd::set_lib::lemma_len_subset(img, z);
            assert(false);
        }
        let i = choose|i: int| x.contains(i) && g(i) == c;
        assert(0 <= i < lines.len() && digit_pos(s, dir, lines[i] as int, v) == c);
    }
}

/// A fish keeps the board on the way to any solution it is on the way to.
#[verifier::rlimit(50)]
#[verifier::spinoff_prover]
pub proof fn lemma_fish_on_way(field: &Sudoku, r: ResultView, s: Seq<u8>)
    requires
        field.wf(),
        solved_digits(s),
        on_way_to(field@, s),
        fish_outcome(field@, Some(r)),
    ensures
        on_way_to(applied(field@, r), s),
{
    let cells = field@;
    let (v, dir, one) = choose|v: u8, dir: IterDirection, one: int|
        {
            &&& v < 9
            &&& dir != IterDirection::Grid
            &&& fish_at(cells, dir, v, one)
            &&& forall|v2: u8, one2: int| v2 < v ==> !fish_at(cells, IterDirection::Row, v2, one2) && !fish_at(cells, IterDirection::Column, v2, one2)
            &&& forall|one2: int| one2 < one ==> !fish_at(cells, dir, v, one2)
            &&& dir == IterDirection::Column ==> forall|one2: int| !fish_at(cells, IterDirection::Row, v, one2)
            &&& r == fish_result(cells, dir, v, one)
        };
    let lines = fish_lines(cells, dir, v, one);
    let others = fish_others(cells, dir, v, one);
    lemma_fish_lines(field, dir, v, one);
    lemma_fish_positions_bounded(field, dir, v, one);
    lemma_fish_covers(field, dir, v, one, s);
    let pred = |e: (Coords, Seq<u8>)| removal_keeps(cells, s, e);
    let inner = |o: int|
        |j: int|
            keep_if(
                is_draft(cells[line_index(dir, o, others[j] as int)]) && cells[line_index(
                    dir,
                    o,
                    others[j] as int,
                )].candidates@.contains(v),
                (spec_coords_of_rc(line_rc(dir, o as usize, others[j])), seq![v]),
            );
    let outer = |o: int|
        if lines.contains(o as usize) {
            Seq::empty()
        } else {
            range_concat(
                0,
                others.len() as int,
                |j: int|
                    keep_if(
                        is_draft(cells[line_index(dir, o, others[j] as int)]) && cells[line_index(
                            dir,
                            o,
                            others[j] as int,
                        )].candidates@.contains(v),
                        (spec_coords_of_rc(line_rc(dir, o as usize, others[j])), seq![v]),
                    ),
            )
        };
    let es = fish_conclusion(cells, dir, v, lines, others);
    assert(es == range_concat(0, 9, outer));
    assert forall|k: int, t: int| 0 <= k < 9 && 0 <= t < outer(k).len() implies pred(#[trigger] outer(k)[t]) by {
        if !lines.contains(k as usize) {
            assert forall|j: int, t2: int| 0 <= j < others.len() && 0 <= t2 < inner(k)(j).len() implies pred(
                #[trigger] inner(k)(j)[t2],
            ) by {
                let c = others[j] as int;
                let i = choose|i: int| 0 <= i < lines.len() && digit_pos(s, dir, lines[i] as int, v) == c;
                let l = lines[i] as int;
                lemma_digit_pos(s, dir, l, v);
                assert(l != k);
                lemma_cross_distinct(s, dir, l, k, c, v);
                if dir == IterDirection::Row {
                    lemma_idx_coords(k, c);
                } else {
                    lemma_idx_coords(c, k);
                }
                assert(entry_index(inner(k)(j)[t2]) == line_index(dir, k, c));
            }
            lemma_range_concat_all(0, others.len() as int, inner(k), pred);
            assert(outer(k) == range_concat(0, others.len() as int, inner(k))) by {
                let f2 = |j: int|
                    keep_if(
                        is_draft(cells[line_index(dir, k, others[j] as int)]) && cells[line_index(
                            dir,
                            k,
                            others[j] as int,
                        )].candidates@.contains(v),
                        (spec_coords_of_rc(line_rc(dir, k as usize, others[j])), seq![v]),
                    );
                assert(inner(k) =~= f2);
            }
        }
    }
    lemma_range_concat_all(0, 9, outer, pred);
    assert forall|t: int| 0 <= t < es.len() implies removal_keeps(cells, s, #[trigger] es[t]) by {
        assert(pred(es[t]));
    }
    lemma_removals_on_way(cells, es, s);
}

/// Whether no draft cell of the board holds a value.
pub open spec fn valueless_drafts(cells: Seq<Cell>) -> bool {
    forall|i: int| 0 <= i < cells.len() && #[trigger] is_draft(cells[i]) ==> cells[i].value is None
}

/// Whether the search may reach solution `s` from the board: its filled cells hold their
/// digits of `s`, and its draft cells hold no value and keep their digit of `s`.
pub open spec fn search_fits(cells: Seq<Cell>, s: Seq<u8>) -> bool {
    &&& cells.len() == 81
    &&& solved_digits(s)
    &&& valueless_drafts(cells)
    &&& forall|i: int| 0 <= i < 81 && #[trigger] is_filled(cells[i]) ==> cells[i].value == Some(s[i])
    &&& forall|i: int| 0 <= i < 81 && #[trigger] is_draft(cells[i]) ==> cells[i].candidates@.contains(s[i])
}

/// The board with each draft cell filled in, while solving, with its digit of `s`.
pub open spec fn filled_with(cells: Seq<Cell>, s: Seq<u8>) -> Seq<Cell> {
    Seq::new(
        cells.len(),
        |i: int|
            if is_draft(cells[i]) {
                crate::types::solved_cell(cells[i], s[i])
            } else {
                cells[i]
            },
    )
}

/// A board with a draft cell has a first one.
proof fn lemma_first_draft_exists(cells: Seq<Cell>, m: int)
    requires
        0 <= m < 81,
        is_draft(cells[m]),
    ensures
        first_draft(cells) matches Some(k) && 0 <= k < 81 && is_draft(cells[k]),
    decreases m,
{
    if exists|j: int| 0 <= j < m && #[trigger] is_draft(cells[j]) {
        let j = choose|j: int| 0 <= j < m && #[trigger] is_draft(cells[j]);
        lemma_first_draft_exists(cells, j);
    } else {
        crate::types::lemma_first_draft_is(cells, m);
    }
}

/// Filling in a draft cell and putting it back leaves a board without draft values as it was.
proof fn lemma_reset_solved(cells: Seq<Cell>, k: int, d: u8)
    requires
        0 <= k < cells.len(),
        is_draft(cells[k]),
        cells[k].value is None,
    ensures
        ({
            let child = cells.update(k, crate::types::solved_cell(cells[k], d));
            child.update(k, crate::types::reset_cell(child[k])) == cells
        }),
{
    let child = cells.update(k, crate::types::solved_cell(cells[k], d));
    assert(crate::types::reset_cell(child[k]) == cells[k]);
    assert(child.update(k, crate::types::reset_cell(child[k])) =~= cells);
}

/// When the search from a board without draft values fails, it leaves the board as it was.
pub proof fn lemma_search_restores(cells: Seq<Cell>, sols: Seq<Seq<Cell>>)
    requires
        cells.len() == 81,
        valueless_drafts(cells),
    ensures
        !search(cells, sols).0 ==> search(cells, sols).2 == cells,
    decreases count_drafts(cells), 1nat, 0nat,
{
    match first_draft(cells) {
        None => {},
        Some(k) => lemma_try_restores(cells, k, digits_in(cells[k].candidates@), 0, sols),
    }
}

/// The candidate loop of `lemma_search_restores`.
pub proof fn lemma_try_restores(cells: Seq<Cell>, k: int, cands: Seq<u8>, j: int, sols: Seq<Seq<Cell>>)
    requires
        cells.len() == 81,
        valueless_drafts(cells),
    ensures
        !try_candidates(cells, k, cands, j, sols).0 ==> try_candidates(cells, k, cands, j, sols).2 == cells,
    decreases count_drafts(cells), 0nat, cands.len() - j,
{
    if j < 0 || j >= cands.len() || !(0 <= k < cells.len() && is_draft(cells[k])) {
    } else if crate::types::placement_ok(cells, k / 9, k % 9, Some(cands[j])) {
        let child = cells.update(k, crate::types::solved_cell(cells[k], cands[j]));
        crate::types::lemma_count_drafts_update(cells, k, crate::types::solved_cell(cells[k], cands[j]));
        assert(valueless_drafts(child));
        lemma_search_restores(child, sols);
        crate::types::lemma_search_shape(child, sols);
        let (found, sols2, fin) = search(child, sols);
        if found && sols2.len() + 1 >= 2 {
        } else {
            let sols3 = if found {
                sols2.push(fin)
            } else {
                sols2
            };
            assert(fin == child);
            lemma_reset_solved(cells, k, cands[j]);
            lemma_try_restores(cells, k, cands, j + 1, sols3);
        }
    } else {
        lemma_try_restores(cells, k, cands, j + 1, sols);
    }
}

/// Digit `s[k]` may be placed at draft cell `k` of a board that fits `s`.
proof fn lemma_placement_fits(cells: Seq<Cell>, k: int, s: Seq<u8>)
    requires
        search_fits(cells, s),
        0 <= k < 81,
        is_draft(cells[k]),
    ensures
        crate::types::placement_ok(cells, k / 9, k % 9, Some(s[k])),
{
    let (r, c) = (k / 9, k % 9);
    lemma_index_decomp(k);
    lemma_idx_coords(r, c);
    let g = coords_of_index(k).g as int;
    let n = coords_of_index(k).n as int;
    assert forall|i: int| 0 <= i < 9 implies {
        &&& #[trigger] cells[idx(r, i)].value != Some(s[k])
        &&& cells[idx(i, c)].value != Some(s[k])
        &&& cells[gn_idx(r / 3 * 3 + c / 3, i)].value != Some(s[k])
    } by {
        let p1 = unit_index(IterDirection::Row, r, i);
        let p2 = unit_index(IterDirection::Column, c, i);
        let p3 = unit_index(IterDirection::Grid, g, i);
        assert(k == unit_index(IterDirection::Row, r, c));
        assert(k == unit_index(IterDirection::Column, c, r));
        assert(k == unit_index(IterDirection::Grid, g, n));
        if i != c {
            lemma_unit_pair(IterDirection::Row, r, i, c);
        }
        if i != r {
            lemma_unit_pair(IterDirection::Column, c, i, r);
        }
        if i != n {
            lemma_unit_pair(IterDirection::Grid, g, i, n);
        }
        lemma_unit_cell(IterDirection::Row, r, i);
        lemma_unit_cell(IterDirection::Column, c, i);
        lemma_unit_cell(IterDirection::Grid, g, i);
        assert(is_draft(cells[p1]) || is_filled(cells[p1]));
        assert(is_draft(cells[p2]) || is_filled(cells[p2]));
        assert(is_draft(cells[p3]) || is_filled(cells[p3]));
    }
}

/// The search from a board that fits `s` and has a draft cell finds the board filled in
/// with `s`, unless it stops at two solutions first.
pub proof fn lemma_search_finds(cells: Seq<Cell>, sols: Seq<Seq<Cell>>, s: Seq<u8>)
    requires
        search_fits(cells, s),
        exists|m: int| 0 <= m < 81 && #[trigger] is_draft(cells[m]),
    ensures
        search(cells, sols).1.len() >= 2 || search(cells, sols).1.contains(filled_with(cells, s)),
    decreases count_drafts(cells), 1nat, 0nat,
{
    let m = choose|m: int| 0 <= m < 81 && #[trigger] is_draft(cells[m]);
    lemma_first_draft_exists(cells, m);
    let k = first_draft(cells)->0;
    let cands = digits_in(cells[k].candidates@);
    lemma_digits_in(cells[k].candidates@);
    assert(cands.contains(s[k]));
    let js = choose|js: int| 0 <= js < cands.len() && cands[js] == s[k];
    lemma_try_finds(cells, k, cands, 0, sols, s, js);
}

/// The candidate loop of `lemma_search_finds`, up to the candidate `cands[js]`, which is
/// the digit of `s`.
pub proof fn lemma_try_finds(cells: Seq<Cell>, k: int, cands: Seq<u8>, j: int, sols: Seq<Seq<Cell>>, s: Seq<u8>, js: int)
    requires
        search_fits(cells, s),
        0 <= k < 81,
        is_draft(cells[k]),
        0 <= j <= js < cands.len(),
        cands[js] == s[k],
        forall|i: int| 0 <= i < cands.len() ==> #[trigger] cands[i] < 9,
    ensures
        try_candidates(cells, k, cands, j, sols).1.len() >= 2 || try_candidates(cells, k, cands, j, sols).1.contains(
            filled_with(cells, s),
        ),
    decreases count_drafts(cells), 0nat, cands.len() - j,
{
    let goal = filled_with(cells, s);
    if crate::types::placement_ok(cells, k / 9, k % 9, Some(cands[j])) {
        let child = cells.update(k, crate::types::solved_cell(cells[k], cands[j]));
        crate::types::lemma_count_drafts_update(cells, k, crate::types::solved_cell(cells[k], cands[j]));
        assert(valueless_drafts(child));
        crate::types::lemma_search_shape(child, sols);
        crate::types::lemma_search_solutions(child, sols);
        lemma_search_restores(child, sols);
        let (found, sols2, fin) = search(child, sols);
        if found && sols2.len() + 1 >= 2 {
        } else {
            let sols3 = if found {
                sols2.push(fin)
            } else {
                sols2
            };
            assert(fin == child);
            lemma_reset_solved(cells, k, cands[j]);
            let next = fin.update(k, crate::types::reset_cell(fin[k]));
            assert(next == cells);
            if j < js {
                lemma_try_finds(cells, k, cands, j + 1, sols3, s, js);
            } else {
                // The branch of the solution's digit.
                assert(search_fits(child, s));
                assert(filled_with(child, s) =~= goal);
                if exists|m: int| 0 <= m < 81 && #[trigger] is_draft(child[m]) {
                    lemma_search_finds(child, sols, s);
                } else {
                    assert(search(child, sols) == (true, sols, child));
                    assert(child =~= goal);
                }
                assert(sols3.len() >= 2 || sols3.contains(goal)) by {
                    if found {
                        assert(sols3[sols3.len() - 1] == fin);
                    }
                    if sols2.contains(goal) {
                        let t = choose|t: int| 0 <= t < sols2.len() && sols2[t] == goal;
                        assert(sols3[t] == goal);
                    }
                }
                if j + 1 < cands.len() {
                    crate::types::lemma_try_candidates_solutions(cells, k, cands, j + 1, sols3);
                    let res = try_candidates(cells, k, cands, j + 1, sols3).1;
                    if sols3.contains(goal) {
                        let t = choose|t: int| 0 <= t < sols3.len() && sols3[t] == goal;
                        assert(res.subrange(0, sols3.len() as int)[t] == goal);
                        assert(res[t] == goal);
                    }
                }
            }
        }
    } else {
        if j == js {
            lemma_placement_fits(cells, k, s);
            assert(false);
        }
        lemma_try_finds(cells, k, cands, j + 1, sols, s, js);
    }
}

/// Two different solutions that the search may reach from a board make it stop with at
/// least two boards.
pub proof fn lemma_search_two_completions(cells: Seq<Cell>, s1: Seq<u8>, s2: Seq<u8>)
    requires
        search_fits(cells, s1),
        search_fits(cells, s2),
        s1 != s2,
    ensures
        search(cells, Seq::empty()).1.len() >= 2,
{
    if forall|i: int| 0 <= i < 81 ==> s1[i] == s2[i] {
        assert(s1 =~= s2);
    }
    let i = choose|i: int| 0 <= i < 81 && s1[i] != s2[i];
    if is_filled(cells[i]) {
        assert(false);
    }
    assert(is_draft(cells[i]));
    lemma_search_finds(cells, Seq::empty(), s1);
    lemma_search_finds(cells, Seq::empty(), s2);
    let sols = search(cells, Seq::empty()).1;
    if sols.len() < 2 {
        let (g1, g2) = (filled_with(cells, s1), filled_with(cells, s2));
        let t1 = choose|t: int| 0 <= t < sols.len() && sols[t] == g1;
        let t2 = choose|t: int| 0 <= t < sols.len() && sols[t] == g2;
        assert(t1 == 0 && t2 == 0);
        assert(g1[i].value != g2[i].value);
    }
}

/// Whether no two filled cells of one unit hold the same value.
pub open spec fn units_distinct(cells: Seq<Cell>) -> bool {
    forall|a: int, b: int|
        0 <= a < 81 && 0 <= b < 81 && a != b && crate::same_unit(a, b) && #[trigger] is_filled(cells[a])
            && #[trigger] is_filled(cells[b]) ==> cells[a].value != cells[b].value
}

/// Whether `board` has each draft cell of `cells` filled with one of its candidates, with no
/// two filled cells of one unit alike.
pub open spec fn sound_board(cells: Seq<Cell>, board: Seq<Cell>) -> bool {
    &&& units_distinct(board)
    &&& forall|i: int| 0 <= i < 81 && #[trigger] is_draft(cells[i]) ==> cells[i].candidates@.contains(board[i].value->0)
}

/// A cell of a unit of `k` holds no value that `placement_ok` let be placed at `k`.
proof fn lemma_peer_checked(cells: Seq<Cell>, k: int, p: int, d: u8)
    requires
        0 <= k < 81,
        0 <= p < 81,
        crate::same_unit(k, p),
        crate::types::placement_ok(cells, k / 9, k % 9, Some(d)),
    ensures
        cells[p].value != Some(d),
{
    lemma_index_decomp(k);
    lemma_index_decomp(p);
    lemma_idx_coords(k / 9, k % 9);
    lemma_idx_coords(p / 9, p % 9);
    if k / 9 == p / 9 {
        assert(cells[idx(k / 9, p % 9)].value != Some(d));
    } else if k % 9 == p % 9 {
        assert(cells[idx(k / 9, p / 9)].value != Some(d));
        assert(cells[idx(p / 9, k % 9)].value != Some(d));
    } else {
        let n = coords_of_index(p).n as int;
        assert(cells[idx(k / 9, n)].value != Some(d));
        assert(cells[gn_idx(k / 9 / 3 * 3 + k % 9 / 3, n)].value != Some(d));
    }
}

/// Boards that agree but for draft values have the same draft cells and candidates.
proof fn lemma_sound_same(cells: Seq<Cell>, other: Seq<Cell>, board: Seq<Cell>)
    requires
        cells.len() == 81,
        crate::types::same_but_draft_values(cells, other),
        sound_board(other, board),
    ensures
        sound_board(cells, board),
{
    assert forall|i: int| 0 <= i < 81 && #[trigger] is_draft(cells[i]) implies cells[i].candidates@.contains(board[i].value->0) by {
        assert(crate::types::same_but_draft_value(cells[i], other[i]));
        assert(is_draft(other[i]));
    }
}

/// A board that the search finds from `child` (cell `k` of `cells` filled in with candidate
/// `d`) is sound for `cells` too.
proof fn lemma_sound_step(cells: Seq<Cell>, k: int, d: u8, board: Seq<Cell>)
    requires
        cells.len() == 81,
        0 <= k < 81,
        is_draft(cells[k]),
        cells[k].candidates@.contains(d),
        crate::types::completes(cells.update(k, crate::types::solved_cell(cells[k], d)), board),
        sound_board(cells.update(k, crate::types::solved_cell(cells[k], d)), board),
    ensures
        sound_board(cells, board),
{
    let child = cells.update(k, crate::types::solved_cell(cells[k], d));
    assert(crate::types::completes_cell(child[k], board[k]));
    assert forall|i: int| 0 <= i < 81 && #[trigger] is_draft(cells[i]) implies cells[i].candidates@.contains(board[i].value->0) by {
        if i != k {
            assert(is_draft(child[i]));
        }
    }
}

/// Every board the search finds, from a board whose filled cells are alike in no unit, fills
/// each draft cell with one of its candidates and leaves no two filled cells of a unit alike.
pub proof fn lemma_search_sound(cells: Seq<Cell>, sols: Seq<Seq<Cell>>)
    requires
        cells.len() == 81,
        units_distinct(cells),
    ensures
        forall|t: int| sols.len() <= t < search(cells, sols).1.len() ==> sound_board(cells, #[trigger] search(cells, sols).1[t]),
        search(cells, sols).0 ==> sound_board(cells, search(cells, sols).2),
    decreases count_drafts(cells), 1nat, 0nat,
{
    match first_draft(cells) {
        None => {
            assert forall|i: int| 0 <= i < 81 && #[trigger] is_draft(cells[i]) implies cells[i].candidates@.contains(
                cells[i].value->0,
            ) by {
                assert(exists|k: int| 0 <= k < 81 && #[trigger] is_draft(cells[k]));
            }
        },
        Some(k) => {
            lemma_digits_in(cells[k].candidates@);
            lemma_try_sound(cells, k, digits_in(cells[k].candidates@), 0, sols);
        },
    }
}

/// The candidate loop of `lemma_search_sound`.
pub proof fn lemma_try_sound(cells: Seq<Cell>, k: int, cands: Seq<u8>, j: int, sols: Seq<Seq<Cell>>)
    requires
        cells.len() == 81,
        units_distinct(cells),
        0 <= k < 81 ==> forall|i: int| 0 <= i < cands.len() ==> cells[k].candidates@.contains(#[trigger] cands[i]),
        forall|i: int| 0 <= i < cands.len() ==> #[trigger] cands[i] < 9,
    ensures
        forall|t: int|
            sols.len() <= t < try_candidates(cells, k, cands, j, sols).1.len() ==> sound_board(
                cells,
                #[trigger] try_candidates(cells, k, cands, j, sols).1[t],
            ),
        try_candidates(cells, k, cands, j, sols).0 ==> sound_board(cells, try_candidates(cells, k, cands, j, sols).2),
    decreases count_drafts(cells), 0nat, cands.len() - j,
{
    if j < 0 || j >= cands.len() || !(0 <= k < cells.len() && is_draft(cells[k])) {
    } else if crate::types::placement_ok(cells, k / 9, k % 9, Some(cands[j])) {
        let d = cands[j];
        let child = cells.update(k, crate::types::solved_cell(cells[k], d));
        crate::types::lemma_count_drafts_update(cells, k, crate::types::solved_cell(cells[k], d));
        assert(units_distinct(child)) by {
            assert forall|a: int, b: int|
                0 <= a < 81 && 0 <= b < 81 && a != b && crate::same_unit(a, b) && #[trigger] is_filled(child[a])
                    && #[trigger] is_filled(child[b]) implies child[a].value != child[b].value by {
                if a == k {
                    lemma_peer_checked(cells, k, b, d);
                } else if b == k {
                    assert(crate::same_unit(b, a));
                    lemma_peer_checked(cells, k, a, d);
                }
            }
        }
        lemma_search_sound(child, sols);
        crate::types::lemma_search_solutions(child, sols);
        let (found, sols2, fin) = search(child, sols);
        assert forall|t: int| sols.len() <= t < sols2.len() implies sound_board(cells, #[trigger] sols2[t]) by {
            lemma_sound_step(cells, k, d, sols2[t]);
        }
        if found {
            lemma_sound_step(cells, k, d, fin);
        }
        if found && sols2.len() + 1 >= 2 {
            let out = sols2.push(fin);
            assert forall|t: int| sols.len() <= t < out.len() implies sound_board(cells, #[trigger] out[t]) by {
                if t < sols2.len() {
                    assert(out[t] == sols2[t]);
                }
            }
        } else {
            let sols3 = if found {
                sols2.push(fin)
            } else {
                sols2
            };
            assert forall|t: int| sols.len() <= t < sols3.len() implies sound_board(cells, #[trigger] sols3[t]) by {
                if t < sols2.len() {
                    assert(sols3[t] == sols2[t]);
                }
            }
            crate::types::lemma_next_board(cells, k, d, sols);
            let next = fin.update(k, crate::types::reset_cell(fin[k]));
            assert(units_distinct(next)) by {
                assert forall|a: int, b: int|
                    0 <= a < 81 && 0 <= b < 81 && a != b && crate::same_unit(a, b) && #[trigger] is_filled(next[a])
                        && #[trigger] is_filled(next[b]) implies next[a].value != next[b].value by {
                    assert(crate::types::same_but_draft_value(cells[a], next[a]));
                    assert(crate::types::same_but_draft_value(cells[b], next[b]));
                }
            }
            assert(crate::types::same_but_draft_value(cells[k], next[k]));
            crate::types::lemma_try_candidates_solutions(next, k, cands, j + 1, sols3);
            lemma_try_sound(next, k, cands, j + 1, sols3);
            let res = try_candidates(next, k, cands, j + 1, sols3);
            let out = res.1;
            assert forall|t: int| sols.len() <= t < out.len() implies sound_board(cells, #[trigger] out[t]) by {
                if t < sols3.len() {
                    assert(out[t] == out.subrange(0, sols3.len() as int)[t]);
                } else {
                    lemma_sound_same(cells, next, out[t]);
                }
            }
            if res.0 {
                lemma_sound_same(cells, next, res.2);
            }
        }
    } else {
        lemma_try_sound(cells, k, cands, j + 1, sols);
    }
}

/// Whether `board` differs from the board at one of its cells that is not a draft cell, so
/// that it completes no board that agrees with it there.
pub open spec fn ruled_out(cells: Seq<Cell>, board: Seq<Cell>) -> bool {
    exists|i: int| 0 <= i < 81 && !is_draft(cells[i]) && #[trigger] board[i] != cells[i]
}

/// Whether `board` holds at cell `k` one of the candidates `cands` before index `j`.
pub open spec fn tried_before(k: int, cands: Seq<u8>, j: int, board: Seq<Cell>) -> bool {
    exists|j0: int| 0 <= j0 < j && board[k].value == Some(#[trigger] cands[j0])
}

/// A successful search either leaves the solutions as they were or has at least two.
proof fn lemma_search_found(cells: Seq<Cell>, sols: Seq<Seq<Cell>>)
    ensures
        search(cells, sols).0 ==> search(cells, sols).1 == sols || search(cells, sols).1.len() >= 2,
{
    match first_draft(cells) {
        None => {},
        Some(k) => crate::types::lemma_try_candidates_shape(cells, k, digits_in(cells[k].candidates@), 0, sols),
    }
}

/// A board that completes `child` is not ruled out for it.
proof fn lemma_completes_not_ruled_out(cells: Seq<Cell>, board: Seq<Cell>)
    requires
        cells.len() == 81,
        completes(cells, board),
    ensures
        !ruled_out(cells, board),
{
    assert forall|i: int| 0 <= i < 81 && !is_draft(cells[i]) implies #[trigger] board[i] == cells[i] by {
        assert(crate::types::completes_cell(cells[i], board[i]));
    }
}

/// The search stops with two or more boards only after a success, and then its first two
/// boards differ, when each board it starts with is ruled out for the board it searches.
pub proof fn lemma_search_first_two(cells: Seq<Cell>, sols: Seq<Seq<Cell>>)
    requires
        cells.len() == 81,
        sols.len() <= 1,
        forall|t: int| 0 <= t < sols.len() ==> ruled_out(cells, #[trigger] sols[t]),
    ensures
        search(cells, sols).1.len() >= 2 ==> search(cells, sols).0 && search(cells, sols).1[0] != search(cells, sols).1[1],
    decreases count_drafts(cells), 1nat, 0nat,
{
    match first_draft(cells) {
        None => {},
        Some(k) => {
            let cands = digits_in(cells[k].candidates@);
            lemma_digits_in(cells[k].candidates@);
            lemma_try_first_two(cells, k, cands, 0, sols);
        },
    }
}

/// The candidate loop of `lemma_search_first_two`.
pub proof fn lemma_try_first_two(cells: Seq<Cell>, k: int, cands: Seq<u8>, j: int, sols: Seq<Seq<Cell>>)
    requires
        cells.len() == 81,
        sols.len() <= 1,
        forall|i: int| 0 <= i < cands.len() ==> #[trigger] cands[i] < 9,
        forall|i1: int, i2: int| 0 <= i1 < i2 < cands.len() ==> #[trigger] cands[i1] < #[trigger] cands[i2],
        forall|t: int| 0 <= t < sols.len() ==> ruled_out(cells, #[trigger] sols[t]) || tried_before(k, cands, j, sols[t]),
    ensures
        try_candidates(cells, k, cands, j, sols).1.len() >= 2 ==> try_candidates(cells, k, cands, j, sols).0
            && try_candidates(cells, k, cands, j, sols).1[0] != try_candidates(cells, k, cands, j, sols).1[1],
    decreases count_drafts(cells), 0nat, cands.len() - j,
{
    if j < 0 || j >= cands.len() || !(0 <= k < cells.len() && is_draft(cells[k])) {
    } else if crate::types::placement_ok(cells, k / 9, k % 9, Some(cands[j])) {
        let d = cands[j];
        let child = cells.update(k, crate::types::solved_cell(cells[k], d));
        crate::types::lemma_count_drafts_update(cells, k, crate::types::solved_cell(cells[k], d));
        assert forall|t: int| 0 <= t < sols.len() implies ruled_out(child, #[trigger] sols[t]) by {
            if ruled_out(cells, sols[t]) {
                let i = choose|i: int| 0 <= i < 81 && !is_draft(cells[i]) && #[trigger] sols[t][i] != cells[i];
                assert(sols[t][i] != child[i]);
            } else {
                let j0 = choose|j0: int| 0 <= j0 < j && sols[t][k].value == Some(#[trigger] cands[j0]);
                assert(sols[t][k] != child[k]);
            }
        }
        lemma_search_first_two(child, sols);
        crate::types::lemma_search_solutions(child, sols);
        crate::types::lemma_search_shape(child, sols);
        lemma_search_found(child, sols);
        let (found, sols2, fin) = search(child, sols);
        if found && sols2.len() + 1 >= 2 {
            let out = sols2.push(fin);
            if sols2.len() < 2 {
                assert(sols2 == sols);
                assert(ruled_out(child, sols[0]));
                lemma_completes_not_ruled_out(child, fin);
                assert(out[0] == sols[0]);
                assert(out[1] == fin);
            } else {
                assert(out[0] == sols2[0] && out[1] == sols2[1]);
            }
        } else {
            let sols3 = if found {
                sols2.push(fin)
            } else {
                sols2
            };
            assert(sols3.len() <= 1);
            crate::types::lemma_next_board(cells, k, d, sols);
            let next = fin.update(k, crate::types::reset_cell(fin[k]));
            assert forall|t: int| 0 <= t < sols3.len() implies ruled_out(next, #[trigger] sols3[t]) || tried_before(
                k,
                cands,
                j + 1,
                sols3[t],
            ) by {
                if t < sols.len() {
                    assert(sols3[t] == sols2[t]);
                    assert(sols2.subrange(0, sols.len() as int)[t] == sols[t]);
                    if ruled_out(cells, sols[t]) {
                        let i = choose|i: int| 0 <= i < 81 && !is_draft(cells[i]) && #[trigger] sols[t][i] != cells[i];
                        assert(crate::types::same_but_draft_value(cells[i], next[i]));
                        assert(sols3[t][i] != next[i]);
                    } else {
                        let j0 = choose|j0: int| 0 <= j0 < j && sols[t][k].value == Some(#[trigger] cands[j0]);
                        assert(tried_before(k, cands, j + 1, sols3[t]));
                    }
                } else {
                    let b = sols3[t];
                    assert(completes(child, b));
                    assert(crate::types::completes_cell(child[k], b[k]));
                    assert(b[k].value == Some(cands[j]));
                    assert(tried_before(k, cands, j + 1, b));
                }
            }
            if count_drafts(next) == count_drafts(cells) {
                lemma_try_first_two(next, k, cands, j + 1, sols3);
            }
        }
    } else {
        lemma_try_first_two(cells, k, cands, j + 1, sols);
    }
}

/// When the search from a board, whose filled cells are alike in no unit, ends with two or
/// more boards, its first two are two different completions of the board: each fills every
/// draft cell with one of its candidates and leaves no two filled cells of a unit alike.
pub proof fn lemma_search_two_boards(cells: Seq<Cell>)
    requires
        cells.len() == 81,
        units_distinct(cells),
    ensures
        ({
            let found = search(cells, Seq::empty()).1;
            found.len() >= 2 ==> {
                &&& found[0] != found[1]
                &&& completes(cells, found[0]) && sound_board(cells, found[0])
                &&& completes(cells, found[1]) && sound_board(cells, found[1])
            }
        }),
{
    lemma_search_first_two(cells, Seq::empty());
    crate::types::lemma_search_solutions(cells, Seq::empty());
    lemma_search_sound(cells, Seq::empty());
}

/// The digits of a board whose cells all hold a value.
pub open spec fn board_digits(board: Seq<Cell>) -> Seq<u8> {
    Seq::new(81, |i: int| board[i].value->0)
}

/// A board that the search finds is the board filled in with its own digits, and those
/// digits are a solution that the search may reach.
proof fn lemma_found_board_fits(cells: Seq<Cell>, board: Seq<Cell>)
    requires
        cells.len() == 81,
        valueless_drafts(cells),
        forall|i: int| 0 <= i < 81 && #[trigger] is_filled(cells[i]) ==> (cells[i].value matches Some(v) && v < 9),
        completes(cells, board),
        sound_board(cells, board),
    ensures
        search_fits(cells, board_digits(board)),
{
    let s = board_digits(board);
    assert forall|i: int| 0 <= i < 81 implies #[trigger] is_filled(board[i]) && board[i].value is Some && s[i] < 9 by {
        assert(crate::types::completes_cell(cells[i], board[i]));
        if !is_draft(cells[i]) {
            assert(is_filled(cells[i]));
        }
    }
    assert forall|k: int| 0 <= k < 81 implies #[trigger] s[k] < 9 by {
        assert(is_filled(board[k]));
    }
    assert forall|i: int| 0 <= i < 81 && #[trigger] is_draft(cells[i]) implies cells[i].candidates@.contains(s[i]) by {}
    assert forall|a: int, b: int| 0 <= a < 81 && 0 <= b < 81 && a != b && crate::same_unit(a, b) implies #[trigger] s[a]
        != #[trigger] s[b] by {
        assert(is_filled(board[a]) && is_filled(board[b]));
    }
    assert forall|i: int| 0 <= i < 81 && #[trigger] is_filled(cells[i]) implies cells[i].value == Some(s[i]) by {
        assert(crate::types::completes_cell(cells[i], board[i]));
    }
}

/// The search from a board, whose filled cells hold digits alike in no unit and whose draft
/// cells hold no value, ends with two or more boards exactly when the board has two or more
/// completions: solutions that keep its filled cells and give each draft cell a candidate.
pub proof fn lemma_search_counts_completions(cells: Seq<Cell>)
    requires
        cells.len() == 81,
        units_distinct(cells),
        valueless_drafts(cells),
        forall|i: int| 0 <= i < 81 && #[trigger] is_filled(cells[i]) ==> (cells[i].value matches Some(v) && v < 9),
    ensures
        search(cells, Seq::empty()).1.len() >= 2 <==> exists|s1: Seq<u8>, s2: Seq<u8>|
            s1 != s2 && #[trigger] search_fits(cells, s1) && #[trigger] search_fits(cells, s2),
{
    if exists|s1: Seq<u8>, s2: Seq<u8>| s1 != s2 && #[trigger] search_fits(cells, s1) && #[trigger] search_fits(cells, s2) {
        let (s1, s2) = choose|s1: Seq<u8>, s2: Seq<u8>|
            s1 != s2 && #[trigger] search_fits(cells, s1) && #[trigger] search_fits(cells, s2);
        lemma_search_two_completions(cells, s1, s2);
    }
    let found = search(cells, Seq::empty()).1;
    if found.len() >= 2 {
        lemma_search_two_boards(cells);
        let (b0, b1) = (found[0], found[1]);
        lemma_found_board_fits(cells, b0);
        lemma_found_board_fits(cells, b1);
        let (s1, s2) = (board_digits(b0), board_digits(b1));
        assert(s1 != s2) by {
            if s1 == s2 {
                assert forall|i: int| 0 <= i < 81 implies b0[i] == b1[i] by {
                    assert(crate::types::completes_cell(cells[i], b0[i]));
                    assert(crate::types::completes_cell(cells[i], b1[i]));
                    assert(s1[i] == s2[i]);
                }
                assert(b0.len() == 81 && b1.len() == 81);
                assert(b0 =~= b1);
            }
        }
        assert(search_fits(cells, s1) && search_fits(cells, s2));
    }
}

/// Filling in the entries of the board's draft cells, each with its digit of `s`, fills
/// in every draft cell up to `hi` with that digit.
proof fn lemma_exploit_sets(field: &Sudoku, s: Seq<u8>, hi: int)
    requires
        field.wf(),
        0 <= hi <= 81,
    ensures
        ({
            let cells = field@;
            let sol = filled_with(cells, s);
            let es = range_concat(
                0,
                hi,
                |k: int| keep_if(sol[k].status != cells[k].status, (cells[k].coords, seq![sol[k].value->0])),
            );
            let after = apply_sets(cells, es);
            &&& after.len() == 81
            &&& forall|i: int|
                0 <= i < 81 ==> #[trigger] after[i] == if i < hi && is_draft(cells[i]) {
                    crate::types::solved_cell(cells[i], s[i])
                } else {
                    cells[i]
                }
        }),
    decreases hi,
{
    let cells = field@;
    let sol = filled_with(cells, s);
    let f = |k: int| keep_if(sol[k].status != cells[k].status, (cells[k].coords, seq![sol[k].value->0]));
    if hi > 0 {
        lemma_exploit_sets(field, s, hi - 1);
        let prev = range_concat(0, hi - 1, f);
        let cur = range_concat(0, hi, f);
        let w = hi - 1;
        if is_draft(cells[w]) {
            assert(cur =~= prev.push((cells[w].coords, seq![s[w]])));
            assert(cur.drop_last() =~= prev);
            lemma_cell_index(field, w);
        } else {
            assert(cur =~= prev);
        }
    }
}

/// An exhaustive search that finds exactly one solution, applied, keeps a board without
/// draft values on the way to any solution it is on the way to.
#[verifier::rlimit(50)]
#[verifier::spinoff_prover]
pub proof fn lemma_exploit_on_way(field: &Sudoku, r: ResultView, s: Seq<u8>)
    requires
        field.wf(),
        solved_digits(s),
        on_way_to(field@, s),
        valueless_drafts(field@),
        exploit_outcome(field@) == Some(r),
    ensures
        on_way_to(applied(field@, r), s),
{
    let cells = field@;
    let goal = filled_with(cells, s);
    lemma_single_search_result(cells, s);
    assert(r.2 == Some(exploit_entries(cells, goal)));
    assert(r.3 is None);
    lemma_exploit_sets(field, s, 81);
    let after = applied(cells, r);
    assert forall|i: int| 0 <= i < 81 && #[trigger] is_filled(after[i]) implies after[i].value == Some(s[i]) by {}
    assert forall|i: int| 0 <= i < 81 && #[trigger] is_draft(after[i]) implies after[i].candidates@.contains(s[i]) by {}
}

/// When the search from a board that fits `s` ends with a single board, that board is the
/// board filled in with `s`.
#[verifier::rlimit(50)]
#[verifier::spinoff_prover]
proof fn lemma_single_search_result(cells: Seq<Cell>, s: Seq<u8>)
    requires
        cells.len() == 81,
        solved_digits(s),
        on_way_to(cells, s),
        valueless_drafts(cells),
        search(cells, Seq::empty()).1.len() == 1,
    ensures
        search(cells, Seq::empty()).1[0] == filled_with(cells, s),
{
    let sols = search(cells, Seq::empty()).1;
    assert(search_fits(cells, s)) by {
        assert forall|i: int| 0 <= i < 81 && #[trigger] is_filled(cells[i]) implies cells[i].value == Some(s[i]) by {}
    }
    if exists|m: int| 0 <= m < 81 && #[trigger] is_draft(cells[m]) {
        lemma_search_finds(cells, Seq::empty(), s);
    } else {
        assert(first_draft(cells) == None::<int>);
        assert(false);
    }
}

/// The singles and the exclusions between a line and a grid.
pub open spec fn single_or_line_kind(kind: InferenceKind) -> bool {
    ||| kind == InferenceKind::OnlyOneLeft
    ||| kind == InferenceKind::OnlyOneRightInRow
    ||| kind == InferenceKind::OnlyOneRightInCol
    ||| kind == InferenceKind::OnlyOneRightInGrid
    ||| kind == InferenceKind::RowUniqueDraftByGridExclusion
    ||| kind == InferenceKind::ColUniqueDraftByGridExclusion
    ||| kind == InferenceKind::GridUniqueDraftByRowExclusion
    ||| kind == InferenceKind::GridUniqueDraftByColExclusion
}

/// A deduction of any strategy (a single, a line-and-grid exclusion, a naked or hidden
/// subset, a fish, or an exhaustive search that found one solution), applied, keeps the board
/// on the way to any solution it is on the way to, so the board shows no conflict; for the
/// exhaustive search, on a board whose draft cells hold no value.
pub proof fn lemma_deduction_on_way(field: &Sudoku, kind: InferenceKind, r: ResultView, s: Seq<u8>)
    requires
        field.wf(),
        solved_digits(s),
        on_way_to(field@, s),
        kind == InferenceKind::Exploit ==> valueless_drafts(field@),
        strategy_outcome(field@, kind, Some(r)),
    ensures
        on_way_to(applied(field@, r), s),
        crate::types::all_conflicts(applied(field@, r)).len() == 0,
{
    lemma_kind_on_way(field, kind, r, s);
    lemma_on_way_no_conflict(applied(field@, r), s);
}

/// The strategies one by one, for `lemma_deduction_on_way`.
#[verifier::rlimit(50)]
#[verifier::spinoff_prover]
proof fn lemma_kind_on_way(field: &Sudoku, kind: InferenceKind, r: ResultView, s: Seq<u8>)
    requires
        field.wf(),
        solved_digits(s),
        on_way_to(field@, s),
        kind == InferenceKind::Exploit ==> valueless_drafts(field@),
        strategy_outcome(field@, kind, Some(r)),
    ensures
        on_way_to(applied(field@, r), s),
{
    match kind {
        InferenceKind::Exploit => lemma_exploit_on_way(field, r, s),
        InferenceKind::NStepFish => lemma_fish_on_way(field, r, s),
        InferenceKind::RowExplicitNakedPairExclusion => lemma_naked_subset_on_way(field, IterDirection::Row, r, s),
        InferenceKind::ColExplicitNakedPairExclusion => lemma_naked_subset_on_way(field, IterDirection::Column, r, s),
        InferenceKind::GridExplicitNakedPairExclusion => lemma_naked_subset_on_way(field, IterDirection::Grid, r, s),
        InferenceKind::RowExplicitHiddenPairExclusion => lemma_hidden_subset_on_way(field, IterDirection::Row, r, s),
        InferenceKind::ColExplicitHiddenPairExclusion => lemma_hidden_subset_on_way(field, IterDirection::Column, r, s),
        InferenceKind::GridExplicitHiddenPairExclusion => lemma_hidden_subset_on_way(field, IterDirection::Grid, r, s),
        _ => lemma_single_or_line_on_way(field, kind, r, s),
    }
}

/// A single or a line-and-grid exclusion, applied, keeps the board on the way to the solution.
proof fn lemma_single_or_line_on_way(field: &Sudoku, kind: InferenceKind, r: ResultView, s: Seq<u8>)
    requires
        field.wf(),
        solved_digits(s),
        on_way_to(field@, s),
        single_or_line_kind(kind),
        strategy_outcome(field@, kind, Some(r)),
    ensures
        on_way_to(applied(field@, r), s),
{
    match kind {
        InferenceKind::OnlyOneLeft => lemma_naked_single_on_way(field, r, s),
        InferenceKind::OnlyOneRightInRow => lemma_hidden_single_on_way(field, IterDirection::Row, r, s),
        InferenceKind::OnlyOneRightInCol => lemma_hidden_single_on_way(field, IterDirection::Column, r, s),
        InferenceKind::OnlyOneRightInGrid => lemma_hidden_single_on_way(field, IterDirection::Grid, r, s),
        InferenceKind::RowUniqueDraftByGridExclusion => lemma_pointing_on_way(field, IterDirection::Row, r, s),
        InferenceKind::ColUniqueDraftByGridExclusion => lemma_pointing_on_way(field, IterDirection::Column, r, s),
        InferenceKind::GridUniqueDraftByRowExclusion => lemma_claiming_on_way(field, IterDirection::Row, r, s),
        _ => lemma_claiming_on_way(field, IterDirection::Column, r, s),
    }
}

/// A board on the way to a solution has no two filled cells of one unit with the same digit.
pub proof fn lemma_on_way_no_conflict(cells: Seq<Cell>, s: Seq<u8>)
    requires
        solved_digits(s),
        on_way_to(cells, s),
    ensures
        crate::types::all_conflicts(cells).len() == 0,
{
    let f = crate::types::conflicts_of(cells);
    assert forall|i: int| 0 <= i < 81 implies #[trigger] f(i).len() == 0 by {
        if is_filled(cells[i]) {
            lemma_index_decomp(i);
            let (r, c) = (i / 9, i % 9);
            let g = coords_of_index(i).g as int;
            let n = coords_of_index(i).n as int;
            assert(i == unit_index(IterDirection::Row, r, c));
            assert(i == unit_index(IterDirection::Column, c, r));
            assert(i == unit_index(IterDirection::Grid, g, n));
            let fc = crate::types::col_clashes(cells, i);
            let fr = crate::types::row_clashes(cells, i);
            let fg = crate::types::grid_clashes(cells, i);
            assert forall|k: int| r + 1 <= k < 9 implies #[trigger] fc(k).len() == 0 by {
                lemma_unit_pair(IterDirection::Column, c, k, r);
                lemma_unit_cell(IterDirection::Column, c, k);
                let p = unit_index(IterDirection::Column, c, k);
                assert(p == idx(k, i % 9));
                if is_filled(cells[p]) {
                    assert(s[p] != s[i]);
                }
            }
            assert forall|k: int| c + 1 <= k < 9 implies #[trigger] fr(k).len() == 0 by {
                lemma_unit_pair(IterDirection::Row, r, k, c);
                lemma_unit_cell(IterDirection::Row, r, k);
                let p = unit_index(IterDirection::Row, r, k);
                assert(p == idx(i / 9, k));
                if is_filled(cells[p]) {
                    assert(s[p] != s[i]);
                }
            }
            assert forall|k: int| n + 1 <= k < 9 implies #[trigger] fg(k).len() == 0 by {
                lemma_unit_pair(IterDirection::Grid, g, k, n);
                lemma_unit_cell(IterDirection::Grid, g, k);
                let p = unit_index(IterDirection::Grid, g, k);
                if is_filled(cells[p]) {
                    assert(s[p] != s[i]);
                }
            }
            crate::types::lemma_range_concat_empty(r + 1, 9, fc);
            crate::types::lemma_range_concat_empty(c + 1, 9, fr);
            crate::types::lemma_range_concat_empty(n + 1, 9, fg);
        }
    }
    crate::types::lemma_range_concat_empty(0, 81, f);
}

/// A draft cell of a unit is among the unit's draft cells.
pub proof fn lemma_unit_drafts_has(field: &Sudoku, dir: IterDirection, u: int, w: int)
    requires
        field.wf(),
        0 <= u < 9,
        0 <= w < 9,
        is_draft(field@[unit_index(dir, u, w)]),
    ensures
        unit_drafts(field@, dir, u).contains(field@[unit_index(dir, u, w)]),
{
    let cells = field@;
    let f = unit_fn(cells, dir, u);
    let x = cells[unit_index(dir, u, w)];
    assert(f(w) == seq![x]);
    assert(f(w)[0] == x);
    lemma_range_concat_has(0, 9, f, w, x);
}

/// A piece with an item makes the concatenation non-empty.
pub proof fn lemma_range_concat_nonempty<A>(lo: int, hi: int, f: spec_fn(int) -> Seq<A>, k: int)
    requires
        lo <= k < hi,
        f(k).len() > 0,
    ensures
        range_concat(lo, hi, f).len() > 0,
{
    assert(f(k)[0] == f(k)[0]);
    assert(f(k).contains(f(k)[0]));
    lemma_range_concat_has(lo, hi, f, k, f(k)[0]);
}

/// The board index of a position, as a position of its unit of the given kind.
proof fn lemma_index_in_unit(dir: IterDirection, p: int)
    requires
        0 <= p < 81,
    ensures
        0 <= unit_of(coords_of_index(p), dir) < 9,
        0 <= pos_in_unit(coords_of_index(p), dir) < 9,
        p == unit_index(dir, unit_of(coords_of_index(p), dir) as int, pos_in_unit(coords_of_index(p), dir) as int),
{
    lemma_index_decomp(p);
}

/// Completeness of pointing: when every draft cell of grid `g` with candidate `v` lies on
/// one line (and there is one), and that line has a draft cell with `v` outside the grid,
/// the strategy finds a deduction.
pub proof fn lemma_pointing_complete(
    field: &Sudoku,
    dir: IterDirection,
    g: int,
    v: u8,
    line: int,
    p0: int,
    p1: int,
    r: Option<ResultView>,
)
    requires
        field.wf(),
        dir != IterDirection::Grid,
        0 <= g < 9,
        v < 9,
        forall|p: int|
            0 <= p < 81 && is_draft(#[trigger] field@[p]) && field@[p].candidates@.contains(v) && coords_of_index(p).g
                == g ==> unit_of(coords_of_index(p), dir) == line,
        0 <= p0 < 81,
        is_draft(field@[p0]),
        field@[p0].candidates@.contains(v),
        coords_of_index(p0).g == g,
        0 <= p1 < 81,
        is_draft(field@[p1]),
        field@[p1].candidates@.contains(v),
        unit_of(coords_of_index(p1), dir) == line,
        coords_of_index(p1).g != g,
        pointing_outcome(field@, dir, r),
    ensures
        r is Some,
{
    let cells = field@;
    let grid = unit_drafts(cells, IterDirection::Grid, g);
    let with_v = cells_with(grid, v);
    lemma_index_in_unit(IterDirection::Grid, p0);
    assert(unit_of(coords_of_index(p0), IterDirection::Grid) == g);
    let n0 = pos_in_unit(coords_of_index(p0), IterDirection::Grid) as int;
    lemma_unit_drafts_has(field, IterDirection::Grid, g, n0);
    let s0 = choose|s0: int| 0 <= s0 < grid.len() && grid[s0] == cells[p0];
    let fw = |s: int| keep_if(grid[s].candidates@.contains(v), grid[s]);
    assert(fw(s0).len() > 0);
    lemma_range_concat_nonempty(0, grid.len() as int, fw, s0);
    assert(with_v.len() > 0);
    // Every cell of `with_v` is a draft cell of the grid with `v`, so it lies on `line`.
    assert forall|k: int| 0 <= k < with_v.len() implies unit_of(#[trigger] with_v[k].coords, dir) == line
        && with_v[k].coords.g == g by {
        lemma_cells_with_member(grid, v, k);
        let s = choose|s: int| 0 <= s < grid.len() && grid[s] == with_v[k];
        lemma_unit_member(field, IterDirection::Grid, g, s);
        let i = choose|i: int| 0 <= i < 81 && cells[i] == grid[s];
        assert(cells[i].coords == coords_of_index(i));
    }
    let l = unit_of(with_v[0].coords, dir);
    assert(l == line);
    lemma_index_in_unit(dir, p1);
    let w1 = pos_in_unit(coords_of_index(p1), dir) as int;
    lemma_unit_drafts_has(field, dir, line, w1);
    let unit = unit_drafts(cells, dir, line);
    let s1 = choose|s1: int| 0 <= s1 < unit.len() && unit[s1] == cells[p1];
    let fo = |s: int| keep_if(unit[s].coords.g != with_v[0].coords.g && unit[s].candidates@.contains(v), unit[s]);
    assert(cells[p1].coords == coords_of_index(p1));
    assert(fo(s1).len() > 0);
    lemma_range_concat_nonempty(0, unit.len() as int, fo, s1);
    assert(pointing_at(cells, dir, g, v));
}

/// Every increasing index set of size 2 to 4 below `n` (and smaller than `n`) is one of the
/// index sets that the subset strategies try.
pub proof fn lemma_all_combos_listed(n: int, xs: Seq<usize>)
    requires
        2 <= xs.len() <= 4,
        xs.len() < n <= 9,
        crate::utils::increasing(xs),
        forall|k: int| 0 <= k < xs.len() ==> (#[trigger] xs[k]) < n,
    ensures
        exists|q: int| 0 <= q < all_combos(n).len() && (#[trigger] all_combos(n)[q]).0 == xs,
{
    let c2 = combinations(n, 2, 0, Seq::empty());
    let c3 = combinations(n, 3, 0, Seq::empty());
    let c4 = combinations(n, 4, 0, Seq::empty());
    let k = xs.len() as int;
    assert(Seq::<usize>::empty() =~= xs.subrange(0, 0));
    crate::utils::lemma_combination_listed(n, k, 0, Seq::empty(), xs);
    let all = all_combos(n);
    assert(all == c2 + c3 + c4);
    if k == 2 {
        let t = choose|t: int| 0 <= t < c2.len() && (#[trigger] c2[t]).0 == xs;
        assert(all[t] == c2[t]);
    } else if k == 3 {
        let t = choose|t: int| 0 <= t < c3.len() && (#[trigger] c3[t]).0 == xs;
        assert(all[c2.len() + t] == c3[t]);
    } else {
        let t = choose|t: int| 0 <= t < c4.len() && (#[trigger] c4[t]).0 == xs;
        assert(all[c2.len() + c3.len() + t] == c4[t]);
    }
}

/// A digit is in the union of the candidates of some cells just when one of them has it.
pub proof fn lemma_union_of_has(unit: Seq<Cell>, idxs: Seq<usize>, x: u8)
    ensures
        union_of(unit, idxs).contains(x) <==> exists|k: int|
            0 <= k < idxs.len() && unit[(#[trigger] idxs[k]) as int].candidates@.contains(x),
    decreases idxs.len(),
{
    if idxs.len() > 0 {
        let p = idxs.drop_last();
        lemma_union_of_has(unit, p, x);
        if exists|k: int| 0 <= k < p.len() && unit[(#[trigger] p[k]) as int].candidates@.contains(x) {
            let k = choose|k: int| 0 <= k < p.len() && unit[(#[trigger] p[k]) as int].candidates@.contains(x);
            assert(idxs[k] == p[k]);
        }
        if exists|k: int| 0 <= k < idxs.len() && unit[(#[trigger] idxs[k]) as int].candidates@.contains(x) {
            let k = choose|k: int| 0 <= k < idxs.len() && unit[(#[trigger] idxs[k]) as int].candidates@.contains(x);
            if k < p.len() {
                assert(p[k] == idxs[k]);
            }
        }
    }
}

/// Two lists without repeats that hold the same items are equally long.
pub proof fn lemma_same_members_len<A>(s1: Seq<A>, s2: Seq<A>)
    requires
        s1.no_duplicates(),
        s2.no_duplicates(),
        forall|x: A| s1.contains(x) <==> s2.contains(x),
    ensures
        s1.len() == s2.len(),
{
    assert(s1.to_set() =~= s2.to_set());
    s1.unique_seq_to_set();
    s2.unique_seq_to_set();
}

/// Completeness of hidden subsets: when, in a unit, some 2 to 4 of its draft cells are such
/// that the other draft cells' candidates make up exactly as many digits as there are other
/// draft cells, and one of the chosen cells has one of those digits, the strategy finds a
/// deduction.
pub proof fn lemma_hidden_subset_complete(
    field: &Sudoku,
    dir: IterDirection,
    u: int,
    xs: Seq<usize>,
    ds: Seq<u8>,
    m: int,
    d: u8,
    r: Option<ResultView>,
)
    requires
        field.wf(),
        0 <= u < 9,
        2 <= xs.len() <= 4,
        crate::utils::increasing(xs),
        forall|k: int| 0 <= k < xs.len() ==> (#[trigger] xs[k]) < unit_drafts(field@, dir, u).len(),
        ds.no_duplicates(),
        forall|x: u8|
            ds.contains(x) <==> (x < 9 && exists|i: int|
                0 <= i < unit_drafts(field@, dir, u).len() && !xs.contains(i as usize) && (#[trigger] unit_drafts(
                    field@,
                    dir,
                    u,
                )[i]).candidates@.contains(x)),
        ds.len() == unit_drafts(field@, dir, u).len() - xs.len(),
        0 <= m < xs.len(),
        ds.contains(d),
        unit_drafts(field@, dir, u)[xs[m] as int].candidates@.contains(d),
        hidden_subset_outcome(field@, dir, r),
    ensures
        r is Some,
{
    let cells = field@;
    let unit = unit_drafts(cells, dir, u);
    let n = unit.len() as int;
    lemma_range_concat_len(field, dir, u);
    assert(xs.len() < n);
    lemma_all_combos_listed(n, xs);
    let combos = all_combos(n);
    let q = choose|q: int| 0 <= q < combos.len() && (#[trigger] combos[q]).0 == xs;
    lemma_all_combos_parts(n, q);
    let ys = combos[q].1;
    assert(ys == complement_upto(n, xs, n));
    crate::utils::lemma_complement_upto(n, xs, n);
    let rest = digits_in(union_of(unit, ys));
    lemma_digits_in(union_of(unit, ys));
    assert forall|x: u8| rest.contains(x) <==> ds.contains(x) by {
        lemma_union_of_has(unit, ys, x);
        if rest.contains(x) {
            let k = choose|k: int| 0 <= k < ys.len() && unit[(#[trigger] ys[k]) as int].candidates@.contains(x);
            assert(!xs.contains(ys[k]));
            assert(unit[ys[k] as int].candidates@.contains(x));
        }
        if ds.contains(x) {
            let i = choose|i: int| 0 <= i < n && !xs.contains(i as usize) && (#[trigger] unit[i]).candidates@.contains(x);
            crate::utils::lemma_complement_has(n, xs, n, i);
            let k = choose|k: int| 0 <= k < ys.len() && ys[k] == i as usize;
            assert(unit[ys[k] as int].candidates@.contains(x));
        }
    }
    assert(rest.no_duplicates()) by {
        assert forall|i: int, j: int| 0 <= i < rest.len() && 0 <= j < rest.len() && i != j implies rest[i] != rest[j] by {
            if i < j {
                assert(rest[i] < rest[j]);
            } else {
                assert(rest[j] < rest[i]);
            }
        }
    }
    lemma_same_members_len(rest, ds);
    let f = |k: int| keep_if(shares_digit(unit[xs[k] as int].candidates@, rest), (unit[xs[k] as int].coords, rest));
    lemma_digits_in(unit[xs[m] as int].candidates@);
    assert(digits_in(unit[xs[m] as int].candidates@).contains(d));
    assert(shares_digit(unit[xs[m] as int].candidates@, rest));
    assert(f(m).len() > 0);
    lemma_range_concat_nonempty(0, xs.len() as int, f, m);
    assert(sharing_entries(unit, xs, rest).len() > 0);
    assert(hidden_at(cells, dir, u, q));
}

/// Whether the cell at position `p` of line `l` (a row or column) is a draft cell with
/// candidate `v`.
pub open spec fn holds_candidate(cells: Seq<Cell>, dir: IterDirection, l: int, p: int, v: u8) -> bool {
    is_draft(cells[line_index(dir, l, p)]) && cells[line_index(dir, l, p)].candidates@.contains(v)
}

/// Whether line `l` (a row or column) has a draft cell with candidate `v`.
pub open spec fn line_has_candidate(cells: Seq<Cell>, dir: IterDirection, l: int, v: u8) -> bool {
    exists|p: int| 0 <= p < 9 && holds_candidate(cells, dir, l, p, v)
}

/// The positions of `v` on a line come in increasing order.
proof fn lemma_fish_positions_increasing(field: &Sudoku, dir: IterDirection, v: u8, l: int)
    requires
        field.wf(),
        dir != IterDirection::Grid,
        0 <= l < 9,
    ensures
        forall|a: int, b: int|
            0 <= a < b < fish_positions(field@, dir, v, l).len() ==> (#[trigger] fish_positions(field@, dir, v, l)[a]).1
                < (#[trigger] fish_positions(field@, dir, v, l)[b]).1,
{
    let cells = field@;
    let f = |o: int|
        keep_if(
            is_draft(cells[line_index(dir, l, o)]) && cells[line_index(dir, l, o)].candidates@.contains(v),
            (unit_of(cells[line_index(dir, l, o)].coords, dir), pos_in_unit(cells[line_index(dir, l, o)].coords, dir)),
        );
    assert(fish_positions(cells, dir, v, l) == range_concat(0, 9, f));
    assert forall|k: int| 0 <= k < 9 implies (#[trigger] f(k)).len() <= 1 && (f(k).len() == 1 ==> f(k)[0].1 == k) by {
        if dir == IterDirection::Row {
            lemma_idx_coords(l, k);
        } else {
            lemma_idx_coords(k, l);
        }
    }
    lemma_pair_positions_increasing(9, f);
}

/// Items of single pieces, each carrying its piece's index second, come in increasing order.
proof fn lemma_pair_positions_increasing(hi: int, f: spec_fn(int) -> Seq<(usize, usize)>)
    requires
        0 <= hi <= 9,
        forall|k: int| 0 <= k < hi ==> (#[trigger] f(k)).len() <= 1 && (f(k).len() == 1 ==> f(k)[0].1 == k),
    ensures
        forall|a: int, b: int|
            0 <= a < b < range_concat(0, hi, f).len() ==> (#[trigger] range_concat(0, hi, f)[a]).1 < (
            #[trigger] range_concat(0, hi, f)[b]).1,
        forall|t: int| 0 <= t < range_concat(0, hi, f).len() ==> (#[trigger] range_concat(0, hi, f)[t]).1 < hi,
    decreases hi,
{
    if hi > 0 {
        lemma_pair_positions_increasing(hi - 1, f);
        let prev = range_concat(0, hi - 1, f);
        let cur = range_concat(0, hi, f);
        assert(f(hi - 1).len() <= 1);
        assert forall|t: int| 0 <= t < cur.len() implies (#[trigger] cur[t]).1 < hi by {
            if t < prev.len() {
                assert(cur[t] == prev[t]);
            }
        }
        assert forall|a: int, b: int| 0 <= a < b < cur.len() implies (#[trigger] cur[a]).1 < (#[trigger] cur[b]).1 by {
            assert(cur[a] == prev[a]);
            if b < prev.len() {
                assert(cur[b] == prev[b]);
            }
        }
    }
}

/// The positions of `v` on line `l` are exactly those where `l` holds candidate `v`.
proof fn lemma_fish_position_iff(field: &Sudoku, dir: IterDirection, v: u8, l: int, p: int)
    requires
        field.wf(),
        dir != IterDirection::Grid,
        0 <= l < 9,
        0 <= p < 9,
    ensures
        has_position(fish_positions(field@, dir, v, l), p as usize) <==> holds_candidate(field@, dir, l, p, v),
{
    if holds_candidate(field@, dir, l, p, v) {
        lemma_fish_position_of(field, dir, v, l, p);
    }
    if has_position(fish_positions(field@, dir, v, l), p as usize) {
        let m = choose|m: int|
            0 <= m < fish_positions(field@, dir, v, l).len() && fish_positions(field@, dir, v, l)[m].1 == p as usize;
        lemma_fish_position_cell(field, dir, v, l, m);
    }
}

/// Completeness of the fish: when for digit `v` there are `n` lines (2 to 4) of one kind and
/// `n` positions such that the first line holds `v` at exactly those positions, each other of
/// the lines holds `v` somewhere and only there, no further line holds `v` only there, and a
/// further line holds `v` at one of the positions, the strategy finds a deduction.
pub proof fn lemma_fish_complete(
    field: &Sudoku,
    dir: IterDirection,
    v: u8,
    ls: Seq<usize>,
    ps: Seq<usize>,
    o: int,
    po: int,
    r: Option<ResultView>,
)
    requires
        field.wf(),
        dir != IterDirection::Grid,
        v < 9,
        2 <= ls.len() <= 4,
        ps.len() == ls.len(),
        ls.no_duplicates(),
        ps.no_duplicates(),
        forall|i: int| 0 <= i < ls.len() ==> (#[trigger] ls[i]) < 9,
        forall|i: int| 0 <= i < ps.len() ==> (#[trigger] ps[i]) < 9,
        forall|p: int| 0 <= p < 9 ==> (holds_candidate(field@, dir, ls[0] as int, p, v) <==> ps.contains(p as usize)),
        forall|i: int| 1 <= i < ls.len() ==> line_has_candidate(field@, dir, (#[trigger] ls[i]) as int, v),
        forall|i: int, p: int|
            1 <= i < ls.len() && 0 <= p < 9 && #[trigger] holds_candidate(field@, dir, ls[i] as int, p, v) ==> ps.contains(
                p as usize,
            ),
        forall|l: int|
            0 <= l < 9 && !ls.contains(l as usize) && #[trigger] line_has_candidate(field@, dir, l, v) ==> exists|p: int|
                0 <= p < 9 && holds_candidate(field@, dir, l, p, v) && !ps.contains(p as usize),
        0 <= o < 9,
        !ls.contains(o as usize),
        0 <= po < 9,
        ps.contains(po as usize),
        holds_candidate(field@, dir, o, po, v),
        fish_outcome(field@, r),
    ensures
        r is Some,
{
    let cells = field@;
    let one = ls[0] as int;
    let pos = fish_positions(cells, dir, v, one);
    let others = fish_others(cells, dir, v, one);
    let lines = fish_lines(cells, dir, v, one);
    lemma_fish_lines(field, dir, v, one);
    lemma_fish_positions_bounded(field, dir, v, one);
    lemma_fish_positions_increasing(field, dir, v, one);
    // The positions of the first line are `ps`.
    assert forall|x: usize| others.contains(x) <==> ps.contains(x) by {
        if others.contains(x) {
            let j = choose|j: int| 0 <= j < others.len() && others[j] == x;
            lemma_fish_position_cell(field, dir, v, one, j);
            assert(others[j] == pos[j].1);
            assert(holds_candidate(cells, dir, one, x as int, v));
            assert(ps.contains((x as int) as usize));
        }
        if ps.contains(x) {
            let i = choose|i: int| 0 <= i < ps.len() && ps[i] == x;
            assert(ps.contains((x as int) as usize));
            assert(holds_candidate(cells, dir, one, x as int, v));
            lemma_fish_position_iff(field, dir, v, one, x as int);
            let m = choose|m: int| 0 <= m < pos.len() && pos[m].1 == x;
            assert(others[m] == x);
        }
    }
    assert(others.no_duplicates()) by {
        assert forall|a: int, b: int| 0 <= a < others.len() && 0 <= b < others.len() && a != b implies others[a] != others[b] by {
            if a < b {
                assert(pos[a].1 < pos[b].1);
            } else {
                assert(pos[b].1 < pos[a].1);
            }
        }
    }
    lemma_same_members_len(others, ps);
    // A line other than the first partners it just when it is one of `ls`.
    let partner = fish_partner(cells, dir, v, one);
    let rest = range_concat(0, 9, partner);
    assert(lines == seq![one as usize] + rest);
    assert forall|l: int| 0 <= l < 9 && l != one implies (fish_pair(pos, fish_positions(cells, dir, v, l)) <==> ls.contains(
        l as usize,
    )) by {
        let pl = fish_positions(cells, dir, v, l);
        if ls.contains(l as usize) {
            let i = choose|i: int| 0 <= i < ls.len() && ls[i] == l as usize;
            assert(i != 0);
            assert(line_has_candidate(cells, dir, ls[i] as int, v));
            let p0 = choose|p: int| 0 <= p < 9 && holds_candidate(cells, dir, ls[i] as int, p, v);
            lemma_fish_position_iff(field, dir, v, l, p0);
            assert forall|k: int| 0 <= k < pl.len() implies has_position(pos, (#[trigger] pl[k]).1) by {
                lemma_fish_position_cell(field, dir, v, l, k);
                let p = pl[k].1 as int;
                assert(holds_candidate(cells, dir, ls[i] as int, p, v));
                assert(ps.contains(p as usize));
                lemma_fish_position_iff(field, dir, v, one, p);
            }
        }
        if fish_pair(pos, pl) {
            lemma_fish_position_cell(field, dir, v, l, 0);
            let p0 = pl[0].1 as int;
            assert(holds_candidate(cells, dir, l, p0, v));
            assert(line_has_candidate(cells, dir, l, v));
            if !ls.contains(l as usize) {
                let p = choose|p: int| 0 <= p < 9 && holds_candidate(cells, dir, l, p, v) && !ps.contains(p as usize);
                lemma_fish_position_iff(field, dir, v, l, p);
                let m = choose|m: int| 0 <= m < pl.len() && pl[m].1 == p as usize;
                assert(has_position(pos, pl[m].1));
                lemma_fish_position_iff(field, dir, v, one, p);
                assert(false);
            }
        }
    }
    // So the lines of the fish are `ls`.
    assert forall|x: usize| lines.contains(x) <==> ls.contains(x) by {
        if lines.contains(x) {
            let i = choose|i: int| 0 <= i < lines.len() && lines[i] == x;
            if i > 0 {
                assert(lines[i] != lines[0]);
            }
        }
        if ls.contains(x) && x != one as usize {
            let l = x as int;
            let i = choose|i: int| 0 <= i < ls.len() && ls[i] == x;
            assert(partner(l) == seq![x]);
            assert(partner(l)[0] == x);
            lemma_range_concat_has(0, 9, partner, l, x);
            let t = choose|t: int| 0 <= t < rest.len() && rest[t] == x;
            assert(lines[t + 1] == x);
        }
        if x == one as usize {
            assert(lines[0] == x);
        }
    }
    assert(lines.no_duplicates()) by {
        assert forall|a: int, b: int| 0 <= a < lines.len() && 0 <= b < lines.len() && a != b implies lines[a] != lines[b] by {}
    }
    lemma_same_members_len(lines, ls);
    // And a further line has `v` at one of the positions.
    let j0 = choose|j: int| 0 <= j < others.len() && others[j] == po as usize;
    let inner = |j: int|
        keep_if(
            is_draft(cells[line_index(dir, o, others[j] as int)]) && cells[line_index(dir, o, others[j] as int)].candidates@.contains(
                v,
            ),
            (spec_coords_of_rc(line_rc(dir, o as usize, others[j])), seq![v]),
        );
    assert(inner(j0).len() > 0);
    lemma_range_concat_nonempty(0, others.len() as int, inner, j0);
    let outer = |o2: int|
        if lines.contains(o2 as usize) {
            Seq::empty()
        } else {
            range_concat(
                0,
                others.len() as int,
                |j: int|
                    keep_if(
                        is_draft(cells[line_index(dir, o2, others[j] as int)]) && cells[line_index(
                            dir,
                            o2,
                            others[j] as int,
                        )].candidates@.contains(v),
                        (spec_coords_of_rc(line_rc(dir, o2 as usize, others[j])), seq![v]),
                    ),
            )
        };
    assert(fish_conclusion(cells, dir, v, lines, others) == range_concat(0, 9, outer));
    assert(!lines.contains(o as usize));
    assert(outer(o) == range_concat(0, others.len() as int, inner)) by {
        let f2 = |j: int|
            keep_if(
                is_draft(cells[line_index(dir, o, others[j] as int)]) && cells[line_index(
                    dir,
                    o,
                    others[j] as int,
                )].candidates@.contains(v),
                (spec_coords_of_rc(line_rc(dir, o as usize, others[j])), seq![v]),
            );
        assert(inner =~= f2);
    }
    lemma_range_concat_nonempty(0, 9, outer, o);
    assert(fish_at(cells, dir, v, one));
}

/// Completeness of naked subsets: when, in a unit, some 2 to 4 of its draft cells have
/// between them exactly as many digits as there are cells, and another draft cell of the unit
/// has one of those digits, the strategy finds a deduction.
pub proof fn lemma_naked_subset_complete(
    field: &Sudoku,
    dir: IterDirection,
    u: int,
    xs: Seq<usize>,
    ds: Seq<u8>,
    i: int,
    d: u8,
    r: Option<ResultView>,
)
    requires
        field.wf(),
        0 <= u < 9,
        2 <= xs.len() <= 4,
        crate::utils::increasing(xs),
        forall|k: int| 0 <= k < xs.len() ==> (#[trigger] xs[k]) < unit_drafts(field@, dir, u).len(),
        ds.no_duplicates(),
        forall|x: u8|
            ds.contains(x) <==> (x < 9 && exists|k: int|
                0 <= k < xs.len() && unit_drafts(field@, dir, u)[(#[trigger] xs[k]) as int].candidates@.contains(x)),
        ds.len() == xs.len(),
        0 <= i < unit_drafts(field@, dir, u).len(),
        !xs.contains(i as usize),
        ds.contains(d),
        unit_drafts(field@, dir, u)[i].candidates@.contains(d),
        naked_subset_outcome(field@, dir, r),
    ensures
        r is Some,
{
    let cells = field@;
    let unit = unit_drafts(cells, dir, u);
    let n = unit.len() as int;
    lemma_range_concat_len(field, dir, u);
    crate::utils::lemma_complement_has(n, xs, n, i);
    let ys0 = complement_upto(n, xs, n);
    crate::utils::lemma_complement_upto(n, xs, n);
    assert(xs.len() < n) by {
        crate::utils::lemma_complement_count(n, xs, n);
        crate::utils::lemma_count_below_all(xs, n);
    }
    lemma_all_combos_listed(n, xs);
    let combos = all_combos(n);
    let q = choose|q: int| 0 <= q < combos.len() && (#[trigger] combos[q]).0 == xs;
    lemma_all_combos_parts(n, q);
    let ys = combos[q].1;
    assert(ys == ys0);
    let digits = digits_in(union_of(unit, xs));
    lemma_digits_in(union_of(unit, xs));
    assert forall|x: u8| digits.contains(x) <==> ds.contains(x) by {
        lemma_union_of_has(unit, xs, x);
    }
    assert(digits.no_duplicates()) by {
        assert forall|a: int, b: int| 0 <= a < digits.len() && 0 <= b < digits.len() && a != b implies digits[a]
            != digits[b] by {
            if a < b {
                assert(digits[a] < digits[b]);
            } else {
                assert(digits[b] < digits[a]);
            }
        }
    }
    lemma_same_members_len(digits, ds);
    let k = choose|k: int| 0 <= k < ys.len() && ys[k] == i as usize;
    let f = |k2: int| keep_if(shares_digit(unit[ys[k2] as int].candidates@, digits), (unit[ys[k2] as int].coords, digits));
    lemma_digits_in(unit[i].candidates@);
    assert(digits_in(unit[ys[k] as int].candidates@).contains(d));
    assert(shares_digit(unit[ys[k] as int].candidates@, digits));
    assert(f(k).len() > 0);
    lemma_range_concat_nonempty(0, ys.len() as int, f, k);
    assert(sharing_entries(unit, ys, digits).len() > 0);
    assert(naked_at(cells, dir, u, q));
}

/// Completeness of claiming: when all draft cells of a line (row or column) lie in one grid,
/// one of them has candidate `v`, and that grid has a draft cell with `v` off the line, the
/// strategy finds a deduction.
pub proof fn lemma_claiming_complete(
    field: &Sudoku,
    dir: IterDirection,
    l: int,
    v: u8,
    gg: int,
    w0: int,
    p2: int,
    r: Option<ResultView>,
)
    requires
        field.wf(),
        dir != IterDirection::Grid,
        0 <= l < 9,
        v < 9,
        forall|w: int| 0 <= w < 9 && is_draft(#[trigger] field@[line_index(dir, l, w)]) ==> coords_of_index(line_index(dir, l, w)).g == gg,
        0 <= w0 < 9,
        holds_candidate(field@, dir, l, w0, v),
        0 <= p2 < 81,
        is_draft(field@[p2]),
        field@[p2].candidates@.contains(v),
        coords_of_index(p2).g == gg,
        unit_of(coords_of_index(p2), dir) != l,
        claiming_outcome(field@, dir, r),
    ensures
        r is Some,
{
    let cells = field@;
    let unit = unit_drafts(cells, dir, l);
    assert(unit_index(dir, l, w0) == line_index(dir, l, w0));
    lemma_unit_drafts_has(field, dir, l, w0);
    let s = choose|s: int| 0 <= s < unit.len() && unit[s] == cells[line_index(dir, l, w0)];
    let p = unit[s];
    lemma_unit_cell(dir, l, w0);
    assert(p.coords == coords_of_index(line_index(dir, l, w0)));
    assert(p.coords.g == gg);
    assert(unit_of(p.coords, dir) == l);
    assert forall|k: int| 0 <= k < unit.len() implies (#[trigger] unit[k]).coords.g == p.coords.g by {
        lemma_unit_member(field, dir, l, k);
        let i = choose|i: int| 0 <= i < 81 && cells[i] == unit[k];
        lemma_index_in_unit(dir, i);
        let w = pos_in_unit(coords_of_index(i), dir) as int;
        assert(unit_index(dir, l, w) == line_index(dir, l, w));
        assert(is_draft(cells[line_index(dir, l, w)]));
    }
    lemma_index_in_unit(IterDirection::Grid, p2);
    let n2 = pos_in_unit(coords_of_index(p2), IterDirection::Grid) as int;
    lemma_unit_drafts_has(field, IterDirection::Grid, gg, n2);
    let grid = unit_drafts(cells, IterDirection::Grid, gg);
    let s2 = choose|s2: int| 0 <= s2 < grid.len() && grid[s2] == cells[p2];
    let f = |s3: int| keep_if(unit_of(grid[s3].coords, dir) != unit_of(p.coords, dir) && grid[s3].candidates@.contains(v), grid[s3]);
    assert(f(s2).len() > 0);
    lemma_range_concat_nonempty(0, grid.len() as int, f, s2);
    assert(claiming_at(cells, dir, l, v, s));
}

/// Completeness of hidden singles: when a unit has exactly one draft cell with candidate
/// `d`, the strategy finds a deduction.
pub proof fn lemma_hidden_single_complete(field: &Sudoku, dir: IterDirection, u: int, w: int, d: u8, r: Option<ResultView>)
    requires
        field.wf(),
        0 <= u < 9,
        0 <= w < 9,
        d < 9,
        is_draft(field@[unit_index(dir, u, w)]),
        field@[unit_index(dir, u, w)].candidates@.contains(d),
        forall|w2: int|
            0 <= w2 < 9 && w2 != w && is_draft(#[trigger] field@[unit_index(dir, u, w2)]) ==> !field@[unit_index(
                dir,
                u,
                w2,
            )].candidates@.contains(d),
        hidden_single_outcome(field@, dir, r),
    ensures
        r is Some,
{
    let cells = field@;
    let unit = unit_drafts(cells, dir, u);
    lemma_unit_drafts_has(field, dir, u, w);
    let t = choose|t: int| 0 <= t < unit.len() && unit[t] == cells[unit_index(dir, u, w)];
    lemma_unit_cell(dir, u, w);
    assert(unit[t].coords == coords_of_index(unit_index(dir, u, w)));
    let cands = digits_in(unit[t].candidates@);
    lemma_digits_in(unit[t].candidates@);
    assert(cands.contains(d));
    let j = choose|j: int| 0 <= j < cands.len() && cands[j] == d;
    assert forall|s: int| 0 <= s < unit.len() implies pos_in_unit(#[trigger] unit[s].coords, dir) == pos_in_unit(
        unit[t].coords,
        dir,
    ) || !unit[s].candidates@.contains(d) by {
        lemma_unit_member(field, dir, u, s);
        let i = choose|i: int| 0 <= i < 81 && cells[i] == unit[s];
        lemma_index_in_unit(dir, i);
        let w2 = pos_in_unit(coords_of_index(i), dir) as int;
        assert(is_draft(cells[unit_index(dir, u, w2)]));
    }
    assert(hidden_single_at(cells, dir, u, t, j));
}

/// Completeness of naked singles: when some draft cell has a single candidate, the strategy
/// finds a deduction.
pub proof fn lemma_naked_single_complete(field: &Sudoku, p: int, v: u8, r: Option<ResultView>)
    requires
        field.wf(),
        0 <= p < 81,
        v < 9,
        is_draft(field@[p]),
        field@[p].candidates@ == set![v],
        naked_single_outcome(field@, r),
    ensures
        r is Some,
{
    let cells = field@;
    let drafts = range_concat(0, 81, draft_at(cells));
    assert(draft_at(cells)(p) == seq![cells[p]]);
    assert(draft_at(cells)(p)[0] == cells[p]);
    lemma_range_concat_has(0, 81, draft_at(cells), p, cells[p]);
    let t = choose|t: int| 0 <= t < drafts.len() && drafts[t] == cells[p];
    assert(naked_single_at(cells, t));
}

/// Two positions of one grid are different cells that share a unit.
pub proof fn lemma_grid_pair(g: int, w1: int, w2: int)
    requires
        0 <= g < 9,
        0 <= w1 < 9,
        0 <= w2 < 9,
        w1 != w2,
    ensures
        gn_idx(g, w1) != gn_idx(g, w2),
        crate::same_unit(gn_idx(g, w1), gn_idx(g, w2)),
        0 <= gn_idx(g, w1) < 81,
{
    lemma_unit_pair(IterDirection::Grid, g, w1, w2);
    lemma_unit_cell(IterDirection::Grid, g, w1);
}

/// The strategies to try, in order.
pub struct InferenceSet {
    inferences: Vec<InferenceKind>,
}

impl View for InferenceSet {
    type V = Seq<InferenceKind>;

    closed spec fn view(&self) -> Seq<InferenceKind> {
        self.inferences@
    }
}

impl InferenceSet {
    /// All strategies, simplest first, exhaustive search last.
    pub fn new() -> (ret: Self)
        ensures
            ret@ == default_strategies(),
    {
        let ret = InferenceSet {
            inferences: vec![
                InferenceKind::OnlyOneLeft,
                InferenceKind::OnlyOneRightInRow,
                InferenceKind::OnlyOneRightInCol,
                InferenceKind::OnlyOneRightInGrid,
                InferenceKind::RowUniqueDraftByGridExclusion,
                InferenceKind::ColUniqueDraftByGridExclusion,
                InferenceKind::GridUniqueDraftByRowExclusion,
                InferenceKind::GridUniqueDraftByColExclusion,
                InferenceKind::RowExplicitNakedPairExclusion,
                InferenceKind::ColExplicitNakedPairExclusion,
                InferenceKind::GridExplicitNakedPairExclusion,
                InferenceKind::RowExplicitHiddenPairExclusion,
                InferenceKind::ColExplicitHiddenPairExclusion,
                InferenceKind::GridExplicitHiddenPairExclusion,
                InferenceKind::NStepFish,
                InferenceKind::Exploit,
            ],
        };
        proof {
            assert(ret@ =~= default_strategies());
        }
        ret
    }

    /// The deduction of the first strategy, in order, that finds one.
    pub fn analyze(&self, field: &Sudoku) -> (ret: Option<InferenceResult>)
        requires
            field.wf(),
        ensures
            ret is None ==> forall|j: int| 0 <= j < self@.len() ==> strategy_outcome(field@, #[trigger] self@[j], None),
            ret is Some ==> exists|j: int|
                0 <= j < self@.len() && (forall|j2: int| 0 <= j2 < j ==> strategy_outcome(field@, #[trigger] self@[j2], None))
                    && strategy_outcome(field@, #[trigger] self@[j], result_view(ret)),
            ret matches Some(res) ==> applicable(res@),
    {
        let mut j: usize = 0;
        while j < self.inferences.len()
            invariant
                field.wf(),
                j <= self@.len(),
                forall|j2: int| 0 <= j2 < j ==> strategy_outcome(field@, #[trigger] self@[j2], None),
            decreases self@.len() - j,
        {
            let found = analyze_kind(self.inferences[j], field);
            if found.is_some() {
                proof {
                    assert(strategy_outcome(field@, self@[j as int], result_view(found)));
                }
                return found;
            }
            j = j + 1;
        }
        None
    }

    /// Fills in the deduction's digits (marking the cells solved), then removes its
    /// candidates.
    pub fn apply(field: &mut Sudoku, result: InferenceResult)
        requires
            old(field).wf(),
            applicable(result@),
        ensures
            final(field).wf(),
            final(field)@ == applied(old(field)@, result@),
    {
        let ghost r = result@;
        let ghost start = field@;
        if result.conclusion_set_value.is_some() {
            let sets = result.conclusion_set_value.unwrap();
            let ghost es = entry_views(sets@);
            proof {
                assert(r.2 == Some(es));
                assert forall|i2: int| 0 <= i2 < es.len() implies (#[trigger] es[i2]).0.r < 9 && es[i2].0.c < 9 && es[i2].1.len() > 0 by {
                    assert(r.2->0[i2] == es[i2]);
                    assert(set_entry_ok(r.2->0[i2]));
                }
            }
            let mut i: usize = 0;
            while i < sets.len()
                invariant
                    field.wf(),
                    es == entry_views(sets@),
                    forall|i2: int| 0 <= i2 < es.len() ==> (#[trigger] es[i2]).0.r < 9 && es[i2].0.c < 9 && es[i2].1.len() > 0,
                    i <= sets@.len(),
                    field@ == apply_sets(start, es.subrange(0, i as int)),
                decreases sets@.len() - i,
            {
                let cv = &sets[i];
                proof {
                    assert(es[i as int] == cv@);
                    assert(es.subrange(0, i + 1).drop_last() =~= es.subrange(0, i as int));
                }
                let p = field.get_cell_mut_by_coords(cv.the_coords);
                p.value = Some(cv.the_value[0]);
                p.status = CellStatus::SOLVE;
                i = i + 1;
            }
            proof {
                assert(es.subrange(0, es.len() as int) =~= es);
            }
        }
        let ghost filled = field@;
        if result.conclusion_remove_drafts.is_some() {
            let removes = result.conclusion_remove_drafts.unwrap();
            let ghost es = entry_views(removes@);
            proof {
                assert(r.3 == Some(es));
                assert forall|i2: int| 0 <= i2 < es.len() implies (#[trigger] es[i2]).0.r < 9 && es[i2].0.c < 9 && forall|j: int|
                    0 <= j < es[i2].1.len() ==> es[i2].1[j] < 16 by {
                    assert(r.3->0[i2] == es[i2]);
                    assert(remove_entry_ok(r.3->0[i2]));
                }
            }
            let mut i: usize = 0;
            while i < removes.len()
                invariant
                    field.wf(),
                    es == entry_views(removes@),
                    forall|i2: int|
                        0 <= i2 < es.len() ==> (#[trigger] es[i2]).0.r < 9 && es[i2].0.c < 9 && forall|j: int|
                            0 <= j < es[i2].1.len() ==> es[i2].1[j] < 16,
                    i <= removes@.len(),
                    field@ == apply_removes(filled, es.subrange(0, i as int)),
                decreases removes@.len() - i,
            {
                let cv = &removes[i];
                let ghost k = idx(cv.the_coords.r as int, cv.the_coords.c as int);
                let ghost base = field@;
                proof {
                    assert(es[i as int] == cv@);
                    assert(es.subrange(0, i + 1).drop_last() =~= es.subrange(0, i as int));
                    assert forall|j2: int| 0 <= j2 < cv.the_value@.len() implies cv.the_value@[j2] < 16 by {
                        assert(es[i as int].1[j2] == cv.the_value@[j2]);
                    }
                }
                let mut j: usize = 0;
                while j < cv.the_value.len()
                    invariant
                        field.wf(),
                        cv.the_coords.r < 9 && cv.the_coords.c < 9,
                        k == idx(cv.the_coords.r as int, cv.the_coords.c as int),
                        forall|j2: int| 0 <= j2 < cv.the_value@.len() ==> cv.the_value@[j2] < 16,
                        j <= cv.the_value@.len(),
                        base.len() == 81,
                        field@ == base.update(
                            k,
                            Cell { candidates: remove_digits(base[k].candidates, cv.the_value@.subrange(0, j as int)), ..base[k] },
                        ),
                    decreases cv.the_value@.len() - j,
                {
                    let v = cv.the_value[j];
                    field.get_cell_mut_by_coords(cv.the_coords).candidates.remove(v);
                    proof {
                        assert(cv.the_value@.subrange(0, j + 1).drop_last() =~= cv.the_value@.subrange(0, j as int));
                        assert(field@ =~= base.update(
                            k,
                            Cell { candidates: remove_digits(base[k].candidates, cv.the_value@.subrange(0, j + 1)), ..base[k] },
                        ));
                    }
                    j = j + 1;
                }
                proof {
                    assert(cv.the_value@.subrange(0, cv.the_value@.len() as int) =~= cv.the_value@);
                }
                i = i + 1;
            }
            proof {
                assert(es.subrange(0, es.len() as int) =~= es);
            }
        }
    }
}

} // verus!
