//! Walking the quadtree, and merging its open-water cells.
use vstd::multiset::Multiset;
use vstd::prelude::*;

use crate::geo::{BBox, Point, DEGREE, WORLD};
use crate::generate::{globe, is_tree, kind, land_in_cell, middle, quarter, CellType, QuadCell, WaterLeaf};
use crate::land::LandClassifier;
use crate::spatial::{box_items, boxes_meeting, load_boxes, meeting, BoxEntry, BoxIndex};

verus! {

/// A leaf as a box and a depth.
pub open spec fn leaf_of(q: QuadCell) -> WaterLeaf {
    WaterLeaf {
        min_lon: q.min_lon,
        min_lat: q.min_lat,
        max_lon: q.max_lon,
        max_lat: q.max_lat,
        depth: q.depth,
    }
}

/// The leaves below a cell, with what each is. The last child comes first.
pub open spec fn leaves(q: QuadCell) -> Seq<(WaterLeaf, CellType)>
    decreases q, 0nat,
{
    if q.children.len() == 0 {
        seq![(leaf_of(q), q.cell_type)]
    } else {
        leaves_of(q.children@, q.children@.len())
    }
}

/// The leaves below the first `k` of the cells, those of the last cell first.
pub open spec fn leaves_of(cells: Seq<QuadCell>, k: nat) -> Seq<(WaterLeaf, CellType)>
    decreases cells, k,
{
    if k == 0 || k > cells.len() {
        Seq::empty()
    } else {
        leaves(cells[k - 1]) + leaves_of(cells, (k - 1) as nat)
    }
}

/// How many cells there are below a cell, itself included.
pub open spec fn cell_count(q: QuadCell) -> nat
    decreases q, 0nat,
{
    1 + cell_count_of(q.children@, q.children@.len())
}

pub open spec fn cell_count_of(cells: Seq<QuadCell>, k: nat) -> nat
    decreases cells, k,
{
    if k == 0 || k > cells.len() {
        0
    } else {
        cell_count(cells[k - 1]) + cell_count_of(cells, (k - 1) as nat)
    }
}

/// The leaves below the cells on a stack, from its top.
spec fn stack_leaves(stack: Seq<&QuadCell>) -> Seq<(WaterLeaf, CellType)>
    decreases stack.len(),
{
    if stack.len() == 0 {
        Seq::empty()
    } else {
        leaves(*stack.last()) + stack_leaves(stack.drop_last())
    }
}

spec fn stack_cells(stack: Seq<&QuadCell>) -> nat
    decreases stack.len(),
{
    if stack.len() == 0 {
        0
    } else {
        cell_count(*stack.last()) + stack_cells(stack.drop_last())
    }
}

/// The leaves of a kind, in order.
pub open spec fn of_kind(list: Seq<(WaterLeaf, CellType)>, kind: CellType) -> Seq<WaterLeaf>
    decreases list.len(),
{
    if list.len() == 0 {
        Seq::empty()
    } else {
        let before = of_kind(list.drop_last(), kind);
        if list.last().1 == kind {
            before.push(list.last().0)
        } else {
            before
        }
    }
}

proof fn lemma_of_kind_join(a: Seq<(WaterLeaf, CellType)>, b: Seq<(WaterLeaf, CellType)>, kind: CellType)
    ensures
        of_kind(a + b, kind) == of_kind(a, kind) + of_kind(b, kind),
    decreases b.len(),
{
    if b.len() == 0 {
        assert(a + b =~= a);
        assert(of_kind(a, kind) + of_kind(b, kind) =~= of_kind(a, kind));
    } else {
        assert((a + b).drop_last() =~= a + b.drop_last());
        assert((a + b).last() == b.last());
        lemma_of_kind_join(a, b.drop_last(), kind);
        assert(of_kind(a + b, kind) =~= of_kind(a, kind) + of_kind(b, kind));
    }
}

proof fn lemma_of_kind_one(x: (WaterLeaf, CellType), kind: CellType)
    ensures
        of_kind(seq![x], kind) == if x.1 == kind {
            seq![x.0]
        } else {
            Seq::empty()
        },
{
    assert(seq![x].drop_last() =~= Seq::<(WaterLeaf, CellType)>::empty());
    assert(of_kind(seq![x].drop_last(), kind) =~= Seq::<WaterLeaf>::empty());
    assert(of_kind(seq![x], kind) =~= if x.1 == kind {
        seq![x.0]
    } else {
        Seq::empty()
    });
}

proof fn lemma_of_kind_len(list: Seq<(WaterLeaf, CellType)>, kind: CellType)
    ensures
        of_kind(list, kind).len() <= list.len(),
    decreases list.len(),
{
    if list.len() > 0 {
        lemma_of_kind_len(list.drop_last(), kind);
    }
}

/// Puts the children of a cell on the stack.
fn push_children<'a>(stack: &mut Vec<&'a QuadCell>, cell: &'a QuadCell)
    ensures
        stack_leaves(final(stack)@) == leaves_of(cell.children@, cell.children@.len())
            + stack_leaves(old(stack)@),
        stack_cells(final(stack)@) == cell_count_of(cell.children@, cell.children@.len())
            + stack_cells(old(stack)@),
{
    let ghost before = stack@;
    let mut i: usize = 0;
    assert(stack_leaves(stack@) =~= leaves_of(cell.children@, 0) + stack_leaves(before));
    while i < cell.children.len()
        invariant
            i <= cell.children.len(),
            stack_leaves(stack@) == leaves_of(cell.children@, i as nat) + stack_leaves(before),
            stack_cells(stack@) == cell_count_of(cell.children@, i as nat) + stack_cells(before),
        decreases cell.children.len() - i,
    {
        let ghost had = stack@;
        stack.push(&cell.children[i]);
        proof {
            assert(stack@.drop_last() =~= had);
            assert(stack@.last() == cell.children@[i as int]);
            assert(stack_leaves(stack@) =~= leaves_of(cell.children@, (i + 1) as nat) + stack_leaves(
                before,
            ));
        }
        i = i + 1;
    }
}

/// The leaves of one kind below a cell.
fn collect_leaves(root: &QuadCell, kind: CellType) -> (r: Vec<WaterLeaf>)
    ensures
        r@ == of_kind(leaves(*root), kind),
{
    let mut result: Vec<WaterLeaf> = Vec::new();
    let mut stack: Vec<&QuadCell> = Vec::new();
    stack.push(root);
    let ghost all = of_kind(leaves(*root), kind);
    proof {
        assert(stack@.drop_last() =~= Seq::<&QuadCell>::empty());
        assert(stack_leaves(stack@.drop_last()) =~= Seq::<(WaterLeaf, CellType)>::empty());
        assert(stack_leaves(stack@) =~= leaves(*root));
        assert(result@ + of_kind(stack_leaves(stack@), kind) =~= all);
    }
    while stack.len() > 0
        invariant
            result@ + of_kind(stack_leaves(stack@), kind) == all,
        decreases stack_cells(stack@),
    {
        let ghost whole = stack@;
        let cell = stack.pop().unwrap();
        let ghost rest = stack@;
        let ghost had = result@;
        proof {
            assert(whole.drop_last() =~= rest);
            lemma_of_kind_join(leaves(*cell), stack_leaves(rest), kind);
        }
        if cell.is_leaf() {
            let leaf = WaterLeaf {
                min_lon: cell.min_lon,
                min_lat: cell.min_lat,
                max_lon: cell.max_lon,
                max_lat: cell.max_lat,
                depth: cell.depth,
            };
            if cell.cell_type == kind {
                result.push(leaf);
            }
            proof {
                lemma_of_kind_one((leaf, cell.cell_type), kind);
                assert(result@ + of_kind(stack_leaves(rest), kind) =~= had + (of_kind(
                    leaves(*cell),
                    kind,
                ) + of_kind(stack_leaves(rest), kind)));
            }
        } else {
            push_children(&mut stack, cell);
        }
    }
    proof {
        assert(stack_leaves(stack@) =~= Seq::<(WaterLeaf, CellType)>::empty());
        assert(result@ =~= result@ + of_kind(stack_leaves(stack@), kind));
    }
    result
}

/// Collect all water leaf cells.
pub fn collect_water_leaves(root: &QuadCell) -> (r: Vec<WaterLeaf>)
    ensures
        r@ == of_kind(leaves(*root), CellType::Water),
{
    collect_leaves(root, CellType::Water)
}

/// Count leaves by type: those of water, and those of land.
pub fn count_leaves(root: &QuadCell) -> (r: (u64, u64))
    requires
        leaves(*root).len() <= u64::MAX,
    ensures
        r.0 == of_kind(leaves(*root), CellType::Water).len(),
        r.1 == of_kind(leaves(*root), CellType::Land).len(),
{
    let mut water: u64 = 0;
    let mut land: u64 = 0;
    let mut stack: Vec<&QuadCell> = Vec::new();
    stack.push(root);
    let ghost total = leaves(*root);
    proof {
        assert(stack@.drop_last() =~= Seq::<&QuadCell>::empty());
        assert(stack_leaves(stack@.drop_last()) =~= Seq::<(WaterLeaf, CellType)>::empty());
        assert(stack_leaves(stack@) =~= leaves(*root));
    }
    while stack.len() > 0
        invariant
            total.len() <= u64::MAX,
            water + of_kind(stack_leaves(stack@), CellType::Water).len() == of_kind(
                total,
                CellType::Water,
            ).len(),
            land + of_kind(stack_leaves(stack@), CellType::Land).len() == of_kind(
                total,
                CellType::Land,
            ).len(),
        decreases stack_cells(stack@),
    {
        let ghost whole = stack@;
        let cell = stack.pop().unwrap();
        let ghost rest = stack@;
        proof {
            assert(whole.drop_last() =~= rest);
            lemma_of_kind_join(leaves(*cell), stack_leaves(rest), CellType::Water);
            lemma_of_kind_join(leaves(*cell), stack_leaves(rest), CellType::Land);
            lemma_of_kind_len(total, CellType::Water);
            lemma_of_kind_len(total, CellType::Land);
        }
        if cell.is_leaf() {
            proof {
                lemma_of_kind_one((leaf_of(*cell), cell.cell_type), CellType::Water);
                lemma_of_kind_one((leaf_of(*cell), cell.cell_type), CellType::Land);
            }
            match cell.cell_type {
                CellType::Water => {
                    water = water + 1;
                },
                CellType::Land => {
                    land = land + 1;
                },
                CellType::Mixed => {},
            }
        } else {
            push_children(&mut stack, cell);
        }
    }
    (water, land)
}

/// The cell is a box on the map, and so are all below it.
pub open spec fn boxes_wf(q: QuadCell) -> bool
    decreases q, 0nat,
{
    &&& q.bbox().ordered()
    &&& q.bbox().within(WORLD as int)
    &&& boxes_wf_of(q.children@, q.children@.len())
}

pub open spec fn boxes_wf_of(cells: Seq<QuadCell>, k: nat) -> bool
    decreases cells, k,
{
    if k == 0 || k > cells.len() {
        true
    } else {
        boxes_wf(cells[k - 1]) && boxes_wf_of(cells, (k - 1) as nat)
    }
}

/// The box in which land near a cell is looked for: the cell grown by a tenth of its width.
pub open spec fn margin_box(b: BBox) -> BBox {
    let eps = (b.max_lon - b.min_lon) / 10;
    BBox {
        min_lon: (b.min_lon - eps) as i64,
        min_lat: (b.min_lat - eps) as i64,
        max_lon: (b.max_lon + eps) as i64,
        max_lat: (b.max_lat + eps) as i64,
    }
}

/// Land meets the margin of a cell.
pub open spec fn touches_land(land: Multiset<BoxEntry>, b: BBox) -> bool {
    exists|e: BoxEntry| #[trigger] land.contains(e) && e.bbox.meets(margin_box(b))
}

/// The cell comes out of a pass as one leaf of water: it is one, or all four of its children
/// come out as such and none of them borders land.
pub open spec fn melts(q: QuadCell, land: Multiset<BoxEntry>) -> bool
    decreases q, 0nat,
{
    if q.children.len() == 0 {
        q.cell_type == CellType::Water
    } else {
        q.children.len() == 4 && all_melt(q.children@, 4, land)
    }
}

/// The first `k` of the cells come out as leaves of water that do not border land.
pub open spec fn all_melt(cells: Seq<QuadCell>, k: nat, land: Multiset<BoxEntry>) -> bool
    decreases cells, k,
{
    if k == 0 || k > cells.len() {
        true
    } else {
        melts(cells[k - 1], land) && !touches_land(land, cells[k - 1].bbox()) && all_melt(
            cells,
            (k - 1) as nat,
            land,
        )
    }
}

/// `after` is what one pass makes of `before`.
pub open spec fn is_coarsened(before: QuadCell, after: QuadCell, land: Multiset<BoxEntry>) -> bool
    decreases before, 0nat,
{
    &&& after.bbox() == before.bbox()
    &&& after.depth == before.depth
    &&& if before.children.len() == 0 {
        after.cell_type == before.cell_type && after.children.len() == 0
    } else if melts(before, land) {
        after.cell_type == CellType::Water && after.children.len() == 0
    } else {
        &&& after.cell_type == before.cell_type
        &&& after.children.len() == before.children.len()
        &&& are_coarsened(before.children@, after.children@, before.children@.len(), land)
    }
}

/// The first `k` cells of `after` are what one pass makes of those of `before`.
pub open spec fn are_coarsened(
    before: Seq<QuadCell>,
    after: Seq<QuadCell>,
    k: nat,
    land: Multiset<BoxEntry>,
) -> bool
    decreases before, k,
{
    if k == 0 || k > before.len() {
        true
    } else {
        is_coarsened(before[k - 1], after[k - 1], land) && are_coarsened(
            before,
            after,
            (k - 1) as nat,
            land,
        )
    }
}

/// How many cells one pass merges.
pub open spec fn merge_count(q: QuadCell, land: Multiset<BoxEntry>) -> nat
    decreases q, 0nat,
{
    if q.children.len() == 0 {
        0
    } else {
        merge_count_of(q.children@, q.children@.len(), land) + if melts(q, land) {
            1nat
        } else {
            0nat
        }
    }
}

pub open spec fn merge_count_of(cells: Seq<QuadCell>, k: nat, land: Multiset<BoxEntry>) -> nat
    decreases cells, k,
{
    if k == 0 || k > cells.len() {
        0
    } else {
        merge_count(cells[k - 1], land) + merge_count_of(cells, (k - 1) as nat, land)
    }
}

proof fn lemma_melts_is_leaf(before: QuadCell, after: QuadCell, land: Multiset<BoxEntry>)
    requires
        is_coarsened(before, after, land),
    ensures
        melts(before, land) == (after.children.len() == 0 && after.cell_type == CellType::Water),
{
}

proof fn lemma_are_coarsened(
    before: Seq<QuadCell>,
    after: Seq<QuadCell>,
    k: nat,
    land: Multiset<BoxEntry>,
    i: int,
)
    requires
        are_coarsened(before, after, k, land),
        0 <= i < k <= before.len(),
    ensures
        is_coarsened(before[i], after[i], land),
    decreases k,
{
    if i < k - 1 {
        lemma_are_coarsened(before, after, (k - 1) as nat, land, i);
    }
}

proof fn lemma_boxes_wf_of(cells: Seq<QuadCell>, k: nat, i: int)
    requires
        boxes_wf_of(cells, k),
        0 <= i < k <= cells.len(),
    ensures
        boxes_wf(cells[i]),
    decreases k,
{
    if i < k - 1 {
        lemma_boxes_wf_of(cells, (k - 1) as nat, i);
    }
}

proof fn lemma_all_melt(cells: Seq<QuadCell>, k: nat, land: Multiset<BoxEntry>, i: int)
    requires
        all_melt(cells, k, land),
        0 <= i < k <= cells.len(),
    ensures
        melts(cells[i], land),
        !touches_land(land, cells[i].bbox()),
    decreases k,
{
    if i < k - 1 {
        lemma_all_melt(cells, (k - 1) as nat, land, i);
    }
}

proof fn lemma_are_coarsened_same(
    before: Seq<QuadCell>,
    a: Seq<QuadCell>,
    b: Seq<QuadCell>,
    k: nat,
    land: Multiset<BoxEntry>,
)
    requires
        are_coarsened(before, a, k, land),
        k <= before.len(),
        k <= a.len(),
        k <= b.len(),
        forall|i: int| 0 <= i < k ==> #[trigger] a[i] == b[i],
    ensures
        are_coarsened(before, b, k, land),
    decreases k,
{
    if k > 0 {
        lemma_are_coarsened_same(before, a, b, (k - 1) as nat, land);
        assert(a[k - 1] == b[k - 1]);
    }
}

proof fn lemma_merges_bound(cells: Seq<QuadCell>, j: nat, k: nat, land: Multiset<BoxEntry>)
    requires
        j <= k <= cells.len(),
    ensures
        merge_count_of(cells, j, land) <= merge_count_of(cells, k, land),
    decreases k,
{
    if j < k {
        lemma_merges_bound(cells, j, (k - 1) as nat, land);
    }
}

/// Whether land meets the margin of a cell.
fn borders_land(cell: &QuadCell, land: &BoxIndex) -> (r: bool)
    requires
        cell.bbox().ordered(),
        cell.bbox().within(WORLD as int),
    ensures
        r == touches_land(box_items(*land), cell.bbox()),
{
    let eps: i64 = (cell.max_lon - cell.min_lon) / 10;
    let query = BBox {
        min_lon: cell.min_lon - eps,
        min_lat: cell.min_lat - eps,
        max_lon: cell.max_lon + eps,
        max_lat: cell.max_lat + eps,
    };
    let found = boxes_meeting(land, query);
    proof {
        broadcast use vstd::seq_lib::group_to_multiset_ensures;
        broadcast use vstd::multiset::group_multiset_axioms;
        let items = box_items(*land);
        if found.len() > 0 {
            let e = found@[0];
            assert(found@.contains(e));
            assert(meeting(items, query).count(e) > 0);
            assert(items.contains(e));
        }
        if touches_land(items, cell.bbox()) {
            let e = choose|e: BoxEntry| #[trigger] items.contains(e) && e.bbox.meets(query);
            assert(meeting(items, query).count(e) > 0);
            assert(found@.contains(e));
        }
    }
    found.len() > 0
}

/// Merges, from the leaves up, four leaves of water of which none borders land into one;
/// the number of merges.
pub fn coarsen_pass(cell: &mut QuadCell, land: &BoxIndex) -> (merges: u64)
    requires
        boxes_wf(*old(cell)),
        merge_count(*old(cell), box_items(*land)) <= u64::MAX,
    ensures
        is_coarsened(*old(cell), *final(cell), box_items(*land)),
        merges == merge_count(*old(cell), box_items(*land)),
    decreases *old(cell),
{
    if cell.is_leaf() {
        return 0;
    }
    let ghost items = box_items(*land);
    let ghost before = *cell;
    let ghost kids = cell.children@;
    let n = cell.children.len();
    let mut merges: u64 = 0;
    let mut i: usize = 0;
    while i < n
        invariant
            i <= n,
            n == kids.len(),
            n > 0,
            before == *old(cell),
            kids == before.children@,
            items == box_items(*land),
            boxes_wf(before),
            merge_count(before, items) <= u64::MAX,
            merges == merge_count_of(kids, i as nat, items),
            cell.children.len() == n,
            cell.bbox() == before.bbox(),
            cell.depth == before.depth,
            cell.cell_type == before.cell_type,
            are_coarsened(kids, cell.children@, i as nat, items),
            forall|k: int| i <= k < n ==> #[trigger] cell.children@[k] == kids[k],
        decreases n - i,
    {
        let ghost had = cell.children@;
        proof {
            lemma_boxes_wf_of(kids, n as nat, i as int);
            lemma_merges_bound(kids, (i + 1) as nat, n as nat, items);
            assert(had[i as int] == kids[i as int]);
            assert(decreases_to!(before => before.children));
            assert(decreases_to!(before.children => before.children@));
            assert(decreases_to!(before.children@ => before.children@[i as int]));
        }
        let m = coarsen_pass(&mut cell.children[i], land);
        merges = merges + m;
        proof {
            lemma_are_coarsened_same(kids, had, cell.children@, i as nat, items);
        }
        i = i + 1;
    }
    if n != 4 {
        return merges;
    }
    let ghost made = cell.children@;
    let mut all = true;
    let mut j: usize = 0;
    while j < 4
        invariant
            j <= 4,
            n == 4,
            kids.len() == 4,
            kids == before.children@,
            cell.children@ == made,
            made.len() == 4,
            boxes_wf(before),
            items == box_items(*land),
            are_coarsened(kids, made, 4, items),
            all == all_melt(kids, j as nat, items),
        decreases 4 - j,
    {
        let c = &cell.children[j];
        proof {
            lemma_are_coarsened(kids, made, 4, items, j as int);
            lemma_melts_is_leaf(kids[j as int], made[j as int], items);
            lemma_boxes_wf_of(kids, 4, j as int);
        }
        let fits = c.is_leaf() && c.cell_type == CellType::Water && !borders_land(c, land);
        all = fits && all;
        j = j + 1;
    }
    if all {
        cell.children = Vec::new();
        cell.cell_type = CellType::Water;
        return merges + 1;
    }
    merges
}

/// The boxes of leaves, numbered in order.
pub open spec fn leaf_boxes(list: Seq<WaterLeaf>) -> Seq<BoxEntry> {
    Seq::new(list.len(), |i: int| BoxEntry { id: i as usize, bbox: list[i].bbox() })
}

/// The leaves of land below a cell.
pub open spec fn land_boxes(q: QuadCell) -> Multiset<BoxEntry> {
    leaf_boxes(of_kind(leaves(q), CellType::Land)).to_multiset()
}

/// `after` is what at most so many passes make of `before`; the last is the first that
/// merges nothing.
pub open spec fn coarsened_by(before: QuadCell, after: QuadCell, passes: nat) -> bool
    decreases passes,
{
    exists|mid: QuadCell|
        {
            &&& #[trigger] is_coarsened(before, mid, land_boxes(before))
            &&& if passes <= 1 || merge_count(before, land_boxes(before)) == 0 {
                after == mid
            } else {
                coarsened_by(mid, after, (passes - 1) as nat)
            }
        }
}

/// How many passes are made at most.
pub const MAX_PASSES: usize = 21;

proof fn lemma_leaves_on_map(q: QuadCell)
    requires
        boxes_wf(q),
    ensures
        forall|i: int|
            0 <= i < leaves(q).len() ==> (#[trigger] leaves(q)[i]).0.wf(),
    decreases q, 0nat,
{
    if q.children.len() > 0 {
        lemma_leaves_of_on_map(q.children@, q.children@.len());
        assert(leaves(q) == leaves_of(q.children@, q.children@.len()));
    } else {
        assert(leaves(q) == seq![(leaf_of(q), q.cell_type)]);
        assert(leaf_of(q).bbox() == q.bbox());
    }
}

proof fn lemma_leaves_of_on_map(cells: Seq<QuadCell>, k: nat)
    requires
        boxes_wf_of(cells, k),
        k <= cells.len(),
    ensures
        forall|i: int|
            0 <= i < leaves_of(cells, k).len() ==> (#[trigger] leaves_of(cells, k)[i]).0.wf(),
    decreases cells, k,
{
    if k > 0 {
        lemma_leaves_on_map(cells[k - 1]);
        lemma_leaves_of_on_map(cells, (k - 1) as nat);
        let a = leaves(cells[k - 1]);
        let b = leaves_of(cells, (k - 1) as nat);
        assert(leaves_of(cells, k) == a + b);
        assert forall|i: int| 0 <= i < leaves_of(cells, k).len() implies (#[trigger] leaves_of(
            cells,
            k,
        )[i]).0.wf() by {
            if i < a.len() {
                assert((a + b)[i] == a[i]);
            } else {
                assert((a + b)[i] == b[i - a.len()]);
            }
        }
    }
}

proof fn lemma_of_kind_in(list: Seq<(WaterLeaf, CellType)>, kind: CellType, i: int)
    requires
        0 <= i < of_kind(list, kind).len(),
    ensures
        exists|j: int|
            0 <= j < list.len() && (#[trigger] list[j]) == (of_kind(list, kind)[i], kind),
    decreases list.len(),
{
    let before = of_kind(list.drop_last(), kind);
    if i < before.len() {
        lemma_of_kind_in(list.drop_last(), kind, i);
        let j = choose|j: int|
            0 <= j < list.drop_last().len() && (#[trigger] list.drop_last()[j]) == (before[i], kind);
        assert(list[j] == list.drop_last()[j]);
    } else {
        assert(list[list.len() - 1] == (of_kind(list, kind)[i], kind));
    }
}

fn index_land(root: &QuadCell) -> (index: BoxIndex)
    requires
        boxes_wf(*root),
    ensures
        box_items(index) == land_boxes(*root),
{
    let list = collect_leaves(root, CellType::Land);
    let mut entries: Vec<BoxEntry> = Vec::new();
    let mut i: usize = 0;
    proof {
        lemma_leaves_on_map(*root);
    }
    while i < list.len()
        invariant
            i <= list.len(),
            list@ == of_kind(leaves(*root), CellType::Land),
            forall|k: int|
                0 <= k < leaves(*root).len() ==> (#[trigger] leaves(*root)[k]).0.wf(),
            entries@ =~= leaf_boxes(list@).take(i as int),
            forall|k: int| 0 <= k < entries.len() ==> (#[trigger] entries[k]).bbox.ordered(),
        decreases list.len() - i,
    {
        let l = list[i];
        proof {
            lemma_of_kind_in(leaves(*root), CellType::Land, i as int);
        }
        let bbox = BBox {
            min_lon: l.min_lon,
            min_lat: l.min_lat,
            max_lon: l.max_lon,
            max_lat: l.max_lat,
        };
        assert(bbox == l.bbox());
        entries.push(BoxEntry { id: i, bbox });
        i = i + 1;
    }
    assert(entries@ =~= leaf_boxes(list@));
    load_boxes(&entries)
}

proof fn lemma_merges_are_cells(q: QuadCell, land: Multiset<BoxEntry>)
    ensures
        merge_count(q, land) <= cell_count(q),
    decreases q, 0nat,
{
    if q.children.len() > 0 {
        lemma_merges_are_cells_of(q.children@, q.children@.len(), land);
    }
}

proof fn lemma_merges_are_cells_of(cells: Seq<QuadCell>, k: nat, land: Multiset<BoxEntry>)
    requires
        k <= cells.len(),
    ensures
        merge_count_of(cells, k, land) <= cell_count_of(cells, k),
    decreases cells, k,
{
    if k > 0 {
        lemma_merges_are_cells(cells[k - 1], land);
        lemma_merges_are_cells_of(cells, (k - 1) as nat, land);
    }
}

proof fn lemma_coarsened_boxes(before: QuadCell, after: QuadCell, land: Multiset<BoxEntry>)
    requires
        is_coarsened(before, after, land),
        boxes_wf(before),
    ensures
        boxes_wf(after),
        cell_count(after) <= cell_count(before),
    decreases before, 0nat,
{
    if after.children.len() > 0 {
        lemma_coarsened_boxes_of(before.children@, after.children@, before.children@.len(), land);
    } else {
        assert(cell_count_of(after.children@, 0) == 0);
    }
}

proof fn lemma_coarsened_boxes_of(
    before: Seq<QuadCell>,
    after: Seq<QuadCell>,
    k: nat,
    land: Multiset<BoxEntry>,
)
    requires
        are_coarsened(before, after, k, land),
        boxes_wf_of(before, k),
        k <= before.len(),
        before.len() == after.len(),
    ensures
        boxes_wf_of(after, k),
        cell_count_of(after, k) <= cell_count_of(before, k),
    decreases before, k,
{
    if k > 0 {
        lemma_coarsened_boxes(before[k - 1], after[k - 1], land);
        lemma_coarsened_boxes_of(before, after, (k - 1) as nat, land);
    }
}

/// Coarsen open-water cells: merge 4 water siblings when none border land, pass after pass
/// until a pass merges nothing.
pub fn coarsen(root: &mut QuadCell)
    requires
        boxes_wf(*old(root)),
        cell_count(*old(root)) <= u64::MAX,
    ensures
        coarsened_by(*old(root), *final(root), MAX_PASSES as nat),
        boxes_wf(*final(root)),
        cell_count(*final(root)) <= cell_count(*old(root)),
{
    let mut pass: usize = 0;
    loop
        invariant
            pass < MAX_PASSES,
            boxes_wf(*root),
            cell_count(*root) <= cell_count(*old(root)) <= u64::MAX,
            forall|t: QuadCell|
                coarsened_by(*root, t, (MAX_PASSES - pass) as nat) ==> #[trigger] coarsened_by(
                    *old(root),
                    t,
                    MAX_PASSES as nat,
                ),
        decreases MAX_PASSES - pass,
    {
        pass = pass + 1;
        let ghost before = *root;
        let land = index_land(root);
        proof {
            lemma_merges_are_cells(before, land_boxes(before));
        }
        let merges = coarsen_pass(root, &land);
        proof {
            lemma_coarsened_boxes(before, *root, land_boxes(before));
        }
        if merges == 0 || pass > 20 {
            proof {
                assert(is_coarsened(before, *root, land_boxes(before)));
                assert(coarsened_by(before, *root, (MAX_PASSES - (pass - 1)) as nat));
            }
            return;
        }
        proof {
            assert forall|t: QuadCell|
                coarsened_by(*root, t, (MAX_PASSES - pass) as nat) implies #[trigger] coarsened_by(
                *old(root),
                t,
                MAX_PASSES as nat,
            ) by {
                assert(is_coarsened(before, *root, land_boxes(before)));
                assert(coarsened_by(before, t, (MAX_PASSES - (pass - 1)) as nat));
            }
        }
    }
}

/// The children of every cell are its four quarters.
pub open spec fn tiled(q: QuadCell) -> bool
    decreases q, 0nat,
{
    q.children.len() == 0 || (q.children.len() == 4 && tiled_of(q.bbox(), q.children@, 4))
}

/// The first `k` cells are the first quarters of a box, and are tiled.
pub open spec fn tiled_of(b: BBox, cells: Seq<QuadCell>, k: nat) -> bool
    decreases cells, k,
{
    if k == 0 || k > cells.len() {
        true
    } else {
        cells[k - 1].bbox() == quarter(b, k - 1) && tiled(cells[k - 1]) && tiled_of(
            b,
            cells,
            (k - 1) as nat,
        )
    }
}

/// A leaf of the kind holds the point.
pub open spec fn shows(list: Seq<(WaterLeaf, CellType)>, kind: CellType, p: Point) -> bool {
    exists|i: int| 0 <= i < list.len() && (#[trigger] list[i]).1 == kind && list[i].0.bbox().holds(p)
}

proof fn lemma_shows_join(
    a: Seq<(WaterLeaf, CellType)>,
    b: Seq<(WaterLeaf, CellType)>,
    kind: CellType,
    p: Point,
)
    ensures
        shows(a + b, kind, p) == (shows(a, kind, p) || shows(b, kind, p)),
{
    let all = a + b;
    if shows(a, kind, p) {
        let i = choose|i: int| 0 <= i < a.len() && (#[trigger] a[i]).1 == kind && a[i].0.bbox().holds(p);
        assert(all[i] == a[i]);
    }
    if shows(b, kind, p) {
        let i = choose|i: int| 0 <= i < b.len() && (#[trigger] b[i]).1 == kind && b[i].0.bbox().holds(p);
        assert(all[a.len() + i] == b[i]);
    }
    if shows(all, kind, p) {
        let i = choose|i: int|
            0 <= i < all.len() && (#[trigger] all[i]).1 == kind && all[i].0.bbox().holds(p);
        if i < a.len() {
            assert(a[i] == all[i]);
        } else {
            assert(b[i - a.len()] == all[i]);
        }
    }
}

/// What the leaves below a cell show is what those below its children show.
proof fn lemma_shows_of(cells: Seq<QuadCell>, k: nat, kind: CellType, p: Point)
    requires
        k <= cells.len(),
    ensures
        shows(leaves_of(cells, k), kind, p) == exists|i: int|
            0 <= i < k && shows(leaves(#[trigger] cells[i]), kind, p),
    decreases k,
{
    if k > 0 {
        lemma_shows_of(cells, (k - 1) as nat, kind, p);
        lemma_shows_join(leaves(cells[k - 1]), leaves_of(cells, (k - 1) as nat), kind, p);
        assert(leaves_of(cells, k) == leaves(cells[k - 1]) + leaves_of(cells, (k - 1) as nat));
        if shows(leaves(cells[k - 1]), kind, p) {
            assert(shows(leaves(cells[k - 1]), kind, p));
        }
    } else {
        assert(leaves_of(cells, 0) =~= Seq::<(WaterLeaf, CellType)>::empty());
    }
}

proof fn lemma_tiled_of(b: BBox, cells: Seq<QuadCell>, k: nat, i: int)
    requires
        tiled_of(b, cells, k),
        0 <= i < k <= cells.len(),
    ensures
        cells[i].bbox() == quarter(b, i),
        tiled(cells[i]),
    decreases k,
{
    if i < k - 1 {
        lemma_tiled_of(b, cells, (k - 1) as nat, i);
    }
}

/// The four quarters of a box cover it, and nothing else.
pub proof fn lemma_quarters(b: BBox, p: Point)
    requires
        b.ordered(),
        b.within(WORLD as int),
    ensures
        forall|k: int| 0 <= k < 4 ==> (#[trigger] quarter(b, k)).ordered() && quarter(b, k).within(
            WORLD as int,
        ) && (quarter(b, k).holds(p) ==> b.holds(p)),
        b.holds(p) ==> quarter(b, 0).holds(p) || quarter(b, 1).holds(p) || quarter(b, 2).holds(p)
            || quarter(b, 3).holds(p),
{
}

/// A cell that comes out of a pass as water shows no land, and water where it lies.
proof fn lemma_melts_shows(q: QuadCell, land: Multiset<BoxEntry>, p: Point)
    requires
        melts(q, land),
        tiled(q),
        boxes_wf(q),
    ensures
        shows(leaves(q), CellType::Water, p) == q.bbox().holds(p),
        !shows(leaves(q), CellType::Land, p),
    decreases q, 0nat,
{
    if q.children.len() == 0 {
        assert(leaves(q) =~= seq![(leaf_of(q), q.cell_type)]);
        assert(leaf_of(q).bbox() == q.bbox());
        if q.bbox().holds(p) {
            assert(leaves(q)[0].1 == CellType::Water);
        }
    } else {
        let cells = q.children@;
        assert(leaves(q) == leaves_of(cells, 4));
        lemma_shows_of(cells, 4, CellType::Water, p);
        lemma_shows_of(cells, 4, CellType::Land, p);
        lemma_quarters(q.bbox(), p);
        assert forall|i: int| 0 <= i < 4 implies {
            &&& shows(leaves(#[trigger] cells[i]), CellType::Water, p) == quarter(q.bbox(), i).holds(p)
            &&& !shows(leaves(cells[i]), CellType::Land, p)
        } by {
            lemma_all_melt(cells, 4, land, i);
            lemma_tiled_of(q.bbox(), cells, 4, i);
            lemma_boxes_wf_of(cells, 4, i);
            assert(decreases_to!(q => q.children));
            assert(decreases_to!(q.children => q.children@));
            assert(decreases_to!(q.children@ => q.children@[i]));
            lemma_melts_shows(cells[i], land, p);
        }
        if q.bbox().holds(p) {
            let k: int = if quarter(q.bbox(), 0).holds(p) {
                0
            } else if quarter(q.bbox(), 1).holds(p) {
                1
            } else if quarter(q.bbox(), 2).holds(p) {
                2
            } else {
                3
            };
            assert(shows(leaves(cells[k]), CellType::Water, p));
        }
        if shows(leaves(q), CellType::Water, p) {
            let i = choose|i: int| 0 <= i < 4 && shows(leaves(#[trigger] cells[i]), CellType::Water, p);
            assert(quarter(q.bbox(), i).holds(p));
        }
    }
}

/// One pass of coarsening keeps the water and the land: every position lies in a leaf of
/// water afterwards if and only if it did before, and so for land. The tree stays tiled.
pub proof fn lemma_coarsened_shows(before: QuadCell, after: QuadCell, land: Multiset<BoxEntry>, p: Point)
    requires
        is_coarsened(before, after, land),
        tiled(before),
        boxes_wf(before),
    ensures
        tiled(after),
        shows(leaves(after), CellType::Water, p) == shows(leaves(before), CellType::Water, p),
        shows(leaves(after), CellType::Land, p) == shows(leaves(before), CellType::Land, p),
    decreases before, 0nat,
{
    if before.children.len() == 0 {
        assert(leaves(after) =~= seq![(leaf_of(after), after.cell_type)]);
        assert(leaves(before) =~= seq![(leaf_of(before), before.cell_type)]);
        assert(leaf_of(after) == leaf_of(before)) by {
            assert(after.bbox() == before.bbox());
        }
    } else if melts(before, land) {
        lemma_melts_shows(before, land, p);
        assert(leaves(after) =~= seq![(leaf_of(after), CellType::Water)]);
        assert(leaf_of(after).bbox() == before.bbox());
        if before.bbox().holds(p) {
            assert(leaves(after)[0].1 == CellType::Water);
        }
    } else {
        let a = before.children@;
        let b = after.children@;
        assert(leaves(before) == leaves_of(a, 4));
        assert(leaves(after) == leaves_of(b, 4));
        lemma_shows_of(a, 4, CellType::Water, p);
        lemma_shows_of(a, 4, CellType::Land, p);
        lemma_shows_of(b, 4, CellType::Water, p);
        lemma_shows_of(b, 4, CellType::Land, p);
        assert forall|i: int| 0 <= i < 4 implies {
            &&& tiled(#[trigger] b[i])
            &&& b[i].bbox() == quarter(before.bbox(), i)
            &&& shows(leaves(b[i]), CellType::Water, p) == shows(leaves(a[i]), CellType::Water, p)
            &&& shows(leaves(b[i]), CellType::Land, p) == shows(leaves(a[i]), CellType::Land, p)
        } by {
            lemma_are_coarsened(a, b, 4, land, i);
            lemma_tiled_of(before.bbox(), a, 4, i);
            lemma_boxes_wf_of(a, 4, i);
            assert(decreases_to!(before => before.children));
            assert(decreases_to!(before.children => before.children@));
            assert(decreases_to!(before.children@ => before.children@[i]));
            lemma_coarsened_shows(a[i], b[i], land, p);
        }
        lemma_make_tiled(before.bbox(), b, 4);
        if shows(leaves_of(a, 4), CellType::Water, p) {
            let i = choose|i: int| 0 <= i < 4 && shows(leaves(#[trigger] a[i]), CellType::Water, p);
            assert(shows(leaves(b[i]), CellType::Water, p));
        }
        if shows(leaves_of(a, 4), CellType::Land, p) {
            let i = choose|i: int| 0 <= i < 4 && shows(leaves(#[trigger] a[i]), CellType::Land, p);
            assert(shows(leaves(b[i]), CellType::Land, p));
        }
        if shows(leaves_of(b, 4), CellType::Water, p) {
            let i = choose|i: int| 0 <= i < 4 && shows(leaves(#[trigger] b[i]), CellType::Water, p);
            assert(shows(leaves(a[i]), CellType::Water, p));
        }
        if shows(leaves_of(b, 4), CellType::Land, p) {
            let i = choose|i: int| 0 <= i < 4 && shows(leaves(#[trigger] b[i]), CellType::Land, p);
            assert(shows(leaves(a[i]), CellType::Land, p));
        }
    }
}

proof fn lemma_make_tiled(b: BBox, cells: Seq<QuadCell>, k: nat)
    requires
        k <= cells.len(),
        forall|i: int| 0 <= i < k ==> tiled(#[trigger] cells[i]) && cells[i].bbox() == quarter(b, i),
    ensures
        tiled_of(b, cells, k),
    decreases k,
{
    if k > 0 {
        lemma_make_tiled(b, cells, (k - 1) as nat);
        assert(tiled(cells[k - 1]));
    }
}

/// Coarsening keeps the water and the land.
pub proof fn lemma_coarsening_shows(before: QuadCell, after: QuadCell, passes: nat, p: Point)
    requires
        coarsened_by(before, after, passes),
        tiled(before),
        boxes_wf(before),
    ensures
        tiled(after),
        shows(leaves(after), CellType::Water, p) == shows(leaves(before), CellType::Water, p),
        shows(leaves(after), CellType::Land, p) == shows(leaves(before), CellType::Land, p),
    decreases passes,
{
    let land = land_boxes(before);
    let mid = choose|mid: QuadCell|
        {
            &&& #[trigger] is_coarsened(before, mid, land_boxes(before))
            &&& if passes <= 1 || merge_count(before, land_boxes(before)) == 0 {
                after == mid
            } else {
                coarsened_by(mid, after, (passes - 1) as nat)
            }
        };
    lemma_coarsened_shows(before, mid, land, p);
    lemma_coarsened_boxes(before, mid, land);
    if !(passes <= 1 || merge_count(before, land) == 0) {
        lemma_coarsening_shows(mid, after, (passes - 1) as nat, p);
    }
}

/// The cells are the same, and so are all below them.
pub open spec fn same_cell(a: QuadCell, b: QuadCell) -> bool
    decreases a, 0nat,
{
    &&& a.bbox() == b.bbox()
    &&& a.depth == b.depth
    &&& a.cell_type == b.cell_type
    &&& a.children.len() == b.children.len()
    &&& same_cells(a.children@, b.children@, a.children@.len())
}

/// The first `k` cells are the same.
pub open spec fn same_cells(a: Seq<QuadCell>, b: Seq<QuadCell>, k: nat) -> bool
    decreases a, k,
{
    if k == 0 || k > a.len() {
        true
    } else {
        same_cell(a[k - 1], b[k - 1]) && same_cells(a, b, (k - 1) as nat)
    }
}

/// After a pass there is nothing left to merge.
proof fn lemma_nothing_left(before: QuadCell, after: QuadCell, land: Multiset<BoxEntry>)
    requires
        is_coarsened(before, after, land),
    ensures
        merge_count(after, land) == 0,
        melts(after, land) == melts(before, land),
        after.bbox() == before.bbox(),
    decreases before, 0nat,
{
    if after.children.len() > 0 {
        let k = before.children@.len();
        lemma_nothing_left_of(before.children@, after.children@, k, land);
        assert(!melts(before, land));
    }
}

proof fn lemma_nothing_left_of(
    before: Seq<QuadCell>,
    after: Seq<QuadCell>,
    k: nat,
    land: Multiset<BoxEntry>,
)
    requires
        are_coarsened(before, after, k, land),
        k <= before.len(),
        before.len() == after.len(),
    ensures
        merge_count_of(after, k, land) == 0,
        all_melt(after, k, land) == all_melt(before, k, land),
    decreases before, k,
{
    if k > 0 {
        lemma_nothing_left(before[k - 1], after[k - 1], land);
        lemma_nothing_left_of(before, after, (k - 1) as nat, land);
    }
}

/// A pass that merges nothing changes nothing.
proof fn lemma_idle_pass(before: QuadCell, after: QuadCell, land: Multiset<BoxEntry>)
    requires
        is_coarsened(before, after, land),
        merge_count(before, land) == 0,
    ensures
        same_cell(before, after),
    decreases before, 0nat,
{
    if before.children.len() > 0 {
        lemma_idle_pass_of(before.children@, after.children@, before.children@.len(), land);
    } else {
        assert(same_cells(before.children@, after.children@, 0));
    }
}

proof fn lemma_idle_pass_of(
    before: Seq<QuadCell>,
    after: Seq<QuadCell>,
    k: nat,
    land: Multiset<BoxEntry>,
)
    requires
        are_coarsened(before, after, k, land),
        k <= before.len(),
        before.len() == after.len(),
        merge_count_of(before, k, land) == 0,
    ensures
        same_cells(before, after, k),
    decreases before, k,
{
    if k > 0 {
        lemma_idle_pass(before[k - 1], after[k - 1], land);
        lemma_idle_pass_of(before, after, (k - 1) as nat, land);
    }
}

/// What melts has no land in it.
proof fn lemma_melts_no_land(q: QuadCell, land: Multiset<BoxEntry>)
    requires
        melts(q, land),
    ensures
        of_kind(leaves(q), CellType::Land) == Seq::<WaterLeaf>::empty(),
    decreases q, 0nat,
{
    if q.children.len() == 0 {
        lemma_of_kind_one((leaf_of(q), q.cell_type), CellType::Land);
    } else {
        lemma_melts_no_land_of(q.children@, 4, land);
    }
}

proof fn lemma_melts_no_land_of(cells: Seq<QuadCell>, k: nat, land: Multiset<BoxEntry>)
    requires
        all_melt(cells, k, land),
        k <= cells.len(),
    ensures
        of_kind(leaves_of(cells, k), CellType::Land) == Seq::<WaterLeaf>::empty(),
    decreases cells, k,
{
    if k > 0 {
        lemma_melts_no_land(cells[k - 1], land);
        lemma_melts_no_land_of(cells, (k - 1) as nat, land);
        lemma_of_kind_join(leaves(cells[k - 1]), leaves_of(cells, (k - 1) as nat), CellType::Land);
        assert(of_kind(leaves_of(cells, k), CellType::Land) =~= Seq::<WaterLeaf>::empty());
    }
}

/// A pass keeps the leaves of land.
proof fn lemma_land_kept(before: QuadCell, after: QuadCell, land: Multiset<BoxEntry>)
    requires
        is_coarsened(before, after, land),
    ensures
        of_kind(leaves(after), CellType::Land) == of_kind(leaves(before), CellType::Land),
    decreases before, 0nat,
{
    if before.children.len() == 0 {
        assert(leaf_of(after) == leaf_of(before));
    } else if melts(before, land) {
        lemma_melts_no_land(before, land);
        lemma_of_kind_one((leaf_of(after), after.cell_type), CellType::Land);
    } else {
        lemma_land_kept_of(before.children@, after.children@, before.children@.len(), land);
    }
}

proof fn lemma_land_kept_of(
    before: Seq<QuadCell>,
    after: Seq<QuadCell>,
    k: nat,
    land: Multiset<BoxEntry>,
)
    requires
        are_coarsened(before, after, k, land),
        k <= before.len(),
        before.len() == after.len(),
    ensures
        of_kind(leaves_of(after, k), CellType::Land) == of_kind(leaves_of(before, k), CellType::Land),
    decreases before, k,
{
    if k > 0 {
        lemma_land_kept(before[k - 1], after[k - 1], land);
        lemma_land_kept_of(before, after, (k - 1) as nat, land);
        lemma_of_kind_join(leaves(before[k - 1]), leaves_of(before, (k - 1) as nat), CellType::Land);
        lemma_of_kind_join(leaves(after[k - 1]), leaves_of(after, (k - 1) as nat), CellType::Land);
    }
}

/// What coarsening made came of a last pass.
proof fn lemma_last_pass(before: QuadCell, after: QuadCell, passes: nat) -> (last: QuadCell)
    requires
        coarsened_by(before, after, passes),
    ensures
        is_coarsened(last, after, land_boxes(last)),
    decreases passes,
{
    let mid = choose|mid: QuadCell|
        {
            &&& #[trigger] is_coarsened(before, mid, land_boxes(before))
            &&& if passes <= 1 || merge_count(before, land_boxes(before)) == 0 {
                after == mid
            } else {
                coarsened_by(mid, after, (passes - 1) as nat)
            }
        };
    if passes <= 1 || merge_count(before, land_boxes(before)) == 0 {
        before
    } else {
        lemma_last_pass(mid, after, (passes - 1) as nat)
    }
}

/// Coarsening a second time changes nothing.
pub proof fn lemma_coarsen_once(before: QuadCell, once: QuadCell, twice: QuadCell, passes: nat, more: nat)
    requires
        coarsened_by(before, once, passes),
        coarsened_by(once, twice, more),
    ensures
        same_cell(once, twice),
{
    let last = lemma_last_pass(before, once, passes);
    lemma_land_kept(last, once, land_boxes(last));
    lemma_nothing_left(last, once, land_boxes(last));
    let land = land_boxes(once);
    assert(merge_count(once, land) == 0);
    let mid = choose|mid: QuadCell|
        {
            &&& #[trigger] is_coarsened(once, mid, land_boxes(once))
            &&& if more <= 1 || merge_count(once, land_boxes(once)) == 0 {
                twice == mid
            } else {
                coarsened_by(mid, twice, (more - 1) as nat)
            }
        };
    lemma_idle_pass(once, mid, land);
}

/// The tree that is built tiles the map, every position of it lies in a leaf of water or of
/// land, and no leaf is mixed or deeper than allowed.
pub proof fn lemma_tree_tiles(q: QuadCell, c: LandClassifier, b: BBox, depth: int, max_depth: int, p: Point)
    requires
        is_tree(q, c, b, depth, max_depth),
        b.ordered(),
        b.within(WORLD as int),
        depth <= max_depth,
    ensures
        tiled(q),
        boxes_wf(q),
        b.holds(p) ==> shows(leaves(q), CellType::Water, p) || shows(leaves(q), CellType::Land, p),
        !shows(leaves(q), CellType::Mixed, p),
        forall|i: int| 0 <= i < leaves(q).len() ==> (#[trigger] leaves(q)[i]).0.depth <= max_depth,
    decreases max_depth - depth,
{
    if q.children.len() == 0 {
        assert(leaves(q) =~= seq![(leaf_of(q), q.cell_type)]);
        assert(leaf_of(q).bbox() == q.bbox());
        assert(leaves(q)[0] == (leaf_of(q), q.cell_type));
    } else {
        let cells = q.children@;
        assert(leaves(q) == leaves_of(cells, 4));
        lemma_quarters(b, p);
        lemma_shows_of(cells, 4, CellType::Water, p);
        lemma_shows_of(cells, 4, CellType::Land, p);
        lemma_shows_of(cells, 4, CellType::Mixed, p);
        assert(is_tree(cells[0], c, quarter(b, 0), depth + 1, max_depth));
        assert(is_tree(cells[1], c, quarter(b, 1), depth + 1, max_depth));
        assert(is_tree(cells[2], c, quarter(b, 2), depth + 1, max_depth));
        assert(is_tree(cells[3], c, quarter(b, 3), depth + 1, max_depth));
        assert forall|i: int| 0 <= i < 4 implies {
            &&& tiled(#[trigger] cells[i])
            &&& boxes_wf(cells[i])
            &&& cells[i].bbox() == quarter(b, i)
            &&& quarter(b, i).holds(p) ==> shows(leaves(cells[i]), CellType::Water, p) || shows(
                leaves(cells[i]),
                CellType::Land,
                p,
            )
            &&& !shows(leaves(cells[i]), CellType::Mixed, p)
            &&& forall|j: int|
                0 <= j < leaves(cells[i]).len() ==> (#[trigger] leaves(cells[i])[j]).0.depth
                    <= max_depth
        } by {
            assert(is_tree(cells[i], c, quarter(b, i), depth + 1, max_depth));
            lemma_tree_tiles(cells[i], c, quarter(b, i), depth + 1, max_depth, p);
        }
        lemma_make_tiled(b, cells, 4);
        lemma_make_boxes(cells, 4);
        lemma_depths_of(cells, 4, max_depth);
        if b.holds(p) {
            let k: int = if quarter(b, 0).holds(p) {
                0
            } else if quarter(b, 1).holds(p) {
                1
            } else if quarter(b, 2).holds(p) {
                2
            } else {
                3
            };
            assert(quarter(b, k).holds(p));
            assert(tiled(cells[k]));
        }
    }
}

proof fn lemma_make_boxes(cells: Seq<QuadCell>, k: nat)
    requires
        k <= cells.len(),
        forall|i: int| 0 <= i < k ==> boxes_wf(#[trigger] cells[i]),
    ensures
        boxes_wf_of(cells, k),
    decreases k,
{
    if k > 0 {
        lemma_make_boxes(cells, (k - 1) as nat);
        assert(boxes_wf(cells[k - 1]));
    }
}

proof fn lemma_depths_of(cells: Seq<QuadCell>, k: nat, max_depth: int)
    requires
        k <= cells.len(),
        forall|i: int|
            0 <= i < k ==> forall|j: int|
                0 <= j < leaves(#[trigger] cells[i]).len() ==> (#[trigger] leaves(cells[i])[j]).0.depth
                    <= max_depth,
    ensures
        forall|j: int|
            0 <= j < leaves_of(cells, k).len() ==> (#[trigger] leaves_of(cells, k)[j]).0.depth
                <= max_depth,
    decreases k,
{
    if k > 0 {
        lemma_depths_of(cells, (k - 1) as nat, max_depth);
        let a = leaves(cells[k - 1]);
        let b = leaves_of(cells, (k - 1) as nat);
        assert(leaves_of(cells, k) == a + b);
        assert forall|j: int| 0 <= j < leaves_of(cells, k).len() implies (#[trigger] leaves_of(
            cells,
            k,
        )[j]).0.depth <= max_depth by {
            if j < a.len() {
                assert((a + b)[j] == a[j]);
                assert(leaves(cells[k - 1])[j].0.depth <= max_depth);
            } else {
                assert((a + b)[j] == b[j - a.len()]);
            }
        }
    }
}

/// The water leaves of a tree on the map are boxes on the map.
pub proof fn lemma_water_leaves_wf(q: QuadCell, i: int)
    requires
        boxes_wf(q),
        0 <= i < of_kind(leaves(q), CellType::Water).len(),
    ensures
        of_kind(leaves(q), CellType::Water)[i].wf(),
{
    lemma_of_kind_in(leaves(q), CellType::Water, i);
    lemma_leaves_on_map(q);
}

/// Every leaf of the tree that is built is what its own samples say, and at the greatest depth,
/// where they may disagree, what its middle is.
pub proof fn lemma_leaf_is_classified(
    q: QuadCell,
    c: LandClassifier,
    b: BBox,
    depth: int,
    max_depth: int,
    i: int,
)
    requires
        is_tree(q, c, b, depth, max_depth),
        b.ordered(),
        b.within(WORLD as int),
        0 <= i < leaves(q).len(),
    ensures
        ({
            let l = leaves(q)[i].0;
            let t = leaves(q)[i].1;
            let k = kind(c, l.bbox());
            &&& t == CellType::Water || t == CellType::Land
            &&& l.depth < max_depth ==> k == t
            &&& k == t || k == CellType::Mixed
            &&& b.min_lon <= l.min_lon <= l.max_lon <= b.max_lon
            &&& b.min_lat <= l.min_lat <= l.max_lat <= b.max_lat
            &&& k == CellType::Mixed ==> forall|p: Point|
                0 <= l.min_lon + l.max_lon - 2 * p.lon <= 1 && 0 <= l.min_lat + l.max_lat - 2 * p.lat <= 1
                    ==> (t == CellType::Land) == #[trigger] land_in_cell(c, l.max_lon - l.min_lon, p)
        }),
    decreases max_depth - depth,
{
    if q.children.len() == 0 {
        assert(leaves(q) =~= seq![(leaf_of(q), q.cell_type)]);
        assert(leaf_of(q).bbox() == q.bbox());
        if kind(c, b) == CellType::Mixed {
            assert forall|p: Point|
                0 <= b.min_lon + b.max_lon - 2 * p.lon <= 1 && 0 <= b.min_lat + b.max_lat - 2 * p.lat
                    <= 1 implies (q.cell_type == CellType::Land) == #[trigger] land_in_cell(
                c,
                b.max_lon - b.min_lon,
                p,
            ) by {
                assert(p == middle(b));
            }
        }
    } else {
        let cells = q.children@;
        let a3 = leaves(cells[3]);
        let a2 = leaves(cells[2]);
        let a1 = leaves(cells[1]);
        let a0 = leaves(cells[0]);
        assert(leaves(q) == leaves_of(cells, 4));
        assert(leaves_of(cells, 4) == a3 + leaves_of(cells, 3));
        assert(leaves_of(cells, 3) == a2 + leaves_of(cells, 2));
        assert(leaves_of(cells, 2) == a1 + leaves_of(cells, 1));
        assert(leaves_of(cells, 1) == a0 + leaves_of(cells, 0));
        assert(leaves_of(cells, 0).len() == 0);
        lemma_quarters(b, middle(b));
        assert(quarter(b, 0).ordered() && quarter(b, 1).ordered() && quarter(b, 2).ordered() && quarter(
            b,
            3,
        ).ordered());
        let n3 = a3.len();
        let n2 = n3 + a2.len();
        let n1 = n2 + a1.len();
        if i < n3 {
            assert(leaves(q)[i] == a3[i]);
            lemma_leaf_is_classified(cells[3], c, quarter(b, 3), depth + 1, max_depth, i);
        } else if i < n2 {
            assert(leaves(q)[i] == a2[i - n3]);
            lemma_leaf_is_classified(cells[2], c, quarter(b, 2), depth + 1, max_depth, i - n3);
        } else if i < n1 {
            assert(leaves(q)[i] == a1[i - n2]);
            lemma_leaf_is_classified(cells[1], c, quarter(b, 1), depth + 1, max_depth, i - n2);
        } else {
            assert(leaves(q)[i] == a0[i - n1]);
            lemma_leaf_is_classified(cells[0], c, quarter(b, 0), depth + 1, max_depth, i - n1);
        }
    }
}

/// The quarters of a cell do not overlap: a position inside one is in no other.
pub proof fn lemma_quarters_apart(b: BBox, j: int, k: int, p: Point)
    requires
        b.ordered(),
        b.within(WORLD as int),
        0 <= j < 4,
        0 <= k < 4,
        j != k,
        quarter(b, j).min_lon < p.lon < quarter(b, j).max_lon,
        quarter(b, j).min_lat < p.lat < quarter(b, j).max_lat,
    ensures
        !quarter(b, k).holds(p),
{
}

/// A leaf of land in the list comes within a tenth of the width of a box of it.
pub open spec fn land_beside(list: Seq<(WaterLeaf, CellType)>, b: BBox) -> bool {
    exists|j: int|
        0 <= j < list.len() && (#[trigger] list[j]).1 == CellType::Land && {
            let w = (b.max_lon - b.min_lon) / 10;
            &&& list[j].0.min_lon <= b.max_lon + w
            &&& b.min_lon - w <= list[j].0.max_lon
            &&& list[j].0.min_lat <= b.max_lat + w
            &&& b.min_lat - w <= list[j].0.max_lat
        }
}

proof fn lemma_of_kind_has(list: Seq<(WaterLeaf, CellType)>, kind: CellType, j: int)
    requires
        0 <= j < list.len(),
        list[j].1 == kind,
    ensures
        of_kind(list, kind).contains(list[j].0),
    decreases list.len(),
{
    let before = of_kind(list.drop_last(), kind);
    let all = of_kind(list, kind);
    if j == list.len() - 1 {
        assert(all[before.len() as int] == list[j].0);
    } else {
        lemma_of_kind_has(list.drop_last(), kind, j);
        let k = choose|k: int| 0 <= k < before.len() && before[k] == list.drop_last()[j].0;
        assert(all[k] == list[j].0);
    }
}

proof fn lemma_touches_is_beside(q: QuadCell, b: BBox)
    requires
        b.ordered(),
        b.within(WORLD as int),
    ensures
        touches_land(land_boxes(q), b) == land_beside(leaves(q), b),
{
    broadcast use vstd::seq_lib::group_to_multiset_ensures;

    let list = leaves(q);
    let land = of_kind(list, CellType::Land);
    let entries = leaf_boxes(land);
    let m = margin_box(b);
    if touches_land(land_boxes(q), b) {
        let e = choose|e: BoxEntry| #[trigger] land_boxes(q).contains(e) && e.bbox.meets(m);
        assert(entries.contains(e));
        let i = choose|i: int| 0 <= i < entries.len() && entries[i] == e;
        lemma_of_kind_in(list, CellType::Land, i);
        let j = choose|j: int| 0 <= j < list.len() && (#[trigger] list[j]) == (land[i], CellType::Land);
        assert(list[j].1 == CellType::Land);
    }
    if land_beside(list, b) {
        let j = choose|j: int|
            0 <= j < list.len() && (#[trigger] list[j]).1 == CellType::Land && {
                let w = (b.max_lon - b.min_lon) / 10;
                &&& list[j].0.min_lon <= b.max_lon + w
                &&& b.min_lon - w <= list[j].0.max_lon
                &&& list[j].0.min_lat <= b.max_lat + w
                &&& b.min_lat - w <= list[j].0.max_lat
            };
        lemma_of_kind_has(list, CellType::Land, j);
        let i = choose|i: int| 0 <= i < land.len() && land[i] == list[j].0;
        let e = entries[i];
        assert(entries.contains(e));
        assert(land_boxes(q).contains(e));
        assert(e.bbox.meets(m));
    }
}

/// None of the four quarters of a leaf has a leaf of land beside it.
pub open spec fn keeps_off_land(list: Seq<(WaterLeaf, CellType)>, l: WaterLeaf) -> bool {
    forall|k: int| 0 <= k < 4 ==> !land_beside(list, #[trigger] quarter(l.bbox(), k))
}

proof fn lemma_pass_keeps_off(before: QuadCell, after: QuadCell, root: QuadCell, i: int)
    requires
        is_coarsened(before, after, land_boxes(root)),
        tiled(before),
        boxes_wf(before),
        0 <= i < leaves(after).len(),
    ensures
        leaves(before).contains(leaves(after)[i]) || (leaves(after)[i].1 == CellType::Water && keeps_off_land(
            leaves(root),
            leaves(after)[i].0,
        )),
    decreases before, 0nat,
{
    let land = land_boxes(root);
    if before.children.len() == 0 {
        assert(leaves(after) =~= leaves(before));
        assert(leaves(before)[i] == leaves(after)[i]);
    } else if melts(before, land) {
        assert(leaves(after) =~= seq![(leaf_of(after), after.cell_type)]);
        let l = leaf_of(after);
        assert(l.bbox() == before.bbox());
        assert forall|k: int| 0 <= k < 4 implies !land_beside(leaves(root), #[trigger] quarter(l.bbox(), k)) by {
            lemma_all_melt(before.children@, 4, land, k);
            lemma_tiled_of(before.bbox(), before.children@, 4, k);
            lemma_boxes_wf_of(before.children@, 4, k);
            lemma_touches_is_beside(root, before.children@[k].bbox());
        }
    } else {
        lemma_pass_keeps_off_of(before, before.children@, after.children@, 4, root, i);
        assert(leaves(before) == leaves_of(before.children@, 4));
    }
}

proof fn lemma_pass_keeps_off_of(
    parent: QuadCell,
    before: Seq<QuadCell>,
    after: Seq<QuadCell>,
    k: nat,
    root: QuadCell,
    i: int,
)
    requires
        before == parent.children@,
        are_coarsened(before, after, 4, land_boxes(root)),
        tiled_of(parent.bbox(), before, 4),
        boxes_wf_of(before, 4),
        before.len() == 4,
        after.len() == 4,
        k <= 4,
        0 <= i < leaves_of(after, k).len(),
    ensures
        leaves_of(before, k).contains(leaves_of(after, k)[i]) || (leaves_of(after, k)[i].1 == CellType::Water
            && keeps_off_land(leaves(root), leaves_of(after, k)[i].0)),
    decreases before, k,
{
    let a = leaves(after[k - 1]);
    let b = leaves_of(after, (k - 1) as nat);
    let x = leaves_of(after, k)[i];
    assert(leaves_of(after, k) == a + b);
    let c = leaves(before[k - 1]);
    let d = leaves_of(before, (k - 1) as nat);
    assert(leaves_of(before, k) == c + d);
    if i < a.len() {
        lemma_are_coarsened(before, after, 4, land_boxes(root), k - 1);
        lemma_tiled_of(parent.bbox(), before, 4, k - 1);
        lemma_boxes_wf_of(before, 4, k - 1);
        lemma_pass_keeps_off(before[k - 1], after[k - 1], root, i);
        if c.contains(x) {
            let j = choose|j: int| 0 <= j < c.len() && c[j] == x;
            assert((c + d)[j] == x);
        }
    } else {
        lemma_pass_keeps_off_of(parent, before, after, (k - 1) as nat, root, i - a.len());
        assert(b[i - a.len()] == x);
        if d.contains(x) {
            let j = choose|j: int| 0 <= j < d.len() && d[j] == x;
            assert((c + d)[c.len() + j] == x);
        }
    }
}

/// Coarsening keeps detail along coasts: every leaf afterwards was a leaf before, or is water none
/// of whose four quarters has a leaf of land within a tenth of its width.
pub proof fn lemma_merged_water_keeps_off_land(before: QuadCell, after: QuadCell, passes: nat, i: int)
    requires
        coarsened_by(before, after, passes),
        tiled(before),
        boxes_wf(before),
        0 <= i < leaves(after).len(),
    ensures
        leaves(before).contains(leaves(after)[i]) || (leaves(after)[i].1 == CellType::Water && keeps_off_land(
            leaves(before),
            leaves(after)[i].0,
        )),
    decreases passes,
{
    let land = land_boxes(before);
    let mid = choose|mid: QuadCell|
        {
            &&& #[trigger] is_coarsened(before, mid, land_boxes(before))
            &&& if passes <= 1 || merge_count(before, land_boxes(before)) == 0 {
                after == mid
            } else {
                coarsened_by(mid, after, (passes - 1) as nat)
            }
        };
    if passes <= 1 || merge_count(before, land) == 0 {
        lemma_pass_keeps_off(before, after, before, i);
    } else {
        lemma_coarsened_shows(before, mid, land, Point { lon: 0, lat: 0 });
        lemma_coarsened_boxes(before, mid, land);
        lemma_merged_water_keeps_off_land(mid, after, (passes - 1) as nat, i);
        lemma_land_kept(before, mid, land);
        let x = leaves(after)[i];
        if leaves(mid).contains(x) {
            let j = choose|j: int| 0 <= j < leaves(mid).len() && leaves(mid)[j] == x;
            lemma_pass_keeps_off(before, mid, before, j);
        } else {
            assert forall|k: int| 0 <= k < 4 implies !land_beside(
                leaves(before),
                #[trigger] quarter(x.0.bbox(), k),
            ) by {
                let b = quarter(x.0.bbox(), k);
                assert(!land_beside(leaves(mid), b));
                if land_beside(leaves(before), b) {
                    lemma_same_land(before, mid, b);
                }
            }
        }
    }
}

proof fn lemma_same_land(a: QuadCell, b: QuadCell, x: BBox)
    requires
        of_kind(leaves(a), CellType::Land) == of_kind(leaves(b), CellType::Land),
        land_beside(leaves(a), x),
    ensures
        land_beside(leaves(b), x),
{
    let list = leaves(a);
    let j = choose|j: int|
        0 <= j < list.len() && (#[trigger] list[j]).1 == CellType::Land && {
            let w = (x.max_lon - x.min_lon) / 10;
            &&& list[j].0.min_lon <= x.max_lon + w
            &&& x.min_lon - w <= list[j].0.max_lon
            &&& list[j].0.min_lat <= x.max_lat + w
            &&& x.min_lat - w <= list[j].0.max_lat
        };
    lemma_of_kind_has(list, CellType::Land, j);
    let land = of_kind(leaves(b), CellType::Land);
    let i = choose|i: int| 0 <= i < land.len() && land[i] == list[j].0;
    lemma_of_kind_in(leaves(b), CellType::Land, i);
    let m = choose|m: int| 0 <= m < leaves(b).len() && (#[trigger] leaves(b)[m]) == (land[i], CellType::Land);
    assert(leaves(b)[m].1 == CellType::Land);
}

/// No cell of the tree has four leaves of water below it none of which has land beside it.
pub open spec fn open_water_merged(q: QuadCell, list: Seq<(WaterLeaf, CellType)>) -> bool
    decreases q, 0nat,
{
    &&& open_water_merged_of(q.children@, q.children@.len(), list)
    &&& q.children.len() == 4 && (forall|k: int|
        0 <= k < 4 ==> (#[trigger] q.children[k]).children.len() == 0 && q.children[k].cell_type
            == CellType::Water) ==> exists|k: int|
        0 <= k < 4 && land_beside(list, (#[trigger] q.children[k]).bbox())
}

pub open spec fn open_water_merged_of(cells: Seq<QuadCell>, k: nat, list: Seq<(WaterLeaf, CellType)>) -> bool
    decreases cells, k,
{
    if k == 0 || k > cells.len() {
        true
    } else {
        open_water_merged(cells[k - 1], list) && open_water_merged_of(cells, (k - 1) as nat, list)
    }
}

proof fn lemma_none_left(q: QuadCell, root: QuadCell)
    requires
        merge_count(q, land_boxes(root)) == 0,
        boxes_wf(q),
    ensures
        open_water_merged(q, leaves(root)),
    decreases q, 0nat,
{
    let land = land_boxes(root);
    if q.children.len() > 0 {
        lemma_none_left_of(q, q.children@, q.children@.len(), root);
        assert(!melts(q, land));
        if q.children.len() == 4 && (forall|k: int|
            0 <= k < 4 ==> (#[trigger] q.children[k]).children.len() == 0 && q.children[k].cell_type
                == CellType::Water) {
            let cells = q.children@;
            assert(all_melt(cells, 0, land));
            if forall|k: int| 0 <= k < 4 ==> !land_beside(leaves(root), (#[trigger] q.children[k]).bbox()) {
                assert forall|k: int| 0 <= k < 4 implies melts(#[trigger] cells[k], land) && !touches_land(
                    land,
                    cells[k].bbox(),
                ) by {
                    assert(q.children[k].children.len() == 0);
                    lemma_boxes_wf_of(cells, 4, k);
                    lemma_touches_is_beside(root, cells[k].bbox());
                }
                assert(melts(cells[0], land) && melts(cells[1], land) && melts(cells[2], land) && melts(
                    cells[3],
                    land,
                ));
                assert(all_melt(cells, 1, land));
                assert(all_melt(cells, 2, land));
                assert(all_melt(cells, 3, land));
                assert(all_melt(cells, 4, land));
            }
        }
    }
}

proof fn lemma_none_left_of(parent: QuadCell, cells: Seq<QuadCell>, k: nat, root: QuadCell)
    requires
        cells == parent.children@,
        merge_count_of(cells, k, land_boxes(root)) == 0,
        boxes_wf_of(cells, k),
        k <= cells.len(),
    ensures
        open_water_merged_of(cells, k, leaves(root)),
    decreases cells, k,
{
    if k > 0 {
        lemma_none_left(cells[k - 1], root);
        lemma_none_left_of(parent, cells, (k - 1) as nat, root);
    }
}

/// Coarsening merges all the open water there is: afterwards no cell has four leaves of water below
/// it none of which has a leaf of land within a tenth of its width.
pub proof fn lemma_open_water_is_merged(before: QuadCell, after: QuadCell, passes: nat)
    requires
        coarsened_by(before, after, passes),
        boxes_wf(after),
    ensures
        open_water_merged(after, leaves(after)),
{
    let last = lemma_last_pass(before, after, passes);
    lemma_land_kept(last, after, land_boxes(last));
    lemma_nothing_left(last, after, land_boxes(last));
    lemma_none_left(after, after);
}

/// The tree covers the whole globe, and each quarter of a cell has half of its width and height, but
/// for a unit of rounding.
pub proof fn lemma_quarters_are_halves(b: BBox, k: int)
    requires
        b.ordered(),
        b.within(WORLD as int),
        0 <= k < 4,
    ensures
        globe().min_lon == -180 * DEGREE,
        globe().max_lon == 180 * DEGREE,
        globe().min_lat == -90 * DEGREE,
        globe().max_lat == 90 * DEGREE,
        ({
            let q = quarter(b, k);
            &&& -1 <= 2 * (q.max_lon - q.min_lon) - (b.max_lon - b.min_lon) <= 1
            &&& -1 <= 2 * (q.max_lat - q.min_lat) - (b.max_lat - b.min_lat) <= 1
        }),
{
}

/// Coarsening keeps the cells on the map.
pub proof fn lemma_coarsening_boxes(before: QuadCell, after: QuadCell, passes: nat)
    requires
        coarsened_by(before, after, passes),
        boxes_wf(before),
    ensures
        boxes_wf(after),
    decreases passes,
{
    let land = land_boxes(before);
    let mid = choose|mid: QuadCell|
        {
            &&& #[trigger] is_coarsened(before, mid, land_boxes(before))
            &&& if passes <= 1 || merge_count(before, land_boxes(before)) == 0 {
                after == mid
            } else {
                coarsened_by(mid, after, (passes - 1) as nat)
            }
        };
    lemma_coarsened_boxes(before, mid, land);
    if !(passes <= 1 || merge_count(before, land) == 0) {
        lemma_coarsening_boxes(mid, after, (passes - 1) as nat);
    }
}

} // verus!
