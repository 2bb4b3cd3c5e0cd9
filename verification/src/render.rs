//! Terminal rendering of the forest as ASCII art: each tree is a vertical trunk
//! (`|`) topped by a leaf (`.`) with a row of leaves (`.`) below it, merge nodes
//! are `*`, and coloured cells carry 24-bit colour escape sequences.
//!
//! Positions in the layout are fractions of the screen in thousandths.

use vstd::prelude::*;
use crate::color::{assign_author_colors, author_palette, lemma_author_palette};
use crate::decimal::{dec_nat, push_decimal};
use crate::inspect::{author_color, author_color_or};
use crate::strmap::{StrMap, lookup};
use crate::text::{push_char, push_str};
use crate::types::{Forest, Tree};

verus! {

/// Where the trees and merge nodes of a forest stand on the screen.
pub struct LayoutResult {
    /// Horizontal centre of each tree, in thousandths of the screen width.
    pub tree_centers: Vec<u32>,
    /// Position of each merge node by id, in thousandths of the screen width and height.
    pub merge_positions: StrMap<(u32, u32)>,
    /// Position of each commit by id, in hundredths of the picture width and height.
    pub node_positions: StrMap<(u32, u32)>,
}

/// One write to the character grid: row, column, character and colour.
pub type GridWrite = (int, int, char, (u8, u8, u8));

/// The cell at row `y`, column `x` after the writes: the last write there, or a
/// blank without colour.
pub open spec fn cell_at(ws: Seq<GridWrite>, y: int, x: int) -> (char, Option<(u8, u8, u8)>)
    decreases ws.len(),
{
    if ws.len() == 0 {
        (' ', None)
    } else if ws.last().0 == y && ws.last().1 == x {
        (ws.last().2, Some(ws.last().3))
    } else {
        cell_at(ws.drop_last(), y, x)
    }
}

/// The first position of a tree with root `root`.
pub open spec fn root_position(trees: Seq<Tree>, root: Seq<char>) -> int
    decreases trees.len(),
{
    if trees.len() == 0 {
        0
    } else if trees[0].root@ == root {
        0
    } else {
        1 + root_position(trees.drop_first(), root)
    }
}

/// The centre of the tree at layout position `p`; the middle of the screen when
/// the layout has none.
pub open spec fn center_at(centers: Seq<u32>, p: int) -> int {
    if 0 <= p < centers.len() { centers[p] as int } else { 500 }
}

/// The trunk writes: rows `ts` to `te` of column `x`.
pub open spec fn trunk_writes(x: int, ts: int, te: int, c: (u8, u8, u8)) -> Seq<GridWrite> {
    Seq::new((te - ts + 1) as nat, |k: int| (ts + k, x, '|', c))
}

/// The leaf writes below the trunk: `lc` leaves centred on column `x`, on rows
/// alternating between `te + 1` and `te + 2`, each only when it is on the screen.
pub open spec fn leaf_writes(x: int, te: int, lc: int, n: nat, c: (u8, u8, u8), w: int, h: int) -> Seq<GridWrite>
    decreases n,
{
    if n == 0 {
        Seq::empty()
    } else {
        let i = n - 1;
        let lx = x + i - lc / 2;
        let ly = te + 1 + i % 2;
        leaf_writes(x, te, lc, (n - 1) as nat, c, w, h) + (if 0 <= lx < w && ly < h { seq![(ly, lx, '.', c)] } else { Seq::empty() })
    }
}

/// The number of leaves of a tree with `commits` commits among `trees` trees:
/// `min(5 * commits / trees, 5) + 1`.
pub open spec fn leaf_count(commits: int, trees: int) -> int {
    let t = if trees > 1 { trees } else { 1 };
    let d = 5 * commits / t;
    (if d > 5 { 5 } else { d }) + 1
}

/// The writes that draw tree `t`.
pub open spec fn tree_writes(forest: &Forest, layout: &LayoutResult, t: int, w: int, h: int) -> Seq<GridWrite> {
    let tree = forest.trees@[t];
    if tree.commits@.len() == 0 {
        Seq::empty()
    } else {
        let c = author_color_or(author_palette(forest), tree.author@, (200, 200, 200));
        let center = center_at(layout.tree_centers@, root_position(forest.trees@, tree.root@));
        let x = center * (w - 1) / 1000;
        let ts = h / 10;
        let te = 4 * h / 5;
        let top = if ts >= 1 { ts - 1 } else { 0 };
        (if x < w && h > 0 { trunk_writes(x, ts, te, c) } else { Seq::empty() })
            + (if x < w && top < h { seq![(top, x, '.', c)] } else { Seq::empty() })
            + leaf_writes(x, te, leaf_count(tree.commits@.len() as int, forest.trees@.len() as int), leaf_count(tree.commits@.len() as int, forest.trees@.len() as int) as nat, c, w, h)
    }
}

/// The writes of the first `n` trees.
pub open spec fn trees_writes(forest: &Forest, layout: &LayoutResult, n: nat, w: int, h: int) -> Seq<GridWrite>
    decreases n,
{
    if n == 0 {
        Seq::empty()
    } else {
        trees_writes(forest, layout, (n - 1) as nat, w, h) + tree_writes(forest, layout, n - 1, w, h)
    }
}

/// The colour of merge nodes: gold.
pub open spec fn merge_gold() -> (u8, u8, u8) {
    (255, 215, 0)
}

/// The write of the `k`-th merge node, when the layout places it on the screen.
pub open spec fn merge_write(forest: &Forest, layout: &LayoutResult, k: int, w: int, h: int) -> Seq<GridWrite> {
    match lookup(layout.merge_positions@, forest.merge_nodes@[k].id@) {
        Some(pos) => {
            let x = pos.0 * (w - 1) / 1000;
            let y = pos.1 * (h - 1) / 1000;
            if w > 0 && h > 0 && y < h && x < w { seq![(y, x, '*', merge_gold())] } else { Seq::empty() }
        },
        None => Seq::empty(),
    }
}

/// The writes of the first `n` merge nodes.
pub open spec fn merges_writes(forest: &Forest, layout: &LayoutResult, n: nat, w: int, h: int) -> Seq<GridWrite>
    decreases n,
{
    if n == 0 {
        Seq::empty()
    } else {
        merges_writes(forest, layout, (n - 1) as nat, w, h) + merge_write(forest, layout, n - 1, w, h)
    }
}

/// All writes: the trees in order, then the merge nodes in order.
pub open spec fn all_writes(forest: &Forest, layout: &LayoutResult, w: int, h: int) -> Seq<GridWrite> {
    trees_writes(forest, layout, forest.trees@.len(), w, h) + merges_writes(forest, layout, forest.merge_nodes@.len(), w, h)
}

/// The text of one cell: a coloured cell is wrapped in its colour sequence and a reset.
pub open spec fn cell_text(cell: (char, Option<(u8, u8, u8)>)) -> Seq<char> {
    match cell.1 {
        Some(c) => "\x1b[38;2;"@ + dec_nat(c.0 as nat) + ";"@ + dec_nat(c.1 as nat) + ";"@ + dec_nat(c.2 as nat) + "m"@
            + seq![cell.0] + "\x1b[0m"@,
        None => seq![cell.0],
    }
}

/// The first `n` cells of row `y`.
pub open spec fn row_text(ws: Seq<GridWrite>, y: int, n: nat) -> Seq<char>
    decreases n,
{
    if n == 0 {
        Seq::empty()
    } else {
        row_text(ws, y, (n - 1) as nat) + cell_text(cell_at(ws, y, n - 1))
    }
}

/// The first `n` rows of a `w` by `h` grid, rows separated by line breaks.
pub open spec fn grid_text(ws: Seq<GridWrite>, n: nat, w: nat, h: int) -> Seq<char>
    decreases n,
{
    if n == 0 {
        Seq::empty()
    } else {
        grid_text(ws, (n - 1) as nat, w, h) + row_text(ws, n - 1, w) + (if n - 1 < h - 1 { "\n"@ } else { Seq::empty() })
    }
}

/// The forest as the terminal shows it.
pub open spec fn forest_picture(forest: &Forest, layout: &LayoutResult, w: int, h: int) -> Seq<char> {
    grid_text(all_writes(forest, layout, w, h), h as nat, w as nat, h)
}


/// The position of cell `(y, x)` in a row-major grid of width `w`.
pub open spec fn gidx(y: int, x: int, w: int) -> int {
    y * w + x
}

proof fn lemma_gidx(y: int, x: int, w: int, h: int)
    requires
        0 <= y < h,
        0 <= x < w,
    ensures
        0 <= gidx(y, x, w) < w * h,
{
    assert(0 <= y * w + x < w * h) by (nonlinear_arith)
        requires
            0 <= y < h,
            0 <= x < w,
    ;
}

proof fn lemma_gidx_inj(y1: int, x1: int, y2: int, x2: int, w: int)
    requires
        0 <= y1,
        0 <= y2,
        0 <= x1 < w,
        0 <= x2 < w,
        gidx(y1, x1, w) == gidx(y2, x2, w),
    ensures
        y1 == y2,
        x1 == x2,
{
    if y1 < y2 {
        assert(y1 * w + w <= y2 * w) by (nonlinear_arith)
            requires
                y1 < y2,
                0 < w,
        ;
    } else if y2 < y1 {
        assert(y2 * w + w <= y1 * w) by (nonlinear_arith)
            requires
                y2 < y1,
                0 < w,
        ;
    }
}

/// The grid holds the cells that the writes `ws` leave.
pub open spec fn grid_matches(grid: Seq<(char, Option<(u8, u8, u8)>)>, ws: Seq<GridWrite>, w: int, h: int) -> bool {
    &&& grid.len() == w * h
    &&& forall|y: int, x: int| 0 <= y < h && 0 <= x < w ==> grid[#[trigger] gidx(y, x, w)] == cell_at(ws, y, x)
}

/// Writes one cell.
fn put(
    grid: &mut Vec<(char, Option<(u8, u8, u8)>)>,
    w: usize,
    h: usize,
    y: usize,
    x: usize,
    ch: char,
    c: (u8, u8, u8),
    Ghost(ws): Ghost<Seq<GridWrite>>,
)
    requires
        y < h,
        x < w,
        w <= 65535,
        h <= 65535,
        grid_matches(old(grid)@, ws, w as int, h as int),
    ensures
        grid_matches(final(grid)@, ws.push((y as int, x as int, ch, c)), w as int, h as int),
{
    proof {
        lemma_gidx(y as int, x as int, w as int, h as int);
        assert(w * h <= 65535 * 65535) by (nonlinear_arith)
            requires
                w <= 65535,
                h <= 65535,
        ;
    }
    let i = y * w + x;
    grid.set(i, (ch, Some(c)));
    proof {
        let nws = ws.push((y as int, x as int, ch, c));
        assert forall|yy: int, xx: int| 0 <= yy < h && 0 <= xx < w implies grid@[#[trigger] gidx(yy, xx, w as int)] == cell_at(nws, yy, xx) by {
            assert(nws.drop_last() =~= ws);
            lemma_gidx(yy, xx, w as int, h as int);
            if yy != y || xx != x {
                assert(old(grid)@[gidx(yy, xx, w as int)] == cell_at(ws, yy, xx));
                if gidx(yy, xx, w as int) == i {
                    lemma_gidx_inj(yy, xx, y as int, x as int, w as int);
                }
            }
        }
    }
}


proof fn lemma_root_position(trees: Seq<Tree>, root: Seq<char>, k: int)
    requires
        0 <= k < trees.len(),
        trees[k].root@ == root,
        forall|j: int| 0 <= j < k ==> #[trigger] trees[j].root@ != root,
    ensures
        root_position(trees, root) == k,
    decreases trees.len(),
{
    if k > 0 {
        assert forall|j: int| 0 <= j < k - 1 implies #[trigger] trees.drop_first()[j].root@ != root by {
            assert(trees.drop_first()[j] == trees[j + 1]);
        }
        lemma_root_position(trees.drop_first(), root, k - 1);
    }
}

/// The first position of a tree with the same root as tree `t`.
fn find_root_position(trees: &Vec<Tree>, t: usize) -> (p: usize)
    requires
        t < trees@.len(),
    ensures
        p as int == root_position(trees@, trees@[t as int].root@),
        p <= t,
{
    let mut j: usize = 0;
    while j < t
        invariant
            j <= t,
            t < trees@.len(),
            forall|k: int| 0 <= k < j ==> #[trigger] trees@[k].root@ != trees@[t as int].root@,
        decreases t - j,
    {
        if trees[j].root == trees[t].root {
            proof {
                lemma_root_position(trees@, trees@[t as int].root@, j as int);
            }
            return j;
        }
        j = j + 1;
    }
    proof {
        lemma_root_position(trees@, trees@[t as int].root@, t as int);
    }
    t
}

/// Draws tree `t` onto the grid.
fn draw_tree(
    grid: &mut Vec<(char, Option<(u8, u8, u8)>)>,
    forest: &Forest,
    layout: &LayoutResult,
    palette: &StrMap<(u8, u8, u8)>,
    t: usize,
    w: usize,
    h: usize,
    Ghost(ws): Ghost<Seq<GridWrite>>,
)
    requires
        t < forest.trees@.len(),
        0 < w <= 65535,
        0 < h <= 65535,
        palette@ == author_palette(forest),
        grid_matches(old(grid)@, ws, w as int, h as int),
    ensures
        grid_matches(final(grid)@, ws + tree_writes(forest, layout, t as int, w as int, h as int), w as int, h as int),
{
    let tree = &forest.trees[t];
    if tree.commits.len() == 0 {
        assert(ws + tree_writes(forest, layout, t as int, w as int, h as int) =~= ws);
        return;
    }
    let c = author_color(palette, tree.author.as_str(), (200, 200, 200));
    let p = find_root_position(&forest.trees, t);
    let center: u64 = if p < layout.tree_centers.len() { layout.tree_centers[p] as u64 } else { 500 };
    assert(center == center_at(layout.tree_centers@, p as int));
    proof {
        assert(center * (w - 1) <= 4294967295 * 65535) by (nonlinear_arith)
            requires
                center <= 4294967295,
                w <= 65535,
        ;
        assert(center * (w - 1) / 1000 <= center * (w - 1)) by (nonlinear_arith)
            requires
                center * (w - 1) >= 0,
        ;
    }
    let x: u64 = center * ((w - 1) as u64) / 1000;
    let ts: usize = h / 10;
    let te: usize = 4 * h / 5;
    let ghost trunk = if (x as int) < w && h > 0 { trunk_writes(x as int, ts as int, te as int, c) } else { Seq::<GridWrite>::empty() };
    let ghost base = ws;
    let ghost mut cur = ws;
    if x < w as u64 {
        let xu = x as usize;
        let mut y: usize = ts;
        while y <= te
            invariant
                0 < w <= 65535,
                0 < h <= 65535,
                ts == h / 10,
                te == 4 * h / 5,
                te < h,
                ts <= y <= te + 1,
                xu < w,
                xu == x,
                cur == base + trunk_writes(x as int, ts as int, y - 1, c),
                grid_matches(grid@, cur, w as int, h as int),
            decreases te + 1 - y,
        {
            put(grid, w, h, y, xu, '|', c, Ghost(cur));
            proof {
                let old_cur = cur;
                cur = cur.push((y as int, xu as int, '|', c));
                assert(trunk_writes(x as int, ts as int, y as int, c) =~= trunk_writes(x as int, ts as int, y - 1, c).push((y as int, xu as int, '|', c)));
                assert(cur =~= base + trunk_writes(x as int, ts as int, y as int, c));
            }
            y = y + 1;
        }
        assert(cur == base + trunk);
    } else {
        assert(base + trunk =~= base);
    }
    let top: usize = if ts >= 1 { ts - 1 } else { 0 };
    let ghost after_trunk = cur;
    if x < w as u64 && top < h {
        put(grid, w, h, top, x as usize, '.', c, Ghost(cur));
        proof {
            cur = cur.push((top as int, x as int, '.', c));
        }
    }
    assert(cur =~= after_trunk + (if (x as int) < w && top < h { seq![(top as int, x as int, '.', c)] } else { Seq::<GridWrite>::empty() }));
    let ntrees: usize = forest.trees.len();
    let tn: usize = if ntrees > 1 { ntrees } else { 1 };
    let ncommits: usize = tree.commits.len();
    proof {
        assert((5 * ncommits) / (tn as int) <= 5 * ncommits) by (nonlinear_arith)
            requires
                tn >= 1,
                ncommits >= 0,
        ;
    }
    let d: u128 = 5 * (ncommits as u128) / (tn as u128);
    let lc: u64 = (if d > 5 { 5 } else { d as u64 }) + 1;
    assert(lc == leaf_count(ncommits as int, ntrees as int));
    let ghost after_top = cur;
    let mut i: u64 = 0;
    while i < lc
        invariant
            0 < w <= 65535,
            0 < h <= 65535,
            te == 4 * h / 5,
            x <= 4294967295 * 65535,
            1 <= lc <= 6,
            i <= lc,
            cur == after_top + leaf_writes(x as int, te as int, lc as int, i as nat, c, w as int, h as int),
            grid_matches(grid@, cur, w as int, h as int),
        decreases lc - i,
    {
        let lx: i64 = x as i64 + i as i64 - (lc / 2) as i64;
        let ly: usize = te + 1 + (i % 2) as usize;
        if lx >= 0 && lx < w as i64 && ly < h {
            put(grid, w, h, ly, lx as usize, '.', c, Ghost(cur));
            proof {
                cur = cur.push((ly as int, lx as int, '.', c));
            }
        }
        i = i + 1;
        assert(cur =~= after_top + leaf_writes(x as int, te as int, lc as int, i as nat, c, w as int, h as int));
    }
    proof {
        assert(cur =~= ws + tree_writes(forest, layout, t as int, w as int, h as int));
    }
}


/// Draws merge node `k` onto the grid.
fn draw_merge(
    grid: &mut Vec<(char, Option<(u8, u8, u8)>)>,
    forest: &Forest,
    layout: &LayoutResult,
    k: usize,
    w: usize,
    h: usize,
    Ghost(ws): Ghost<Seq<GridWrite>>,
)
    requires
        k < forest.merge_nodes@.len(),
        0 < w <= 65535,
        0 < h <= 65535,
        grid_matches(old(grid)@, ws, w as int, h as int),
    ensures
        grid_matches(final(grid)@, ws + merge_write(forest, layout, k as int, w as int, h as int), w as int, h as int),
{
    match layout.merge_positions.get(forest.merge_nodes[k].id.as_str()) {
        Some(pos) => {
            let mx: u64 = pos.0 as u64;
            let my: u64 = pos.1 as u64;
            proof {
                assert(mx * (w - 1) <= 4294967295 * 65535) by (nonlinear_arith)
                    requires
                        mx <= 4294967295,
                        w <= 65535,
                ;
                assert(my * (h - 1) <= 4294967295 * 65535) by (nonlinear_arith)
                    requires
                        my <= 4294967295,
                        h <= 65535,
                ;
            }
            let x: u64 = mx * ((w - 1) as u64) / 1000;
            let y: u64 = my * ((h - 1) as u64) / 1000;
            if y < h as u64 && x < w as u64 {
                put(grid, w, h, y as usize, x as usize, '*', (255, 215, 0), Ghost(ws));
                assert(ws.push((y as int, x as int, '*', merge_gold())) =~= ws + merge_write(forest, layout, k as int, w as int, h as int));
            } else {
                assert(ws + merge_write(forest, layout, k as int, w as int, h as int) =~= ws);
            }
        },
        None => {
            assert(ws + merge_write(forest, layout, k as int, w as int, h as int) =~= ws);
        },
    }
}

/// Appends the text of one cell.
fn push_cell(s: &mut String, cell: (char, Option<(u8, u8, u8)>))
    ensures
        final(s)@ == old(s)@ + cell_text(cell),
{
    match cell.1 {
        Some(c) => {
            push_str(s, "\x1b[38;2;");
            push_decimal(s, c.0 as u64);
            push_str(s, ";");
            push_decimal(s, c.1 as u64);
            push_str(s, ";");
            push_decimal(s, c.2 as u64);
            push_str(s, "m");
            push_char(s, cell.0);
            push_str(s, "\x1b[0m");
            assert(final(s)@ =~= old(s)@ + cell_text(cell));
        },
        None => {
            push_char(s, cell.0);
            assert(final(s)@ =~= old(s)@ + cell_text(cell));
        },
    }
}

/// Renders the forest as ASCII art in a `width` by `height` character grid:
/// each tree with commits is a trunk at its layout centre from a tenth to four
/// fifths of the height, a `.` leaf just above it and a few `.` leaves below it (more
/// for trees with more commits), all in the colour of the tree's author; each
/// placed merge node is a gold `*`. Later drawings cover earlier ones. Coloured
/// cells carry a 24-bit colour sequence and a reset; rows are separated by line breaks.
pub fn render_forest_to_terminal(forest: &Forest, layout: &LayoutResult, width: u16, height: u16) -> (out: String)
    ensures
        out@ == forest_picture(forest, layout, width as int, height as int),
{
    let w: usize = width as usize;
    let h: usize = height as usize;
    let ghost all = all_writes(forest, layout, w as int, h as int);
    let mut out = String::new();
    if w == 0 || h == 0 {
        let mut y: usize = 0;
        while y < h
            invariant
                y <= h,
                w == 0 || h == 0,
                out@ == grid_text(all, y as nat, w as nat, h as int),
            decreases h - y,
        {
            if y + 1 < h {
                push_str(&mut out, "\n");
            }
            y = y + 1;
        }
        return out;
    }
    let palette = assign_author_colors(forest);
    proof {
        lemma_author_palette(forest, palette@);
        assert(w * h <= 65535 * 65535) by (nonlinear_arith)
            requires
                w <= 65535,
                h <= 65535,
        ;
    }
    let n: usize = w * h;
    let mut grid: Vec<(char, Option<(u8, u8, u8)>)> = Vec::new();
    let mut j: usize = 0;
    while j < n
        invariant
            j <= n,
            grid@.len() == j,
            forall|k: int| 0 <= k < j ==> grid@[k] == (' ', Option::<(u8, u8, u8)>::None),
        decreases n - j,
    {
        grid.push((' ', None));
        j = j + 1;
    }
    proof {
        assert forall|y: int, x: int| 0 <= y < h && 0 <= x < w implies grid@[#[trigger] gidx(y, x, w as int)] == cell_at(Seq::<GridWrite>::empty(), y, x) by {
            lemma_gidx(y, x, w as int, h as int);
        }
    }
    let ghost mut cur: Seq<GridWrite> = Seq::empty();
    let mut t: usize = 0;
    while t < forest.trees.len()
        invariant
            0 < w <= 65535,
            0 < h <= 65535,
            w == width,
            h == height,
            t <= forest.trees@.len(),
            palette@ == author_palette(forest),
            cur == trees_writes(forest, layout, t as nat, w as int, h as int),
            grid_matches(grid@, cur, w as int, h as int),
        decreases forest.trees.len() - t,
    {
        draw_tree(&mut grid, forest, layout, &palette, t, w, h, Ghost(cur));
        proof {
            cur = cur + tree_writes(forest, layout, t as int, w as int, h as int);
        }
        t = t + 1;
    }
    let ghost tw = cur;
    let mut k: usize = 0;
    while k < forest.merge_nodes.len()
        invariant
            0 < w <= 65535,
            0 < h <= 65535,
            w == width,
            h == height,
            k <= forest.merge_nodes@.len(),
            cur == tw + merges_writes(forest, layout, k as nat, w as int, h as int),
            grid_matches(grid@, cur, w as int, h as int),
        decreases forest.merge_nodes.len() - k,
    {
        draw_merge(&mut grid, forest, layout, k, w, h, Ghost(cur));
        proof {
            cur = cur + merge_write(forest, layout, k as int, w as int, h as int);
            assert(cur =~= tw + merges_writes(forest, layout, (k + 1) as nat, w as int, h as int));
        }
        k = k + 1;
    }
    assert(cur == all);
    let mut y: usize = 0;
    while y < h
        invariant
            0 < w <= 65535,
            0 < h <= 65535,
            y <= h,
            grid_matches(grid@, all, w as int, h as int),
            out@ == grid_text(all, y as nat, w as nat, h as int),
        decreases h - y,
    {
        let ghost row_start = out@;
        let mut x: usize = 0;
        while x < w
            invariant
                0 < w <= 65535,
                0 < h <= 65535,
                y < h,
                x <= w,
                grid_matches(grid@, all, w as int, h as int),
                out@ == row_start + row_text(all, y as int, x as nat),
            decreases w - x,
        {
            proof {
                lemma_gidx(y as int, x as int, w as int, h as int);
                assert(grid@[gidx(y as int, x as int, w as int)] == cell_at(all, y as int, x as int));
                assert(w * h <= 65535 * 65535) by (nonlinear_arith)
                    requires
                        w <= 65535,
                        h <= 65535,
                ;
                assert(y * w <= y * w + x);
            }
            let cell = grid[y * w + x];
            push_cell(&mut out, cell);
            x = x + 1;
        }
        if y + 1 < h {
            push_str(&mut out, "\n");
        }
        y = y + 1;
        assert(out@ =~= grid_text(all, y as nat, w as nat, h as int));
    }
    out
}


/// Every write is inside a `w` by `h` screen.
pub open spec fn on_screen(ws: Seq<GridWrite>, w: int, h: int) -> bool {
    forall|k: int| 0 <= k < ws.len() ==> 0 <= (#[trigger] ws[k]).0 < h && 0 <= ws[k].1 < w
}

proof fn lemma_on_screen_concat(a: Seq<GridWrite>, b: Seq<GridWrite>, w: int, h: int)
    requires
        on_screen(a, w, h),
        on_screen(b, w, h),
    ensures
        on_screen(a + b, w, h),
{
    assert forall|k: int| 0 <= k < (a + b).len() implies 0 <= (#[trigger] (a + b)[k]).0 < h && 0 <= (a + b)[k].1 < w by {
        if k < a.len() {
            assert((a + b)[k] == a[k]);
        } else {
            assert((a + b)[k] == b[k - a.len()]);
        }
    }
}

proof fn lemma_leaf_writes_on_screen(x: int, te: int, lc: int, n: nat, c: (u8, u8, u8), w: int, h: int)
    requires
        te >= 0,
    ensures
        on_screen(leaf_writes(x, te, lc, n, c, w, h), w, h),
    decreases n,
{
    if n > 0 {
        lemma_leaf_writes_on_screen(x, te, lc, (n - 1) as nat, c, w, h);
        let i = n - 1;
        let lx = x + i - lc / 2;
        let ly = te + 1 + i % 2;
        let last: Seq<GridWrite> = if 0 <= lx < w && ly < h { seq![(ly, lx, '.', c)] } else { Seq::empty() };
        lemma_on_screen_concat(leaf_writes(x, te, lc, (n - 1) as nat, c, w, h), last, w, h);
    }
}

proof fn lemma_tree_writes_on_screen(forest: &Forest, layout: &LayoutResult, t: int, w: int, h: int)
    requires
        0 <= t < forest.trees@.len(),
        w > 0,
        h > 0,
    ensures
        on_screen(tree_writes(forest, layout, t, w, h), w, h),
{
    let tree = forest.trees@[t];
    if tree.commits@.len() > 0 {
        let c = author_color_or(author_palette(forest), tree.author@, (200, 200, 200));
        let center = center_at(layout.tree_centers@, root_position(forest.trees@, tree.root@));
        let x = center * (w - 1) / 1000;
        assert(center >= 0);
        assert(center * (w - 1) >= 0) by (nonlinear_arith)
            requires
                center >= 0,
                w >= 1,
        ;
        let ts = h / 10;
        let te = 4 * h / 5;
        let top = if ts >= 1 { ts - 1 } else { 0 };
        let trunk: Seq<GridWrite> = if x < w && h > 0 { trunk_writes(x, ts, te, c) } else { Seq::empty() };
        let topw: Seq<GridWrite> = if x < w && top < h { seq![(top, x, '.', c)] } else { Seq::empty() };
        let lc = leaf_count(tree.commits@.len() as int, forest.trees@.len() as int);
        lemma_leaf_writes_on_screen(x, te, lc, lc as nat, c, w, h);
        lemma_on_screen_concat(trunk, topw, w, h);
        lemma_on_screen_concat(trunk + topw, leaf_writes(x, te, lc, lc as nat, c, w, h), w, h);
    }
}

/// Nothing is drawn outside the screen: every cell that the picture of a forest
/// writes is inside the `w` by `h` grid.
pub proof fn lemma_drawing_stays_on_screen(forest: &Forest, layout: &LayoutResult, w: int, h: int)
    requires
        w > 0,
        h > 0,
    ensures
        on_screen(all_writes(forest, layout, w, h), w, h),
{
    lemma_trees_on_screen(forest, layout, forest.trees@.len(), w, h);
    lemma_merges_on_screen(forest, layout, forest.merge_nodes@.len(), w, h);
    lemma_on_screen_concat(
        trees_writes(forest, layout, forest.trees@.len(), w, h),
        merges_writes(forest, layout, forest.merge_nodes@.len(), w, h),
        w,
        h,
    );
}

proof fn lemma_trees_on_screen(forest: &Forest, layout: &LayoutResult, n: nat, w: int, h: int)
    requires
        n <= forest.trees@.len(),
        w > 0,
        h > 0,
    ensures
        on_screen(trees_writes(forest, layout, n, w, h), w, h),
    decreases n,
{
    if n > 0 {
        lemma_trees_on_screen(forest, layout, (n - 1) as nat, w, h);
        lemma_tree_writes_on_screen(forest, layout, n - 1, w, h);
        lemma_on_screen_concat(trees_writes(forest, layout, (n - 1) as nat, w, h), tree_writes(forest, layout, n - 1, w, h), w, h);
    }
}

proof fn lemma_merges_on_screen(forest: &Forest, layout: &LayoutResult, n: nat, w: int, h: int)
    requires
        n <= forest.merge_nodes@.len(),
        w > 0,
        h > 0,
    ensures
        on_screen(merges_writes(forest, layout, n, w, h), w, h),
    decreases n,
{
    if n > 0 {
        lemma_merges_on_screen(forest, layout, (n - 1) as nat, w, h);
        let mw = merge_write(forest, layout, n - 1, w, h);
        match lookup(layout.merge_positions@, forest.merge_nodes@[n - 1].id@) {
            Some(pos) => {
                assert(pos.0 * (w - 1) >= 0) by (nonlinear_arith)
                    requires
                        pos.0 >= 0,
                        w >= 1,
                ;
                assert(pos.1 * (h - 1) >= 0) by (nonlinear_arith)
                    requires
                        pos.1 >= 0,
                        h >= 1,
                ;
            },
            None => {},
        }
        lemma_on_screen_concat(merges_writes(forest, layout, (n - 1) as nat, w, h), mw, w, h);
    }
}

/// The characters that the picture draws: trunks `|`, branches `/` and `\`,
/// leaves `.` and merge nodes `*`.
pub open spec fn is_drawing_char(c: char) -> bool {
    c == '|' || c == '/' || c == '\\' || c == '.' || c == '*'
}

/// Every write puts one of the drawing characters.
pub open spec fn draws_only(ws: Seq<GridWrite>) -> bool {
    forall|k: int| 0 <= k < ws.len() ==> is_drawing_char((#[trigger] ws[k]).2)
}

proof fn lemma_draws_only_concat(a: Seq<GridWrite>, b: Seq<GridWrite>)
    requires
        draws_only(a),
        draws_only(b),
    ensures
        draws_only(a + b),
{
    assert forall|k: int| 0 <= k < (a + b).len() implies is_drawing_char((#[trigger] (a + b)[k]).2) by {
        if k < a.len() {
            assert((a + b)[k] == a[k]);
        } else {
            assert((a + b)[k] == b[k - a.len()]);
        }
    }
}

proof fn lemma_leaf_writes_draw(x: int, te: int, lc: int, n: nat, c: (u8, u8, u8), w: int, h: int)
    ensures
        draws_only(leaf_writes(x, te, lc, n, c, w, h)),
    decreases n,
{
    if n > 0 {
        lemma_leaf_writes_draw(x, te, lc, (n - 1) as nat, c, w, h);
        let i = n - 1;
        let lx = x + i - lc / 2;
        let ly = te + 1 + i % 2;
        let last: Seq<GridWrite> = if 0 <= lx < w && ly < h { seq![(ly, lx, '.', c)] } else { Seq::empty() };
        lemma_draws_only_concat(leaf_writes(x, te, lc, (n - 1) as nat, c, w, h), last);
    }
}

/// A tree is drawn with trunk and leaf characters only.
pub proof fn lemma_tree_writes_draw(forest: &Forest, layout: &LayoutResult, t: int, w: int, h: int)
    requires
        0 <= t < forest.trees@.len(),
    ensures
        draws_only(tree_writes(forest, layout, t, w, h)),
{
    let tree = forest.trees@[t];
    if tree.commits@.len() > 0 {
        let c = author_color_or(author_palette(forest), tree.author@, (200, 200, 200));
        let center = center_at(layout.tree_centers@, root_position(forest.trees@, tree.root@));
        let x = center * (w - 1) / 1000;
        let ts = h / 10;
        let te = 4 * h / 5;
        let top = if ts >= 1 { ts - 1 } else { 0 };
        let trunk: Seq<GridWrite> = if x < w && h > 0 { trunk_writes(x, ts, te, c) } else { Seq::empty() };
        let topw: Seq<GridWrite> = if x < w && top < h { seq![(top, x, '.', c)] } else { Seq::empty() };
        let lc = leaf_count(tree.commits@.len() as int, forest.trees@.len() as int);
        lemma_leaf_writes_draw(x, te, lc, lc as nat, c, w, h);
        lemma_draws_only_concat(trunk, topw);
        lemma_draws_only_concat(trunk + topw, leaf_writes(x, te, lc, lc as nat, c, w, h));
    }
}

proof fn lemma_trees_draw(forest: &Forest, layout: &LayoutResult, n: nat, w: int, h: int)
    requires
        n <= forest.trees@.len(),
    ensures
        draws_only(trees_writes(forest, layout, n, w, h)),
    decreases n,
{
    if n > 0 {
        lemma_trees_draw(forest, layout, (n - 1) as nat, w, h);
        lemma_tree_writes_draw(forest, layout, n - 1, w, h);
        lemma_draws_only_concat(trees_writes(forest, layout, (n - 1) as nat, w, h), tree_writes(forest, layout, n - 1, w, h));
    }
}

proof fn lemma_merges_draw(forest: &Forest, layout: &LayoutResult, n: nat, w: int, h: int)
    requires
        n <= forest.merge_nodes@.len(),
    ensures
        draws_only(merges_writes(forest, layout, n, w, h)),
    decreases n,
{
    if n > 0 {
        lemma_merges_draw(forest, layout, (n - 1) as nat, w, h);
        lemma_draws_only_concat(merges_writes(forest, layout, (n - 1) as nat, w, h), merge_write(forest, layout, n - 1, w, h));
    }
}

proof fn lemma_cell_char(ws: Seq<GridWrite>, y: int, x: int)
    requires
        draws_only(ws),
    ensures
        cell_at(ws, y, x).0 == ' ' || is_drawing_char(cell_at(ws, y, x).0),
        cell_at(ws, y, x).1 is None <==> cell_at(ws, y, x).0 == ' ',
    decreases ws.len(),
{
    if ws.len() > 0 {
        assert(is_drawing_char(ws[ws.len() - 1].2));
        assert(draws_only(ws.drop_last())) by {
            assert forall|k: int| 0 <= k < ws.drop_last().len() implies is_drawing_char((#[trigger] ws.drop_last()[k]).2) by {
                assert(ws.drop_last()[k] == ws[k]);
            }
        }
        lemma_cell_char(ws.drop_last(), y, x);
    }
}

/// The picture shows only what the drawing is documented to use: every cell is
/// blank, a trunk `|`, a branch `/` or `\`, a leaf `.` or a merge node `*`, and
/// exactly the drawn cells carry a colour.
pub proof fn lemma_picture_uses_documented_characters(forest: &Forest, layout: &LayoutResult, w: int, h: int, y: int, x: int)
    ensures
        cell_at(all_writes(forest, layout, w, h), y, x).0 == ' ' || is_drawing_char(cell_at(all_writes(forest, layout, w, h), y, x).0),
        cell_at(all_writes(forest, layout, w, h), y, x).1 is None <==> cell_at(all_writes(forest, layout, w, h), y, x).0 == ' ',
{
    lemma_trees_draw(forest, layout, forest.trees@.len(), w, h);
    lemma_merges_draw(forest, layout, forest.merge_nodes@.len(), w, h);
    lemma_draws_only_concat(
        trees_writes(forest, layout, forest.trees@.len(), w, h),
        merges_writes(forest, layout, forest.merge_nodes@.len(), w, h),
    );
    lemma_cell_char(all_writes(forest, layout, w, h), y, x);
}

/// The number of writes below row `row`.
pub open spec fn writes_below(ws: Seq<GridWrite>, row: int) -> nat
    decreases ws.len(),
{
    if ws.len() == 0 {
        0
    } else {
        writes_below(ws.drop_last(), row) + (if ws.last().0 > row { 1nat } else { 0nat })
    }
}

proof fn lemma_writes_below_concat(a: Seq<GridWrite>, b: Seq<GridWrite>, row: int)
    ensures
        writes_below(a + b, row) == writes_below(a, row) + writes_below(b, row),
    decreases b.len(),
{
    if b.len() == 0 {
        assert(a + b =~= a);
    } else {
        assert((a + b).drop_last() =~= a + b.drop_last());
        assert((a + b).last() == b.last());
        lemma_writes_below_concat(a, b.drop_last(), row);
    }
}

proof fn lemma_none_below(ws: Seq<GridWrite>, row: int)
    requires
        forall|k: int| 0 <= k < ws.len() ==> (#[trigger] ws[k]).0 <= row,
    ensures
        writes_below(ws, row) == 0,
    decreases ws.len(),
{
    if ws.len() > 0 {
        assert(ws.last() == ws[ws.len() - 1]);
        assert forall|k: int| 0 <= k < ws.drop_last().len() implies (#[trigger] ws.drop_last()[k]).0 <= row by {
            assert(ws.drop_last()[k] == ws[k]);
        }
        lemma_none_below(ws.drop_last(), row);
    }
}

proof fn lemma_leaf_writes_count(x: int, te: int, lc: int, n: nat, c: (u8, u8, u8), w: int, h: int)
    requires
        n <= lc,
        0 <= x - lc / 2,
        x + lc - 1 - lc / 2 < w,
        te >= 0,
        te + 2 < h,
    ensures
        writes_below(leaf_writes(x, te, lc, n, c, w, h), te) == n,
    decreases n,
{
    if n > 0 {
        lemma_leaf_writes_count(x, te, lc, (n - 1) as nat, c, w, h);
        let i = n - 1;
        let lx = x + i - lc / 2;
        let ly = te + 1 + i % 2;
        assert(0 <= lx < w && ly < h);
        let last: Seq<GridWrite> = seq![(ly, lx, '.', c)];
        assert(leaf_writes(x, te, lc, n, c, w, h) == leaf_writes(x, te, lc, (n - 1) as nat, c, w, h) + last);
        assert(last.drop_last() =~= Seq::<GridWrite>::empty());
        assert(writes_below(last.drop_last(), te) == 0);
        assert(last.last().0 > te);
        assert(writes_below(last, te) == 1);
        lemma_writes_below_concat(leaf_writes(x, te, lc, (n - 1) as nat, c, w, h), last, te);
    }
}

/// Leaves grow with the share of the history a tree holds: below the trunk of a
/// tree with commits there are `min(5 * commits / trees, 5) + 1` leaves (with at
/// least one tree counted), six for a lone tree, as long as the leaves fit on
/// the screen.
pub proof fn lemma_leaves_under_trunk(forest: &Forest, layout: &LayoutResult, t: int, w: int, h: int)
    requires
        0 <= t < forest.trees@.len(),
        forest.trees@[t].commits@.len() > 0,
        3 <= center_at(layout.tree_centers@, root_position(forest.trees@, forest.trees@[t].root@)) * (w - 1) / 1000,
        center_at(layout.tree_centers@, root_position(forest.trees@, forest.trees@[t].root@)) * (w - 1) / 1000 + 3 < w,
        4 * h / 5 + 2 < h,
    ensures
        writes_below(tree_writes(forest, layout, t, w, h), 4 * h / 5) == ({
            let commits = forest.trees@[t].commits@.len() as int;
            let trees = if forest.trees@.len() > 1 { forest.trees@.len() as int } else { 1 };
            (if 5 * commits / trees > 5 { 5 } else { 5 * commits / trees }) + 1
        }),
{
    let tree = forest.trees@[t];
    let c = author_color_or(author_palette(forest), tree.author@, (200, 200, 200));
    let center = center_at(layout.tree_centers@, root_position(forest.trees@, tree.root@));
    let x = center * (w - 1) / 1000;
    let ts = h / 10;
    let te = 4 * h / 5;
    let top = if ts >= 1 { ts - 1 } else { 0 };
    let trunk: Seq<GridWrite> = if x < w && h > 0 { trunk_writes(x, ts, te, c) } else { Seq::empty() };
    let topw: Seq<GridWrite> = if x < w && top < h { seq![(top, x, '.', c)] } else { Seq::empty() };
    let lc = leaf_count(tree.commits@.len() as int, forest.trees@.len() as int);
    let commits = tree.commits@.len() as int;
    let trees = if forest.trees@.len() > 1 { forest.trees@.len() as int } else { 1 };
    assert(5 * commits / trees >= 0) by (nonlinear_arith)
        requires
            commits >= 0,
            trees >= 1,
    ;
    assert(1 <= lc <= 6);
    lemma_none_below(trunk, te);
    lemma_none_below(topw, te);
    lemma_leaf_writes_count(x, te, lc, lc as nat, c, w, h);
    lemma_writes_below_concat(trunk, topw, te);
    lemma_writes_below_concat(trunk + topw, leaf_writes(x, te, lc, lc as nat, c, w, h), te);
}

} // verus!
