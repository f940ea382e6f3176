use vstd::prelude::*;

verus! {

/// Whether a canvas of `g` rows can be counted: it holds `2 * g * g` cells,
/// and that number must fit in a `usize`.
pub open spec fn canvas_fits(g: int) -> bool {
    0 <= g && 2 * g * g <= usize::MAX
}

/// Whether a canvas of `g` rows can be counted, as `canvas_fits` states.
pub fn fits_canvas(g: usize) -> (ok: bool)
    ensures
        ok == canvas_fits(g as int),
{
    match g.checked_mul(g) {
        Some(sq) => {
            assert(sq == g * g);
            assert(2 * g * g == 2 * (g * g)) by (nonlinear_arith);
            assert((sq <= usize::MAX / 2) == (2 * sq <= usize::MAX));
            sq <= usize::MAX / 2
        },
        None => {
            assert(2 * g * g > usize::MAX) by (nonlinear_arith)
                requires
                    g * g > usize::MAX,
            ;
            false
        },
    }
}

/// A canvas that fits has room for the arithmetic on its coordinates: four
/// times its number of rows, plus a little, still fits in a `usize`.
pub proof fn lemma_canvas_fits_bounds(g: int)
    requires
        canvas_fits(g),
    ensures
        4 * g + 16 <= usize::MAX,
{
    assert(4 * g + 16 <= usize::MAX) by (nonlinear_arith)
        requires
            0 <= g,
            2 * g * g <= usize::MAX,
            usize::MAX >= 0xffff_ffff,
    {
        if g > 16 {
            assert(4 * g + 16 <= 2 * g * g);
        }
    }
}

/// Smaller canvases fit when a larger one does.
pub proof fn lemma_canvas_fits_monotone(a: int, b: int)
    requires
        0 <= a <= b,
        canvas_fits(b),
    ensures
        canvas_fits(a),
{
    assert(2 * a * a <= 2 * b * b) by (nonlinear_arith)
        requires
            0 <= a <= b,
    ;
}

/// Number of cells added when the canvas grows to `g` rows: a new bottom row
/// of `2 * g` cells and the upper `g - 1` cells of the two new right columns.
pub open spec fn layer_len(g: int) -> int {
    4 * g - 2
}

/// Number of cells visited before the layer that makes the canvas `g` rows high.
pub open spec fn layer_start(g: int) -> int
    decreases g,
{
    if g <= 1 {
        0
    } else {
        layer_start(g - 1) + layer_len(g - 1)
    }
}

/// The `k`-th cell visited in layer `g`, as `(column, row)`: the bottom row
/// from left to right, then the second-to-last column upwards, then the last
/// column upwards.
pub open spec fn layer_cell(g: int, k: int) -> (int, int) {
    if k < 2 * g {
        (k, g - 1)
    } else if k < 3 * g - 1 {
        (2 * g - 2, 3 * g - 2 - k)
    } else {
        (2 * g - 1, 4 * g - 3 - k)
    }
}

/// The layer that first contains the cell at column `x`, row `y`.
pub open spec fn cell_layer(x: int, y: int) -> int {
    if y >= x / 2 {
        y + 1
    } else {
        x / 2 + 1
    }
}

/// The position of cell `(x, y)` within its layer.
pub open spec fn cell_rank(x: int, y: int) -> int {
    let g = cell_layer(x, y);
    if y == g - 1 {
        x
    } else if x == 2 * g - 2 {
        3 * g - 2 - y
    } else {
        4 * g - 3 - y
    }
}

/// The position of cell `(x, y)` in the order in which the canvas is drawn.
pub open spec fn order_index(x: int, y: int) -> int {
    layer_start(cell_layer(x, y)) + cell_rank(x, y)
}

/// Whether `(x, y)` lies on a canvas of `g` rows and `2 * g` columns.
pub open spec fn on_canvas(g: int, x: int, y: int) -> bool {
    0 <= x < 2 * g && 0 <= y < g
}

/// Whether some cell of the canvas of `n` rows is drawn at position `t`.
pub open spec fn drawn_at(n: int, t: int) -> bool {
    exists|x: int, y: int| on_canvas(n, x, y) && #[trigger] order_index(x, y) == t
}

/// The number of cells before layer `g` is `2 * (g - 1)^2`.
pub proof fn lemma_layer_start_closed(g: int)
    requires
        g >= 1,
    ensures
        layer_start(g) == 2 * (g - 1) * (g - 1),
    decreases g,
{
    if g > 1 {
        lemma_layer_start_closed(g - 1);
        assert(layer_start(g) == layer_start(g - 1) + layer_len(g - 1));
        assert(2 * (g - 2) * (g - 2) + 4 * (g - 1) - 2 == 2 * (g - 1) * (g - 1)) by (nonlinear_arith);
    } else {
        assert(2 * (g - 1) * (g - 1) == 0) by (nonlinear_arith) requires g == 1;
    }
}

/// Later layers start later.
pub proof fn lemma_layer_start_monotone(g1: int, g2: int)
    requires
        1 <= g1 <= g2,
    ensures
        layer_start(g1) <= layer_start(g2),
        g1 < g2 ==> layer_start(g1) + layer_len(g1) <= layer_start(g2),
    decreases g2 - g1,
{
    if g1 < g2 {
        lemma_layer_start_monotone(g1, g2 - 1);
    }
}

/// The `k`-th cell of layer `g` lies on the canvas of `g` rows, belongs to
/// layer `g`, and has rank `k` there.
pub proof fn lemma_layer_cell_inverse(g: int, k: int)
    requires
        g >= 1,
        0 <= k < layer_len(g),
    ensures
        on_canvas(g, layer_cell(g, k).0, layer_cell(g, k).1),
        cell_layer(layer_cell(g, k).0, layer_cell(g, k).1) == g,
        cell_rank(layer_cell(g, k).0, layer_cell(g, k).1) == k,
        order_index(layer_cell(g, k).0, layer_cell(g, k).1) == layer_start(g) + k,
{
}

/// Every cell belongs to a layer, at a rank within that layer, and is the cell
/// that the layer visits at that rank.
pub proof fn lemma_cell_in_layer(x: int, y: int)
    requires
        x >= 0,
        y >= 0,
    ensures
        cell_layer(x, y) >= 1,
        0 <= cell_rank(x, y) < layer_len(cell_layer(x, y)),
        layer_cell(cell_layer(x, y), cell_rank(x, y)) == (x, y),
{
}

/// A cell is on the canvas of `g` rows exactly when its layer is at most `g`.
pub proof fn lemma_on_canvas_layer(g: int, x: int, y: int)
    requires
        x >= 0,
        y >= 0,
    ensures
        on_canvas(g, x, y) <==> cell_layer(x, y) <= g,
{
}

/// The cells of the canvas of `g` rows are exactly those drawn before
/// position `layer_start(g + 1)`; cells of layer `g` come at or after
/// `layer_start(g)`.
pub proof fn lemma_order_index_range(g: int, x: int, y: int)
    requires
        g >= 1,
        x >= 0,
        y >= 0,
    ensures
        on_canvas(g, x, y) <==> order_index(x, y) < layer_start(g) + layer_len(g),
        on_canvas(g, x, y) && !on_canvas(g - 1, x, y) ==> order_index(x, y) >= layer_start(g),
        order_index(x, y) >= 0,
{
    lemma_cell_in_layer(x, y);
    let l = cell_layer(x, y);
    lemma_on_canvas_layer(g, x, y);
    lemma_on_canvas_layer(g - 1, x, y);
    if l <= g {
        lemma_layer_start_monotone(l, g);
    } else {
        lemma_layer_start_monotone(g, l);
    }
    assert(layer_start(l) >= 0) by {
        lemma_layer_start_monotone(1, l);
    }
}

/// Two cells drawn at the same position are the same cell.
pub proof fn lemma_order_index_injective(x1: int, y1: int, x2: int, y2: int)
    requires
        x1 >= 0,
        y1 >= 0,
        x2 >= 0,
        y2 >= 0,
        order_index(x1, y1) == order_index(x2, y2),
    ensures
        x1 == x2,
        y1 == y2,
{
    lemma_cell_in_layer(x1, y1);
    lemma_cell_in_layer(x2, y2);
    let l1 = cell_layer(x1, y1);
    let l2 = cell_layer(x2, y2);
    if l1 < l2 {
        lemma_layer_start_monotone(l1, l2);
    } else if l2 < l1 {
        lemma_layer_start_monotone(l2, l1);
    }
}

/// The order in which a canvas of `n` rows is drawn visits each of its
/// `2 * n * n` cells exactly once: every cell gets a distinct position below
/// `2 * n * n`, and every such position belongs to a cell.
pub proof fn lemma_drawing_order_is_bijection(n: int)
    requires
        n >= 0,
    ensures
        forall|x: int, y: int|
            on_canvas(n, x, y) ==> 0 <= #[trigger] order_index(x, y) < 2 * n * n,
        forall|x1: int, y1: int, x2: int, y2: int|
            on_canvas(n, x1, y1) && on_canvas(n, x2, y2) && #[trigger] order_index(x1, y1)
                == #[trigger] order_index(x2, y2) ==> x1 == x2 && y1 == y2,
        forall|t: int| 0 <= t < 2 * n * n ==> #[trigger] drawn_at(n, t),
    decreases n,
{
    if n == 0 {
        assert(2 * n * n == 0);
    } else {
        lemma_layer_start_closed(n + 1);
        assert(layer_start(n + 1) == layer_start(n) + layer_len(n));
        assert(2 * n * n == layer_start(n) + layer_len(n));
        assert forall|x: int, y: int| on_canvas(n, x, y) implies 0 <= #[trigger] order_index(x, y)
            < 2 * n * n by {
            lemma_order_index_range(n, x, y);
        }
        assert forall|x1: int, y1: int, x2: int, y2: int|
            on_canvas(n, x1, y1) && on_canvas(n, x2, y2) && #[trigger] order_index(x1, y1)
                == #[trigger] order_index(x2, y2) implies x1 == x2 && y1 == y2 by {
            lemma_order_index_injective(x1, y1, x2, y2);
        }
        assert forall|t: int| 0 <= t < 2 * n * n implies #[trigger] drawn_at(n, t) by {
            let k = t - layer_start(n);
            if k >= 0 {
                lemma_layer_cell_inverse(n, k);
                let c = layer_cell(n, k);
                assert(on_canvas(n, c.0, c.1) && order_index(c.0, c.1) == t);
            } else {
                lemma_drawing_order_is_bijection(n - 1);
                lemma_layer_start_closed(n);
                assert(t < 2 * (n - 1) * (n - 1));
                assert(drawn_at(n - 1, t));
                let (x, y) = choose|x: int, y: int|
                    on_canvas(n - 1, x, y) && #[trigger] order_index(x, y) == t;
                assert(on_canvas(n, x, y) && order_index(x, y) == t);
            }
        }
    }
}

/// The cell drawn at rank `k` of the layer that grows the canvas to `g` rows.
pub fn layer_cell_at(g: usize, k: usize) -> (cell: (usize, usize))
    requires
        1 <= g,
        canvas_fits(g as int),
        k < layer_len(g as int),
    ensures
        cell.0 == layer_cell(g as int, k as int).0,
        cell.1 == layer_cell(g as int, k as int).1,
{
    proof {
        lemma_canvas_fits_bounds(g as int);
    }
    if k < 2 * g {
        (k, g - 1)
    } else if k < 3 * g - 1 {
        (2 * g - 2, 3 * g - 2 - k)
    } else {
        (2 * g - 1, 4 * g - 3 - k)
    }
}

/// The radius of the neighbourhood read for the `k`-th cell of layer `g`:
/// half the number of rows, at least 1 and at most 5 along the bottom row,
/// at most 3 along the right columns.
pub open spec fn kernel_radius(g: int, k: int) -> int {
    let cap = if k < 2 * g { 5int } else { 3int };
    if g / 2 < 1 {
        1
    } else if g / 2 > cap {
        cap
    } else {
        g / 2
    }
}

/// The radius is half the number of rows, rounded down, kept between 1 and
/// the cap (5 along the bottom row, 3 along the right columns): at least 1,
/// at most the cap, never more than half the rows once there are two, and
/// either the cap or the largest radius whose window fits in the rows.
pub proof fn lemma_kernel_radius_is_clamped_half(g: int, k: int)
    requires
        g >= 0,
    ensures
        1 <= kernel_radius(g, k),
        kernel_radius(g, k) <= (if k < 2 * g { 5int } else { 3int }),
        g < 2 ==> kernel_radius(g, k) == 1,
        g >= 2 ==> 2 * kernel_radius(g, k) <= g,
        g >= 2 ==> (kernel_radius(g, k) == (if k < 2 * g { 5int } else { 3int }) || g < 2
            * kernel_radius(g, k) + 2),
{
}

/// Computes `kernel_radius`.
pub fn kernel_radius_at(g: usize, k: usize) -> (r: usize)
    requires
        canvas_fits(g as int),
    ensures
        r == kernel_radius(g as int, k as int),
        1 <= r <= 5,
        r <= (if k < 2 * g { 5int } else { 3int }),
        g < 2 ==> r == 1,
        g >= 2 ==> 2 * r <= g,
        g >= 2 ==> (r == (if k < 2 * g { 5int } else { 3int }) || g < 2 * r + 2),
{
    proof {
        lemma_canvas_fits_bounds(g as int);
    }
    let cap: usize = if k < 2 * g { 5 } else { 3 };
    let half = g / 2;
    if half < 1 {
        1
    } else if half > cap {
        cap
    } else {
        half
    }
}

} // verus!
