use vstd::prelude::*;
use crate::pixels::{BRIGHTNESS_LEVELS, GridPixel, pixel_char, pixel_str};
use crate::image::{
    border, pixel_row, level_at, row_line, top_line, bottom_line, body_lines, image_text, image_size,
    reference_level, lemma_image_reads_back,
};
use crate::spiral::{
    canvas_fits, lemma_canvas_fits_bounds, lemma_canvas_fits_monotone, layer_len, layer_start, layer_cell, order_index, on_canvas, kernel_radius,
    layer_cell_at, kernel_radius_at, lemma_layer_cell_inverse, lemma_layer_start_closed, lemma_order_index_range,
    lemma_order_index_injective, lemma_drawing_order_is_bijection, lemma_layer_start_monotone,
    cell_layer, lemma_cell_in_layer,
};

verus! {

/// The cell at column `x`, row `y` once the values in `placed` have been
/// drawn in drawing order: the value drawn at its position, or empty.
pub open spec fn pixel_at(placed: Seq<usize>, x: int, y: int) -> GridPixel {
    if order_index(x, y) < placed.len() {
        GridPixel::Val(placed[order_index(x, y)])
    } else {
        GridPixel::Empty
    }
}

/// What a neighbourhood sees at `(x, y)` on a canvas of `g` rows: the cell if
/// it is on the canvas, empty otherwise.
pub open spec fn neighbour(g: int, placed: Seq<usize>, x: int, y: int) -> GridPixel {
    if on_canvas(g, x, y) {
        pixel_at(placed, x, y)
    } else {
        GridPixel::Empty
    }
}

/// Number of cells drawn on a canvas of `g` rows whose last layer holds `k`
/// drawn cells.
pub open spec fn drawn_cells(g: int, k: int) -> int {
    if g == 0 {
        0
    } else {
        layer_start(g) + k
    }
}

/// Number of values in `s` that are the blank level 0.
pub open spec fn count_blank(s: Seq<usize>) -> nat
    decreases s.len(),
{
    if s.len() == 0 {
        0
    } else {
        count_blank(s.drop_last()) + if s.last() == 0 {
            1nat
        } else {
            0nat
        }
    }
}

/// There are no more blank values than values.
pub proof fn lemma_count_blank_bound(s: Seq<usize>)
    ensures
        count_blank(s) <= s.len(),
    decreases s.len(),
{
    if s.len() > 0 {
        lemma_count_blank_bound(s.drop_last());
    }
}

/// `d` to the fourth power.
pub open spec fn pow4(d: int) -> int {
    d * d * d * d
}

/// One drawn neighbour of a cell: its brightness level and the distance
/// `dx^4 + dy^4` that weighs it (weight `1 / distance`).
#[derive(Clone, Copy, Debug, PartialEq, Eq, Structural)]
pub struct KernelTerm {
    pub value: usize,
    pub distance: usize,
}

/// The term contributed by offset `(a - r, b - r)` around `(x, y)`: one term
/// if that neighbour is drawn, none otherwise.
pub open spec fn term_at(
    g: int,
    placed: Seq<usize>,
    x: int,
    y: int,
    r: int,
    a: int,
    b: int,
) -> Seq<KernelTerm> {
    match neighbour(g, placed, x + a - r, y + b - r) {
        GridPixel::Val(v) => seq![
            KernelTerm { value: v, distance: (pow4(a - r) + pow4(b - r)) as usize },
        ],
        GridPixel::Empty => seq![],
    }
}

/// Terms of the first `b` offsets of row `a` of the window.
pub open spec fn kernel_row(
    g: int,
    placed: Seq<usize>,
    x: int,
    y: int,
    r: int,
    a: int,
    b: int,
) -> Seq<KernelTerm>
    decreases b,
{
    if b <= 0 {
        seq![]
    } else {
        kernel_row(g, placed, x, y, r, a, b - 1) + term_at(g, placed, x, y, r, a, b - 1)
    }
}

/// Terms of the first `a` rows of the window.
pub open spec fn kernel_rows(g: int, placed: Seq<usize>, x: int, y: int, r: int, a: int) -> Seq<
    KernelTerm,
>
    decreases a,
{
    if a <= 0 {
        seq![]
    } else {
        kernel_rows(g, placed, x, y, r, a - 1) + kernel_row(g, placed, x, y, r, a - 1, 2 * r)
    }
}

/// The drawn neighbours of `(x, y)` at offsets `dx, dy` in `-r .. r`, `dx`
/// outer, `dy` inner, each with its distance.
pub open spec fn kernel_terms(g: int, placed: Seq<usize>, x: int, y: int, r: int) -> Seq<
    KernelTerm,
> {
    kernel_rows(g, placed, x, y, r, 2 * r)
}

/// Fourth powers are non-negative, positive away from zero, and at most
/// 625 for offsets of at most 5.
proof fn lemma_pow4_facts(d: int)
    ensures
        pow4(d) >= 0,
        d != 0 ==> pow4(d) > 0,
        -5 <= d <= 5 ==> pow4(d) <= 625,
{
    assert(pow4(d) >= 0) by (nonlinear_arith);
    assert(d != 0 ==> pow4(d) > 0) by (nonlinear_arith);
    assert(-5 <= d <= 5 ==> pow4(d) <= 625) by (nonlinear_arith);
}

/// What every term of a window satisfies when the centre is not drawn and
/// all drawn values are brightness levels.
pub open spec fn valid_terms(terms: Seq<KernelTerm>) -> bool {
    forall|i: int|
        0 <= i < terms.len() ==> (#[trigger] terms[i]).distance > 0 && terms[i].value
            < BRIGHTNESS_LEVELS
}

proof fn lemma_term_valid(g: int, placed: Seq<usize>, x: int, y: int, r: int, a: int, b: int)
    requires
        0 <= r <= 5,
        0 <= a < 2 * r,
        0 <= b < 2 * r,
        neighbour(g, placed, x, y) == GridPixel::Empty,
        forall|i: int| 0 <= i < placed.len() ==> #[trigger] placed[i] < BRIGHTNESS_LEVELS,
    ensures
        valid_terms(term_at(g, placed, x, y, r, a, b)),
{
    lemma_pow4_facts(a - r);
    lemma_pow4_facts(b - r);
    let t = term_at(g, placed, x, y, r, a, b);
    let nx = x + a - r;
    let ny = y + b - r;
    if t.len() > 0 {
        assert(on_canvas(g, nx, ny));
        lemma_order_index_range(g, nx, ny);
        assert(a != r || b != r);
        assert(0 < pow4(a - r) + pow4(b - r) <= 1250);
        assert(t[0].distance > 0);
        assert(t[0].value < BRIGHTNESS_LEVELS);
    }
}

proof fn lemma_row_valid(g: int, placed: Seq<usize>, x: int, y: int, r: int, a: int, b: int)
    requires
        0 <= r <= 5,
        0 <= a < 2 * r,
        b <= 2 * r,
        neighbour(g, placed, x, y) == GridPixel::Empty,
        forall|i: int| 0 <= i < placed.len() ==> #[trigger] placed[i] < BRIGHTNESS_LEVELS,
    ensures
        valid_terms(kernel_row(g, placed, x, y, r, a, b)),
    decreases b,
{
    if b > 0 {
        lemma_row_valid(g, placed, x, y, r, a, b - 1);
        lemma_term_valid(g, placed, x, y, r, a, b - 1);
        let p = kernel_row(g, placed, x, y, r, a, b - 1);
        let q = term_at(g, placed, x, y, r, a, b - 1);
        assert forall|i: int| 0 <= i < (p + q).len() implies (#[trigger] (p + q)[i]).distance > 0
            && (p + q)[i].value < BRIGHTNESS_LEVELS by {
            if i < p.len() {
                assert((p + q)[i] == p[i]);
            } else {
                assert((p + q)[i] == q[i - p.len()]);
            }
        }
    }
}

proof fn lemma_rows_valid(g: int, placed: Seq<usize>, x: int, y: int, r: int, a: int)
    requires
        0 <= r <= 5,
        a <= 2 * r,
        neighbour(g, placed, x, y) == GridPixel::Empty,
        forall|i: int| 0 <= i < placed.len() ==> #[trigger] placed[i] < BRIGHTNESS_LEVELS,
    ensures
        valid_terms(kernel_rows(g, placed, x, y, r, a)),
    decreases a,
{
    if a > 0 {
        lemma_rows_valid(g, placed, x, y, r, a - 1);
        lemma_row_valid(g, placed, x, y, r, a - 1, 2 * r);
        let p = kernel_rows(g, placed, x, y, r, a - 1);
        let q = kernel_row(g, placed, x, y, r, a - 1, 2 * r);
        assert forall|i: int| 0 <= i < (p + q).len() implies (#[trigger] (p + q)[i]).distance > 0
            && (p + q)[i].value < BRIGHTNESS_LEVELS by {
            if i < p.len() {
                assert((p + q)[i] == p[i]);
            } else {
                assert((p + q)[i] == q[i - p.len()]);
            }
        }
    }
}

/// The neighbourhood of a cell that is not drawn yet never contains the
/// cell itself: every term has a positive distance, so every weight
/// `1 / distance` is defined, and every value is a brightness level.
pub proof fn lemma_kernel_terms_valid(g: int, placed: Seq<usize>, x: int, y: int, r: int)
    requires
        0 <= r <= 5,
        neighbour(g, placed, x, y) == GridPixel::Empty,
        forall|i: int| 0 <= i < placed.len() ==> #[trigger] placed[i] < BRIGHTNESS_LEVELS,
    ensures
        valid_terms(kernel_terms(g, placed, x, y, r)),
{
    lemma_rows_valid(g, placed, x, y, r, 2 * r);
}

/// Reading an image replays its drawing: in the text of a complete canvas of
/// `n` rows, the cell that layer `g` draws at rank `k` shows the value drawn
/// at position `layer_start(g) + k`. A reader that asks for the cells in
/// drawing order and draws the level it reads at each therefore draws the
/// same values in the same order; as a request depends only on the values
/// drawn before it (`is_request_for`), it is asked the same requests.
pub proof fn lemma_reading_replays_drawing(n: int, placed: Seq<usize>, g: int, k: int)
    requires
        1 <= g <= n,
        0 <= k < layer_len(g),
        placed.len() == 2 * n * n,
        forall|i: int| 0 <= i < placed.len() ==> #[trigger] placed[i] < BRIGHTNESS_LEVELS,
    ensures
        image_size(image_text(n, placed)) == n,
        on_canvas(n, layer_cell(g, k).0, layer_cell(g, k).1),
        reference_level(image_text(n, placed), layer_cell(g, k).0, layer_cell(g, k).1)
            == placed[layer_start(g) + k],
{
    lemma_drawing_order_is_bijection(n);
    lemma_image_reads_back(n, placed);
    lemma_layer_cell_inverse(g, k);
}

/// A canvas drawn with a prefix of the values shows the same cells: the
/// first `n` values show every cell drawn before position `n` as the full
/// sequence does, and leave the later cells empty.
pub proof fn lemma_prefix_shows_same_cells(placed: Seq<usize>, n: int, x: int, y: int)
    requires
        0 <= n <= placed.len(),
        x >= 0,
        y >= 0,
    ensures
        pixel_at(placed.take(n), x, y) == if order_index(x, y) < n {
            pixel_at(placed, x, y)
        } else {
            GridPixel::Empty
        },
{
    lemma_cell_in_layer(x, y);
    lemma_order_index_range(cell_layer(x, y), x, y);
}

/// A larger image extends a smaller one: when `placed` fills a canvas of `n`
/// rows, the image of its first `2 * m * m` values, for `m <= n`, shows at
/// every cell of its `m` rows the level that the image of all values shows
/// there.
pub proof fn lemma_larger_image_extends(m: int, n: int, placed: Seq<usize>)
    requires
        0 <= m <= n,
        placed.len() == 2 * n * n,
        forall|i: int| 0 <= i < placed.len() ==> #[trigger] placed[i] < BRIGHTNESS_LEVELS,
    ensures
        forall|x: int, y: int|
            on_canvas(m, x, y) ==> #[trigger] reference_level(
                image_text(m, placed.take(2 * m * m)),
                x,
                y,
            ) == reference_level(image_text(n, placed), x, y),
{
    assert(2 * m * m <= 2 * n * n) by (nonlinear_arith)
        requires
            0 <= m <= n,
    ;
    assert(2 * m * m >= 0) by (nonlinear_arith)
        requires
            0 <= m,
    ;
    let small = placed.take(2 * m * m);
    lemma_drawing_order_is_bijection(m);
    lemma_drawing_order_is_bijection(n);
    assert forall|i: int| 0 <= i < small.len() implies #[trigger] small[i] < BRIGHTNESS_LEVELS by {
        assert(small[i] == placed[i]);
    }
    lemma_image_reads_back(m, small);
    lemma_image_reads_back(n, placed);
    assert forall|x: int, y: int| on_canvas(m, x, y) implies #[trigger] reference_level(
        image_text(m, small),
        x,
        y,
    ) == reference_level(image_text(n, placed), x, y) by {
        assert(on_canvas(n, x, y));
        assert(small[order_index(x, y)] == placed[order_index(x, y)]);
    }
}

/// The number of values drawn fixes where drawing stands: two positions
/// `(layer, rank)` within their layers with the same number of cells drawn
/// before them are the same position.
pub proof fn lemma_drawn_count_fixes_position(g1: int, k1: int, g2: int, k2: int)
    requires
        g1 >= 1,
        g2 >= 1,
        0 <= k1 < layer_len(g1),
        0 <= k2 < layer_len(g2),
        drawn_cells(g1, k1) == drawn_cells(g2, k2),
    ensures
        g1 == g2,
        k1 == k2,
{
    if g1 < g2 {
        lemma_layer_start_monotone(g1, g2);
    } else if g2 < g1 {
        lemma_layer_start_monotone(g2, g1);
    }
}

/// Requests depend only on the values drawn: two requests made after the
/// same values, at positions with as many cells drawn before them as there
/// are values, ask for the same cell with the same neighbours and counts. So
/// neither the size that drawing aims for nor the art's data bits change
/// any request.
pub proof fn lemma_requests_depend_only_on_values(
    r1: CellRequest,
    g1: int,
    k1: int,
    r2: CellRequest,
    g2: int,
    k2: int,
    placed: Seq<usize>,
)
    requires
        g1 >= 1,
        g2 >= 1,
        0 <= k1 < layer_len(g1),
        0 <= k2 < layer_len(g2),
        placed.len() == drawn_cells(g1, k1),
        placed.len() == drawn_cells(g2, k2),
        is_request_for(r1, g1, k1, placed),
        is_request_for(r2, g2, k2, placed),
    ensures
        r1.x == r2.x,
        r1.y == r2.y,
        r1.terms@ == r2.terms@,
        r1.total_tiles == r2.total_tiles,
        r1.total_empty == r2.total_empty,
{
    lemma_drawn_count_fixes_position(g1, k1, g2, k2);
}

/// The values of `s` that are the blank level 0, in order.
pub open spec fn blank_values(s: Seq<usize>) -> Seq<usize> {
    s.filter(|v: usize| v == 0)
}

/// Only level 0 is blank: the blank count of a sequence of values is the
/// number of its values equal to 0.
pub proof fn lemma_count_blank_counts_zeros(s: Seq<usize>)
    ensures
        count_blank(s) == blank_values(s).len(),
    decreases s.len(),
{
    reveal(Seq::filter);
    if s.len() > 0 {
        lemma_count_blank_counts_zeros(s.drop_last());
    }
}

/// The cell at offset `(dx, dy)` from `(x, y)`, as a neighbourhood sees it.
pub open spec fn offset_pixel(g: int, placed: Seq<usize>, x: int, y: int, dx: int, dy: int) -> GridPixel {
    neighbour(g, placed, x + dx, y + dy)
}

/// The value held by a drawn cell.
pub open spec fn drawn_value(p: GridPixel) -> usize {
    match p {
        GridPixel::Val(v) => v,
        GridPixel::Empty => 0,
    }
}

/// The term for the drawn neighbour at offset `(dx, dy)`: its value, weighed
/// by the distance `dx^4 + dy^4`.
pub open spec fn neighbour_term(g: int, placed: Seq<usize>, x: int, y: int, dx: int, dy: int) -> KernelTerm {
    KernelTerm {
        value: drawn_value(offset_pixel(g, placed, x, y, dx, dy)),
        distance: (dx * dx * dx * dx + dy * dy * dy * dy) as usize,
    }
}

/// Whether the offset `(dx, dy)` lies in the window of radius `r`: both
/// components in `-r .. r`.
pub open spec fn in_window(r: int, dx: int, dy: int) -> bool {
    -r <= dx < r && -r <= dy < r
}

/// Number of drawn cells at offsets `(dx, dy)` with `dy` in `-r .. n - r`.
pub open spec fn drawn_in_column(g: int, placed: Seq<usize>, x: int, y: int, r: int, dx: int, n: int) -> nat
    decreases n,
{
    if n <= 0 {
        0
    } else {
        drawn_in_column(g, placed, x, y, r, dx, n - 1) + if offset_pixel(
            g,
            placed,
            x,
            y,
            dx,
            n - 1 - r,
        ) is Val {
            1nat
        } else {
            0nat
        }
    }
}

/// Number of drawn cells at offsets in the window with `dx` in `-r .. m - r`.
pub open spec fn drawn_in_columns(g: int, placed: Seq<usize>, x: int, y: int, r: int, m: int) -> nat
    decreases m,
{
    if m <= 0 {
        0
    } else {
        drawn_in_columns(g, placed, x, y, r, m - 1) + drawn_in_column(
            g,
            placed,
            x,
            y,
            r,
            m - 1 - r,
            2 * r,
        )
    }
}

/// Number of drawn cells in the window of radius `r` around `(x, y)`.
pub open spec fn drawn_in_window(g: int, placed: Seq<usize>, x: int, y: int, r: int) -> nat {
    drawn_in_columns(g, placed, x, y, r, 2 * r)
}

/// Whether `t` occurs in `terms`.
pub open spec fn holds_term(terms: Seq<KernelTerm>, t: KernelTerm) -> bool {
    exists|i: int| 0 <= i < terms.len() && terms[i] == t
}

/// Whether `t` is the term of a drawn cell at an offset `(dx, dy)` with `dx`
/// in `-r .. m - r` and `dy` in `-r .. n - r`.
pub open spec fn drawn_term_within(
    g: int,
    placed: Seq<usize>,
    x: int,
    y: int,
    r: int,
    m: int,
    n: int,
    t: KernelTerm,
) -> bool {
    exists|dx: int, dy: int|
        -r <= dx < m - r && -r <= dy < n - r && #[trigger] offset_pixel(g, placed, x, y, dx, dy) is Val
            && t == neighbour_term(g, placed, x, y, dx, dy)
}

/// `terms` lists the drawn neighbours of `(x, y)` in the window of radius
/// `r`: every drawn cell of the window at offset `(dx, dy)` appears with its
/// value and distance `dx^4 + dy^4`, every term is such a cell, and there
/// are exactly as many terms as drawn cells in the window.
pub open spec fn lists_drawn_neighbours(
    terms: Seq<KernelTerm>,
    g: int,
    placed: Seq<usize>,
    x: int,
    y: int,
    r: int,
) -> bool {
    &&& forall|dx: int, dy: int|
        in_window(r, dx, dy) && #[trigger] offset_pixel(g, placed, x, y, dx, dy) is Val ==> holds_term(
            terms,
            neighbour_term(g, placed, x, y, dx, dy),
        )
    &&& forall|i: int|
        0 <= i < terms.len() ==> drawn_term_within(g, placed, x, y, r, 2 * r, 2 * r, #[trigger] terms[i])
    &&& terms.len() == drawn_in_window(g, placed, x, y, r)
}

proof fn lemma_row_lists(g: int, placed: Seq<usize>, x: int, y: int, r: int, a: int, b: int)
    requires
        0 <= b,
    ensures
        forall|dy: int|
            -r <= dy < b - r && #[trigger] offset_pixel(g, placed, x, y, a - r, dy) is Val ==> holds_term(
                kernel_row(g, placed, x, y, r, a, b),
                neighbour_term(g, placed, x, y, a - r, dy),
            ),
        forall|i: int|
            0 <= i < kernel_row(g, placed, x, y, r, a, b).len() ==> exists|dy: int|
                -r <= dy < b - r && #[trigger] offset_pixel(g, placed, x, y, a - r, dy) is Val
                    && #[trigger] kernel_row(g, placed, x, y, r, a, b)[i] == neighbour_term(
                    g,
                    placed,
                    x,
                    y,
                    a - r,
                    dy,
                ),
        kernel_row(g, placed, x, y, r, a, b).len() == drawn_in_column(g, placed, x, y, r, a - r, b),
    decreases b,
{
    if b > 0 {
        lemma_row_lists(g, placed, x, y, r, a, b - 1);
        let dx = a - r;
        let prev = kernel_row(g, placed, x, y, r, a, b - 1);
        let t = term_at(g, placed, x, y, r, a, b - 1);
        let row = kernel_row(g, placed, x, y, r, a, b);
        let dy0 = b - 1 - r;
        assert(row == prev + t);
        assert(offset_pixel(g, placed, x, y, dx, dy0) == neighbour(g, placed, x + a - r, y + (b - 1) - r));
        if offset_pixel(g, placed, x, y, dx, dy0) is Val {
            assert(t.len() == 1);
            assert(t[0] == neighbour_term(g, placed, x, y, dx, dy0));
        } else {
            assert(t.len() == 0);
        }
        assert forall|dy: int|
            -r <= dy < b - r && #[trigger] offset_pixel(g, placed, x, y, dx, dy) is Val implies holds_term(
                row,
                neighbour_term(g, placed, x, y, dx, dy),
            ) by {
            if dy < dy0 {
                assert(holds_term(prev, neighbour_term(g, placed, x, y, dx, dy)));
                let i = choose|i: int|
                    0 <= i < prev.len() && prev[i] == neighbour_term(g, placed, x, y, dx, dy);
                assert(row[i] == prev[i]);
            } else {
                assert(row[prev.len() as int] == t[0]);
            }
        }
        assert forall|i: int| 0 <= i < row.len() implies exists|dy: int|
            -r <= dy < b - r && #[trigger] offset_pixel(g, placed, x, y, dx, dy) is Val
                && #[trigger] row[i] == neighbour_term(g, placed, x, y, dx, dy) by {
            if i < prev.len() {
                assert(row[i] == prev[i]);
                let dy = choose|dy: int|
                    -r <= dy < b - 1 - r && #[trigger] offset_pixel(g, placed, x, y, dx, dy) is Val
                        && #[trigger] prev[i] == neighbour_term(g, placed, x, y, dx, dy);
                assert(offset_pixel(g, placed, x, y, dx, dy) is Val);
            } else {
                assert(row[i] == t[0]);
                assert(offset_pixel(g, placed, x, y, dx, dy0) is Val);
            }
        }
        assert(row.len() == drawn_in_column(g, placed, x, y, r, dx, b));
    }
}

proof fn lemma_rows_lists(g: int, placed: Seq<usize>, x: int, y: int, r: int, m: int)
    requires
        0 <= m,
        0 <= r,
    ensures
        forall|dx: int, dy: int|
            -r <= dx < m - r && -r <= dy < r && #[trigger] offset_pixel(g, placed, x, y, dx, dy)
                is Val ==> holds_term(
                kernel_rows(g, placed, x, y, r, m),
                neighbour_term(g, placed, x, y, dx, dy),
            ),
        forall|i: int|
            0 <= i < kernel_rows(g, placed, x, y, r, m).len() ==> drawn_term_within(
                g,
                placed,
                x,
                y,
                r,
                m,
                2 * r,
                #[trigger] kernel_rows(g, placed, x, y, r, m)[i],
            ),
        kernel_rows(g, placed, x, y, r, m).len() == drawn_in_columns(g, placed, x, y, r, m),
    decreases m,
{
    if m > 0 {
        lemma_rows_lists(g, placed, x, y, r, m - 1);
        lemma_row_lists(g, placed, x, y, r, m - 1, 2 * r);
        let prev = kernel_rows(g, placed, x, y, r, m - 1);
        let row = kernel_row(g, placed, x, y, r, m - 1, 2 * r);
        let rows = kernel_rows(g, placed, x, y, r, m);
        let dx0 = m - 1 - r;
        assert(rows == prev + row);
        assert forall|dx: int, dy: int|
            -r <= dx < m - r && -r <= dy < r && #[trigger] offset_pixel(g, placed, x, y, dx, dy)
                is Val implies holds_term(rows, neighbour_term(g, placed, x, y, dx, dy)) by {
            if dx < dx0 {
                assert(holds_term(prev, neighbour_term(g, placed, x, y, dx, dy)));
                let i = choose|i: int|
                    0 <= i < prev.len() && prev[i] == neighbour_term(g, placed, x, y, dx, dy);
                assert(rows[i] == prev[i]);
            } else {
                assert(dx == dx0);
                assert(-r <= dy < 2 * r - r);
                assert(holds_term(row, neighbour_term(g, placed, x, y, dx0, dy)));
                let j = choose|j: int|
                    0 <= j < row.len() && row[j] == neighbour_term(g, placed, x, y, dx0, dy);
                assert(rows[prev.len() + j] == row[j]);
            }
        }
        assert forall|i: int| 0 <= i < rows.len() implies drawn_term_within(
            g,
            placed,
            x,
            y,
            r,
            m,
            2 * r,
            #[trigger] rows[i],
        ) by {
            if i < prev.len() {
                assert(rows[i] == prev[i]);
                assert(drawn_term_within(g, placed, x, y, r, m - 1, 2 * r, prev[i]));
                let (dx, dy) = choose|dx: int, dy: int|
                    -r <= dx < m - 1 - r && -r <= dy < 2 * r - r && #[trigger] offset_pixel(
                        g,
                        placed,
                        x,
                        y,
                        dx,
                        dy,
                    ) is Val && prev[i] == neighbour_term(g, placed, x, y, dx, dy);
                assert(offset_pixel(g, placed, x, y, dx, dy) is Val);
            } else {
                let j = i - prev.len();
                assert(rows[i] == row[j]);
                let dy = choose|dy: int|
                    -r <= dy < 2 * r - r && #[trigger] offset_pixel(g, placed, x, y, dx0, dy) is Val
                        && #[trigger] row[j] == neighbour_term(g, placed, x, y, dx0, dy);
                assert(offset_pixel(g, placed, x, y, dx0, dy) is Val);
            }
        }
        assert(row.len() == drawn_in_column(g, placed, x, y, r, dx0, 2 * r));
        assert(rows.len() == drawn_in_columns(g, placed, x, y, r, m));
    } else {
        assert(kernel_rows(g, placed, x, y, r, m).len() == 0);
        assert(drawn_in_columns(g, placed, x, y, r, m) == 0);
    }
}

/// The neighbourhood of a cell lists its drawn neighbours: every drawn cell
/// at an offset `(dx, dy)` with both components in `-r .. r` (diagonals
/// included) appears with its value and distance `dx^4 + dy^4`, nothing
/// else appears, and there are exactly as many terms as drawn cells there.
pub proof fn lemma_kernel_terms_list_drawn_neighbours(
    g: int,
    placed: Seq<usize>,
    x: int,
    y: int,
    r: int,
)
    requires
        0 <= r,
    ensures
        lists_drawn_neighbours(kernel_terms(g, placed, x, y, r), g, placed, x, y, r),
{
    lemma_rows_lists(g, placed, x, y, r, 2 * r);
}

/// What the art asks for before drawing a cell: the cell, its drawn
/// neighbours, and how many cells are drawn and blank so far.
pub struct CellRequest {
    pub x: usize,
    pub y: usize,
    pub terms: Vec<KernelTerm>,
    pub total_empty: usize,
    pub total_tiles: usize,
}

/// `req` asks for the `k`-th cell of layer `g` after the values `placed`.
pub open spec fn is_request_for(req: CellRequest, g: int, k: int, placed: Seq<usize>) -> bool {
    let cell = layer_cell(g, k);
    &&& req.x == cell.0
    &&& req.y == cell.1
    &&& req.terms@ == kernel_terms(g, placed, cell.0, cell.1, kernel_radius(g, k))
    &&& req.total_tiles == placed.len()
    &&& req.total_empty == count_blank(placed)
}

/// A canvas of `2 * g` columns and `g` rows that is drawn cell by cell in
/// drawing order, growing one layer at a time.
pub struct EncodingArt {
    data_bits: usize,
    grid: Vec<Vec<GridPixel>>,
    grid_size: usize,
    layer_filled: usize,
    total_tiles: usize,
    total_empty: usize,
    placed: Ghost<Seq<usize>>,
}

/// A column of `n` empty cells.
fn empty_column(n: usize) -> (col: Vec<GridPixel>)
    ensures
        col@.len() == n,
        forall|i: int| 0 <= i < n ==> #[trigger] col@[i] == GridPixel::Empty,
{
    let mut col: Vec<GridPixel> = Vec::new();
    let mut i: usize = 0;
    while i < n
        invariant
            i <= n,
            col@.len() == i,
            forall|j: int| 0 <= j < i ==> #[trigger] col@[j] == GridPixel::Empty,
        decreases n - i,
    {
        col.push(GridPixel::Empty);
        i = i + 1;
    }
    col
}

/// Appends an empty cell to every column of `grid`.
fn extend_columns(grid: &mut Vec<Vec<GridPixel>>)
    ensures
        final(grid)@.len() == old(grid)@.len(),
        forall|x: int|
            0 <= x < old(grid)@.len() ==> #[trigger] final(grid)@[x]@ == old(grid)@[x]@.push(
                GridPixel::Empty,
            ),
{
    let ghost start = grid@;
    let mut i: usize = 0;
    while i < grid.len()
        invariant
            grid@.len() == start.len(),
            i <= grid@.len(),
            forall|x: int| 0 <= x < i ==> #[trigger] grid@[x]@ == start[x]@.push(GridPixel::Empty),
            forall|x: int| i <= x < start.len() ==> #[trigger] grid@[x] == start[x],
        decreases grid@.len() - i,
    {
        grid[i].push(GridPixel::Empty);
        i = i + 1;
    }
}

/// Sets the cell at column `x`, row `y` of `grid` to `p`.
fn set_cell(grid: &mut Vec<Vec<GridPixel>>, x: usize, y: usize, p: GridPixel)
    requires
        x < old(grid)@.len(),
        y < old(grid)@[x as int]@.len(),
    ensures
        final(grid)@.len() == old(grid)@.len(),
        final(grid)@[x as int]@ == old(grid)@[x as int]@.update(y as int, p),
        forall|x2: int|
            0 <= x2 < old(grid)@.len() && x2 != x ==> #[trigger] final(grid)@[x2] == old(grid)@[x2],
{
    grid[x].set(y, p);
}

/// Appends `n` horizontal border characters to `s`.
fn append_border(s: &mut String, n: usize)
    ensures
        final(s)@ == old(s)@ + border(n as int),
{
    let ghost start = s@;
    proof {
        reveal_strlit("─");
    }
    let mut i: usize = 0;
    while i < n
        invariant
            i <= n,
            s@ == start + border(i as int),
        decreases n - i,
    {
        proof {
            reveal_strlit("─");
        }
        s.append("─");
        i = i + 1;
        assert(s@ =~= start + border(i as int));
    }
}

/// `offset - r` to the fourth power, for an offset within the window.
fn offset_pow4(offset: usize, r: usize) -> (p: usize)
    requires
        r <= 5,
        offset < 2 * r,
    ensures
        p == pow4(offset - r),
        p <= 625,
{
    let d: usize = if offset >= r {
        offset - r
    } else {
        r - offset
    };
    assert(d * d <= 25 && d * d * d <= 125) by (nonlinear_arith)
        requires
            d <= 5,
    ;
    assert(d * d * d * d <= 625) by (nonlinear_arith)
        requires
            d <= 5,
    ;
    assert(pow4(offset - r) == d * d * d * d) by (nonlinear_arith)
        requires
            d == offset - r || d == r - offset,
    ;
    d * d * d * d
}

impl EncodingArt {
    /// Number of rows of the canvas.
    pub closed spec fn size(&self) -> nat {
        self.grid_size as nat
    }

    /// Number of cells drawn in the last layer.
    pub closed spec fn layer_filled(&self) -> nat {
        self.layer_filled as nat
    }

    /// The values drawn so far, in drawing order.
    pub closed spec fn placed(&self) -> Seq<usize> {
        self.placed@
    }

    /// The number of data bits the art was made with.
    pub closed spec fn data_bits_spec(&self) -> usize {
        self.data_bits
    }

    /// Whether the last layer is complete (or there is none yet).
    pub open spec fn layer_done(&self) -> bool {
        self.size() == 0 || self.layer_filled() == layer_len(self.size() as int)
    }

    /// The cell at `(x, y)` as the canvas holds it.
    pub closed spec fn cell(&self, x: int, y: int) -> GridPixel {
        self.grid@[x]@[y]
    }

    /// The canvas holds exactly the drawn values at their positions, and its
    /// counts agree with them.
    pub closed spec fn wf(&self) -> bool {
        &&& canvas_fits(self.grid_size as int)
        &&& self.grid@.len() == 2 * self.grid_size
        &&& forall|x: int|
            0 <= x < self.grid@.len() ==> #[trigger] self.grid@[x]@.len() == self.grid_size
        &&& forall|x: int, y: int|
            on_canvas(self.grid_size as int, x, y) ==> #[trigger] self.grid@[x]@[y] == pixel_at(
                self.placed@,
                x,
                y,
            )
        &&& (self.grid_size == 0 ==> self.layer_filled == 0)
        &&& (self.grid_size > 0 ==> self.layer_filled <= layer_len(self.grid_size as int))
        &&& self.placed@.len() == drawn_cells(self.grid_size as int, self.layer_filled as int)
        &&& self.total_tiles == self.placed@.len()
        &&& self.total_empty == count_blank(self.placed@)
        &&& forall|i: int| 0 <= i < self.placed@.len() ==> #[trigger] self.placed@[i] < BRIGHTNESS_LEVELS
    }

    /// The counts of a canvas agree with its values: as many values as cells
    /// drawn, and the last layer within its length.
    pub proof fn lemma_counts(&self)
        requires
            self.wf(),
        ensures
            self.placed().len() == drawn_cells(self.size() as int, self.layer_filled() as int),
            self.size() == 0 ==> self.layer_filled() == 0,
            self.size() > 0 ==> self.layer_filled() <= layer_len(self.size() as int),
            forall|i: int|
                0 <= i < self.placed().len() ==> #[trigger] self.placed()[i] < BRIGHTNESS_LEVELS,
    {
    }

    /// A complete canvas of `n` rows holds exactly `2 * n * n` drawn values,
    /// one per cell.
    pub proof fn lemma_complete_canvas(&self)
        requires
            self.wf(),
            self.layer_done(),
        ensures
            self.placed().len() == 2 * self.size() * self.size(),
            forall|x: int, y: int|
                on_canvas(self.size() as int, x, y) ==> #[trigger] self.cell(x, y)
                    == GridPixel::Val(self.placed()[order_index(x, y)]),
    {
        let g = self.grid_size as int;
        if g > 0 {
            lemma_layer_start_closed(g + 1);
            assert(layer_start(g + 1) == layer_start(g) + layer_len(g));
        } else {
            assert(2 * g * g == 0) by (nonlinear_arith)
                requires
                    g == 0,
            ;
        }
        assert forall|x: int, y: int| on_canvas(g, x, y) implies #[trigger] self.cell(x, y)
            == GridPixel::Val(self.placed()[order_index(x, y)]) by {
            lemma_order_index_range(g, x, y);
        }
    }

    /// An empty canvas with no rows.
    pub fn new(data_bits: usize) -> (art: Self)
        ensures
            art.wf(),
            art.size() == 0,
            art.layer_filled() == 0,
            art.placed() == Seq::<usize>::empty(),
            art.data_bits_spec() == data_bits,
    {
        EncodingArt {
            data_bits,
            grid: Vec::new(),
            grid_size: 0,
            layer_filled: 0,
            total_tiles: 0,
            total_empty: 0,
            placed: Ghost(Seq::empty()),
        }
    }

    /// Number of rows of the canvas.
    pub fn grid_size(&self) -> (n: usize)
        ensures
            n == self.size(),
    {
        self.grid_size
    }

    /// The number of data bits the art was made with.
    pub fn data_bits(&self) -> (n: usize)
        ensures
            n == self.data_bits_spec(),
    {
        self.data_bits
    }

    /// Whether the last layer is complete (or there is none yet).
    pub fn is_layer_done(&self) -> (done: bool)
        requires
            self.wf(),
        ensures
            done == self.layer_done(),
    {
        proof {
            lemma_canvas_fits_bounds(self.grid_size as int);
        }
        self.grid_size == 0 || self.layer_filled == 4 * self.grid_size - 2
    }

    /// Adds a layer: one empty row at the bottom and two empty columns at the right.
    fn grow(&mut self)
        requires
            old(self).wf(),
            old(self).layer_done(),
            canvas_fits(old(self).size() + 1int),
        ensures
            final(self).wf(),
            final(self).size() == old(self).size() + 1,
            final(self).layer_filled() == 0,
            final(self).placed() == old(self).placed(),
            final(self).data_bits_spec() == old(self).data_bits_spec(),
    {
        let g = self.grid_size;
        let ghost old_grid = self.grid@;
        extend_columns(&mut self.grid);
        let c1 = empty_column(g + 1);
        let c2 = empty_column(g + 1);
        self.grid.push(c1);
        self.grid.push(c2);
        self.grid_size = g + 1;
        self.layer_filled = 0;
        proof {
            let placed = self.placed@;
            assert(placed.len() == layer_start(g + 1));
            assert forall|x: int, y: int| on_canvas(g + 1, x, y) implies #[trigger] self.grid@[x]@[y]
                == pixel_at(placed, x, y) by {
                lemma_order_index_range(g + 1, x, y);
                if on_canvas(g as int, x, y) {
                    assert(self.grid@[x]@[y] == old_grid[x]@[y]);
                } else {
                    assert(self.grid@[x]@[y] == GridPixel::Empty);
                }
            }
            assert forall|x: int| 0 <= x < self.grid@.len() implies #[trigger] self.grid@[x]@.len()
                == g + 1 by {
                if x < 2 * g {
                    assert(self.grid@[x]@ == old_grid[x]@.push(GridPixel::Empty));
                }
            }
        }
    }

    /// The drawn neighbours of `(x, y)` within radius `r`, as `kernel_terms`.
    fn gather_terms(&self, x: usize, y: usize, r: usize) -> (terms: Vec<KernelTerm>)
        requires
            self.wf(),
            1 <= r <= 5,
            x + 16 <= usize::MAX,
            y + 16 <= usize::MAX,
        ensures
            terms@ == kernel_terms(self.size() as int, self.placed(), x as int, y as int, r as int),
    {
        let ghost g = self.grid_size as int;
        let ghost placed = self.placed@;
        let mut terms: Vec<KernelTerm> = Vec::new();
        let w = 2 * r;
        let mut a: usize = 0;
        while a < w
            invariant
                self.wf(),
                g == self.grid_size,
                placed == self.placed@,
                1 <= r <= 5,
                w == 2 * r,
                a <= w,
                x + 16 <= usize::MAX,
                y + 16 <= usize::MAX,
                terms@ == kernel_rows(g, placed, x as int, y as int, r as int, a as int),
            decreases w - a,
        {
            let mut b: usize = 0;
            while b < w
                invariant
                    self.wf(),
                    g == self.grid_size,
                    placed == self.placed@,
                    1 <= r <= 5,
                    w == 2 * r,
                    a < w,
                    b <= w,
                    x + 16 <= usize::MAX,
                    y + 16 <= usize::MAX,
                    terms@ == kernel_rows(g, placed, x as int, y as int, r as int, a as int)
                        + kernel_row(g, placed, x as int, y as int, r as int, a as int, b as int),
                decreases w - b,
            {
                let ghost before = terms@;
                if x + a >= r && y + b >= r {
                    let nx = x + a - r;
                    let ny = y + b - r;
                    if nx < self.grid.len() && ny < self.grid[nx].len() {
                        assert(on_canvas(g, nx as int, ny as int));
                        match self.grid[nx][ny] {
                            GridPixel::Val(v) => {
                                let d = offset_pow4(a, r) + offset_pow4(b, r);
                                terms.push(KernelTerm { value: v, distance: d });
                            },
                            GridPixel::Empty => {},
                        }
                    }
                }
                assert(terms@ == before + term_at(
                    g,
                    placed,
                    x as int,
                    y as int,
                    r as int,
                    a as int,
                    b as int,
                ));
                b = b + 1;
                assert(terms@ == kernel_rows(g, placed, x as int, y as int, r as int, a as int)
                    + kernel_row(g, placed, x as int, y as int, r as int, a as int, b as int));
            }
            a = a + 1;
            assert(terms@ == kernel_rows(g, placed, x as int, y as int, r as int, a as int));
        }
        terms
    }

    /// Moves to the next cell to draw, growing the canvas by a layer when the
    /// last one is complete and it has fewer than `size` rows, and returns
    /// what is needed to choose that cell's brightness; `None` when the
    /// canvas is complete at `size` rows or more.
    pub fn next_cell(&mut self, size: usize) -> (req: Option<CellRequest>)
        requires
            old(self).wf(),
            canvas_fits(size as int),
        ensures
            final(self).wf(),
            final(self).placed() == old(self).placed(),
            final(self).data_bits_spec() == old(self).data_bits_spec(),
            old(self).layer_done() && old(self).size() >= size ==> {
                &&& req is None
                &&& final(self).size() == old(self).size()
                &&& final(self).layer_filled() == old(self).layer_filled()
            },
            !(old(self).layer_done() && old(self).size() >= size) ==> {
                &&& final(self).size() == if old(self).layer_done() {
                    old(self).size() + 1
                } else {
                    old(self).size()
                }
                &&& final(self).layer_filled() == if old(self).layer_done() {
                    0
                } else {
                    old(self).layer_filled()
                }
                &&& !final(self).layer_done()
                &&& req matches Some(r) && is_request_for(
                    r,
                    final(self).size() as int,
                    final(self).layer_filled() as int,
                    final(self).placed(),
                )
            },
            req matches Some(r) ==> valid_terms(r.terms@),
            req matches Some(r) ==> lists_drawn_neighbours(
                r.terms@,
                final(self).size() as int,
                final(self).placed(),
                r.x as int,
                r.y as int,
                kernel_radius(final(self).size() as int, final(self).layer_filled() as int),
            ),
            req matches Some(r) ==> r.total_tiles == final(self).placed().len() && r.total_empty
                == blank_values(final(self).placed()).len(),
    {
        if self.is_layer_done() {
            if self.grid_size >= size {
                return None;
            }
            proof {
                lemma_canvas_fits_monotone(self.grid_size + 1int, size as int);
            }
            self.grow();
        }
        let g = self.grid_size;
        let k = self.layer_filled;
        let (x, y) = layer_cell_at(g, k);
        let r = kernel_radius_at(g, k);
        proof {
            lemma_layer_cell_inverse(g as int, k as int);
            lemma_kernel_terms_valid(g as int, self.placed@, x as int, y as int, r as int);
            lemma_canvas_fits_bounds(g as int);
            lemma_kernel_terms_list_drawn_neighbours(g as int, self.placed@, x as int, y as int, r as int);
            lemma_count_blank_counts_zeros(self.placed@);
        }
        let terms = self.gather_terms(x, y, r);
        Some(CellRequest { x, y, terms, total_empty: self.total_empty, total_tiles: self.total_tiles })
    }

    /// The text of the complete canvas: a rounded frame of `2 * size` columns
    /// and `size` rows around one pixel character per cell.
    pub fn render_image(&self) -> (text: String)
        requires
            self.wf(),
            self.layer_done(),
        ensures
            text@ == image_text(self.size() as int, self.placed()),
    {
        let g = self.grid_size;
        let w = 2 * g;
        let ghost placed = self.placed@;
        proof {
            reveal_strlit("╭");
            reveal_strlit("╮\n");
            reveal_strlit("│");
            reveal_strlit("│\n");
            reveal_strlit("╰");
            reveal_strlit("╯");
            if g > 0 {
                assert(placed.len() == layer_start(g as int) + layer_len(g as int));
            }
        }
        let mut s = String::new();
        s.append("╭");
        append_border(&mut s, w);
        s.append("╮\n");
        assert(s@ =~= top_line(g as int) + seq!['\n'] + body_lines(g as int, placed, 0));
        let mut y: usize = 0;
        while y < g
            invariant
                self.wf(),
                self.layer_done(),
                placed == self.placed@,
                g == self.grid_size,
                w == 2 * g,
                y <= g,
                g > 0 ==> placed.len() == layer_start(g as int) + layer_len(g as int),
                s@ == top_line(g as int) + seq!['\n'] + body_lines(g as int, placed, y as int),
            decreases g - y,
        {
            proof {
                reveal_strlit("│");
                reveal_strlit("│\n");
            }
            let ghost row_start = s@;
            s.append("│");
            assert(s@ =~= row_start + seq!['│'] + pixel_row(placed, y as int, 0));
            let mut x: usize = 0;
            while x < w
                invariant
                    self.wf(),
                    placed == self.placed@,
                    g == self.grid_size,
                    w == 2 * g,
                    x <= w,
                    y < g,
                    placed.len() == layer_start(g as int) + layer_len(g as int),
                    s@ == row_start + seq!['│'] + pixel_row(placed, y as int, x as int),
                decreases w - x,
            {
                proof {
                    lemma_order_index_range(g as int, x as int, y as int);
                }
                let level = match self.grid[x][y] {
                    GridPixel::Val(v) => v,
                    GridPixel::Empty => {
                        proof {
                            assert(false);
                        }
                        0
                    },
                };
                assert(level as int == level_at(placed, x as int, y as int));
                s.append(pixel_str(level));
                x = x + 1;
                assert(s@ =~= row_start + seq!['│'] + pixel_row(placed, y as int, x as int));
            }
            s.append("│\n");
            y = y + 1;
            assert(s@ =~= top_line(g as int) + seq!['\n'] + body_lines(g as int, placed, y as int));
        }
        let ghost before_bottom = s@;
        s.append("╰");
        append_border(&mut s, w);
        s.append("╯");
        assert(s@ =~= before_bottom + bottom_line(g as int));
        s
    }

    /// Draws `brightness` into the next cell of the current layer.
    pub fn place(&mut self, brightness: usize)
        requires
            old(self).wf(),
            !old(self).layer_done(),
            brightness < BRIGHTNESS_LEVELS,
        ensures
            final(self).wf(),
            final(self).size() == old(self).size(),
            final(self).layer_filled() == old(self).layer_filled() + 1,
            final(self).placed() == old(self).placed().push(brightness),
            final(self).data_bits_spec() == old(self).data_bits_spec(),
    {
        let g = self.grid_size;
        let k = self.layer_filled;
        let (x, y) = layer_cell_at(g, k);
        proof {
            lemma_count_blank_bound(self.placed@);
            lemma_layer_cell_inverse(g as int, k as int);
            lemma_layer_start_closed(g as int + 1);
            lemma_canvas_fits_bounds(g as int);
        }
        let ghost old_grid = self.grid@;
        let ghost old_placed = self.placed@;
        set_cell(&mut self.grid, x, y, GridPixel::Val(brightness));
        self.placed = Ghost(self.placed@.push(brightness));
        self.layer_filled = k + 1;
        self.total_tiles = self.total_tiles + 1;
        if brightness == 0 {
            self.total_empty = self.total_empty + 1;
        }
        proof {
            let placed = self.placed@;
            assert(placed.drop_last() == old_placed);
            assert(order_index(x as int, y as int) == old_placed.len());
            assert(self.grid@[x as int]@[y as int] == GridPixel::Val(brightness));
            assert(pixel_at(placed, x as int, y as int) == GridPixel::Val(brightness));
            assert forall|i: int| 0 <= i < placed.len() implies #[trigger] placed[i] < BRIGHTNESS_LEVELS by {
                if i < old_placed.len() {
                    assert(placed[i] == old_placed[i]);
                }
            }
            assert forall|x2: int, y2: int| on_canvas(g as int, x2, y2) implies #[trigger] self.grid@[x2]@[y2]
                == pixel_at(placed, x2, y2) by {
                if x2 == x && y2 == y {
                } else {
                    if order_index(x2, y2) == order_index(x as int, y as int) {
                        lemma_order_index_injective(x2, y2, x as int, y as int);
                    }
                    assert(self.grid@[x2]@[y2] == old_grid[x2]@[y2]);
                    assert(old_grid[x2]@[y2] == pixel_at(old_placed, x2, y2));
                    let t = order_index(x2, y2);
                    lemma_order_index_range(g as int, x2, y2);
                    if t < old_placed.len() {
                        assert(placed[t] == old_placed[t]);
                    }
                    assert(pixel_at(placed, x2, y2) == pixel_at(old_placed, x2, y2));
                }
            }
            assert forall|x2: int| 0 <= x2 < self.grid@.len() implies #[trigger] self.grid@[x2]@.len()
                == g by {
                assert(self.grid@[x2]@.len() == old_grid[x2]@.len());
            }
        }
    }
}

} // verus!
