use vstd::prelude::*;
use crate::pixels::{BRIGHTNESS_LEVELS, pixel_char, level_of, brightness_of, lemma_level_of_pixel_char};
use crate::spiral::{order_index, on_canvas, drawn_at, lemma_drawing_order_is_bijection};

verus! {

/// The lines of `text`, split at each `'\n'`; a text with `n` newlines has
/// `n + 1` lines, the last of them empty when the text ends with `'\n'`.
pub open spec fn split_lines(text: Seq<char>) -> Seq<Seq<char>>
    decreases text.len(),
{
    if text.len() == 0 {
        seq![seq![]]
    } else {
        let prev = split_lines(text.drop_last());
        if text.last() == '\n' {
            prev.push(seq![])
        } else {
            prev.update(prev.len() - 1, prev.last().push(text.last()))
        }
    }
}

/// Whether `s` holds no line break.
pub open spec fn no_newline(s: Seq<char>) -> bool {
    forall|i: int| 0 <= i < s.len() ==> s[i] != '\n'
}

/// `n` copies of the horizontal border character.
pub open spec fn border(n: int) -> Seq<char>
    decreases n,
{
    if n <= 0 {
        seq![]
    } else {
        border(n - 1).push('─')
    }
}

/// The brightness level drawn at `(x, y)` after the values `placed`.
pub open spec fn level_at(placed: Seq<usize>, x: int, y: int) -> int {
    placed[order_index(x, y)] as int
}

/// The pixel characters of the first `n` columns of row `y`.
pub open spec fn pixel_row(placed: Seq<usize>, y: int, n: int) -> Seq<char>
    decreases n,
{
    if n <= 0 {
        seq![]
    } else {
        pixel_row(placed, y, n - 1).push(pixel_char(level_at(placed, n - 1, y)))
    }
}

/// The top line of an image of `g` rows.
pub open spec fn top_line(g: int) -> Seq<char> {
    seq!['╭'] + border(2 * g) + seq!['╮']
}

/// The bottom line of an image of `g` rows.
pub open spec fn bottom_line(g: int) -> Seq<char> {
    seq!['╰'] + border(2 * g) + seq!['╯']
}

/// Row `y` of an image of `g` rows, between its two side borders.
pub open spec fn row_line(g: int, placed: Seq<usize>, y: int) -> Seq<char> {
    seq!['│'] + pixel_row(placed, y, 2 * g) + seq!['│']
}

/// The first `m` rows of an image, each followed by a line break.
pub open spec fn body_lines(g: int, placed: Seq<usize>, m: int) -> Seq<char>
    decreases m,
{
    if m <= 0 {
        seq![]
    } else {
        body_lines(g, placed, m - 1) + row_line(g, placed, m - 1) + seq!['\n']
    }
}

/// The text of a complete image of `g` rows and `2 * g` columns whose cells
/// hold the values `placed` in drawing order: a rounded frame around one
/// pixel character per cell.
pub open spec fn image_text(g: int, placed: Seq<usize>) -> Seq<char> {
    top_line(g) + seq!['\n'] + body_lines(g, placed, g) + bottom_line(g)
}

/// The number of rows an image text announces: half the width of its first
/// line inside the two corners.
pub open spec fn image_size(text: Seq<char>) -> int {
    (split_lines(text)[0].len() - 2) / 2
}

/// The brightness level that an image text shows at column `x`, row `y`: the
/// level of character `x + 1` of line `y + 1`, or 0 where there is none.
pub open spec fn reference_level(text: Seq<char>, x: int, y: int) -> usize {
    let lines = split_lines(text);
    if y + 1 < lines.len() && x + 1 < lines[y + 1].len() {
        level_of(lines[y + 1][x + 1])
    } else {
        0
    }
}

/// Splitting never yields an empty list of lines.
pub proof fn lemma_split_lines_nonempty(text: Seq<char>)
    ensures
        split_lines(text).len() >= 1,
    decreases text.len(),
{
    if text.len() > 0 {
        lemma_split_lines_nonempty(text.drop_last());
    }
}

/// Appending text without line breaks extends the last line.
pub proof fn lemma_split_append_line(p: Seq<char>, q: Seq<char>)
    requires
        no_newline(q),
    ensures
        split_lines(p + q) == split_lines(p).update(
            split_lines(p).len() - 1,
            split_lines(p).last() + q,
        ),
    decreases q.len(),
{
    lemma_split_lines_nonempty(p);
    if q.len() == 0 {
        assert(p + q =~= p);
        assert(split_lines(p).last() + q =~= split_lines(p).last());
        assert(split_lines(p).update(split_lines(p).len() - 1, split_lines(p).last())
            =~= split_lines(p));
    } else {
        let q0 = q.drop_last();
        assert(no_newline(q0));
        lemma_split_append_line(p, q0);
        assert((p + q).drop_last() =~= p + q0);
        assert((p + q).last() == q.last());
        assert(q0.push(q.last()) =~= q);
        assert((split_lines(p).last() + q0).push(q.last()) =~= split_lines(p).last() + q);
        assert(split_lines(p + q) =~= split_lines(p).update(
            split_lines(p).len() - 1,
            split_lines(p).last() + q,
        ));
    }
}

/// A line break starts a new, empty line.
pub proof fn lemma_split_append_newline(p: Seq<char>)
    ensures
        split_lines(p + seq!['\n']) == split_lines(p).push(seq![]),
{
    assert((p + seq!['\n']).drop_last() =~= p);
}

/// A line break followed by text without line breaks adds that text as a
/// new line.
pub proof fn lemma_split_new_line(p: Seq<char>, q: Seq<char>)
    requires
        no_newline(q),
    ensures
        split_lines(p + seq!['\n'] + q) == split_lines(p).push(q),
{
    lemma_split_append_newline(p);
    lemma_split_append_line(p + seq!['\n'], q);
    assert(seq![] + q =~= q);
    assert(split_lines(p).push(seq![]).update(split_lines(p).len() as int, q) =~= split_lines(
        p,
    ).push(q));
}

proof fn lemma_border(n: int)
    requires
        n >= 0,
    ensures
        border(n).len() == n,
        no_newline(border(n)),
    decreases n,
{
    if n > 0 {
        lemma_border(n - 1);
    }
}

proof fn lemma_pixel_row(placed: Seq<usize>, y: int, n: int)
    requires
        n >= 0,
    ensures
        pixel_row(placed, y, n).len() == n,
        forall|x: int|
            0 <= x < n ==> #[trigger] pixel_row(placed, y, n)[x] == pixel_char(
                level_at(placed, x, y),
            ),
        no_newline(pixel_row(placed, y, n)),
    decreases n,
{
    if n > 0 {
        lemma_pixel_row(placed, y, n - 1);
        let p = pixel_row(placed, y, n);
        assert forall|x: int| 0 <= x < n implies #[trigger] p[x] == pixel_char(
            level_at(placed, x, y),
        ) by {
            if x < n - 1 {
                assert(p[x] == pixel_row(placed, y, n - 1)[x]);
            }
        }
    }
}

pub(crate) proof fn lemma_line_shapes(g: int, placed: Seq<usize>, y: int)
    requires
        g >= 0,
    ensures
        no_newline(top_line(g)),
        no_newline(bottom_line(g)),
        no_newline(row_line(g, placed, y)),
        top_line(g).len() == 2 * g + 2,
        row_line(g, placed, y).len() == 2 * g + 2,
        forall|x: int|
            0 <= x < 2 * g ==> #[trigger] row_line(g, placed, y)[x + 1] == pixel_char(
                level_at(placed, x, y),
            ),
{
    lemma_border(2 * g);
    lemma_pixel_row(placed, y, 2 * g);
    let t = top_line(g);
    assert forall|i: int| 0 <= i < t.len() implies t[i] != '\n' by {
        if 1 <= i < 2 * g + 1 {
            assert(t[i] == border(2 * g)[i - 1]);
        }
    }
    let b = bottom_line(g);
    assert forall|i: int| 0 <= i < b.len() implies b[i] != '\n' by {
        if 1 <= i < 2 * g + 1 {
            assert(b[i] == border(2 * g)[i - 1]);
        }
    }
    let r = row_line(g, placed, y);
    assert forall|i: int| 0 <= i < r.len() implies r[i] != '\n' by {
        if 1 <= i < 2 * g + 1 {
            assert(r[i] == pixel_row(placed, y, 2 * g)[i - 1]);
        }
    }
    assert forall|x: int| 0 <= x < 2 * g implies #[trigger] r[x + 1] == pixel_char(
        level_at(placed, x, y),
    ) by {
        assert(r[x + 1] == pixel_row(placed, y, 2 * g)[x]);
    }
}

/// The lines of the top line and the first `m` rows of an image.
pub(crate) proof fn lemma_split_body(g: int, placed: Seq<usize>, m: int)
    requires
        0 <= m,
        g >= 0,
    ensures
        split_lines(top_line(g) + seq!['\n'] + body_lines(g, placed, m)) == seq![top_line(g)]
            + Seq::new(m as nat, |i: int| row_line(g, placed, i)) + seq![seq![]],
    decreases m,
{
    lemma_line_shapes(g, placed, 0);
    let top = top_line(g);
    if m == 0 {
        assert(top + seq!['\n'] + body_lines(g, placed, 0) =~= top + seq!['\n']);
        assert(seq![] + top =~= top);
        lemma_split_new_line(seq![], top);
        assert(split_lines(seq![]) =~= seq![seq![]]);
        assert(split_lines(seq![] + seq!['\n'] + top) =~= seq![seq![], top]);
        lemma_split_append_line(seq![], top);
        assert(split_lines(top) =~= seq![top]);
        lemma_split_append_newline(top);
        assert(seq![top] + Seq::new(0, |i: int| row_line(g, placed, i)) + seq![seq![]] =~= seq![
            top,
            seq![],
        ]);
    } else {
        lemma_split_body(g, placed, m - 1);
        lemma_line_shapes(g, placed, m - 1);
        let p = top + seq!['\n'] + body_lines(g, placed, m - 1);
        let row = row_line(g, placed, m - 1);
        assert(top + seq!['\n'] + body_lines(g, placed, m) =~= p + row + seq!['\n']);
        lemma_split_append_line(p, row);
        lemma_split_append_newline(p + row);
        let prev = seq![top] + Seq::new((m - 1) as nat, |i: int| row_line(g, placed, i)) + seq![
            seq![],
        ];
        assert(prev.last() == Seq::<char>::empty());
        assert(Seq::<char>::empty() + row =~= row);
        assert(prev.update(prev.len() - 1, row).push(seq![]) =~= seq![top] + Seq::new(
            m as nat,
            |i: int| row_line(g, placed, i),
        ) + seq![seq![]]);
    }
}

/// The lines of a complete image: its top line, its rows, its bottom line.
pub proof fn lemma_split_image(g: int, placed: Seq<usize>)
    requires
        g >= 0,
    ensures
        split_lines(image_text(g, placed)) == seq![top_line(g)] + Seq::new(
            g as nat,
            |i: int| row_line(g, placed, i),
        ) + seq![bottom_line(g)],
{
    lemma_split_body(g, placed, g);
    lemma_line_shapes(g, placed, 0);
    let p = top_line(g) + seq!['\n'] + body_lines(g, placed, g);
    lemma_split_append_line(p, bottom_line(g));
    let prev = seq![top_line(g)] + Seq::new(g as nat, |i: int| row_line(g, placed, i)) + seq![
        seq![],
    ];
    assert(Seq::<char>::empty() + bottom_line(g) =~= bottom_line(g));
    assert(prev.update(prev.len() - 1, bottom_line(g)) =~= seq![top_line(g)] + Seq::new(
        g as nat,
        |i: int| row_line(g, placed, i),
    ) + seq![bottom_line(g)]);
}

/// Reading an image back gives what was drawn: the text of a complete image
/// of `g` rows announces `g` rows, and shows at every cell the brightness
/// level drawn there.
pub proof fn lemma_image_reads_back(g: int, placed: Seq<usize>)
    requires
        g >= 0,
        forall|i: int| 0 <= i < placed.len() ==> #[trigger] placed[i] < BRIGHTNESS_LEVELS,
        forall|x: int, y: int| on_canvas(g, x, y) ==> 0 <= #[trigger] order_index(x, y) < placed.len(),
    ensures
        image_size(image_text(g, placed)) == g,
        forall|x: int, y: int|
            on_canvas(g, x, y) ==> #[trigger] reference_level(image_text(g, placed), x, y)
                == placed[order_index(x, y)],
{
    lemma_split_image(g, placed);
    lemma_line_shapes(g, placed, 0);
    let lines = split_lines(image_text(g, placed));
    assert(lines[0] == top_line(g));
    assert forall|x: int, y: int| on_canvas(g, x, y) implies #[trigger] reference_level(
        image_text(g, placed),
        x,
        y,
    ) == placed[order_index(x, y)] by {
        lemma_line_shapes(g, placed, y);
        assert(lines[y + 1] == row_line(g, placed, y));
        assert(lines[y + 1][x + 1] == pixel_char(level_at(placed, x, y)));
        lemma_level_of_pixel_char(level_at(placed, x, y));
    }
}

/// The lines of `text`, as `split_lines` gives them.
pub fn text_lines(text: &str) -> (lines: Vec<Vec<char>>)
    ensures
        lines@.len() == split_lines(text@).len(),
        forall|i: int| 0 <= i < lines@.len() ==> #[trigger] lines@[i]@ == split_lines(text@)[i],
{
    let mut lines: Vec<Vec<char>> = Vec::new();
    let mut cur: Vec<char> = Vec::new();
    for c in it: text.chars()
        invariant
            it.seq() == text@,
            lines@.len() + 1 == split_lines(text@.take(it.index() as int)).len(),
            forall|i: int|
                0 <= i < lines@.len() ==> #[trigger] lines@[i]@ == split_lines(
                    text@.take(it.index() as int),
                )[i],
            cur@ == split_lines(text@.take(it.index() as int)).last(),
    {
        let ghost before = text@.take(it.index() as int);
        let ghost after = text@.take(it.index() + 1);
        proof {
            lemma_split_lines_nonempty(before);
            assert(after.drop_last() =~= before);
            assert(after.last() == c);
        }
        if c == '\n' {
            lines.push(cur);
            cur = Vec::new();
        } else {
            cur.push(c);
        }
    }
    proof {
        assert(text@.take(text@.len() as int) =~= text@);
        lemma_split_lines_nonempty(text@);
    }
    lines.push(cur);
    lines
}

/// Reading ignores one more line break at the end: appending `'\n'` to any
/// text keeps the size it announces and every level it shows.
pub proof fn lemma_read_ignores_trailing_newline(text: Seq<char>)
    ensures
        image_size(text + seq!['\n']) == image_size(text),
        forall|x: int, y: int|
            0 <= x && 0 <= y ==> #[trigger] reference_level(text + seq!['\n'], x, y) == reference_level(
                text,
                x,
                y,
            ),
{
    lemma_split_append_newline(text);
    lemma_split_lines_nonempty(text);
    let lines = split_lines(text);
    let more = split_lines(text + seq!['\n']);
    assert(more == lines.push(seq![]));
    assert(more[0] == lines[0]);
    assert forall|x: int, y: int| 0 <= x && 0 <= y implies #[trigger] reference_level(
        text + seq!['\n'],
        x,
        y,
    ) == reference_level(text, x, y) by {
        assert(more.len() == lines.len() + 1);
        if y + 1 < lines.len() {
            assert(more[y + 1] == lines[y + 1]);
        } else if y + 1 == lines.len() {
            assert(more[y + 1] == Seq::<char>::empty());
        }
    }
}

/// Reading a complete image does not need its bottom line: the text up to
/// and including the line break before the bottom line (what is collected
/// from standard input) announces the same size and shows the same level at
/// every cell.
pub proof fn lemma_read_without_bottom_line(g: int, placed: Seq<usize>)
    requires
        g >= 0,
    ensures
        image_size(top_line(g) + seq!['\n'] + body_lines(g, placed, g)) == image_size(
            image_text(g, placed),
        ),
        forall|x: int, y: int|
            on_canvas(g, x, y) ==> #[trigger] reference_level(
                top_line(g) + seq!['\n'] + body_lines(g, placed, g),
                x,
                y,
            ) == reference_level(image_text(g, placed), x, y),
{
    lemma_split_body(g, placed, g);
    lemma_split_image(g, placed);
    let short = split_lines(top_line(g) + seq!['\n'] + body_lines(g, placed, g));
    let full = split_lines(image_text(g, placed));
    assert(short[0] == full[0]);
    assert forall|x: int, y: int| on_canvas(g, x, y) implies #[trigger] reference_level(
        top_line(g) + seq!['\n'] + body_lines(g, placed, g),
        x,
        y,
    ) == reference_level(image_text(g, placed), x, y) by {
        assert(short[y + 1] == full[y + 1]);
    }
}

/// The text whose lines are `ls`, joined by line breaks.
pub open spec fn join_lines(ls: Seq<Seq<char>>) -> Seq<char>
    decreases ls.len(),
{
    if ls.len() == 0 {
        seq![]
    } else if ls.len() == 1 {
        ls[0]
    } else {
        join_lines(ls.drop_last()) + seq!['\n'] + ls.last()
    }
}

/// Joining the lines of a text gives the text back.
pub proof fn lemma_join_split(text: Seq<char>)
    ensures
        join_lines(split_lines(text)) == text,
    decreases text.len(),
{
    if text.len() > 0 {
        let t0 = text.drop_last();
        let c = text.last();
        lemma_join_split(t0);
        lemma_split_lines_nonempty(t0);
        let ls = split_lines(t0);
        assert(t0.push(c) =~= text);
        if c == '\n' {
            assert(ls.push(seq![]).drop_last() =~= ls);
            assert(join_lines(ls.push(seq![])) =~= text);
        } else {
            let ls2 = ls.update(ls.len() - 1, ls.last().push(c));
            if ls.len() == 1 {
                assert(join_lines(ls2) =~= text);
            } else {
                assert(ls2.drop_last() =~= ls.drop_last());
                assert(join_lines(ls2) =~= text);
            }
        }
    }
}

/// Whether `line` is a row of an image of `g` rows: a side border, `2 * g`
/// pixel characters, a side border.
pub open spec fn is_row_line(g: int, line: Seq<char>) -> bool {
    &&& line.len() == 2 * g + 2
    &&& line[0] == '│'
    &&& line[2 * g + 1] == '│'
    &&& forall|x: int|
        0 <= x < 2 * g ==> #[trigger] pixel_char(level_of(line[x + 1]) as int) == line[x + 1]
}

/// Whether `text` is the text of an image of `g` rows: its top line, `g`
/// rows of pixel characters, and its bottom line.
pub open spec fn is_image_text(g: int, text: Seq<char>) -> bool {
    let lines = split_lines(text);
    &&& lines.len() == g + 2
    &&& lines[0] == top_line(g)
    &&& lines[g + 1] == bottom_line(g)
    &&& forall|y: int| 0 <= y < g ==> is_row_line(g, #[trigger] lines[y + 1])
}

/// The levels that an image text of `g` rows shows, in drawing order.
pub open spec fn levels_in_order(g: int, text: Seq<char>) -> Seq<usize> {
    Seq::new(
        (2 * g * g) as nat,
        |t: int|
            {
                let c = choose|x: int, y: int| on_canvas(g, x, y) && #[trigger] order_index(x, y) == t;
                reference_level(text, c.0, c.1)
            },
    )
}

/// Every image text is the rendering of the levels read from it: a text of
/// `g` rows in the image form equals `image_text` of the levels it shows,
/// taken in drawing order.
pub proof fn lemma_image_text_is_rendering(g: int, text: Seq<char>)
    requires
        g >= 0,
        is_image_text(g, text),
    ensures
        levels_in_order(g, text).len() == 2 * g * g,
        forall|i: int|
            0 <= i < levels_in_order(g, text).len() ==> #[trigger] levels_in_order(g, text)[i]
                < BRIGHTNESS_LEVELS,
        forall|x: int, y: int|
            on_canvas(g, x, y) ==> #[trigger] levels_in_order(g, text)[order_index(x, y)]
                == reference_level(text, x, y),
        text == image_text(g, levels_in_order(g, text)),
{
    let p = levels_in_order(g, text);
    let lines = split_lines(text);
    lemma_drawing_order_is_bijection(g);
    assert(2 * g * g >= 0) by (nonlinear_arith)
        requires
            g >= 0,
    ;
    assert forall|i: int| 0 <= i < p.len() implies #[trigger] p[i] < BRIGHTNESS_LEVELS by {
        let c = choose|x: int, y: int| on_canvas(g, x, y) && #[trigger] order_index(x, y) == i;
        assert(p[i] == reference_level(text, c.0, c.1));
    }
    assert forall|x: int, y: int| on_canvas(g, x, y) implies #[trigger] p[order_index(x, y)]
        == reference_level(text, x, y) by {
        let t = order_index(x, y);
        assert(drawn_at(g, t));
        let c = choose|x1: int, y1: int| on_canvas(g, x1, y1) && #[trigger] order_index(x1, y1) == t;
        assert(on_canvas(g, c.0, c.1) && order_index(c.0, c.1) == t);
        assert(c.0 == x && c.1 == y);
    }
    lemma_split_image(g, p);
    let want = split_lines(image_text(g, p));
    assert forall|y: int| 0 <= y < g implies #[trigger] want[y + 1] == lines[y + 1] by {
        lemma_line_shapes(g, p, y);
        let row = row_line(g, p, y);
        let line = lines[y + 1];
        assert(want[y + 1] == row);
        assert(is_row_line(g, line));
        assert(row[0] == '│');
        assert(row[2 * g + 1] == '│');
        assert forall|i: int| 0 <= i < row.len() implies row[i] == line[i] by {
            if 1 <= i <= 2 * g {
                let x = i - 1;
                assert(on_canvas(g, x, y));
                assert(row[x + 1] == pixel_char(level_at(p, x, y)));
                assert(p[order_index(x, y)] == reference_level(text, x, y));
                assert(reference_level(text, x, y) == level_of(line[x + 1]));
                assert(pixel_char(level_of(line[x + 1]) as int) == line[x + 1]);
            }
        }
        assert(row =~= line);
    }
    assert(want =~= lines) by {
        assert forall|i: int| 0 <= i < want.len() implies want[i] == lines[i] by {
            if 1 <= i <= g {
                assert(want[(i - 1) + 1] == lines[(i - 1) + 1]);
            }
        }
    }
    lemma_join_split(text);
    lemma_join_split(image_text(g, p));
}

/// The brightness levels that an image text shows, column by column.
pub struct ReferenceImage {
    size: usize,
    levels: Vec<Vec<usize>>,
}

impl ReferenceImage {
    /// Number of rows of the image.
    pub closed spec fn size_spec(&self) -> nat {
        self.size as nat
    }

    /// The level shown at column `x`, row `y`.
    pub closed spec fn level_spec(&self, x: int, y: int) -> usize {
        self.levels@[x]@[y]
    }

    /// The image has `2 * size` columns of `size` levels each, all of them
    /// brightness levels.
    pub closed spec fn wf(&self) -> bool {
        &&& self.levels@.len() == 2 * self.size
        &&& forall|x: int| 0 <= x < self.levels@.len() ==> #[trigger] self.levels@[x]@.len() == self.size
        &&& forall|x: int, y: int|
            on_canvas(self.size as int, x, y) ==> #[trigger] self.levels@[x]@[y] < BRIGHTNESS_LEVELS
    }

    /// Number of rows of the image.
    pub fn size(&self) -> (n: usize)
        ensures
            n == self.size_spec(),
    {
        self.size
    }

    /// The level shown at column `x`, row `y`.
    pub fn level(&self, x: usize, y: usize) -> (l: usize)
        requires
            self.wf(),
            on_canvas(self.size_spec() as int, x as int, y as int),
        ensures
            l == self.level_spec(x as int, y as int),
            l < BRIGHTNESS_LEVELS,
    {
        self.levels[x][y]
    }
}

/// The level at column `x`, row `y` of the image whose lines are `lines`.
fn level_in_lines(lines: &Vec<Vec<char>>, x: usize, y: usize) -> (l: usize)
    ensures
        l == (if y + 1 < lines@.len() && x + 1 < lines@[y + 1]@.len() {
            level_of(lines@[y + 1]@[x + 1])
        } else {
            0
        }),
        l < BRIGHTNESS_LEVELS,
{
    if y < lines.len() && y + 1 < lines.len() && x < lines[y + 1].len() && x + 1 < lines[y + 1].len() {
        brightness_of(lines[y + 1][x + 1])
    } else {
        0
    }
}

/// Reads the brightness levels of an image text: the first line gives the
/// number of rows, half its width inside the corners; then character
/// `x + 1` of line `y + 1` gives the level at column `x`, row `y`, with 0
/// for characters that are not pixel characters and for cells the text does
/// not reach.
pub fn read_image(text: &str) -> (img: ReferenceImage)
    requires
        split_lines(text@)[0].len() >= 2,
    ensures
        img.wf(),
        img.size_spec() == image_size(text@),
        forall|x: int, y: int|
            on_canvas(img.size_spec() as int, x, y) ==> #[trigger] img.level_spec(x, y)
                == reference_level(text@, x, y),
{
    let lines = text_lines(text);
    proof {
        lemma_split_lines_nonempty(text@);
    }
    let size = (lines[0].len() - 2) / 2;
    let mut levels: Vec<Vec<usize>> = Vec::new();
    let width = 2 * size;
    let mut x: usize = 0;
    while x < width
        invariant
            width == 2 * size,
            lines@.len() == split_lines(text@).len(),
            forall|i: int| 0 <= i < lines@.len() ==> #[trigger] lines@[i]@ == split_lines(text@)[i],
            size == image_size(text@),
            lines@.len() >= 1,
            2 * size <= lines@[0]@.len(),
            x <= 2 * size,
            levels@.len() == x,
            forall|c: int| 0 <= c < x ==> #[trigger] levels@[c]@.len() == size,
            forall|c: int, y: int|
                0 <= c < x && 0 <= y < size ==> #[trigger] levels@[c]@[y] == reference_level(
                    text@,
                    c,
                    y,
                ) && levels@[c]@[y] < BRIGHTNESS_LEVELS,
        decreases width - x,
    {
        let mut col: Vec<usize> = Vec::new();
        let mut y: usize = 0;
        while y < size
            invariant
                lines@.len() == split_lines(text@).len(),
                forall|i: int| 0 <= i < lines@.len() ==> #[trigger] lines@[i]@ == split_lines(text@)[i],
                x < 2 * size,
                y <= size,
                col@.len() == y,
                forall|r: int|
                    0 <= r < y ==> #[trigger] col@[r] == reference_level(text@, x as int, r)
                        && col@[r] < BRIGHTNESS_LEVELS,
            decreases size - y,
        {
            let l = level_in_lines(&lines, x, y);
            proof {
                if y + 1 < lines@.len() {
                    assert(lines@[y + 1]@ == split_lines(text@)[y + 1]);
                }
            }
            col.push(l);
            y = y + 1;
        }
        levels.push(col);
        proof {
            assert forall|c: int, r: int| 0 <= c < x + 1 && 0 <= r < size implies #[trigger] levels@[c]@[r]
                == reference_level(text@, c, r) && levels@[c]@[r] < BRIGHTNESS_LEVELS by {
                if c == x {
                    assert(levels@[c] == col);
                }
            }
        }
        x = x + 1;
    }
    ReferenceImage { size, levels }
}

} // verus!
