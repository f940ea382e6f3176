use vstd::prelude::*;
use crate::pixels::BRIGHTNESS_LEVELS;
use crate::spiral::{on_canvas, order_index};
use crate::image::{
    split_lines, image_text, image_size, reference_level, top_line, bottom_line, row_line,
    body_lines, lemma_split_image, lemma_split_body, lemma_line_shapes,
};

verus! {

/// What reading one more line of an image did.
#[derive(Clone, Copy, Debug, PartialEq, Eq, Structural)]
pub enum LineOutcome {
    /// The line was kept; more lines are expected.
    Continue,
    /// The closing line was read; the image is complete.
    Done,
    /// The image did not start with its top-left corner.
    MissingStart,
    /// The line where the image should end is not its bottom line.
    MissingEnd,
}

/// Whether `line` begins with `c`.
pub open spec fn starts_with(line: Seq<char>, c: char) -> bool {
    line.len() > 0 && line[0] == c
}

/// What a reader holds: lines read, rows announced (0 while unknown), text kept.
pub struct ReaderState {
    pub lines: nat,
    pub size: nat,
    pub text: Seq<char>,
}

/// The reader's state and outcome after reading `line` in state `s`. While no
/// size is known the line must begin with `'╭'`, and its length in
/// characters, halved, less one, becomes the size. The line numbered
/// `size + 2` must begin with `'╰'` and ends the image; earlier lines are kept.
pub open spec fn feed_step(s: ReaderState, line: Seq<char>) -> (ReaderState, LineOutcome) {
    let lines = s.lines + 1;
    if s.size == 0 && !starts_with(line, '╭') {
        (ReaderState { lines, size: 0, text: s.text }, LineOutcome::MissingStart)
    } else {
        let g: nat = if s.size == 0 {
            (line.len() / 2 - 1) as nat
        } else {
            s.size
        };
        if lines == g + 2 {
            (
                ReaderState { lines, size: g, text: s.text },
                if starts_with(line, '╰') {
                    LineOutcome::Done
                } else {
                    LineOutcome::MissingEnd
                },
            )
        } else {
            (ReaderState { lines, size: g, text: s.text + line }, LineOutcome::Continue)
        }
    }
}

/// The reader's state and outcome after reading the lines `ls` in state `s`,
/// stopping at the first line that does not continue the image.
pub open spec fn feed_lines(s: ReaderState, ls: Seq<Seq<char>>) -> (ReaderState, LineOutcome)
    decreases ls.len(),
{
    if ls.len() == 0 {
        (s, LineOutcome::Continue)
    } else {
        let (s2, o) = feed_step(s, ls[0]);
        if o == LineOutcome::Continue {
            feed_lines(s2, ls.drop_first())
        } else {
            (s2, o)
        }
    }
}

/// What a reader does with a line, said of the line itself: it needs the
/// top-left corner first; once it knows the size, the line numbered
/// `size + 2` ends the image exactly when it begins with the bottom-left
/// corner, whatever follows the corner, and every earlier line is kept.
pub proof fn lemma_feed_step_on_line(s: ReaderState, line: Seq<char>)
    ensures
        feed_step(s, line).0.lines == s.lines + 1,
        s.size == 0 && !(line.len() > 0 && line[0] == '╭') ==> feed_step(s, line).1
            == LineOutcome::MissingStart,
        s.size > 0 && s.lines + 1 == s.size + 2 ==> (feed_step(s, line).1 == LineOutcome::Done <==> (
        line.len() > 0 && line[0] == '╰')),
        s.size > 0 && s.lines + 1 == s.size + 2 ==> (feed_step(s, line).1 == LineOutcome::MissingEnd
            <==> !(line.len() > 0 && line[0] == '╰')),
        s.size > 0 && s.lines + 1 != s.size + 2 ==> feed_step(s, line).1 == LineOutcome::Continue
            && feed_step(s, line).0.text == s.text + line,
{
}

/// The state of a reader that has read nothing.
pub open spec fn initial_state() -> ReaderState {
    ReaderState { lines: 0, size: 0, text: seq![] }
}

/// Collects an image line by line: the first line, which must begin with
/// the top-left corner, announces the number of rows; the line after the
/// rows must begin with the bottom-left corner; every line before it is kept.
pub struct ImageReader {
    lines: usize,
    grid_size: usize,
    image: String,
}

/// The characters of `s`.
fn chars_of(s: &str) -> (v: Vec<char>)
    ensures
        v@ == s@,
{
    let mut v: Vec<char> = Vec::new();
    for c in it: s.chars()
        invariant
            it.seq() == s@,
            v@ == s@.take(it.index() as int),
    {
        v.push(c);
        assert(v@ =~= s@.take(it.index() + 1));
    }
    assert(s@.take(s@.len() as int) =~= s@);
    v
}

impl ImageReader {
    /// The reader's state.
    pub closed spec fn state(&self) -> ReaderState {
        ReaderState { lines: self.lines as nat, size: self.grid_size as nat, text: self.image@ }
    }

    /// Number of lines read so far.
    pub closed spec fn lines_read(&self) -> nat {
        self.lines as nat
    }

    /// Rows announced by the first line; 0 while none is known.
    pub closed spec fn expected_size(&self) -> nat {
        self.grid_size as nat
    }

    /// The text kept so far.
    pub closed spec fn text(&self) -> Seq<char> {
        self.image@
    }

    /// A reader that has read nothing.
    pub fn new() -> (r: Self)
        ensures
            r.state() == initial_state(),
            r.lines_read() == 0,
            r.expected_size() == 0,
            r.text() == Seq::<char>::empty(),
    {
        ImageReader { lines: 0, grid_size: 0, image: String::new() }
    }

    /// Number of lines read so far.
    pub fn lines_read_count(&self) -> (n: usize)
        ensures
            n == self.lines_read(),
    {
        self.lines
    }

    /// Rows announced by the first line; 0 while none is known.
    pub fn expected_rows(&self) -> (n: usize)
        ensures
            n == self.expected_size(),
    {
        self.grid_size
    }

    /// Reads one more line (as read, with its line break), as `feed_step` states.
    pub fn feed(&mut self, line: &str) -> (outcome: LineOutcome)
        requires
            old(self).lines_read() < usize::MAX,
            old(self).expected_size() == 0 && starts_with(line@, '╭') ==> line@.len() >= 2,
        ensures
            (final(self).state(), outcome) == feed_step(old(self).state(), line@),
            final(self).lines_read() == old(self).lines_read() + 1,
            old(self).expected_size() == 0 && !(line@.len() > 0 && line@[0] == '╭') ==> outcome
                == LineOutcome::MissingStart,
            old(self).expected_size() > 0 && old(self).lines_read() + 1 == old(self).expected_size()
                + 2 ==> (outcome == LineOutcome::Done <==> (line@.len() > 0 && line@[0] == '╰')),
            old(self).expected_size() > 0 && old(self).lines_read() + 1 == old(self).expected_size()
                + 2 ==> (outcome == LineOutcome::MissingEnd <==> !(line@.len() > 0 && line@[0]
                == '╰')),
            old(self).expected_size() > 0 && old(self).lines_read() + 1 != old(self).expected_size()
                + 2 ==> outcome == LineOutcome::Continue && final(self).text() == old(self).text()
                + line@,
            final(self).lines_read() == final(self).state().lines,
            final(self).expected_size() == final(self).state().size,
            final(self).text() == final(self).state().text,
    {
        let chars = chars_of(line);
        self.lines = self.lines + 1;
        if self.grid_size == 0 {
            if !(chars.len() > 0 && chars[0] == '╭') {
                return LineOutcome::MissingStart;
            }
            self.grid_size = chars.len() / 2 - 1;
        }
        if self.lines >= 2 && self.lines - 2 == self.grid_size {
            if chars.len() > 0 && chars[0] == '╰' {
                return LineOutcome::Done;
            } else {
                return LineOutcome::MissingEnd;
            }
        }
        self.image.append(line);
        LineOutcome::Continue
    }

    /// The text kept so far.
    pub fn into_image(self) -> (s: String)
        ensures
            s@ == self.text(),
    {
        self.image
    }
}

/// The lines of the text of a complete image of `g` rows, each followed by a
/// line break, as they are typed in.
pub open spec fn typed_lines(g: int, placed: Seq<usize>) -> Seq<Seq<char>> {
    Seq::new((g + 2) as nat, |i: int| split_lines(image_text(g, placed))[i] + seq!['\n'])
}

/// The reader's state after the first `i` typed lines of an image of `g` rows.
pub open spec fn state_after(g: int, placed: Seq<usize>, i: int) -> ReaderState {
    ReaderState {
        lines: i as nat,
        size: g as nat,
        text: top_line(g) + seq!['\n'] + body_lines(g, placed, if i <= g + 1 { i - 1 } else { g }),
    }
}

proof fn lemma_feed_from(g: int, placed: Seq<usize>, i: int)
    requires
        g >= 1,
        1 <= i <= g + 1,
    ensures
        feed_lines(state_after(g, placed, i), typed_lines(g, placed).skip(i)) == (
            state_after(g, placed, g + 2),
            LineOutcome::Done,
        ),
    decreases g + 1 - i,
{
    lemma_split_image(g, placed);
    let ls = typed_lines(g, placed);
    let rest = ls.skip(i);
    assert(rest.len() > 0);
    assert(rest[0] == ls[i]);
    let s = state_after(g, placed, i);
    if i <= g {
        lemma_line_shapes(g, placed, i - 1);
        assert(ls[i] == row_line(g, placed, i - 1) + seq!['\n']);
        assert(s.text + ls[i] =~= state_after(g, placed, i + 1).text);
        assert(feed_step(s, ls[i]) == (state_after(g, placed, i + 1), LineOutcome::Continue));
        lemma_feed_from(g, placed, i + 1);
        assert(rest.drop_first() =~= ls.skip(i + 1));
    } else {
        assert(ls[i] == bottom_line(g) + seq!['\n']);
        assert(starts_with(ls[i], '╰'));
        assert(feed_step(s, ls[i]) == (state_after(g, placed, g + 2), LineOutcome::Done));
    }
}

/// Typing in a rendered image is read back: a reader fed the lines of the
/// text of a complete image of `g >= 1` rows ends with `Done` on its bottom
/// line, and the text it kept announces `g` rows and shows at every cell the
/// brightness level drawn there.
pub proof fn lemma_reader_reads_rendered_image(g: int, placed: Seq<usize>)
    requires
        g >= 1,
        forall|i: int| 0 <= i < placed.len() ==> #[trigger] placed[i] < BRIGHTNESS_LEVELS,
        forall|x: int, y: int| on_canvas(g, x, y) ==> 0 <= #[trigger] order_index(x, y) < placed.len(),
    ensures
        feed_lines(initial_state(), typed_lines(g, placed)).1 == LineOutcome::Done,
        feed_lines(initial_state(), typed_lines(g, placed)).0.text == top_line(g) + seq!['\n']
            + body_lines(g, placed, g),
        image_size(feed_lines(initial_state(), typed_lines(g, placed)).0.text) == g,
        forall|x: int, y: int|
            on_canvas(g, x, y) ==> #[trigger] reference_level(
                feed_lines(initial_state(), typed_lines(g, placed)).0.text,
                x,
                y,
            ) == placed[order_index(x, y)],
{
    lemma_split_image(g, placed);
    lemma_line_shapes(g, placed, 0);
    let ls = typed_lines(g, placed);
    let first = ls[0];
    assert(first == top_line(g) + seq!['\n']);
    assert(first.len() == 2 * g + 3);
    assert(starts_with(first, '╭'));
    assert((2 * g + 3) / 2 - 1 == g);
    assert(body_lines(g, placed, 0) == Seq::<char>::empty());
    assert(initial_state().text + first =~= state_after(g, placed, 1).text);
    assert(feed_step(initial_state(), first) == (state_after(g, placed, 1), LineOutcome::Continue));
    lemma_feed_from(g, placed, 1);
    assert(ls.drop_first() =~= ls.skip(1));
    let text = top_line(g) + seq!['\n'] + body_lines(g, placed, g);
    lemma_split_body(g, placed, g);
    let lines = split_lines(text);
    assert(lines[0] == top_line(g));
    assert forall|x: int, y: int| on_canvas(g, x, y) implies #[trigger] reference_level(text, x, y)
        == placed[order_index(x, y)] by {
        lemma_line_shapes(g, placed, y);
        assert(lines[y + 1] == row_line(g, placed, y));
        assert(lines[y + 1][x + 1] == crate::pixels::pixel_char(
            crate::image::level_at(placed, x, y),
        ));
        crate::pixels::lemma_level_of_pixel_char(crate::image::level_at(placed, x, y));
    }
}

} // verus!
