use vstd::prelude::*;

verus! {

/// Number of brightness levels a cell of the art can take.
pub const BRIGHTNESS_LEVELS: usize = 9;

/// The character drawn for each brightness level, darkest last.
pub open spec fn pixel_char(level: int) -> char {
    if level == 0 { ' ' }
    else if level == 1 { '.' }
    else if level == 2 { '-' }
    else if level == 3 { '=' }
    else if level == 4 { '+' }
    else if level == 5 { '*' }
    else if level == 6 { '#' }
    else if level == 7 { '%' }
    else { '@' }
}

/// The brightness level a character stands for: its position among the
/// pixel characters, or 0 for any other character.
pub open spec fn level_of(c: char) -> usize {
    if c == '.' { 1 }
    else if c == '-' { 2 }
    else if c == '=' { 3 }
    else if c == '+' { 4 }
    else if c == '*' { 5 }
    else if c == '#' { 6 }
    else if c == '%' { 7 }
    else if c == '@' { 8 }
    else { 0 }
}

/// Reading back the character of a level gives that level.
pub proof fn lemma_level_of_pixel_char(level: int)
    requires
        0 <= level < BRIGHTNESS_LEVELS,
    ensures
        level_of(pixel_char(level)) == level,
{
}

/// One cell of the canvas: not yet drawn, or drawn with a brightness level.
#[derive(Clone, Copy, Debug, PartialEq, Eq, Structural)]
pub enum GridPixel {
    Empty,
    Val(usize),
}

/// The brightness level a character of an image stands for.
pub fn brightness_of(c: char) -> (level: usize)
    ensures
        level == level_of(c),
        level < BRIGHTNESS_LEVELS,
{
    match c {
        '.' => 1,
        '-' => 2,
        '=' => 3,
        '+' => 4,
        '*' => 5,
        '#' => 6,
        '%' => 7,
        '@' => 8,
        _ => 0,
    }
}

/// The text drawn for a brightness level: its single pixel character.
pub fn pixel_str(level: usize) -> (s: &'static str)
    requires
        level < BRIGHTNESS_LEVELS,
    ensures
        s@ == seq![pixel_char(level as int)],
{
    proof {
        reveal_strlit(" ");
        reveal_strlit(".");
        reveal_strlit("-");
        reveal_strlit("=");
        reveal_strlit("+");
        reveal_strlit("*");
        reveal_strlit("#");
        reveal_strlit("%");
        reveal_strlit("@");
    }
    match level {
        0 => " ",
        1 => ".",
        2 => "-",
        3 => "=",
        4 => "+",
        5 => "*",
        6 => "#",
        7 => "%",
        _ => "@",
    }
}

} // verus!
