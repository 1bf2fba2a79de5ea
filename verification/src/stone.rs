//! The value stored in one board cell: empty, or one of up to six colors.

use vstd::prelude::*;

verus! {

/// Largest color index the encoding supports.
pub const MAX_COLORS: u8 = 6;

/// A cell value: `Stone(0)` is the empty cell, `Stone(1)` through
/// `Stone(MAX_COLORS)` are the colors. Color 1 plays first.
#[derive(Clone, Copy, PartialEq, Eq, Structural, Debug)]
pub struct Stone(pub u8);

/// The glyph used to render a cell value.
pub open spec fn char_of(s: Stone) -> char {
    if s.0 == 0 {
        '_'
    } else if s.0 == 1 {
        '\u{25cf}'
    } else if s.0 == 2 {
        '\u{25cb}'
    } else if s.0 == 3 {
        '$'
    } else if s.0 == 4 {
        '#'
    } else if s.0 == 5 {
        '&'
    } else {
        '@'
    }
}

impl Stone {
    /// Empty cell.
    pub fn void() -> (s: Stone)
        ensures
            s == Stone(0u8),
    {
        Stone(0)
    }

    /// The first color.
    pub fn black() -> (s: Stone)
        ensures
            s == Stone(1u8),
    {
        Stone(1)
    }

    /// The second color.
    pub fn white() -> (s: Stone)
        ensures
            s == Stone(2u8),
    {
        Stone(2)
    }

    /// Every cell value the engine works with is empty or a color.
    pub open spec fn valid(self) -> bool {
        self.0 <= MAX_COLORS
    }

    /// A placed stone: one of the colors, never the empty value.
    pub open spec fn is_color(self) -> bool {
        1 <= self.0 <= MAX_COLORS
    }

    /// The empty cell value.
    pub open spec fn is_void(self) -> bool {
        self.0 == 0
    }

    /// Glyph for this cell value.
    pub fn as_char(&self) -> (c: char)
        requires
            self.valid(),
        ensures
            c == char_of(*self),
    {
        if self.0 == 0 {
            '_'
        } else if self.0 == 1 {
            '\u{25cf}'
        } else if self.0 == 2 {
            '\u{25cb}'
        } else if self.0 == 3 {
            '$'
        } else if self.0 == 4 {
            '#'
        } else if self.0 == 5 {
            '&'
        } else {
            '@'
        }
    }

    /// Cyclic successor among the first `n_player` colors: color `k`
    /// becomes `k + 1`, and the last active color wraps back to color 1.
    pub fn next_stone(self, n_player: usize) -> (r: Stone)
        requires
            self.is_color(),
            1 <= n_player <= MAX_COLORS,
        ensures
            r.is_color(),
            (self.0 as int) < n_player ==> r.0 == self.0 + 1,
            (self.0 as int) >= n_player ==> r.0 == 1,
    {
        if (self.0 as usize) < n_player {
            Stone(self.0 + 1)
        } else {
            Stone(1)
        }
    }
}

} // verus!
