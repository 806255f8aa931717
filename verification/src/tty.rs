//! A text-mode terminal: the characters and colors shown on screen, with the
//! cursor where the next character goes.
//!
//! The screen holds 25 rows of 80 cells, two Bytes each: the character and
//! its color. Writing past the last row scrolls the screen up by one row.

use vstd::prelude::*;

verus! {

/// The Bytes of a row of the screen
pub const LINE_SIZE: usize = 160;

/// The cells of a row of the screen
pub const COLUMNS: usize = 80;

/// The rows of the screen
pub const ROWS: usize = 25;

/// The Bytes of the whole screen
pub const SCREEN_SIZE: usize = 4000;

/// The character that deletes the previous cell
pub const CHAR_BACKSPACE: u8 = 0x08;

/// The character that moves the cursor to the beginning of the next row
pub const CHAR_LINEFEED: u8 = 0x0A;

/// The contents of a screen, the column and the row of its cursor
pub type Screen = (Seq<u8>, int, int);

/// A screen with nothing on it
pub open spec fn blank() -> Seq<u8> {
    Seq::new(SCREEN_SIZE as nat, |i: int| 0u8)
}

/// The screen scrolled up by `lines` rows: the rows below the cursor move up
/// and the rows they leave are cleared; when the cursor is not below that many
/// rows, or the screen is not that high, the whole screen is cleared instead
pub open spec fn scrolled(s: Screen, lines: int) -> Screen {
    if lines >= s.2 || lines >= ROWS {
        (blank(), 0, 0)
    } else {
        (Seq::new(s.0.len(), |i: int|
            if i < (s.2 - lines) * LINE_SIZE { s.0[i + lines * LINE_SIZE] }
            else if i < s.2 * LINE_SIZE { 0u8 }
            else { s.0[i] }),
        s.1, s.2 - lines)
    }
}

/// The screen after a character moved the cursor: scrolled by one row when
/// the cursor went past the last row
pub open spec fn settled(s: Screen) -> Screen {
    if s.2 == ROWS { scrolled(s, 1) } else { s }
}

/// The screen after writing the character `c` in the color `color`
///
/// A line feed moves the cursor to the beginning of the next row. A backspace
/// moves the cursor back by one cell, to the end of the previous row from the
/// beginning of a row, and clears the cell; it does nothing at the top left
/// corner. Any other character fills the cell of the cursor and moves it
/// forward, to the next row from the end of a row.
pub open spec fn put_char(s: Screen, c: u8, color: u8) -> Screen {
    if c == CHAR_LINEFEED {
        settled((s.0, 0, s.2 + 1))
    } else if c == CHAR_BACKSPACE {
        if s.1 == 0 && s.2 == 0 {
            s
        } else {
            let col = if s.1 == 0 { COLUMNS - 1 } else { s.1 - 1 };
            let row = if s.1 == 0 { s.2 - 1 } else { s.2 };
            let at = col * 2 + row * LINE_SIZE;
            settled((s.0.update(at, 0u8).update(at + 1, 0u8), col, row))
        }
    } else {
        let at = s.1 * 2 + s.2 * LINE_SIZE;
        let b = s.0.update(at, c).update(at + 1, color);
        if s.1 + 1 == COLUMNS {
            settled((b, 0, s.2 + 1))
        } else {
            settled((b, s.1 + 1, s.2))
        }
    }
}

/// The screen after writing the characters of `bytes` in turn
pub open spec fn written(s: Screen, bytes: Seq<u8>, color: u8) -> Screen
    decreases bytes.len(),
{
    if bytes.len() == 0 {
        s
    } else {
        written(put_char(s, bytes[0], color), bytes.drop_first(), color)
    }
}

/// The video memory of a text-mode screen and the cursor
pub struct ScreenBuffer {
    /// The cells of the screen, two Bytes each
    pub buf: Vec<u8>,
    /// The column of the cursor
    pub col: usize,
    /// The row of the cursor
    pub row: usize,
}

impl ScreenBuffer {
    /// The contents of the screen and the position of the cursor
    pub open spec fn view(&self) -> Screen {
        (self.buf@, self.col as int, self.row as int)
    }

    /// The buffer covers the screen and the cursor is on it
    pub open spec fn wf(&self) -> bool {
        &&& self.buf@.len() == SCREEN_SIZE
        &&& self.col < COLUMNS
        &&& self.row < ROWS
    }

    /// Creates a blank screen with the cursor at the top left corner
    pub fn new() -> (r: Self)
        ensures
            r.wf(),
            r.view() == (blank(), 0int, 0int),
    {
        let mut buf: Vec<u8> = Vec::new();
        let mut i: usize = 0;
        while i < SCREEN_SIZE
            invariant
                i <= SCREEN_SIZE,
                buf@.len() == i,
                forall|k: int| #![trigger buf@[k]] 0 <= k < i ==> buf@[k] == 0u8,
            decreases SCREEN_SIZE - i,
        {
            buf.push(0u8);
            i = i + 1;
        }
        let r = ScreenBuffer { buf, col: 0, row: 0 };
        assert(r.buf@ =~= blank());
        r
    }

    /// Checks whether the cursor is at the top left corner
    pub fn is_empty(&self) -> (r: bool)
        ensures
            r == (self.col == 0 && self.row == 0),
    {
        self.col == 0 && self.row == 0
    }

    /// Moves the cursor forward by one cell, to the beginning of the next row
    /// from the end of a row, which may leave it past the last row
    pub fn increase_column(&mut self)
        requires
            old(self).col < COLUMNS,
            old(self).row < ROWS,
        ensures
            final(self).buf == old(self).buf,
            old(self).col + 1 == COLUMNS ==> final(self).col == 0 && final(self).row == old(self).row + 1,
            old(self).col + 1 < COLUMNS ==> final(self).col == old(self).col + 1 && final(self).row == old(self).row,
    {
        self.col = self.col + 1;
        if self.col == COLUMNS {
            self.col = 0;
            self.row = self.row + 1;
        }
    }

    /// Moves the cursor back by one cell, to the end of the previous row from
    /// the beginning of a row
    pub fn decrease_column(&mut self)
        requires
            old(self).col < COLUMNS,
            old(self).col > 0 || old(self).row > 0,
        ensures
            final(self).buf == old(self).buf,
            old(self).col == 0 ==> final(self).col == COLUMNS - 1 && final(self).row == old(self).row - 1,
            old(self).col > 0 ==> final(self).col == old(self).col - 1 && final(self).row == old(self).row,
    {
        if self.col == 0 {
            self.col = COLUMNS;
            self.row = self.row - 1;
        }
        self.col = self.col - 1;
    }

    /// Blanks the whole screen and moves the cursor to the top left corner
    pub fn clear(&mut self)
        requires
            old(self).buf@.len() == SCREEN_SIZE,
        ensures
            final(self).wf(),
            final(self).view() == (blank(), 0int, 0int),
    {
        let mut i: usize = 0;
        while i < SCREEN_SIZE
            invariant
                i <= SCREEN_SIZE,
                self.buf@.len() == SCREEN_SIZE,
                forall|k: int| #![trigger self.buf@[k]] 0 <= k < i ==> self.buf@[k] == 0u8,
            decreases SCREEN_SIZE - i,
        {
            self.buf.set(i, 0u8);
            i = i + 1;
        }
        self.col = 0;
        self.row = 0;
        assert(self.buf@ =~= blank());
    }

    /// Scrolls the screen up by `lines` rows, as [`scrolled`] says
    pub fn scroll(&mut self, lines: usize)
        requires
            old(self).buf@.len() == SCREEN_SIZE,
            old(self).col < COLUMNS,
            old(self).row < ROWS || (old(self).row == ROWS && lines > 0),
        ensures
            final(self).wf(),
            final(self).view() == scrolled(old(self).view(), lines as int),
    {
        if lines >= self.row || lines >= ROWS {
            self.clear();
            return;
        }
        let scroll_size = lines * LINE_SIZE;
        let scrolled_size = (self.row - lines) * LINE_SIZE;
        let ghost old_buf = self.buf@;
        let mut i: usize = 0;
        while i < scrolled_size
            invariant
                scroll_size == lines * LINE_SIZE,
                scrolled_size == (old(self).row - lines) * LINE_SIZE,
                lines < old(self).row <= ROWS,
                self.row == old(self).row,
                self.col == old(self).col,
                i <= scrolled_size,
                self.buf@.len() == SCREEN_SIZE,
                old_buf.len() == SCREEN_SIZE,
                forall|k: int| #![trigger self.buf@[k]] 0 <= k < i ==> self.buf@[k] == old_buf[k + scroll_size],
                forall|k: int| #![trigger self.buf@[k]] i <= k < SCREEN_SIZE ==> self.buf@[k] == old_buf[k],
            decreases scrolled_size - i,
        {
            let b = self.buf[i + scroll_size];
            self.buf.set(i, b);
            i = i + 1;
        }
        let mut j: usize = scrolled_size;
        while j < scrolled_size + scroll_size
            invariant
                scroll_size == lines * LINE_SIZE,
                scrolled_size == (old(self).row - lines) * LINE_SIZE,
                lines < old(self).row <= ROWS,
                self.row == old(self).row,
                self.col == old(self).col,
                scrolled_size <= j <= scrolled_size + scroll_size,
                self.buf@.len() == SCREEN_SIZE,
                forall|k: int| #![trigger self.buf@[k]] 0 <= k < scrolled_size ==> self.buf@[k] == old_buf[k + scroll_size],
                forall|k: int| #![trigger self.buf@[k]] scrolled_size <= k < j ==> self.buf@[k] == 0u8,
                forall|k: int| #![trigger self.buf@[k]] j <= k < SCREEN_SIZE ==> self.buf@[k] == old_buf[k],
            decreases scrolled_size + scroll_size - j,
        {
            self.buf.set(j, 0u8);
            j = j + 1;
        }
        self.row = self.row - lines;
        assert(self.buf@ =~= scrolled(old(self).view(), lines as int).0);
    }

    /// Writes the characters of `bytes` in the color `color`, as [`written`] says
    pub fn write(&mut self, bytes: &[u8], color: u8)
        requires
            old(self).wf(),
        ensures
            final(self).wf(),
            final(self).view() == written(old(self).view(), bytes@, color),
    {
        let mut i: usize = 0;
        assert(bytes@.skip(0) =~= bytes@);
        while i < bytes.len()
            invariant
                i <= bytes@.len(),
                self.wf(),
                written(old(self).view(), bytes@, color) == written(self.view(), bytes@.skip(i as int), color),
            decreases bytes.len() - i,
        {
            let ghost before = self.view();
            let c = bytes[i];
            proof {
                assert(bytes@.skip(i as int)[0] == c);
                assert(bytes@.skip(i as int).drop_first() =~= bytes@.skip(i + 1));
            }
            if c == CHAR_LINEFEED {
                self.col = 0;
                self.row = self.row + 1;
            } else if c == CHAR_BACKSPACE {
                if self.is_empty() {
                    i = i + 1;
                    continue;
                }
                self.decrease_column();
                let at = self.col * 2 + self.row * LINE_SIZE;
                self.buf.set(at, 0u8);
                self.buf.set(at + 1, 0u8);
            } else {
                let at = self.col * 2 + self.row * LINE_SIZE;
                self.buf.set(at, c);
                self.buf.set(at + 1, color);
                self.increase_column();
            }
            if self.row == ROWS {
                self.scroll(1);
            }
            proof {
                assert(self.view() == put_char(before, c, color));
            }
            i = i + 1;
        }
        proof {
            assert(bytes@.skip(i as int).len() == 0);
        }
    }
}

/// The character of a digit below 16: `0` to `9`, then `A` to `F`
pub open spec fn digit_char(d: nat) -> u8 {
    if d < 10 { (0x30 + d) as u8 } else { (0x41 + d - 10) as u8 }
}

/// The hexadecimal digits of `v`, most significant first
pub open spec fn hex_digits(v: nat) -> Seq<u8>
    decreases v,
{
    if v < 16 { seq![digit_char(v)] } else { hex_digits(v / 16).push(digit_char(v % 16)) }
}

/// The decimal digits of `v`, most significant first
pub open spec fn dec_digits(v: nat) -> Seq<u8>
    decreases v,
{
    if v < 10 { seq![digit_char(v)] } else { dec_digits(v / 10).push(digit_char(v % 10)) }
}

/// The character of a digit below 16
fn digit(d: usize) -> (r: u8)
    requires
        d < 16,
    ensures
        r == digit_char(d as nat),
{
    if d < 10 { 0x30 + d as u8 } else { 0x41 + (d - 10) as u8 }
}

/// The hexadecimal digits of `value`, most significant first
pub fn hex_digits_of(value: usize) -> (r: Vec<u8>)
    ensures
        r@ == hex_digits(value as nat),
    decreases value,
{
    if value < 16 {
        vec![digit(value)]
    } else {
        let mut d = hex_digits_of(value / 16);
        d.push(digit(value % 16));
        d
    }
}

/// The decimal digits of `value`, most significant first
pub fn dec_digits_of(value: usize) -> (r: Vec<u8>)
    ensures
        r@ == dec_digits(value as nat),
    decreases value,
{
    if value < 10 {
        vec![digit(value)]
    } else {
        let mut d = dec_digits_of(value / 10);
        d.push(digit(value % 10));
        d
    }
}

/// Writes the characters of `msg` on the screen
pub fn print_raw(screen: &mut ScreenBuffer, msg: &[u8], color: u8)
    requires
        old(screen).wf(),
    ensures
        final(screen).wf(),
        final(screen).view() == written(old(screen).view(), msg@, color),
{
    screen.write(msg, color);
}

/// Writes `value` on the screen in hexadecimal, after an `x`
pub fn print_hex(screen: &mut ScreenBuffer, value: usize, color: u8)
    requires
        old(screen).wf(),
    ensures
        final(screen).wf(),
        final(screen).view() == written(old(screen).view(), seq![0x78u8] + hex_digits(value as nat), color),
{
    let mut text: Vec<u8> = vec![0x78u8];
    let mut digits = hex_digits_of(value);
    text.append(&mut digits);
    assert(text@ =~= seq![0x78u8] + hex_digits(value as nat));
    screen.write(text.as_slice(), color);
}

/// Writes `value` on the screen in decimal
pub fn print_usize(screen: &mut ScreenBuffer, value: usize, color: u8)
    requires
        old(screen).wf(),
    ensures
        final(screen).wf(),
        final(screen).view() == written(old(screen).view(), dec_digits(value as nat), color),
{
    let digits = dec_digits_of(value);
    screen.write(digits.as_slice(), color);
}

/// Writes `value` on the screen in decimal, after a `-` when it is negative
pub fn print_isize(screen: &mut ScreenBuffer, value: isize, color: u8)
    requires
        old(screen).wf(),
        value != isize::MIN,
    ensures
        final(screen).wf(),
        value < 0 ==> final(screen).view() == written(written(old(screen).view(), seq![0x2Du8], color), dec_digits((-value) as nat), color),
        value >= 0 ==> final(screen).view() == written(old(screen).view(), dec_digits(value as nat), color),
{
    let mut v = value;
    if v < 0 {
        let minus: [u8; 1] = [0x2Du8];
        screen.write(&minus, color);
        proof { assert(minus@ =~= seq![0x2Du8]); }
        v = -v;
    }
    print_usize(screen, v as usize, color);
}

} // verus!
