//! Colours and status values of the text terminal.

use vstd::prelude::*;

verus! {

/// The sixteen colours of the text mode.
#[derive(Debug, Clone, Copy, PartialEq, Eq, Structural)]
pub enum Color {
    Black,
    Blue,
    Green,
    Cyan,
    Red,
    Magenta,
    Brown,
    LightGrey,
    DarkGrey,
    LightBlue,
    LightGreen,
    LightCyan,
    LightRed,
    Pink,
    Yello,
    White,
}

impl Color {
    /// The number of the colour in the text mode.
    pub open spec fn code(self) -> nat {
        match self {
            Color::Black => 0,
            Color::Blue => 1,
            Color::Green => 2,
            Color::Cyan => 3,
            Color::Red => 4,
            Color::Magenta => 5,
            Color::Brown => 6,
            Color::LightGrey => 7,
            Color::DarkGrey => 8,
            Color::LightBlue => 9,
            Color::LightGreen => 10,
            Color::LightCyan => 11,
            Color::LightRed => 12,
            Color::Pink => 13,
            Color::Yello => 14,
            Color::White => 15,
        }
    }

    /// The number of the colour in the text mode.
    pub fn number(self) -> (r: u8)
        ensures
            r == self.code(),
    {
        match self {
            Color::Black => 0,
            Color::Blue => 1,
            Color::Green => 2,
            Color::Cyan => 3,
            Color::Red => 4,
            Color::Magenta => 5,
            Color::Brown => 6,
            Color::LightGrey => 7,
            Color::DarkGrey => 8,
            Color::LightBlue => 9,
            Color::LightGreen => 10,
            Color::LightCyan => 11,
            Color::LightRed => 12,
            Color::Pink => 13,
            Color::Yello => 14,
            Color::White => 15,
        }
    }
}

/// A foreground and a background colour in one byte: the background in the
/// high four bits, the foreground in the low four.
#[derive(Debug, Clone, Copy, PartialEq, Eq, Structural)]
pub struct ColorCode(pub u8);

impl ColorCode {
    /// The colour code of `fg` on `bg`.
    pub fn new(fg: Color, bg: Color) -> (r: ColorCode)
        ensures
            r.0 == bg.code() * 16 + fg.code(),
    {
        let b: u8 = bg.number();
        let f: u8 = fg.number();
        assert((b << 4u8) | f == b * 16 + f) by (bit_vector)
            requires
                b < 16,
                f < 16,
        ;
        ColorCode((b << 4u8) | f)
    }

    /// Light grey on black, for ordinary text.
    pub fn default_text() -> (r: ColorCode)
        ensures
            r.0 == 0x07,
    {
        ColorCode::new(Color::LightGrey, Color::Black)
    }
}

/// Whether the terminal is taking a line of input.
#[derive(Debug, Clone, Copy, PartialEq, Eq, Structural)]
pub enum InputStatus {
    Inputting,
    Waiting,
}

/// Which group of status lines is meant: the one above the text or the one
/// below it.
#[derive(Debug, Clone, Copy, PartialEq, Eq, Structural)]
pub enum StatusLineKind {
    Front,
    Back,
}

/// Where the cursor and the screen stand in the lines that the terminal
/// keeps.
pub struct LineInfo {
    pub cur_col: usize,
    pub cur_row: usize,
    pub screen: usize,
    pub width: usize,
    pub height: usize,
    pub total: usize,
}

} // verus!

verus! {

/// The number of rows of the screen.
pub const VIDEO_HEIGHT: usize = 25;

/// The number of columns of the screen.
pub const VIDEO_WIDTH: usize = 80;

/// The number of bytes that a line of input can have.
pub const INPUT_MAXSIZE: usize = 512;

/// Where the terminal stands: the cursor and the first row of the screen in
/// the rows that are kept, the status lines above and below the text, and
/// the line that is being typed.
#[derive(Debug, Clone, Copy)]
pub struct TerminalState {
    pub cur_col: usize,
    pub cur_row: usize,
    pub scr_row: usize,
    pub status_front_len: usize,
    pub status_back_len: usize,
    pub input_begin: usize,
    pub input_idx: usize,
    pub input_len: usize,
    pub input_status: InputStatus,
    pub total: usize,
}

impl TerminalState {
    /// The status lines leave at least one row for the text, the cursor and
    /// the screen stand on rows that are kept, and the place in the input
    /// lies behind the lines that are complete.
    pub open spec fn wf(&self) -> bool {
        &&& self.status_front_len + self.status_back_len < VIDEO_HEIGHT
        &&& self.cur_col < VIDEO_WIDTH
        &&& self.total >= 1
        &&& self.cur_row < self.total
        &&& self.scr_row < self.total
        &&& self.input_begin <= self.input_idx <= self.input_len <= INPUT_MAXSIZE
    }

    /// The rows of the screen that show text.
    pub open spec fn height(&self) -> int {
        VIDEO_HEIGHT - self.status_front_len - self.status_back_len
    }

    /// A terminal with one empty row, no status lines and no input.
    pub fn new() -> (r: Self)
        ensures
            r.wf(),
            r.total == 1,
            r.cur_row == 0 && r.cur_col == 0 && r.scr_row == 0,
            r.status_front_len == 0 && r.status_back_len == 0,
            r.input_begin == 0 && r.input_idx == 0 && r.input_len == 0,
            r.input_status == InputStatus::Waiting,
    {
        TerminalState {
            cur_col: 0,
            cur_row: 0,
            scr_row: 0,
            status_front_len: 0,
            status_back_len: 0,
            input_begin: 0,
            input_idx: 0,
            input_len: 0,
            input_status: InputStatus::Waiting,
            total: 1,
        }
    }

    /// The first row of the screen that shows text.
    pub fn screen_start(&self) -> (r: usize)
        ensures
            r == self.status_front_len,
    {
        self.status_front_len
    }

    /// The rows of the screen that show text.
    pub fn screen_height(&self) -> (r: usize)
        requires
            self.wf(),
        ensures
            r == self.height(),
            r >= 1,
    {
        VIDEO_HEIGHT - self.status_front_len - self.status_back_len
    }

    /// Whether the row `row` of the rows that are kept is on the screen.
    pub fn row_visible(&self, row: usize) -> (r: bool)
        requires
            self.wf(),
        ensures
            r == (self.scr_row <= row < self.scr_row + self.height()),
    {
        let scrlen = self.screen_height();
        self.scr_row <= row && row - self.scr_row < scrlen
    }

    /// Whether the cursor is on the screen.
    pub fn cursor_visible(&self) -> (r: bool)
        requires
            self.wf(),
        ensures
            r == (self.scr_row <= self.cur_row < self.scr_row + self.height()),
    {
        self.row_visible(self.cur_row)
    }

    /// The place of the cursor on the screen, counted in characters from
    /// the top left; the place behind the last character where the cursor
    /// is not on the screen.
    pub fn cursor_position(&self) -> (pos: usize)
        requires
            self.wf(),
        ensures
            pos == if self.scr_row <= self.cur_row < self.scr_row + self.height() {
                (self.status_front_len + self.cur_row - self.scr_row) * VIDEO_WIDTH
                    + self.cur_col
            } else {
                VIDEO_HEIGHT * VIDEO_WIDTH
            },
            pos <= VIDEO_HEIGHT * VIDEO_WIDTH,
    {
        if self.cursor_visible() {
            (self.screen_start() + (self.cur_row - self.scr_row)) * VIDEO_WIDTH + self.cur_col
        } else {
            VIDEO_HEIGHT * VIDEO_WIDTH
        }
    }

    /// The row of the screen on which the status line `line` of `kind`
    /// stands: the lines above the text count from the top, those below it
    /// from the bottom.
    pub fn get_status_line_row(&self, kind: StatusLineKind, line: usize) -> (row: usize)
        requires
            self.wf(),
            line < match kind {
                StatusLineKind::Front => self.status_front_len,
                StatusLineKind::Back => self.status_back_len,
            },
        ensures
            row == match kind {
                StatusLineKind::Front => line as int,
                StatusLineKind::Back => VIDEO_HEIGHT - line - 1,
            },
            row < VIDEO_HEIGHT,
    {
        match kind {
            StatusLineKind::Front => line,
            StatusLineKind::Back => VIDEO_HEIGHT - line - 1,
        }
    }

    /// Sets the number of status lines of `kind`.
    pub fn set_status_lines(&mut self, kind: StatusLineKind, lines: usize)
        requires
            old(self).wf(),
            lines + match kind {
                StatusLineKind::Front => old(self).status_back_len,
                StatusLineKind::Back => old(self).status_front_len,
            } < VIDEO_HEIGHT,
        ensures
            final(self).wf(),
            *final(self) == match kind {
                StatusLineKind::Front => (TerminalState { status_front_len: lines, ..*old(self) }),
                StatusLineKind::Back => (TerminalState { status_back_len: lines, ..*old(self) }),
            },
    {
        match kind {
            StatusLineKind::Front => self.status_front_len = lines,
            StatusLineKind::Back => self.status_back_len = lines,
        }
    }

    /// The row to which the screen goes when it is moved by `page` screens:
    /// as far as asked, but not before the first row nor behind the last.
    pub open spec fn scroll_target(&self, page: int) -> int {
        let to = self.scr_row + page * self.height();
        if to < 0 {
            0
        } else if to >= self.total {
            self.total - 1
        } else {
            to
        }
    }

    /// Moves the screen by `page` screens, back where `page` is negative.
    pub fn scroll_page(&mut self, page: isize)
        requires
            old(self).wf(),
        ensures
            final(self).wf(),
            final(self).scr_row == old(self).scroll_target(page as int),
            *final(self) == (TerminalState { scr_row: final(self).scr_row, ..*old(self) }),
    {
        let scrlen = self.screen_height();
        let last = self.total - 1;
        if page >= 0 {
            let pages = page as usize;
            let room = last - self.scr_row;
            proof {
                vstd::arithmetic::div_mod::lemma_fundamental_div_mod(room as int, scrlen as int);
                vstd::arithmetic::div_mod::lemma_mod_bound(room as int, scrlen as int);
            }
            if pages > room / scrlen {
                proof {
                    assert(pages * scrlen > room) by (nonlinear_arith)
                        requires
                            pages >= room / scrlen + 1,
                            scrlen >= 1,
                            room == scrlen * (room / scrlen) + room % scrlen,
                            room % scrlen < scrlen,
                    ;
                }
                self.scr_row = last;
            } else {
                proof {
                    assert(pages * scrlen <= room) by (nonlinear_arith)
                        requires
                            pages <= room / scrlen,
                            scrlen >= 1,
                            room == scrlen * (room / scrlen) + room % scrlen,
                            room % scrlen >= 0,
                    ;
                }
                self.scr_row = self.scr_row + pages * scrlen;
            }
        } else {
            let pages: usize = (-(page + 1)) as usize + 1;
            proof {
                vstd::arithmetic::div_mod::lemma_fundamental_div_mod(
                    self.scr_row as int,
                    scrlen as int,
                );
                vstd::arithmetic::div_mod::lemma_mod_bound(self.scr_row as int, scrlen as int);
            }
            if pages > self.scr_row / scrlen {
                proof {
                    let room = self.scr_row;
                    assert(pages * scrlen > room) by (nonlinear_arith)
                        requires
                            pages >= room / scrlen + 1,
                            scrlen >= 1,
                            room == scrlen * (room / scrlen) + room % scrlen,
                            room % scrlen < scrlen,
                    ;
                    assert(page * scrlen == -(pages * scrlen)) by (nonlinear_arith)
                        requires
                            page == -pages,
                    ;
                }
                self.scr_row = 0;
            } else {
                proof {
                    let room = self.scr_row;
                    assert(pages * scrlen <= room) by (nonlinear_arith)
                        requires
                            pages <= room / scrlen,
                            scrlen >= 1,
                            room == scrlen * (room / scrlen) + room % scrlen,
                            room % scrlen >= 0,
                    ;
                    assert(page * scrlen == -(pages * scrlen)) by (nonlinear_arith)
                        requires
                            page == -pages,
                    ;
                }
                self.scr_row = self.scr_row - pages * scrlen;
            }
        }
    }

    /// Moves the screen so that the cursor is on it: up to the row of the
    /// cursor, or down until the cursor stands on the last row.
    pub fn scroll_to_cursor(&mut self)
        requires
            old(self).wf(),
        ensures
            final(self).wf(),
            final(self).scr_row == if old(self).cur_row < old(self).scr_row {
                old(self).cur_row as int
            } else if old(self).cur_row >= old(self).scr_row + old(self).height() {
                old(self).cur_row - old(self).height() + 1
            } else {
                old(self).scr_row as int
            },
            *final(self) == (TerminalState { scr_row: final(self).scr_row, ..*old(self) }),
            final(self).scr_row <= final(self).cur_row < final(self).scr_row + final(self).height(),
    {
        let scrlen = self.screen_height();
        if self.cur_row < self.scr_row {
            self.scr_row = self.cur_row;
        } else if self.cur_row - self.scr_row >= scrlen {
            self.scr_row = self.cur_row - scrlen + 1;
        }
    }

    /// Moves the place in the input one character on, and the cursor with
    /// it, unless it stands at the end of the input.
    pub fn input_move_forward(&mut self)
        requires
            old(self).wf(),
            old(self).cur_row + 1 < old(self).total || old(self).cur_col + 1 < VIDEO_WIDTH
                || old(self).input_idx >= old(self).input_len,
        ensures
            final(self).wf(),
            *final(self) == if old(self).input_idx < old(self).input_len {
                if old(self).cur_col + 1 >= VIDEO_WIDTH {
                    TerminalState {
                        input_idx: (old(self).input_idx + 1) as usize,
                        cur_col: 0,
                        cur_row: (old(self).cur_row + 1) as usize,
                        ..*old(self)
                    }
                } else {
                    TerminalState {
                        input_idx: (old(self).input_idx + 1) as usize,
                        cur_col: (old(self).cur_col + 1) as usize,
                        ..*old(self)
                    }
                }
            } else {
                *old(self)
            },
    {
        if self.input_idx < self.input_len {
            self.input_idx += 1;
            self.cur_col += 1;
            if self.cur_col >= VIDEO_WIDTH {
                self.cur_col = 0;
                self.cur_row += 1;
            }
        }
    }

    /// Moves the place in the input one character back, and the cursor with
    /// it, unless it stands at the start of the line that is being typed.
    /// On the first column of the first row the cursor stays.
    pub fn input_move_backward(&mut self)
        requires
            old(self).wf(),
        ensures
            final(self).wf(),
            *final(self) == if old(self).input_idx > old(self).input_begin {
                if old(self).cur_col == 0 {
                    if old(self).cur_row > 0 {
                        TerminalState {
                            input_idx: (old(self).input_idx - 1) as usize,
                            cur_col: (VIDEO_WIDTH - 1) as usize,
                            cur_row: (old(self).cur_row - 1) as usize,
                            ..*old(self)
                        }
                    } else {
                        TerminalState {
                            input_idx: (old(self).input_idx - 1) as usize,
                            ..*old(self)
                        }
                    }
                } else {
                    TerminalState {
                        input_idx: (old(self).input_idx - 1) as usize,
                        cur_col: (old(self).cur_col - 1) as usize,
                        ..*old(self)
                    }
                }
            } else {
                *old(self)
            },
    {
        if self.input_idx > self.input_begin {
            self.input_idx -= 1;
            if self.cur_col == 0 {
                if self.cur_row > 0 {
                    self.cur_col = VIDEO_WIDTH - 1;
                    self.cur_row -= 1;
                }
            } else {
                self.cur_col -= 1;
            }
        }
    }

    /// The page that the screen shows and the number of pages, for the
    /// status line: pages are as high as the text on the screen, and where
    /// the screen does not start at a page, the part before it counts as a
    /// page of its own.
    pub fn page_status(&self) -> (r: (usize, usize))
        requires
            self.wf(),
        ensures
            r.0 == (self.scr_row + self.height() - 1) / self.height(),
            r.1 == (self.total - self.scr_row % (self.height() as usize) + self.height() - 1)
                / self.height() + if self.scr_row % (self.height() as usize) > 0 {
                1int
            } else {
                0int
            },
    {
        let screen = self.scr_row;
        let height = self.screen_height();
        let total = self.total;
        let scr_page = div_up(screen, height);
        let scr_reminder = screen % height;
        proof {
            vstd::arithmetic::div_mod::lemma_mod_decreases(screen as nat, height as nat);
        }
        let total_page = div_up(total - scr_reminder, height) + if scr_reminder > 0 {
            1
        } else {
            0
        };
        (scr_page, total_page)
    }

    /// Where the cursor and the screen stand.
    pub fn line_info(&self) -> (r: LineInfo)
        requires
            self.wf(),
        ensures
            r.cur_col == self.cur_col,
            r.cur_row == self.cur_row,
            r.screen == self.scr_row,
            r.width == VIDEO_WIDTH,
            r.height == self.height(),
            r.total == self.total,
    {
        LineInfo {
            cur_col: self.cur_col,
            cur_row: self.cur_row,
            screen: self.scr_row,
            width: VIDEO_WIDTH,
            height: self.screen_height(),
            total: self.total,
        }
    }
}

/// `x` divided by `d`, rounded up.
fn div_up(x: usize, d: usize) -> (r: usize)
    requires
        1 <= d <= VIDEO_HEIGHT,
    ensures
        r == (x + d - 1) / (d as int),
        d >= 2 ==> r <= usize::MAX / 2 + 1,
        d == 1 ==> r == x,
{
    let q = x / d;
    let m = x % d;
    proof {
        let h = d as int;
        vstd::arithmetic::div_mod::lemma_fundamental_div_mod(x as int, h);
        vstd::arithmetic::div_mod::lemma_mod_bound(x as int, h);
        assert(h * q == q * h) by (nonlinear_arith);
        if m > 0 {
            assert(x + h - 1 == (q + 1) * h + (m - 1)) by (nonlinear_arith)
                requires
                    x == q * h + m,
            ;
            vstd::arithmetic::div_mod::lemma_fundamental_div_mod_converse(
                x + h - 1,
                h,
                q + 1,
                m - 1,
            );
            assert(q * 2 <= x) by (nonlinear_arith)
                requires
                    x == q * h + m,
                    h >= 2,
                    m >= 0,
                    q >= 0,
            ;
        } else {
            assert(x + h - 1 == q * h + (h - 1));
            vstd::arithmetic::div_mod::lemma_fundamental_div_mod_converse(
                x + h - 1,
                h,
                q as int,
                h - 1,
            );
            if h >= 2 {
                assert(q * 2 <= x) by (nonlinear_arith)
                    requires
                        x == q * h,
                        h >= 2,
                        q >= 0,
                ;
            }
        }
    }
    if m > 0 {
        q + 1
    } else {
        q
    }
}

/// The most rows that a place to write at may lie behind the first row.
pub const ROW_LIMIT: usize = 3 * 256;

/// The place `col` columns behind the start of row `row`, as a row and a
/// column on it; nothing where the row does not fit a machine word or lies
/// too far down.
pub fn place_at(row: usize, col: usize) -> (r: Option<(usize, usize)>)
    ensures
        match r {
            Some((to_row, to_col)) => {
                &&& to_row == row + col / VIDEO_WIDTH
                &&& to_col == col % VIDEO_WIDTH
                &&& to_row <= ROW_LIMIT
            },
            None => row + col / VIDEO_WIDTH > ROW_LIMIT,
        },
{
    let down = col / VIDEO_WIDTH;
    if row > ROW_LIMIT || down > ROW_LIMIT - row {
        None
    } else {
        Some((row + down, col % VIDEO_WIDTH))
    }
}

/// The terminal starts to take a line of input.
pub fn start_inputting(term: &mut TerminalState)
    ensures
        *final(term) == (TerminalState { input_status: InputStatus::Inputting, ..*old(term) }),
{
    term.input_status = InputStatus::Inputting;
}

/// Whether anything has been typed that was not read yet.
pub fn has_input(term: &TerminalState) -> (r: bool)
    ensures
        r == (term.input_idx > 0),
{
    term.input_idx > 0
}

/// Whether a complete line has been typed that was not read yet.
pub fn has_input_line(term: &TerminalState) -> (r: bool)
    ensures
        r == (term.input_begin > 0),
{
    term.input_begin > 0
}

/// Sets the number of status lines above the text.
pub fn set_status_lines_front(term: &mut TerminalState, lines: usize)
    requires
        old(term).wf(),
        lines + old(term).status_back_len < VIDEO_HEIGHT,
    ensures
        final(term).wf(),
        *final(term) == (TerminalState { status_front_len: lines, ..*old(term) }),
{
    term.set_status_lines(StatusLineKind::Front, lines);
}

/// Sets the number of status lines below the text.
pub fn set_status_lines_back(term: &mut TerminalState, lines: usize)
    requires
        old(term).wf(),
        lines + old(term).status_front_len < VIDEO_HEIGHT,
    ensures
        final(term).wf(),
        *final(term) == (TerminalState { status_back_len: lines, ..*old(term) }),
{
    term.set_status_lines(StatusLineKind::Back, lines);
}

/// Moves the screen by `page` screens, back where `page` is negative.
pub fn scroll(term: &mut TerminalState, page: isize)
    requires
        old(term).wf(),
    ensures
        final(term).wf(),
        final(term).scr_row == old(term).scroll_target(page as int),
        *final(term) == (TerminalState { scr_row: final(term).scr_row, ..*old(term) }),
{
    term.scroll_page(page);
}

/// Where the cursor and the screen stand.
pub fn line_info(term: &TerminalState) -> (r: LineInfo)
    requires
        term.wf(),
    ensures
        r.cur_col == term.cur_col,
        r.cur_row == term.cur_row,
        r.screen == term.scr_row,
        r.width == VIDEO_WIDTH,
        r.height == term.height(),
        r.total == term.total,
{
    term.line_info()
}

} // verus!
