//! What a terminal shows, and whether an agent waits there for input.
use vstd::prelude::*;

use crate::text::{chars, contains, has_part, same, trim, trimmed};

verus! {

/// The screen behind the output of a terminal, as `vt100::Parser` keeps it.
#[verifier::external_body]
pub struct Display {
    parser: vt100::Parser,
}

/// What a screen went through since it was made, in order: the sizes that it was given,
/// and the bytes of output that it took. A size comes with no byte, a byte with no size.
pub uninterp spec fn history_of(d: Display) -> Seq<(int, int, Seq<u8>)>;

/// The cells of a screen by row and column, after what it went through: the text of each,
/// whether it is dim, and whether it is the first or the second half of a wide character.
pub uninterp spec fn cells_after(history: Seq<(int, int, Seq<u8>)>) -> Map<
    (int, int),
    (Seq<char>, bool, bool, bool),
>;

/// The row and the column of the cursor, after what a screen went through.
pub uninterp spec fn cursor_after(history: Seq<(int, int, Seq<u8>)>) -> Seq<int>;

/// Whether the cursor is hidden, after what a screen went through.
pub uninterp spec fn hidden_after(history: Seq<(int, int, Seq<u8>)>) -> bool;

/// The text on a screen, after what it went through.
pub uninterp spec fn text_after(history: Seq<(int, int, Seq<u8>)>) -> Seq<char>;

/// The most rows or columns of a screen.
pub const LARGEST: u16 = 1000;

/// A size that a screen is given.
pub open spec fn sized(rows: u16, cols: u16) -> (int, int, Seq<u8>) {
    (rows as int, cols as int, Seq::empty())
}

/// A byte of output that a screen takes.
pub open spec fn fed(byte: u8) -> (int, int, Seq<u8>) {
    (0, 0, seq![byte])
}

/// The numbers of rows and of columns: those that a screen was given last.
pub open spec fn size_after(history: Seq<(int, int, Seq<u8>)>) -> Seq<int>
    decreases history.len(),
{
    if history.len() == 0 {
        seq![0int, 0int]
    } else if history.last().0 > 0 {
        seq![history.last().0, history.last().1]
    } else {
        size_after(history.drop_last())
    }
}

/// The first half of a wide character stands at a place, and the second one does not stand
/// behind it: that was lost when the screen got narrower.
pub open spec fn is_half(history: Seq<(int, int, Seq<u8>)>, row: int, col: int) -> bool {
    let cells = cells_after(history);
    &&& cells.dom().contains((row, col)) && cells[(row, col)].2
    &&& !(cells.dom().contains((row, col + 1)) && cells[(row, col + 1)].3)
}

/// Half a wide character stands in a row.
pub open spec fn half_in(history: Seq<(int, int, Seq<u8>)>, row: int) -> bool {
    exists|col: int| 0 <= col < size_after(history)[1] && #[trigger] is_half(history, row, col)
}

/// No half of a wide character stands where a character of that width is drawn.
pub open spec fn is_free(
    history: Seq<(int, int, Seq<u8>)>,
    row: int,
    col: int,
    width: int,
) -> bool {
    !is_half(history, row, col) && (width >= 2 ==> !is_half(history, row, col + 1))
}

/// What a screen makes of the bytes that come.
#[derive(Clone, Copy, PartialEq, Eq, Structural)]
pub enum Phase {
    /// They may be drawn.
    Open,
    /// An escape came right before.
    Escape,
    /// They belong to a control sequence that has not ended.
    Control,
    /// They belong to a title, or another text that is not drawn.
    Aside,
}

pub open spec fn next_phase(phase: Phase, byte: u8) -> Phase {
    if byte == 0x1b {
        Phase::Escape
    } else {
        match phase {
            Phase::Open => Phase::Open,
            Phase::Escape => if byte == 0x5b {
                Phase::Control
            } else if byte == 0x5d {
                Phase::Aside
            } else {
                Phase::Open
            },
            Phase::Control => if 0x30 <= byte <= 0x3f {
                Phase::Control
            } else {
                Phase::Open
            },
            Phase::Aside => if byte == 0x07 || byte == 0x18 || byte == 0x1a {
                Phase::Open
            } else {
                Phase::Aside
            },
        }
    }
}

impl Phase {
    fn next(self, byte: u8) -> (r: Phase)
        ensures
            r == next_phase(self, byte),
    {
        if byte == 0x1b {
            return Phase::Escape;
        }
        match self {
            Phase::Open => Phase::Open,
            Phase::Escape => if byte == 0x5b {
                Phase::Control
            } else if byte == 0x5d {
                Phase::Aside
            } else {
                Phase::Open
            },
            Phase::Control => if 0x30 <= byte && byte <= 0x3f {
                Phase::Control
            } else {
                Phase::Open
            },
            Phase::Aside => if byte == 0x07 || byte == 0x18 || byte == 0x1a {
                Phase::Open
            } else {
                Phase::Aside
            },
        }
    }
}

/// A sequence that an escape began may go on after a byte: it is no letter that ends one.
pub open spec fn goes_on(before: bool, byte: u8) -> bool {
    byte == 0x1b || (before && !(0x40 <= byte <= 0x7e && byte != 0x5b))
}

/// How many bytes a character takes, by its first one.
pub open spec fn length_of(lead: u8) -> int {
    if lead < 0xe0 {
        2
    } else if lead < 0xf0 {
        3
    } else {
        4
    }
}

fn length(lead: u8) -> (r: usize)
    ensures
        r == length_of(lead),
{
    if lead < 0xe0 {
        2
    } else if lead < 0xf0 {
        3
    } else {
        4
    }
}

/// The bytes of a character that has not ended, after one more.
pub open spec fn next_begun(begun: Seq<u8>, byte: u8) -> Seq<u8> {
    if byte >= 0xc0 {
        seq![byte]
    } else if byte < 0x80 || begun.len() == 0 || begun.len() + 1 >= length_of(begun[0]) {
        Seq::empty()
    } else {
        begun.push(byte)
    }
}

/// The character that a byte ends, by its bytes: none where there is no such.
pub open spec fn ended(begun: Seq<u8>, byte: u8) -> Seq<u8> {
    if 0x80 <= byte < 0xc0 && begun.len() > 0 && begun.len() + 1 == length_of(begun[0]) {
        begun.push(byte)
    } else {
        Seq::empty()
    }
}

/// What is known of a screen by the output that it took, after all of that: what it makes of
/// bytes, whether a sequence may not have ended yet, and the bytes of a character that has
/// not.
pub open spec fn reading(history: Seq<(int, int, Seq<u8>)>) -> (Phase, bool, Seq<u8>)
    decreases history.len(),
{
    if history.len() == 0 {
        (Phase::Open, false, Seq::empty())
    } else {
        let (phase, sequence, begun) = reading(history.drop_last());
        if history.last().2.len() == 0 {
            (phase, sequence, begun)
        } else {
            let byte = history.last().2[0];
            (next_phase(phase, byte), goes_on(sequence, byte), next_begun(begun, byte))
        }
    }
}

/// A small screen on which only these bytes were drawn.
pub open spec fn alone(bytes: Seq<u8>) -> Seq<(int, int, Seq<u8>)> {
    seq![sized(2, 8)] + bytes.map_values(|b: u8| fed(b))
}

/// How many columns a character takes: as many as the cursor moves on where it is drawn. One
/// of all takes three, and the cursor moves by two.
pub open spec fn width_of(bytes: Seq<u8>) -> int {
    let moved = cursor_after(alone(bytes))[1];
    if bytes == seq![0xe1u8, 0x9fu8, 0x98u8] {
        3
    } else if moved > 2 {
        2
    } else {
        moved
    }
}

/// How many columns a screen needs for what a byte draws.
pub open spec fn columns(history: Seq<(int, int, Seq<u8>)>, byte: u8) -> int {
    let (phase, _, begun) = reading(history);
    if phase != Phase::Open {
        0
    } else if 0x20 <= byte < 0x7f {
        1
    } else if ended(begun, byte).len() > 0 {
        width_of(ended(begun, byte))
    } else {
        0
    }
}

/// A byte may end a sequence that erases something in the row of the cursor.
pub open spec fn may_erase(history: Seq<(int, int, Seq<u8>)>, byte: u8) -> bool {
    reading(history).1 && (byte == 0x4a || byte == 0x4b || byte == 0x50 || byte == 0x58)
}

/// A screen takes a byte: it has room for what the byte draws, on a screen of one row without
/// a new line, and half a wide character is neither drawn over nor erased.
pub open spec fn takes_byte(history: Seq<(int, int, Seq<u8>)>, byte: u8) -> bool {
    let (rows, cols) = (size_after(history)[0], size_after(history)[1]);
    let (row, col) = (cursor_after(history)[0], cursor_after(history)[1]);
    let width = columns(history, byte);
    &&& cols <= LARGEST
    &&& may_erase(history, byte) ==> !half_in(history, row)
    &&& width > 0 ==> if col + width <= cols {
        is_free(history, row, col, width)
    } else {
        &&& rows >= 2 && width <= cols
        &&& is_free(history, row, 0, width)
        &&& row + 1 < rows ==> is_free(history, row + 1, 0, width)
    }
}

/// A new screen, as large as the one that there was.
pub open spec fn renewed(history: Seq<(int, int, Seq<u8>)>) -> Seq<(int, int, Seq<u8>)> {
    seq![(size_after(history)[0], size_after(history)[1], Seq::empty())]
}

/// What a screen went through once output was drawn on it. A byte that it does not take is
/// left out, and the screen starts anew.
pub open spec fn drawn(history: Seq<(int, int, Seq<u8>)>, bytes: Seq<u8>) -> Seq<
    (int, int, Seq<u8>),
>
    decreases bytes.len(),
{
    if bytes.len() == 0 {
        history
    } else {
        let before = drawn(history, bytes.drop_last());
        if takes_byte(before, bytes.last()) {
            before.push(fed(bytes.last()))
        } else {
            renewed(before)
        }
    }
}

/// It does not matter in what pieces output comes.
pub proof fn output_may_come_in_pieces(
    history: Seq<(int, int, Seq<u8>)>,
    first: Seq<u8>,
    second: Seq<u8>,
)
    ensures
        drawn(drawn(history, first), second) == drawn(history, first + second),
    decreases second.len(),
{
    if second.len() == 0 {
        assert(first + second =~= first);
    } else {
        assert((first + second).drop_last() =~= first + second.drop_last());
        output_may_come_in_pieces(history, first, second.drop_last());
    }
}

/// A screen of two rows and three columns takes every byte and never starts anew, as long as
/// no half of a wide character stands on it.
pub proof fn a_whole_screen_takes_all_output(history: Seq<(int, int, Seq<u8>)>, byte: u8)
    requires
        size_after(history)[0] >= 2,
        3 <= size_after(history)[1] <= LARGEST,
        forall|row: int, col: int| !#[trigger] is_half(history, row, col),
    ensures
        takes_byte(history, byte),
        drawn(history, seq![byte]) == history.push(fed(byte)),
{
    assert(seq![byte].drop_last() =~= Seq::<u8>::empty());
    assert(drawn(history, seq![byte].drop_last()) == history);
}

impl Display {
    /// `vt100::Parser::new` makes a blank screen of that size, which took no output yet, with
    /// the cursor in its first place.
    #[verifier::external_body]
    fn make(rows: u16, cols: u16) -> (r: Display)
        requires
            1 <= rows <= LARGEST,
            1 <= cols <= LARGEST,
        ensures
            history_of(r) == seq![sized(rows, cols)],
            cursor_after(history_of(r)) == seq![0int, 0int],
            forall|row: int, col: int| !#[trigger] is_half(history_of(r), row, col),
    {
        Display { parser: vt100::Parser::new(rows, cols, 0) }
    }

    /// `vt100::Parser::process` takes a byte of the terminal's output. What the screen shows
    /// then depends on nothing but its size at each point and the output up to there. It
    /// panics where a line wraps on a screen of one row, where a character is wider than the
    /// screen, where a wide character that lost its second half when the screen got narrower
    /// is drawn over or erased, and, with overflow checks, where a tab is taken near the last
    /// column that there can be: all of these are left out. A byte beyond ASCII that ends no
    /// character changes neither the cells nor the cursor.
    #[verifier::external_body]
    fn take(&mut self, byte: u8)
        requires
            takes_byte(history_of(*old(self)), byte),
        ensures
            history_of(*final(self)) == history_of(*old(self)).push(fed(byte)),
            byte >= 0x80 && ended(reading(history_of(*old(self))).2, byte).len() == 0 ==> {
                &&& cursor_after(history_of(*final(self))) == cursor_after(history_of(*old(self)))
                &&& cells_after(history_of(*final(self))) == cells_after(history_of(*old(self)))
            },
    {
        self.parser.process(&[byte]);
    }

    /// `vt100::Screen::set_size` gives the screen that size, and keeps what it shows within
    /// it.
    #[verifier::external_body]
    fn set_size(&mut self, rows: u16, cols: u16)
        requires
            1 <= rows <= LARGEST,
            1 <= cols <= LARGEST,
        ensures
            history_of(*final(self)) == history_of(*old(self)).push(sized(rows, cols)),
    {
        self.parser.screen_mut().set_size(rows, cols);
    }

    /// `vt100::Screen::size` gives the numbers of rows and of columns: those that the
    /// screen was given last, since no output changes them.
    #[verifier::external_body]
    fn size(&self) -> (r: (u16, u16))
        ensures
            seq![r.0 as int, r.1 as int] == size_after(history_of(*self)),
    {
        self.parser.screen().size()
    }

    /// `vt100::Screen::cursor_position` gives the row and the column of the cursor.
    #[verifier::external_body]
    fn cursor_position(&self) -> (r: (u16, u16))
        ensures
            seq![r.0 as int, r.1 as int] == cursor_after(history_of(*self)),
    {
        self.parser.screen().cursor_position()
    }

    /// `vt100::Screen::hide_cursor` tells whether the cursor is hidden.
    #[verifier::external_body]
    fn hide_cursor(&self) -> (r: bool)
        ensures
            r == hidden_after(history_of(*self)),
    {
        self.parser.screen().hide_cursor()
    }

    /// `vt100::Screen::contents` gives the text on the screen.
    #[verifier::external_body]
    fn contents(&self) -> (r: String)
        ensures
            r@ == text_after(history_of(*self)),
    {
        self.parser.screen().contents()
    }

    /// `vt100::Screen::cell` gives the cell at a place, where there is one: its text, whether
    /// it is dim, and whether it is the first or the second half of a wide character.
    #[verifier::external_body]
    fn cell(&self, row: u16, col: u16) -> (r: Option<(String, bool, bool, bool)>)
        ensures
            match r {
                Some((text, dim, first, second)) => cells_after(history_of(*self)).contains_pair(
                    (row as int, col as int),
                    (text@, dim, first, second),
                ),
                None => !cells_after(history_of(*self)).dom().contains((row as int, col as int)),
            },
    {
        let cell = self.parser.screen().cell(row, col);
        cell.map(
            |c| (c.contents().to_string(), c.dim(), c.is_wide(), c.is_wide_continuation()),
        )
    }
}

impl Display {
    fn half(&self, row: u16, col: u16) -> (r: bool)
        requires
            col < u16::MAX,
        ensures
            r == is_half(history_of(*self), row as int, col as int),
    {
        match self.cell(row, col) {
            Some((_, _, true, _)) => match self.cell(row, col + 1) {
                Some((_, _, _, second)) => !second,
                None => true,
            },
            _ => false,
        }
    }

    /// Whether half a wide character stands in the row of the cursor.
    fn half_here(&self) -> (r: bool)
        requires
            size_after(history_of(*self))[1] <= LARGEST,
        ensures
            r == half_in(history_of(*self), cursor_after(history_of(*self))[0]),
    {
        let ghost h = history_of(*self);
        let (_, cols) = self.size();
        let (row, _) = self.cursor_position();
        assert(size_after(h)[1] == cols && cursor_after(h)[0] == row);
        let mut col: u16 = 0;
        while col < cols
            invariant
                h == history_of(*self),
                size_after(h)[1] == cols && cursor_after(h)[0] == row,
                cols <= LARGEST,
                col <= cols,
                forall|k: int| 0 <= k < col ==> !#[trigger] is_half(h, row as int, k),
            decreases cols - col,
        {
            if self.half(row, col) {
                assert(is_half(h, row as int, col as int));
                return true;
            }
            col += 1;
        }
        false
    }

    fn free(&self, row: u16, col: u16, width: u16) -> (r: bool)
        requires
            col < u16::MAX - 1,
        ensures
            r == is_free(history_of(*self), row as int, col as int, width as int),
    {
        !self.half(row, col) && (width < 2 || !self.half(row, col + 1))
    }
}

/// A character is begun by its first bytes.
spec fn is_begun(bytes: Seq<u8>) -> bool {
    bytes.len() > 0 ==> bytes[0] >= 0xc0 && bytes.len() < length_of(bytes[0]) && forall|i: int|
        0 < i < bytes.len() ==> 0x80 <= #[trigger] bytes[i] < 0xc0
}

proof fn lemma_begun(history: Seq<(int, int, Seq<u8>)>)
    ensures
        is_begun(reading(history).2),
    decreases history.len(),
{
    if history.len() > 0 {
        lemma_begun(history.drop_last());
    }
}

/// Where a character is drawn alone, each of its bytes but the last only begins it.
proof fn lemma_alone(bytes: Seq<u8>, k: int)
    requires
        bytes.len() > 0,
        is_begun(bytes.drop_last()),
        bytes.len() == length_of(bytes[0]),
        0 <= k < bytes.len(),
    ensures
        reading(alone(bytes.take(k))).2 == bytes.take(k),
        reading(alone(bytes.take(k))).0 == Phase::Open,
        !reading(alone(bytes.take(k))).1,
        size_after(alone(bytes.take(k))) == seq![2int, 8int],
    decreases k,
{
    let some = alone(bytes.take(k));
    let none = Seq::<(int, int, Seq<u8>)>::empty();
    assert(reading(none) == (Phase::Open, false, Seq::<u8>::empty()));
    if k == 0 {
        assert(some =~= seq![sized(2, 8)]);
        assert(some.drop_last() =~= none);
        assert(bytes.take(0) =~= Seq::<u8>::empty());
    } else {
        lemma_alone(bytes, k - 1);
        let before = alone(bytes.take(k - 1));
        assert(bytes.take(k).drop_last() =~= bytes.take(k - 1));
        assert(some.drop_last() =~= before);
        let byte = bytes[k - 1];
        assert(some.last() == fed(byte));
        assert(bytes.drop_last()[k - 1] == byte);
        assert(bytes.drop_last()[0] == bytes[0]);
        if k == 1 {
            assert(bytes.take(k) =~= seq![byte]);
        } else {
            assert(bytes.take(k - 1)[0] == bytes[0]);
            assert(bytes.take(k) =~= bytes.take(k - 1).push(byte));
        }
    }
}

/// How many columns a character takes.
fn width(bytes: &Vec<u8>) -> (r: u16)
    requires
        bytes@.len() > 0,
        is_begun(bytes@.drop_last()),
        bytes@.len() == length_of(bytes@[0]),
        0x80 <= bytes@.last() < 0xc0,
    ensures
        r == width_of(bytes@),
        r <= 3,
{
    let ghost all = bytes@;
    if bytes.len() == 3 && bytes[0] == 0xe1 && bytes[1] == 0x9f && bytes[2] == 0x98 {
        assert(all =~= seq![0xe1u8, 0x9fu8, 0x98u8]);
        return 3;
    }
    let mut d = Display::make(2, 8);
    assert(alone(all.take(0)) =~= seq![sized(2, 8)]);
    let mut i: usize = 0;
    while i < bytes.len()
        invariant
            all == bytes@,
            all.len() > 0,
            is_begun(all.drop_last()),
            all.len() == length_of(all[0]),
            0x80 <= all.last() < 0xc0,
            i <= all.len(),
            history_of(d) == alone(all.take(i as int)),
            i < all.len() ==> cursor_after(history_of(d)) == seq![0int, 0int],
            i < all.len() ==> forall|row: int, col: int|
                !#[trigger] is_half(history_of(d), row, col),
        decreases all.len() - i,
    {
        proof {
            lemma_alone(all, i as int);
            if i + 1 < all.len() {
                assert(all.drop_last()[i as int] == all[i as int]);
                assert(all.drop_last()[0] == all[0]);
                if i > 0 {
                    assert(all.take(i as int)[0] == all[0]);
                }
            }
            assert(alone(all.take(i + 1)) =~= alone(all.take(i as int)).push(fed(all[i as int])));
        }
        let ghost before = history_of(d);
        d.take(bytes[i]);
        i += 1;
        proof {
            if i < all.len() {
                assert forall|row: int, col: int| !#[trigger] is_half(history_of(d), row, col) by {
                    assert(!is_half(before, row, col));
                }
            }
        }
    }
    assert(all.take(i as int) =~= all);
    let (_, moved) = d.cursor_position();
    assert(cursor_after(alone(all))[1] == moved);
    assert(all != seq![0xe1u8, 0x9fu8, 0x98u8]) by {
        if all == seq![0xe1u8, 0x9fu8, 0x98u8] {
            assert(all[0] == 0xe1 && all[1] == 0x9f && all[2] == 0x98);
        }
    }
    if moved > 2 {
        2
    } else {
        moved
    }
}

/// A screen, and what is known of it by the output that it took.
pub struct Screen {
    display: Display,
    phase: Phase,
    sequence: bool,
    begun: Vec<u8>,
}

impl View for Screen {
    type V = Seq<(int, int, Seq<u8>)>;

    closed spec fn view(&self) -> Seq<(int, int, Seq<u8>)> {
        history_of(self.display)
    }
}

impl Screen {
    pub closed spec fn wf(&self) -> bool {
        &&& 1 <= size_after(self@)[0] <= LARGEST
        &&& 1 <= size_after(self@)[1] <= LARGEST
        &&& reading(self@) == (self.phase, self.sequence, self.begun@)
    }

    /// A screen of that size.
    pub fn new(rows: u16, cols: u16) -> (r: Screen)
        requires
            1 <= rows <= LARGEST,
            1 <= cols <= LARGEST,
        ensures
            r.wf(),
            r@ == seq![sized(rows, cols)],
    {
        let r = Screen {
            display: Display::make(rows, cols),
            phase: Phase::Open,
            sequence: false,
            begun: Vec::new(),
        };
        proof {
            let none = r@.drop_last();
            assert(none =~= Seq::empty());
            assert(reading(none) == (Phase::Open, false, Seq::<u8>::empty()));
        }
        r
    }

    /// How many columns the screen needs for what a byte draws.
    fn columns(&self, byte: u8) -> (r: u16)
        requires
            self.wf(),
        ensures
            r == columns(self@, byte),
            r <= 3,
    {
        if self.phase != Phase::Open {
            return 0;
        }
        if 0x20 <= byte && byte < 0x7f {
            return 1;
        }
        if byte < 0x80 || byte >= 0xc0 || self.begun.len() == 0 {
            return 0;
        }
        proof {
            lemma_begun(self@);
        }
        let length = length(self.begun[0]);
        if self.begun.len() + 1 != length {
            return 0;
        }
        let mut bytes = self.begun.clone();
        bytes.push(byte);
        assert(bytes@.drop_last() =~= self.begun@);
        width(&bytes)
    }

    /// Whether the screen takes a byte.
    pub fn takes(&self, byte: u8) -> (r: bool)
        requires
            self.wf(),
        ensures
            r == takes_byte(self@, byte),
    {
        let (rows, cols) = self.display.size();
        let (row, col) = self.display.cursor_position();
        assert(size_after(self@)[0] == rows && size_after(self@)[1] == cols);
        assert(cursor_after(self@)[0] == row && cursor_after(self@)[1] == col);
        let width = self.columns(byte);
        let erases = self.sequence && (byte == 0x4a || byte == 0x4b || byte == 0x50 || byte
            == 0x58);
        if erases && self.display.half_here() {
            return false;
        }
        if width == 0 {
            true
        } else if col as u32 + width as u32 <= cols as u32 {
            self.display.free(row, col, width)
        } else {
            rows >= 2 && width <= cols && self.display.free(row, 0, width) && (row >= rows - 1
                || self.display.free(row + 1, 0, width))
        }
    }

    /// Takes a byte of the terminal's output.
    pub fn process(&mut self, byte: u8)
        requires
            old(self).wf(),
            takes_byte(old(self)@, byte),
        ensures
            final(self).wf(),
            final(self)@ == old(self)@.push(fed(byte)),
    {
        self.display.take(byte);
        assert(self@.drop_last() =~= old(self)@);
        assert(self@.last() == fed(byte));
        self.phase = self.phase.next(byte);
        self.sequence = byte == 0x1b || (self.sequence && !(0x40 <= byte && byte <= 0x7e && byte
            != 0x5b));
        proof {
            lemma_begun(old(self)@);
        }
        self.begin(byte);
    }

    /// Counts a byte to the character that it begins, goes on or ends.
    fn begin(&mut self, byte: u8)
        requires
            is_begun(old(self).begun@),
        ensures
            *final(self) == (Screen { begun: final(self).begun, ..*old(self) }),
            final(self).begun@ == next_begun(old(self).begun@, byte),
    {
        if byte >= 0xc0 {
            self.begun = vec![byte];
            assert(self.begun@ =~= seq![byte]);
            return ;
        }
        if byte < 0x80 || self.begun.len() == 0 {
            self.begun = Vec::new();
            assert(self.begun@ =~= Seq::<u8>::empty());
            return ;
        }
        let length = length(self.begun[0]);
        if self.begun.len() + 1 >= length {
            self.begun = Vec::new();
            assert(self.begun@ =~= Seq::<u8>::empty());
        } else {
            self.begun.push(byte);
        }
    }

    /// Draws output of the terminal. A byte that the screen does not take is left out, and
    /// the screen starts anew: blank, and as large as it was.
    pub fn draw(&mut self, bytes: &[u8])
        requires
            old(self).wf(),
        ensures
            final(self).wf(),
            final(self)@ == drawn(old(self)@, bytes@),
    {
        let ghost all = bytes@;
        let mut i: usize = 0;
        assert(all.take(0) =~= Seq::empty());
        while i < bytes.len()
            invariant
                all == bytes@,
                i <= all.len(),
                self.wf(),
                self@ == drawn(old(self)@, all.take(i as int)),
            decreases all.len() - i,
        {
            let byte = bytes[i];
            assert(all.take(i + 1).drop_last() =~= all.take(i as int));
            if self.takes(byte) {
                self.process(byte);
            } else {
                let (rows, cols) = self.display.size();
                assert(size_after(self@)[0] == rows && size_after(self@)[1] == cols);
                let ghost before = self@;
                *self = Screen::new(rows, cols);
                assert(self@ =~= renewed(before));
            }
            i += 1;
        }
        assert(all.take(i as int) =~= all);
    }

    /// Gives the screen a size. It keeps what it shows within that.
    pub fn resize(&mut self, rows: u16, cols: u16)
        requires
            old(self).wf(),
            1 <= rows <= LARGEST,
            1 <= cols <= LARGEST,
        ensures
            final(self).wf(),
            final(self)@ == old(self)@.push(sized(rows, cols)),
    {
        self.display.set_size(rows, cols);
        assert(self@.drop_last() =~= old(self)@);
        assert(self@.last() == sized(rows, cols));
    }

    /// The numbers of rows and of columns.
    pub fn size(&self) -> (r: (u16, u16))
        ensures
            seq![r.0 as int, r.1 as int] == size_after(self@),
    {
        self.display.size()
    }

    /// Whether the screen shows an agent that waits for input.
    pub fn awaits(&self) -> (r: bool)
        ensures
            r == awaits_input(self@),
    {
        self.display.awaits()
    }
}

/// No text at a place but white space.
pub open spec fn is_blank(cells: Map<(int, int), (Seq<char>, bool, bool, bool)>, row: int, col: int) -> bool {
    cells.dom().contains((row, col)) ==> trimmed(cells[(row, col)].0).len() == 0
}

/// No text at a place but white space or a dim placeholder.
pub open spec fn is_idle(cells: Map<(int, int), (Seq<char>, bool, bool, bool)>, row: int, col: int) -> bool {
    cells.dom().contains((row, col)) ==> trimmed(cells[(row, col)].0).len() == 0 || cells[(
        row,
        col,
    )].1
}

/// A prompt stands two cells before the cursor, with nothing else left of the cursor.
pub open spec fn prompts(cells: Map<(int, int), (Seq<char>, bool, bool, bool)>, row: int, col: int) -> bool {
    let start = col - 2;
    &&& start >= 0
    &&& cells.dom().contains((row, start))
    &&& cells[(row, start)].0 == "\u{203a}"@ || cells[(row, start)].0 == "\u{276f}"@
    &&& is_blank(cells, row, start + 1)
    &&& forall|c: int| 0 <= c < start ==> #[trigger] is_blank(cells, row, c)
}

/// The screen shows an empty composer with the cursor in it: an agent waits for input.
pub open spec fn awaits_input(history: Seq<(int, int, Seq<u8>)>) -> bool {
    let cells = cells_after(history);
    let row = cursor_after(history)[0];
    let col = cursor_after(history)[1];
    &&& prompts(cells, row, col)
    &&& forall|c: int| col <= c < size_after(history)[1] ==> #[trigger] is_idle(cells, row, c)
    &&& !hidden_after(history)
    &&& !has_part(text_after(history), "esc to interrupt"@)
}

fn only_space(s: &str) -> (r: bool)
    ensures
        r == (trimmed(s@).len() == 0),
{
    let c = chars(s);
    let (a, b) = trim(&c, 0, c.len());
    assert(c@.subrange(0, c@.len() as int) =~= c@);
    a == b
}

impl Display {
    fn blank(&self, row: u16, col: u16) -> (r: bool)
        ensures
            r == is_blank(cells_after(history_of(*self)), row as int, col as int),
    {
        match self.cell(row, col) {
            Some((text, _, _, _)) => only_space(text.as_str()),
            None => true,
        }
    }

    fn idle(&self, row: u16, col: u16) -> (r: bool)
        ensures
            r == is_idle(cells_after(history_of(*self)), row as int, col as int),
    {
        match self.cell(row, col) {
            Some((text, dim, _, _)) => only_space(text.as_str()) || dim,
            None => true,
        }
    }

    fn prompt(&self, row: u16, col: u16) -> (r: bool)
        ensures
            r == prompts(cells_after(history_of(*self)), row as int, col as int),
    {
        if col < 2 {
            return false;
        }
        let start: u16 = col - 2;
        let marked = match self.cell(row, start) {
            Some((text, _, _, _)) => same(text.as_str(), "\u{203a}") || same(text.as_str(), "\u{276f}"),
            None => false,
        };
        if !marked || !self.blank(row, start + 1) {
            return false;
        }
        let mut c: u16 = 0;
        while c < start
            invariant
                c <= start,
                start == col - 2,
                forall|k: int| 0 <= k < c ==> #[trigger] is_blank(cells_after(history_of(*self)), row as int, k),
            decreases start - c,
        {
            if !self.blank(row, c) {
                assert(!is_blank(cells_after(history_of(*self)), row as int, c as int));
                return false;
            }
            c += 1;
        }
        true
    }

    fn awaits(&self) -> (r: bool)
        ensures
            r == awaits_input(history_of(*self)),
    {
        let (row, col) = self.cursor_position();
        let (rows, cols) = self.size();
        assert(cursor_after(history_of(*self))[0] == row && cursor_after(history_of(*self))[1] == col);
        assert(size_after(history_of(*self))[1] == cols);
        if !self.prompt(row, col) || self.hide_cursor() {
            return false;
        }
        let text = self.contents();
        if contains(text.as_str(), "esc to interrupt") {
            return false;
        }
        let mut c: u16 = col;
        while c < cols
            invariant
                col <= c,
                c <= cols || c == col,
                cursor_after(history_of(*self))[0] == row,
                cursor_after(history_of(*self))[1] == col,
                size_after(history_of(*self))[1] == cols,
                forall|k: int| col <= k < c ==> #[trigger] is_idle(cells_after(history_of(*self)), row as int, k),
            decreases cols - c,
        {
            if !self.idle(row, c) {
                assert(!is_idle(cells_after(history_of(*self)), row as int, c as int));
                return false;
            }
            c += 1;
        }
        true
    }
}

} // verus!
