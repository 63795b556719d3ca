use vstd::prelude::*;

verus! {

/// A position in a text document: a zero-based line and the UTF-16 offset
/// of a character within that line.
#[derive(Clone, Copy, Debug, PartialEq, Eq)]
pub struct Position {
    pub line: u32,
    pub character: u32,
}

/// A range of positions in a text document.
#[derive(Clone, Copy, Debug, PartialEq, Eq)]
pub struct PositionRange {
    pub start: Position,
    pub end: Position,
}

/// The unit in which a text index counts characters.
#[derive(Clone, Copy, Debug, PartialEq, Eq)]
pub enum IndexUnit {
    /// One per Unicode character.
    Char,
    /// The number of bytes of the UTF-8 encoding of the character.
    Utf8,
}

/// The number of bytes of the UTF-8 encoding of a character.
pub open spec fn utf8_width(c: char) -> nat {
    let u = c as u32;
    if u < 0x80 {
        1
    } else if u < 0x800 {
        2
    } else if u < 0x10000 {
        3
    } else {
        4
    }
}

/// The number of 16-bit code units of the UTF-16 encoding of a character.
pub open spec fn utf16_width(c: char) -> nat {
    if (c as u32) < 0x10000 {
        1
    } else {
        2
    }
}

pub open spec fn unit_width(unit: IndexUnit, c: char) -> nat {
    match unit {
        IndexUnit::Char => 1,
        IndexUnit::Utf8 => utf8_width(c),
    }
}

/// The length of a text in the given unit.
pub open spec fn width(unit: IndexUnit, s: Seq<char>) -> nat
    decreases s.len(),
{
    if s.len() == 0 {
        0
    } else {
        width(unit, s.drop_last()) + unit_width(unit, s.last())
    }
}

/// The number of line feeds of a text.
pub open spec fn newlines(s: Seq<char>) -> nat
    decreases s.len(),
{
    if s.len() == 0 {
        0
    } else {
        newlines(s.drop_last()) + if s.last() == '\n' {
            1nat
        } else {
            0nat
        }
    }
}

/// The UTF-16 length of the last line of a text.
pub open spec fn column16(s: Seq<char>) -> nat
    decreases s.len(),
{
    if s.len() == 0 {
        0
    } else if s.last() == '\n' {
        0
    } else {
        column16(s.drop_last()) + utf16_width(s.last())
    }
}

/// The character at `j` ends the search for the position `pos`: it starts
/// on the line of `pos` at its column, or it ends that line.
pub open spec fn stops(s: Seq<char>, pos: Position, j: int) -> bool {
    &&& 0 <= j < s.len()
    &&& newlines(s.take(j)) == pos.line
    &&& (column16(s.take(j)) == pos.character || s[j] == '\n' || s[j] == '\r')
}

/// The first character index from `from` on that ends the search for `pos`,
/// or the length of the text.
pub open spec fn first_stop(s: Seq<char>, pos: Position, from: int) -> int
    decreases s.len() - from,
{
    if from < 0 || from >= s.len() {
        s.len() as int
    } else if stops(s, pos, from) {
        from
    } else {
        first_stop(s, pos, from + 1)
    }
}

/// The first character index from `from` on whose UTF-8 offset reaches
/// `index`, or the length of the text.
pub open spec fn first_reach(s: Seq<char>, index: nat, from: int) -> int
    decreases s.len() - from,
{
    if from < 0 || from >= s.len() {
        s.len() as int
    } else if width(IndexUnit::Utf8, s.take(from)) >= index {
        from
    } else {
        first_reach(s, index, from + 1)
    }
}

/// Lines and columns of every prefix of the text fit in a position.
pub open spec fn fits_positions(s: Seq<char>) -> bool {
    forall|j: int|
        0 <= j <= s.len() ==> #[trigger] newlines(s.take(j)) <= u32::MAX && column16(s.take(j))
            <= u32::MAX
}

/// The number of bytes of the UTF-8 encoding of a text.
pub open spec fn utf8_len(s: Seq<char>) -> nat {
    width(IndexUnit::Utf8, s)
}

/// `char::len_utf8`: the number of bytes of the UTF-8 encoding of a character.
pub fn char_len_utf8(c: char) -> (r: usize)
    ensures
        r == utf8_width(c),
{
    let u = c as u32;
    if u < 0x80 {
        1
    } else if u < 0x800 {
        2
    } else if u < 0x10000 {
        3
    } else {
        4
    }
}

/// `char::len_utf16`: the number of 16-bit code units of a character.
pub fn char_len_utf16(c: char) -> (r: usize)
    ensures
        r == utf16_width(c),
{
    if (c as u32) < 0x10000 {
        1
    } else {
        2
    }
}

fn unit_len(unit: IndexUnit, c: char) -> (r: usize)
    ensures
        r == unit_width(unit, c),
{
    match unit {
        IndexUnit::Char => 1,
        IndexUnit::Utf8 => char_len_utf8(c),
    }
}

/// The characters of a text.
fn chars_of(text: &str) -> (r: Vec<char>)
    ensures
        r@ == text@,
{
    let mut v: Vec<char> = Vec::new();
    for c in it: text.chars()
        invariant
            v@ == it.seq().take(it.index()),
    {
        v.push(c);
    }
    v
}

proof fn lemma_width_prefix(unit: IndexUnit, s: Seq<char>, i: int, j: int)
    requires
        0 <= i <= j <= s.len(),
    ensures
        width(unit, s.take(i)) <= width(unit, s.take(j)),
    decreases j - i,
{
    if i < j {
        lemma_width_prefix(unit, s, i, j - 1);
        assert(s.take(j).drop_last() =~= s.take(j - 1));
    }
}

/// Tells whether the positions of a text fit the position functions: every
/// line number and UTF-16 column of the text fits in a `u32`, and its UTF-8
/// length in a `usize`.
pub fn positions_fit(text: &str) -> (r: bool)
    ensures
        r == (fits_positions(text@) && utf8_len(text@) <= usize::MAX),
{
    let chars = chars_of(text);
    let ghost s = text@;
    let mut line: u64 = 0;
    let mut col: u64 = 0;
    let mut w: usize = 0;
    let mut i: usize = 0;
    proof {
        assert(s.take(0) =~= Seq::<char>::empty());
    }
    while i < chars.len()
        invariant
            chars@ == s,
            s == text@,
            i <= s.len(),
            line == newlines(s.take(i as int)),
            col == column16(s.take(i as int)),
            w == width(IndexUnit::Utf8, s.take(i as int)),
            forall|j: int|
                0 <= j <= i ==> #[trigger] newlines(s.take(j)) <= u32::MAX && column16(s.take(j))
                    <= u32::MAX,
        decreases s.len() - i,
    {
        let c = chars[i];
        proof {
            assert(s.take(i + 1).drop_last() =~= s.take(i as int));
            assert(s.take(i + 1).last() == c);
        }
        let nl = if c == '\n' {
            line + 1
        } else {
            line
        };
        let nc = if c == '\n' {
            0
        } else {
            col + char_len_utf16(c) as u64
        };
        if nl > 0xffff_ffffu64 || nc > 0xffff_ffffu64 {
            proof {
                assert(!(newlines(s.take(i + 1)) <= u32::MAX && column16(s.take(i + 1)) <= u32::MAX));
                if fits_positions(s) {
                    assert(newlines(s.take(i + 1)) <= u32::MAX && column16(s.take(i + 1)) <= u32::MAX);
                }
            }
            return false;
        }
        let cw = char_len_utf8(c);
        if w > usize::MAX - cw {
            proof {
                lemma_width_prefix(IndexUnit::Utf8, s, i + 1, s.len() as int);
                assert(s.take(s.len() as int) =~= s);
            }
            return false;
        }
        line = nl;
        col = nc;
        w = w + cw;
        i = i + 1;
    }
    proof {
        assert(s.take(s.len() as int) =~= s);
    }
    true
}

/// Returns the index, in the given unit, of the given UTF-16 text position.
///
/// The search stops at the position, or at the end of its line when the line
/// is shorter, or at the end of the text.
pub fn index_for_position(unit: IndexUnit, text: &str, position: Position) -> (r: usize)
    requires
        utf8_len(text@) <= usize::MAX,
        fits_positions(text@),
    ensures
        r == width(unit, text@.take(first_stop(text@, position, 0))),
{
    let chars = chars_of(text);
    let ghost s = text@;
    let mut line: u32 = 0;
    let mut character: u32 = 0;
    let mut index: usize = 0;
    let mut i: usize = 0;
    proof {
        assert(s.take(0) =~= Seq::<char>::empty());
    }
    while i < chars.len()
        invariant
            chars@ == s,
            s == text@,
            i <= s.len(),
            utf8_len(s) <= usize::MAX,
            fits_positions(s),
            line == newlines(s.take(i as int)),
            line <= position.line,
            character == if line == position.line {
                column16(s.take(i as int))
            } else {
                0
            },
            index == width(unit, s.take(i as int)),
            first_stop(s, position, 0) == first_stop(s, position, i as int),
        decreases s.len() - i,
    {
        let c = chars[i];
        proof {
            assert(s.take(i + 1).drop_last() =~= s.take(i as int));
            assert(s.take(i + 1).last() == c);
            lemma_width_prefix(unit, s, i + 1, s.len() as int);
            lemma_width_prefix(IndexUnit::Utf8, s, i + 1, s.len() as int);
            assert(s.take(s.len() as int) =~= s);
            if unit is Char {
                lemma_char_width_le(s.take(i + 1));
            }
            assert(newlines(s.take(i + 1)) <= u32::MAX && column16(s.take(i + 1)) <= u32::MAX);
        }
        if line == position.line {
            if character == position.character || c == '\n' || c == '\r' {
                assert(stops(s, position, i as int));
                return index;
            }
            character = character + char_len_utf16(c) as u32;
        } else if c == '\n' {
            line = line + 1;
        }
        index = index + unit_len(unit, c);
        i = i + 1;
    }
    proof {
        assert(s.take(s.len() as int) =~= s);
    }
    index
}

proof fn lemma_char_width_le(s: Seq<char>)
    ensures
        width(IndexUnit::Char, s) <= width(IndexUnit::Utf8, s),
    decreases s.len(),
{
    if s.len() > 0 {
        lemma_char_width_le(s.drop_last());
    }
}

/// Returns the UTF-16 text position for the given Unicode character index.
pub fn utf16_position(text: &str, index: usize) -> (r: Position)
    requires
        fits_positions(text@),
    ensures
        ({
            let k = if index <= text@.len() {
                index as int
            } else {
                text@.len() as int
            };
            r.line == newlines(text@.take(k)) && r.character == column16(text@.take(k))
        }),
{
    let chars = chars_of(text);
    let ghost s = text@;
    let mut line: u32 = 0;
    let mut character: u32 = 0;
    let mut i: usize = 0;
    proof {
        assert(s.take(0) =~= Seq::<char>::empty());
    }
    while i < chars.len() && i < index
        invariant
            chars@ == s,
            s == text@,
            i <= s.len(),
            i <= index,
            fits_positions(s),
            line == newlines(s.take(i as int)),
            character == column16(s.take(i as int)),
        decreases s.len() - i,
    {
        let c = chars[i];
        proof {
            assert(s.take(i + 1).drop_last() =~= s.take(i as int));
            assert(s.take(i + 1).last() == c);
            assert(newlines(s.take(i + 1)) <= u32::MAX && column16(s.take(i + 1)) <= u32::MAX);
        }
        if c == '\n' {
            line = line + 1;
            character = 0;
        } else {
            character = character + char_len_utf16(c) as u32;
        }
        i = i + 1;
    }
    Position { line, character }
}

/// Returns the Unicode _character_ index for the given UTF-16 text position.
pub fn char_index(text: &str, position: Position) -> (r: usize)
    requires
        utf8_len(text@) <= usize::MAX,
        fits_positions(text@),
    ensures
        r == first_stop(text@, position, 0),
{
    let r = index_for_position(IndexUnit::Char, text, position);
    proof {
        lemma_first_stop_range(text@, position, 0);
        lemma_char_width(text@.take(first_stop(text@, position, 0)));
    }
    r
}

/// The search for a position ends within the text.
pub proof fn lemma_first_stop_bounds(s: Seq<char>, pos: Position)
    ensures
        0 <= first_stop(s, pos, 0) <= s.len(),
{
    lemma_first_stop_range(s, pos, 0);
}

proof fn lemma_first_stop_range(s: Seq<char>, pos: Position, from: int)
    requires
        0 <= from <= s.len(),
    ensures
        from <= first_stop(s, pos, from) <= s.len(),
    decreases s.len() - from,
{
    if from < s.len() && !stops(s, pos, from) {
        lemma_first_stop_range(s, pos, from + 1);
    }
}

proof fn lemma_first_reach_range(s: Seq<char>, index: nat, from: int)
    requires
        0 <= from <= s.len(),
    ensures
        from <= first_reach(s, index, from) <= s.len(),
    decreases s.len() - from,
{
    if from < s.len() && width(IndexUnit::Utf8, s.take(from)) < index {
        lemma_first_reach_range(s, index, from + 1);
    }
}

proof fn lemma_char_width(s: Seq<char>)
    ensures
        width(IndexUnit::Char, s) == s.len(),
    decreases s.len(),
{
    if s.len() > 0 {
        lemma_char_width(s.drop_last());
    }
}

/// Returns the UTF-8 index for the given UTF-16 text position.
pub fn utf8_index(text: &str, position: Position) -> (r: usize)
    requires
        utf8_len(text@) <= usize::MAX,
        fits_positions(text@),
    ensures
        r == width(IndexUnit::Utf8, text@.take(first_stop(text@, position, 0))),
{
    index_for_position(IndexUnit::Utf8, text, position)
}

/// Returns the UTF-8 index for the given UTF-16 text position.
pub fn position_to_utf8(text: &str, position: Position) -> (r: usize)
    requires
        utf8_len(text@) <= usize::MAX,
        fits_positions(text@),
    ensures
        r == width(IndexUnit::Utf8, text@.take(first_stop(text@, position, 0))),
{
    let chars = chars_of(text);
    let ghost s = text@;
    let mut line: u32 = 0;
    let mut character: u32 = 0;
    let mut utf8_index: usize = 0;
    let mut i: usize = 0;
    proof {
        assert(s.take(0) =~= Seq::<char>::empty());
    }
    while i < chars.len()
        invariant
            chars@ == s,
            s == text@,
            i <= s.len(),
            utf8_len(s) <= usize::MAX,
            fits_positions(s),
            line == newlines(s.take(i as int)),
            line <= position.line,
            character == if line == position.line {
                column16(s.take(i as int))
            } else {
                0
            },
            utf8_index == width(IndexUnit::Utf8, s.take(i as int)),
            first_stop(s, position, 0) == first_stop(s, position, i as int),
        decreases s.len() - i,
    {
        let c = chars[i];
        proof {
            assert(s.take(i + 1).drop_last() =~= s.take(i as int));
            assert(s.take(i + 1).last() == c);
            lemma_width_prefix(IndexUnit::Utf8, s, i + 1, s.len() as int);
            assert(s.take(s.len() as int) =~= s);
            assert(newlines(s.take(i + 1)) <= u32::MAX && column16(s.take(i + 1)) <= u32::MAX);
        }
        if line == position.line {
            if character == position.character || c == '\n' || c == '\r' {
                assert(stops(s, position, i as int));
                return utf8_index;
            }
            character = character + char_len_utf16(c) as u32;
        } else if c == '\n' {
            line = line + 1;
        }
        utf8_index = utf8_index + char_len_utf8(c);
        i = i + 1;
    }
    proof {
        assert(s.take(s.len() as int) =~= s);
    }
    utf8_index
}

/// Returns the UTF-16 text position for the given UTF-8 index.
pub fn utf8_to_position(text: &str, index: usize) -> (r: Position)
    requires
        utf8_len(text@) <= usize::MAX,
        fits_positions(text@),
    ensures
        r.line == newlines(text@.take(first_reach(text@, index as nat, 0))),
        r.character == column16(text@.take(first_reach(text@, index as nat, 0))),
{
    let chars = chars_of(text);
    let ghost s = text@;
    let mut line: u32 = 0;
    let mut character: u32 = 0;
    let mut utf8_index: usize = 0;
    let mut i: usize = 0;
    proof {
        assert(s.take(0) =~= Seq::<char>::empty());
    }
    while i < chars.len()
        invariant
            chars@ == s,
            s == text@,
            i <= s.len(),
            utf8_len(s) <= usize::MAX,
            fits_positions(s),
            line == newlines(s.take(i as int)),
            character == column16(s.take(i as int)),
            utf8_index == width(IndexUnit::Utf8, s.take(i as int)),
            first_reach(s, index as nat, 0) == first_reach(s, index as nat, i as int),
        decreases s.len() - i,
    {
        if utf8_index >= index {
            return Position { line, character };
        }
        let c = chars[i];
        proof {
            assert(s.take(i + 1).drop_last() =~= s.take(i as int));
            assert(s.take(i + 1).last() == c);
            lemma_width_prefix(IndexUnit::Utf8, s, i + 1, s.len() as int);
            assert(s.take(s.len() as int) =~= s);
            assert(newlines(s.take(i + 1)) <= u32::MAX && column16(s.take(i + 1)) <= u32::MAX);
        }
        if c == '\n' {
            line = line + 1;
            character = 0;
        } else {
            character = character + char_len_utf16(c) as u32;
        }
        utf8_index = utf8_index + char_len_utf8(c);
        i = i + 1;
    }
    Position { line, character }
}

/// Converts a UTF-8 range to a UTF-16 position range.
pub fn utf8_range_to_position(text: &str, range: std::ops::Range<usize>) -> (r: PositionRange)
    requires
        utf8_len(text@) <= usize::MAX,
        fits_positions(text@),
    ensures
        r.start.line == newlines(text@.take(first_reach(text@, range.start as nat, 0))),
        r.start.character == column16(text@.take(first_reach(text@, range.start as nat, 0))),
        r.end.line == newlines(text@.take(first_reach(text@, range.end as nat, 0))),
        r.end.character == column16(text@.take(first_reach(text@, range.end as nat, 0))),
{
    let start = utf8_to_position(text, range.start);
    let end = utf8_to_position(text, range.end);
    PositionRange { start, end }
}

/// Returns the Unicode character index of the character at the given UTF-8
/// index, or of the first character after it.
pub fn utf8_to_char_index(input: &str, index: usize) -> (r: usize)
    requires
        utf8_len(input@) <= usize::MAX,
    ensures
        r == first_reach(input@, index as nat, 0),
{
    let chars = chars_of(input);
    let ghost s = input@;
    let mut utf8_index: usize = 0;
    let mut char_index: usize = 0;
    proof {
        assert(s.take(0) =~= Seq::<char>::empty());
    }
    while char_index < chars.len()
        invariant
            chars@ == s,
            s == input@,
            char_index <= s.len(),
            utf8_len(s) <= usize::MAX,
            utf8_index == width(IndexUnit::Utf8, s.take(char_index as int)),
            first_reach(s, index as nat, 0) == first_reach(s, index as nat, char_index as int),
        decreases s.len() - char_index,
    {
        if utf8_index >= index {
            return char_index;
        }
        let c = chars[char_index];
        proof {
            assert(s.take(char_index + 1).drop_last() =~= s.take(char_index as int));
            assert(s.take(char_index + 1).last() == c);
            lemma_width_prefix(IndexUnit::Utf8, s, char_index + 1, s.len() as int);
            assert(s.take(s.len() as int) =~= s);
        }
        utf8_index = utf8_index + char_len_utf8(c);
        char_index = char_index + 1;
    }
    char_index
}

proof fn lemma_line_prefix(s: Seq<char>, j: int, i: int)
    requires
        0 <= j <= i <= s.len(),
    ensures
        newlines(s.take(j)) <= newlines(s.take(i)),
        newlines(s.take(j)) == newlines(s.take(i)) && j < i ==> column16(s.take(j)) < column16(
            s.take(i),
        ),
        newlines(s.take(j)) == newlines(s.take(i)) ==> forall|k: int|
            j <= k < i ==> #[trigger] s[k] != '\n',
    decreases i - j,
{
    if j < i {
        lemma_line_prefix(s, j, i - 1);
        assert(s.take(i).drop_last() =~= s.take(i - 1));
        assert(s.take(i).last() == s[i - 1]);
    }
}

proof fn lemma_width_strict(s: Seq<char>, j: int, i: int)
    requires
        0 <= j < i <= s.len(),
    ensures
        width(IndexUnit::Utf8, s.take(j)) < width(IndexUnit::Utf8, s.take(i)),
    decreases i - j,
{
    assert(s.take(i).drop_last() =~= s.take(i - 1));
    if j < i - 1 {
        lemma_width_strict(s, j, i - 1);
    }
}

proof fn lemma_first_stop_skip(s: Seq<char>, pos: Position, from: int, i: int)
    requires
        0 <= from <= i <= s.len(),
        forall|j: int| from <= j < i ==> !#[trigger] stops(s, pos, j),
    ensures
        first_stop(s, pos, from) == first_stop(s, pos, i),
    decreases i - from,
{
    if from < i {
        lemma_first_stop_skip(s, pos, from + 1, i);
    }
}

proof fn lemma_first_reach_skip(s: Seq<char>, index: nat, from: int, i: int)
    requires
        0 <= from <= i <= s.len(),
        forall|j: int| from <= j < i ==> #[trigger] width(IndexUnit::Utf8, s.take(j)) < index,
    ensures
        first_reach(s, index, from) == first_reach(s, index, i),
    decreases i - from,
{
    if from < i {
        lemma_first_reach_skip(s, index, from + 1, i);
    }
}

/// Converting a UTF-8 index to a position goes through its character index:
/// `utf8_to_position(t, i)` is `utf16_position(t, utf8_to_char_index(t, i))`.
pub proof fn lemma_utf8_position_through_char_index(s: Seq<char>, index: nat)
    ensures
        ({
            let c = first_reach(s, index, 0);
            let k = if c <= s.len() {
                c
            } else {
                s.len() as int
            };
            &&& newlines(s.take(c)) == newlines(s.take(k))
            &&& column16(s.take(c)) == column16(s.take(k))
        }),
{
    lemma_first_reach_range(s, index, 0);
}

/// The UTF-8 offset of the `k`-th character is converted back to `k`.
pub proof fn lemma_char_index_of_utf8_offset(s: Seq<char>, k: int)
    requires
        0 <= k <= s.len(),
    ensures
        first_reach(s, width(IndexUnit::Utf8, s.take(k)), 0) == k,
{
    let index = width(IndexUnit::Utf8, s.take(k));
    assert forall|j: int| 0 <= j < k implies #[trigger] width(IndexUnit::Utf8, s.take(j)) < index by {
        lemma_width_strict(s, j, k);
    }
    lemma_first_reach_skip(s, index, 0, k);
}

/// Converting a character index to a position and back gives the index, when
/// no carriage return precedes it on its line.
pub proof fn lemma_position_round_trip(s: Seq<char>, i: int)
    requires
        0 <= i <= s.len(),
        fits_positions(s),
        forall|j: int|
            0 <= j < i && newlines(s.take(j)) == newlines(s.take(i)) ==> #[trigger] s[j] != '\r',
    ensures
        ({
            let pos = Position {
                line: newlines(s.take(i)) as u32,
                character: column16(s.take(i)) as u32,
            };
            first_stop(s, pos, 0) == i
        }),
{
    assert(newlines(s.take(i)) <= u32::MAX && column16(s.take(i)) <= u32::MAX);
    let pos = Position { line: newlines(s.take(i)) as u32, character: column16(s.take(i)) as u32 };
    assert forall|j: int| 0 <= j < i implies !#[trigger] stops(s, pos, j) by {
        lemma_line_prefix(s, j, i);
        if newlines(s.take(j)) == newlines(s.take(i)) {
            assert(s[j] != '\n');
            assert(s[j] != '\r');
        }
    }
    lemma_first_stop_skip(s, pos, 0, i);
    if i < s.len() {
        assert(stops(s, pos, i));
    }
}

/// Converting a position to a UTF-8 index and back gives the position, when
/// the position falls on the `j`-th character of the text, or at its end,
/// and no carriage return precedes it on its line: `utf8_to_position(t,
/// position_to_utf8(t, p))` is `p`.
pub proof fn lemma_position_utf8_round_trip(s: Seq<char>, p: Position, j: int)
    requires
        0 <= j <= s.len(),
        fits_positions(s),
        newlines(s.take(j)) == p.line,
        column16(s.take(j)) == p.character,
        forall|k: int|
            0 <= k < j && newlines(s.take(k)) == newlines(s.take(j)) ==> #[trigger] s[k] != '\r',
    ensures
        ({
            let index = width(IndexUnit::Utf8, s.take(first_stop(s, p, 0)));
            let back = first_reach(s, index, 0);
            newlines(s.take(back)) == p.line && column16(s.take(back)) == p.character
        }),
{
    lemma_position_round_trip(s, j);
    let pos = Position { line: newlines(s.take(j)) as u32, character: column16(s.take(j)) as u32 };
    assert(pos == p);
    lemma_char_index_of_utf8_offset(s, j);
}

} // verus!
