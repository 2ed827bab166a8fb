use vstd::prelude::*;

use crate::text::{push_str, string_from_chars};
use crate::tiling::TileIndex;
use crate::visuals::collapse::CollapseEntryIndex;
use crate::visuals::geom::handles::GeometryHandle;
use crate::visuals::geom::orientations::GeomOrientation;

verus! {

/// Why a number could not be read.
#[derive(Clone, Copy, PartialEq, Eq, Debug, Structural)]
pub enum IntErrorKind {
    Empty,
    InvalidDigit,
    PosOverflow,
    NegOverflow,
}

pub open spec fn is_digit(c: char) -> bool {
    '0' <= c <= '9'
}

pub open spec fn digit_value(c: char) -> int {
    c as int - '0' as int
}

/// Reads the digits `d[0..n]` while the value stays at most `bound`: the first
/// character that is no digit, or that takes the value past `bound`, ends the
/// reading with an error.
pub open spec fn scan_digits(d: Seq<char>, bound: int, overflow: IntErrorKind, n: int) -> Result<int, IntErrorKind>
    decreases n,
{
    if n <= 0 {
        Ok(0)
    } else {
        match scan_digits(d, bound, overflow, n - 1) {
            Err(e) => Err(e),
            Ok(v) => if !is_digit(d[n - 1]) {
                Err(IntErrorKind::InvalidDigit)
            } else if v * 10 + digit_value(d[n - 1]) > bound {
                Err(overflow)
            } else {
                Ok(v * 10 + digit_value(d[n - 1]))
            },
        }
    }
}

/// A decimal number with an optional sign, `-` only where `signed`, between
/// `-(max + 1)` and `max`.
pub open spec fn parse_int(s: Seq<char>, signed: bool, max: int) -> Result<int, IntErrorKind> {
    if s.len() == 0 {
        Err(IntErrorKind::Empty)
    } else if s.len() == 1 && (s[0] == '+' || s[0] == '-') {
        Err(IntErrorKind::InvalidDigit)
    } else if s[0] == '-' && signed {
        match scan_digits(s.drop_first(), max + 1, IntErrorKind::NegOverflow, s.len() - 1) {
            Ok(v) => Ok(-v),
            Err(e) => Err(e),
        }
    } else if s[0] == '+' {
        scan_digits(s.drop_first(), max, IntErrorKind::PosOverflow, s.len() - 1)
    } else {
        scan_digits(s, max, IntErrorKind::PosOverflow, s.len() as int)
    }
}

proof fn lemma_scan_bound(d: Seq<char>, bound: int, overflow: IntErrorKind, n: int)
    requires
        bound >= 0,
    ensures
        scan_digits(d, bound, overflow, n) matches Ok(v) ==> 0 <= v <= bound,
    decreases n,
{
    if n > 0 {
        lemma_scan_bound(d, bound, overflow, n - 1);
    }
}

proof fn lemma_parse_bounds(s: Seq<char>, signed: bool, max: int)
    requires
        max >= 0,
    ensures
        parse_int(s, signed, max) matches Ok(v) ==> -(max + 1) <= v <= max && (!signed ==> v >= 0),
{
    if s.len() > 0 {
        lemma_scan_bound(s.drop_first(), max + 1, IntErrorKind::NegOverflow, s.len() - 1);
        lemma_scan_bound(s.drop_first(), max, IntErrorKind::PosOverflow, s.len() - 1);
        lemma_scan_bound(s, max, IntErrorKind::PosOverflow, s.len() as int);
    }
}

/// Reads the digits of `s` from `start` on, with values up to `bound`.
fn scan_digits_from(s: &Vec<char>, start: usize, bound: u128, overflow: IntErrorKind) -> (r: Result<u128, IntErrorKind>)
    requires
        start <= s@.len(),
        bound <= u64::MAX,
    ensures
        r == match scan_digits(s@.subrange(start as int, s@.len() as int), bound as int, overflow, s@.len() - start) {
            Ok(v) => Ok::<u128, IntErrorKind>(v as u128),
            Err(e) => Err(e),
        },
{
    let ghost d = s@.subrange(start as int, s@.len() as int);
    let mut value: u128 = 0;
    let mut i: usize = start;
    while i < s.len()
        invariant
            start <= i <= s@.len(),
            d == s@.subrange(start as int, s@.len() as int),
            bound <= u64::MAX,
            scan_digits(d, bound as int, overflow, i - start) == Ok::<int, IntErrorKind>(value as int),
            value <= bound,
        decreases s@.len() - i,
    {
        let c = s[i];
        assert(d[i - start] == c);
        if !('0' <= c && c <= '9') {
            proof {
                assert(scan_digits(d, bound as int, overflow, i - start + 1) == Err::<int, IntErrorKind>(IntErrorKind::InvalidDigit));
                lemma_scan_stops(d, bound as int, overflow, i - start + 1, d.len() as int);
            }
            return Err(IntErrorKind::InvalidDigit);
        }
        let digit = (c as u32 - '0' as u32) as u128;
        let next = value * 10 + digit;
        if next > bound {
            proof {
                assert(scan_digits(d, bound as int, overflow, i - start + 1) == Err::<int, IntErrorKind>(overflow));
                lemma_scan_stops(d, bound as int, overflow, i - start + 1, d.len() as int);
            }
            return Err(overflow);
        }
        value = next;
        i = i + 1;
    }
    Ok(value)
}

proof fn lemma_scan_stops(d: Seq<char>, bound: int, overflow: IntErrorKind, n: int, m: int)
    requires
        n <= m,
        scan_digits(d, bound, overflow, n) is Err,
    ensures
        scan_digits(d, bound, overflow, m) == scan_digits(d, bound, overflow, n),
    decreases m - n,
{
    if n < m {
        lemma_scan_stops(d, bound, overflow, n, m - 1);
    }
}

/// Reads a number with an optional sign, `-` only where `signed`, between
/// `-(max + 1)` and `max`; gives the sign apart from the size.
fn parse_int_exec(s: &Vec<char>, signed: bool, max: u128) -> (r: Result<(bool, u128), IntErrorKind>)
    requires
        max <= u64::MAX,
        signed ==> max < u64::MAX,
    ensures
        match r {
            Ok((negative, size)) => parse_int(s@, signed, max as int) == Ok::<int, IntErrorKind>(
                if negative { -(size as int) } else { size as int },
            ) && (negative ==> signed && 0 < size <= max + 1) && (!negative ==> size <= max),
            Err(e) => parse_int(s@, signed, max as int) == Err::<int, IntErrorKind>(e),
        },
{
    if s.len() == 0 {
        return Err(IntErrorKind::Empty);
    }
    if s.len() == 1 && (s[0] == '+' || s[0] == '-') {
        return Err(IntErrorKind::InvalidDigit);
    }
    if s[0] == '-' && signed {
        proof {
            assert(s@.drop_first() =~= s@.subrange(1, s@.len() as int));
        }
        match scan_digits_from(s, 1, max + 1, IntErrorKind::NegOverflow) {
            Ok(v) => {
                proof {
                    lemma_scan_bound(s@.drop_first(), max + 1, IntErrorKind::NegOverflow, s@.len() - 1);
                }
                if v == 0 {
                    Ok((false, 0))
                } else {
                    Ok((true, v))
                }
            },
            Err(e) => Err(e),
        }
    } else if s[0] == '+' {
        proof {
            assert(s@.drop_first() =~= s@.subrange(1, s@.len() as int));
        }
        match scan_digits_from(s, 1, max, IntErrorKind::PosOverflow) {
            Ok(v) => {
                proof {
                    lemma_scan_bound(s@.drop_first(), max as int, IntErrorKind::PosOverflow, s@.len() - 1);
                }
                Ok((false, v))
            },
            Err(e) => Err(e),
        }
    } else {
        proof {
            assert(s@ =~= s@.subrange(0, s@.len() as int));
        }
        match scan_digits_from(s, 0, max, IntErrorKind::PosOverflow) {
            Ok(v) => {
                proof {
                    lemma_scan_bound(s@, max as int, IntErrorKind::PosOverflow, s@.len() as int);
                }
                Ok((false, v))
            },
            Err(e) => Err(e),
        }
    }
}

/// Reads an `i32`.
pub fn parse_i32(s: &Vec<char>) -> (r: Result<i32, IntErrorKind>)
    ensures
        r == match parse_int(s@, true, i32::MAX as int) {
            Ok(v) => Ok::<i32, IntErrorKind>(v as i32),
            Err(e) => Err(e),
        },
{
    match parse_int_exec(s, true, 2147483647) {
        Ok((negative, size)) => {
            if negative {
                if size == 2147483648 {
                    Ok(i32::MIN)
                } else {
                    Ok(-(size as i32))
                }
            } else {
                Ok(size as i32)
            }
        },
        Err(e) => Err(e),
    }
}

/// Reads a `u32`.
pub fn parse_u32(s: &Vec<char>) -> (r: Result<u32, IntErrorKind>)
    ensures
        r == match parse_int(s@, false, u32::MAX as int) {
            Ok(v) => Ok::<u32, IntErrorKind>(v as u32),
            Err(e) => Err(e),
        },
{
    match parse_int_exec(s, false, 4294967295) {
        Ok((_, size)) => Ok(size as u32),
        Err(e) => Err(e),
    }
}

/// Reads a `usize`.
pub fn parse_usize(s: &Vec<char>) -> (r: Result<usize, IntErrorKind>)
    ensures
        r == match parse_int(s@, false, usize::MAX as int) {
            Ok(v) => Ok::<usize, IntErrorKind>(v as usize),
            Err(e) => Err(e),
        },
{
    let max = usize::MAX as u128;
    match parse_int_exec(s, false, max) {
        Ok((_, size)) => Ok(size as usize),
        Err(e) => Err(e),
    }
}

/// The pieces of `s` between the characters `sep`, empty ones included.
pub open spec fn split_on(s: Seq<char>, sep: char) -> Seq<Seq<char>>
    decreases s.len(),
{
    if s.len() == 0 {
        seq![Seq::<char>::empty()]
    } else {
        let prev = split_on(s.drop_last(), sep);
        if s.last() == sep {
            prev.push(Seq::<char>::empty())
        } else {
            prev.update(prev.len() - 1, prev.last().push(s.last()))
        }
    }
}

pub proof fn lemma_split_nonempty(s: Seq<char>, sep: char)
    ensures
        split_on(s, sep).len() >= 1,
    decreases s.len(),
{
    if s.len() > 0 {
        lemma_split_nonempty(s.drop_last(), sep);
    }
}

/// The characters of each piece.
pub open spec fn pieces_view(pieces: Seq<Vec<char>>) -> Seq<Seq<char>> {
    pieces.map_values(|t: Vec<char>| t@)
}

/// Splits `s` at each `sep`.
pub fn split_chars(s: &Vec<char>, sep: char) -> (r: Vec<Vec<char>>)
    ensures
        pieces_view(r@) == split_on(s@, sep),
{
    let mut done: Vec<Vec<char>> = Vec::new();
    let mut current: Vec<char> = Vec::new();
    let mut i: usize = 0;
    while i < s.len()
        invariant
            i <= s@.len(),
            pieces_view(done@).push(current@) == split_on(s@.subrange(0, i as int), sep),
        decreases s@.len() - i,
    {
        let c = s[i];
        let ghost before = pieces_view(done@).push(current@);
        proof {
            let sub = s@.subrange(0, i + 1);
            assert(sub.drop_last() =~= s@.subrange(0, i as int));
            assert(sub.last() == c);
        }
        if c == sep {
            let piece = current;
            done.push(piece);
            current = Vec::new();
            proof {
                assert(pieces_view(done@).push(current@) =~= before.push(Seq::<char>::empty()));
            }
        } else {
            current.push(c);
            proof {
                assert(pieces_view(done@).push(current@) =~= before.update(before.len() - 1, before.last().push(c)));
            }
        }
        i = i + 1;
    }
    done.push(current);
    proof {
        assert(s@.subrange(0, i as int) =~= s@);
        assert(pieces_view(done@) =~= split_on(s@, sep));
    }
    done
}

/// The characters of a string.
pub fn chars_of(s: &str) -> (r: Vec<char>)
    ensures
        r@ == s@,
{
    let mut out: Vec<char> = Vec::new();
    push_str(&mut out, s);
    proof {
        assert(out@ =~= s@);
    }
    out
}

/// How a debugger command on a cell looks at it.
#[derive(Clone, Copy, PartialEq, Eq, Debug, Structural)]
pub enum DebugTileOps {
    DisplayMeshes,
    PrintMeshes,
    PrintRestrictions,
}

/// What a debugger command names.
#[derive(Clone, Copy, PartialEq, Eq, Debug, Structural)]
pub enum DebugNameTarget {
    Wall,
    Layer,
}

/// A command of the collapse debugger.
pub enum DebugCommand {
    ToggleBreak { tile: CollapseEntryIndex },
    Continue,
    Step,
    DebugTile { tile: CollapseEntryIndex, debug_op: DebugTileOps },
    NameProfile { target: DebugNameTarget, index: usize, name: String },
    PrintMesh { mesh: GeometryHandle },
    Empty,
    Help,
}

/// Why a debugger command could not be read.
pub enum ParseError {
    MissingTokens { num_tokens: usize, expected: usize },
    InvalidToken { position: usize, value: String, error: String },
    NoSuchCommand { command: String },
}

/// A debugger command, with the characters of its name.
pub enum DebugCommandView {
    ToggleBreak { tile: CollapseEntryIndex },
    Continue,
    Step,
    DebugTile { tile: CollapseEntryIndex, debug_op: DebugTileOps },
    NameProfile { target: DebugNameTarget, index: int, name: Seq<char> },
    PrintMesh { mesh: GeometryHandle },
    Empty,
    Help,
}

/// A reading error, with the characters of its texts.
pub enum ParseErrorView {
    MissingTokens { num_tokens: int, expected: int },
    InvalidToken { position: int, value: Seq<char>, error: Seq<char> },
    NoSuchCommand { command: Seq<char> },
}

impl View for DebugCommand {
    type V = DebugCommandView;

    open spec fn view(&self) -> DebugCommandView {
        match self {
            DebugCommand::ToggleBreak { tile } => DebugCommandView::ToggleBreak { tile: *tile },
            DebugCommand::Continue => DebugCommandView::Continue,
            DebugCommand::Step => DebugCommandView::Step,
            DebugCommand::DebugTile { tile, debug_op } => DebugCommandView::DebugTile { tile: *tile, debug_op: *debug_op },
            DebugCommand::NameProfile { target, index, name } => DebugCommandView::NameProfile {
                target: *target,
                index: *index as int,
                name: name@,
            },
            DebugCommand::PrintMesh { mesh } => DebugCommandView::PrintMesh { mesh: *mesh },
            DebugCommand::Empty => DebugCommandView::Empty,
            DebugCommand::Help => DebugCommandView::Help,
        }
    }
}

impl View for ParseError {
    type V = ParseErrorView;

    open spec fn view(&self) -> ParseErrorView {
        match self {
            ParseError::MissingTokens { num_tokens, expected } => ParseErrorView::MissingTokens {
                num_tokens: *num_tokens as int,
                expected: *expected as int,
            },
            ParseError::InvalidToken { position, value, error } => ParseErrorView::InvalidToken {
                position: *position as int,
                value: value@,
                error: error@,
            },
            ParseError::NoSuchCommand { command } => ParseErrorView::NoSuchCommand { command: command@ },
        }
    }
}

/// The result of reading a cell, with the error by its view.
pub open spec fn tile_result_view(r: Result<CollapseEntryIndex, ParseError>) -> Result<CollapseEntryIndex, ParseErrorView> {
    match r {
        Ok(v) => Ok(v),
        Err(e) => Err(e@),
    }
}

/// The result of reading a command, by its view.
pub open spec fn command_result_view(r: Result<DebugCommand, ParseError>) -> Result<DebugCommandView, ParseErrorView> {
    match r {
        Ok(v) => Ok(v@),
        Err(e) => Err(e@),
    }
}

/// The name of an error kind, as the standard library prints it.
pub open spec fn kind_name(k: IntErrorKind) -> Seq<char> {
    match k {
        IntErrorKind::Empty => "Empty"@,
        IntErrorKind::InvalidDigit => "InvalidDigit"@,
        IntErrorKind::PosOverflow => "PosOverflow"@,
        IntErrorKind::NegOverflow => "NegOverflow"@,
    }
}

/// A number reading error as the standard library prints it.
pub open spec fn kind_text(k: IntErrorKind) -> Seq<char> {
    "ParseIntError { kind: "@ + kind_name(k) + " }"@
}

fn push_kind(out: &mut Vec<char>, k: IntErrorKind)
    ensures
        final(out)@ == old(out)@ + kind_text(k),
{
    let ghost start = out@;
    push_str(out, "ParseIntError { kind: ");
    match k {
        IntErrorKind::Empty => push_str(out, "Empty"),
        IntErrorKind::InvalidDigit => push_str(out, "InvalidDigit"),
        IntErrorKind::PosOverflow => push_str(out, "PosOverflow"),
        IntErrorKind::NegOverflow => push_str(out, "NegOverflow"),
    }
    push_str(out, " }");
    proof {
        assert(out@ =~= start + kind_text(k));
    }
}

/// `prefix` followed by the text of a number reading error.
fn error_text(prefix: &str, k: IntErrorKind) -> (r: String)
    ensures
        r@ == prefix@ + kind_text(k),
{
    let mut out: Vec<char> = Vec::new();
    push_str(&mut out, prefix);
    push_kind(&mut out, k);
    proof {
        assert(out@ =~= prefix@ + kind_text(k));
    }
    string_from_chars(&out)
}

/// The cell named by the tokens from `pos` on: `x y`, then a height when the next
/// token is a number. A next token that is no number is an error only when the
/// cell is the last thing of the command. Gives the result and the position after
/// what was read.
pub open spec fn tile_index_spec(tokens: Seq<Seq<char>>, pos: int, is_last: bool) -> (Result<CollapseEntryIndex, ParseErrorView>, int) {
    if pos + 1 >= tokens.len() {
        (Err(ParseErrorView::MissingTokens { num_tokens: tokens.len() as int, expected: pos + 2 }), pos)
    } else {
        match parse_int(tokens[pos], true, i32::MAX as int) {
            Err(k) => (Err(ParseErrorView::InvalidToken { position: pos, value: tokens[pos], error: "Parse X: "@ + kind_text(k) }), pos),
            Ok(x) => match parse_int(tokens[pos + 1], true, i32::MAX as int) {
                Err(k) => (
                    Err(ParseErrorView::InvalidToken { position: pos + 1, value: tokens[pos + 1], error: "Parse Y: "@ + kind_text(k) }),
                    pos,
                ),
                Ok(y) => {
                    let index = TileIndex { x: x as i32, y: y as i32 };
                    let p = pos + 2;
                    if p < tokens.len() {
                        match parse_int(tokens[p], false, u32::MAX as int) {
                            Ok(h) => (Ok(CollapseEntryIndex { index, height: h as u32 }), p + 1),
                            Err(k) => if is_last {
                                (Err(ParseErrorView::InvalidToken { position: p, value: tokens[p], error: "Parse Height: "@ + kind_text(k) }), p)
                            } else {
                                (Ok(CollapseEntryIndex { index, height: 0 }), p)
                            },
                        }
                    } else {
                        (Ok(CollapseEntryIndex { index, height: 0 }), p)
                    }
                },
            },
        }
    }
}

/// Reads the cell named by the tokens from `position` on and moves `position` past
/// what was read.
pub fn parse_tile_index(position: &mut usize, tokens: &Vec<Vec<char>>, is_last: bool) -> (r: Result<CollapseEntryIndex, ParseError>)
    requires
        *old(position) <= tokens@.len(),
        *old(position) + 2 <= usize::MAX,
    ensures
        tile_result_view(r) == tile_index_spec(pieces_view(tokens@), *old(position) as int, is_last).0,
        *final(position) == tile_index_spec(pieces_view(tokens@), *old(position) as int, is_last).1,
{
    let ghost ts = pieces_view(tokens@);
    let pos = *position;
    if tokens.len() - pos <= 1 {
        return Err(ParseError::MissingTokens { num_tokens: tokens.len(), expected: pos + 2 });
    }
    assert(ts[pos as int] == tokens@[pos as int]@);
    assert(ts[pos + 1] == tokens@[pos + 1]@);
    let x = match parse_i32(&tokens[pos]) {
        Ok(x) => x,
        Err(k) => {
            return Err(ParseError::InvalidToken {
                position: pos,
                value: string_from_chars(&tokens[pos]),
                error: error_text("Parse X: ", k),
            });
        },
    };
    let y = match parse_i32(&tokens[pos + 1]) {
        Ok(y) => y,
        Err(k) => {
            return Err(ParseError::InvalidToken {
                position: pos + 1,
                value: string_from_chars(&tokens[pos + 1]),
                error: error_text("Parse Y: ", k),
            });
        },
    };
    *position = pos + 2;
    let mut height: u32 = 0;
    if pos + 2 < tokens.len() {
        assert(ts[pos + 2] == tokens@[pos + 2]@);
        match parse_u32(&tokens[pos + 2]) {
            Ok(h) => {
                height = h;
                *position = pos + 3;
            },
            Err(k) => {
                if is_last {
                    return Err(ParseError::InvalidToken {
                        position: pos + 2,
                        value: string_from_chars(&tokens[pos + 2]),
                        error: error_text("Parse Height: ", k),
                    });
                }
            },
        }
    }
    Ok(CollapseEntryIndex::new(TileIndex { x, y }, height))
}

/// A token that is a command's long or short name.
pub open spec fn word(t: Seq<char>, long: &str, short: &str) -> bool {
    t == long@ || t == short@
}

/// The cell command: a cell, then how to look at it.
pub open spec fn info_spec(tokens: Seq<Seq<char>>) -> Result<DebugCommandView, ParseErrorView> {
    let n = tokens.len() as int;
    let read = tile_index_spec(tokens, 1, false);
    let p = read.1;
    match read.0 {
        Err(e) => Err(e),
        Ok(tile) => if p >= n {
            Err(ParseErrorView::MissingTokens { num_tokens: n, expected: p })
        } else if word(tokens[p], "display", "d") {
            Ok(DebugCommandView::DebugTile { tile, debug_op: DebugTileOps::DisplayMeshes })
        } else if word(tokens[p], "meshes", "m") {
            Ok(DebugCommandView::DebugTile { tile, debug_op: DebugTileOps::PrintMeshes })
        } else if word(tokens[p], "restrictions", "r") {
            Ok(DebugCommandView::DebugTile { tile, debug_op: DebugTileOps::PrintRestrictions })
        } else {
            Err(ParseErrorView::InvalidToken {
                position: p,
                value: tokens[p],
                error: "Invalid Command display(d), meshes(m) or restrictions(r)"@,
            })
        },
    }
}

/// The naming command: `wall` or `layer`, an index, and a name.
pub open spec fn name_spec(tokens: Seq<Seq<char>>) -> Result<DebugCommandView, ParseErrorView> {
    let n = tokens.len() as int;
    if 1 >= n {
        Err(ParseErrorView::MissingTokens { num_tokens: n, expected: 1 })
    } else if !word(tokens[1], "wall", "w") && !word(tokens[1], "layer", "l") {
        Err(ParseErrorView::InvalidToken { position: 1, value: tokens[1], error: "Expected wall(w) or layer(l)"@ })
    } else if 2 >= n {
        Err(ParseErrorView::MissingTokens { num_tokens: n, expected: 2 })
    } else {
        let target = if word(tokens[1], "wall", "w") { DebugNameTarget::Wall } else { DebugNameTarget::Layer };
        match parse_int(tokens[2], false, usize::MAX as int) {
            Err(k) => Err(ParseErrorView::InvalidToken {
                position: 2,
                value: tokens[2],
                error: "Failed to parse target index: "@ + kind_text(k),
            }),
            Ok(index) => if 3 >= n {
                Err(ParseErrorView::MissingTokens { num_tokens: n, expected: 3 })
            } else {
                Ok(DebugCommandView::NameProfile { target, index, name: tokens[3] })
            },
        }
    }
}

/// The printing command: a handle written `index@rotations`, with an `r` before the
/// rotations of a mirrored orientation.
pub open spec fn print_spec(tokens: Seq<Seq<char>>) -> Result<DebugCommandView, ParseErrorView> {
    let n = tokens.len() as int;
    if 1 >= n {
        Err(ParseErrorView::MissingTokens { num_tokens: n, expected: 1 })
    } else {
        let parts = split_on(tokens[1], '@');
        if parts.len() != 2 {
            Err(ParseErrorView::InvalidToken { position: 1, value: tokens[1], error: "Expected index@orientation format"@ })
        } else {
            match parse_int(parts[0], false, usize::MAX as int) {
                Err(_) => Err(ParseErrorView::InvalidToken {
                    position: 1,
                    value: parts[0],
                    error: "Expected index@orientation but could not parse usize from index"@,
                }),
                Ok(index) => {
                    let reverse = parts[1].len() > 0 && parts[1][0] == 'r';
                    let digits = if reverse { parts[1].drop_first() } else { parts[1] };
                    match parse_int(digits, false, usize::MAX as int) {
                        Err(_) => Err(ParseErrorView::InvalidToken {
                            position: 1,
                            value: parts[1],
                            error: "Expected index@orientation to be usize or r followed by a usize"@,
                        }),
                        Ok(rotations) => Ok(DebugCommandView::PrintMesh {
                            mesh: GeometryHandle {
                                index: index as usize,
                                orientation: if reverse {
                                    GeomOrientation::Flipped { rotations: rotations as usize }
                                } else {
                                    GeomOrientation::Standard { rotations: rotations as usize }
                                },
                            },
                        }),
                    }
                },
            }
        }
    }
}

/// The debugger command that a typed line asks for: its first space-separated
/// token names the command and the next ones give its arguments.
pub open spec fn command_spec(s: Seq<char>) -> Result<DebugCommandView, ParseErrorView> {
    let tokens = split_on(s, ' ');
    if tokens.len() == 0 {
        Ok(DebugCommandView::Empty)
    } else {
        let t0 = tokens[0];
        if word(t0, "break", "b") {
            match tile_index_spec(tokens, 1, true).0 {
                Ok(tile) => Ok(DebugCommandView::ToggleBreak { tile }),
                Err(e) => Err(e),
            }
        } else if word(t0, "continue", "c") {
            Ok(DebugCommandView::Continue)
        } else if word(t0, "step", "s") {
            Ok(DebugCommandView::Step)
        } else if word(t0, "info", "i") {
            info_spec(tokens)
        } else if word(t0, "name", "n") {
            name_spec(tokens)
        } else if word(t0, "print", "p") {
            print_spec(tokens)
        } else if word(t0, "help", "h") {
            Ok(DebugCommandView::Help)
        } else {
            Err(ParseErrorView::NoSuchCommand { command: t0 })
        }
    }
}

fn same_chars(a: &Vec<char>, b: &Vec<char>) -> (r: bool)
    ensures
        r == (a@ == b@),
{
    if a.len() != b.len() {
        return false;
    }
    let mut i: usize = 0;
    while i < a.len()
        invariant
            a@.len() == b@.len(),
            i <= a@.len(),
            forall|j: int| 0 <= j < i ==> a@[j] == b@[j],
        decreases a@.len() - i,
    {
        if a[i] != b[i] {
            return false;
        }
        i = i + 1;
    }
    proof {
        assert(a@ =~= b@);
    }
    true
}

fn is_word(t: &Vec<char>, long: &str, short: &str) -> (r: bool)
    ensures
        r == word(t@, long, short),
{
    same_chars(t, &chars_of(long)) || same_chars(t, &chars_of(short))
}

fn tail_chars(v: &Vec<char>) -> (r: Vec<char>)
    requires
        v@.len() > 0,
    ensures
        r@ == v@.drop_first(),
{
    let mut out: Vec<char> = Vec::new();
    let mut i: usize = 1;
    while i < v.len()
        invariant
            1 <= i <= v@.len(),
            out@ == v@.subrange(1, i as int),
        decreases v@.len() - i,
    {
        out.push(v[i]);
        i = i + 1;
        proof {
            assert(out@ =~= v@.subrange(1, i as int));
        }
    }
    proof {
        assert(out@ =~= v@.drop_first());
    }
    out
}

fn text(s: &str) -> (r: String)
    ensures
        r@ == s@,
{
    String::from_str(s)
}

fn parse_info(tokens: &Vec<Vec<char>>) -> (r: Result<DebugCommand, ParseError>)
    requires
        tokens@.len() >= 1,
    ensures
        command_result_view(r) == info_spec(pieces_view(tokens@)),
{
    let ghost ts = pieces_view(tokens@);
    let n = tokens.len();
    let mut position: usize = 1;
    let tile = match parse_tile_index(&mut position, tokens, false) {
        Ok(tile) => tile,
        Err(e) => {
            return Err(e);
        },
    };
    if position >= n {
        return Err(ParseError::MissingTokens { num_tokens: n, expected: position });
    }
    assert(ts[position as int] == tokens@[position as int]@);
    let debug_op = if is_word(&tokens[position], "display", "d") {
        DebugTileOps::DisplayMeshes
    } else if is_word(&tokens[position], "meshes", "m") {
        DebugTileOps::PrintMeshes
    } else if is_word(&tokens[position], "restrictions", "r") {
        DebugTileOps::PrintRestrictions
    } else {
        return Err(ParseError::InvalidToken {
            position,
            value: string_from_chars(&tokens[position]),
            error: text("Invalid Command display(d), meshes(m) or restrictions(r)"),
        });
    };
    Ok(DebugCommand::DebugTile { tile, debug_op })
}

fn parse_name(tokens: &Vec<Vec<char>>) -> (r: Result<DebugCommand, ParseError>)
    ensures
        command_result_view(r) == name_spec(pieces_view(tokens@)),
{
    let ghost ts = pieces_view(tokens@);
    let n = tokens.len();
    if 1 >= n {
        return Err(ParseError::MissingTokens { num_tokens: n, expected: 1 });
    }
    assert(ts[1] == tokens@[1]@);
    let target = if is_word(&tokens[1], "wall", "w") {
        DebugNameTarget::Wall
    } else if is_word(&tokens[1], "layer", "l") {
        DebugNameTarget::Layer
    } else {
        return Err(ParseError::InvalidToken {
            position: 1,
            value: string_from_chars(&tokens[1]),
            error: text("Expected wall(w) or layer(l)"),
        });
    };
    if 2 >= n {
        return Err(ParseError::MissingTokens { num_tokens: n, expected: 2 });
    }
    assert(ts[2] == tokens@[2]@);
    let index = match parse_usize(&tokens[2]) {
        Ok(index) => index,
        Err(k) => {
            return Err(ParseError::InvalidToken {
                position: 2,
                value: string_from_chars(&tokens[2]),
                error: error_text("Failed to parse target index: ", k),
            });
        },
    };
    if 3 >= n {
        return Err(ParseError::MissingTokens { num_tokens: n, expected: 3 });
    }
    assert(ts[3] == tokens@[3]@);
    proof {
        lemma_parse_bounds(ts[2], false, usize::MAX as int);
    }
    Ok(DebugCommand::NameProfile { target, index, name: string_from_chars(&tokens[3]) })
}

fn parse_print(tokens: &Vec<Vec<char>>) -> (r: Result<DebugCommand, ParseError>)
    ensures
        command_result_view(r) == print_spec(pieces_view(tokens@)),
{
    let ghost ts = pieces_view(tokens@);
    let n = tokens.len();
    if 1 >= n {
        return Err(ParseError::MissingTokens { num_tokens: n, expected: 1 });
    }
    assert(ts[1] == tokens@[1]@);
    let parts = split_chars(&tokens[1], '@');
    let ghost ps = pieces_view(parts@);
    if parts.len() != 2 {
        return Err(ParseError::InvalidToken {
            position: 1,
            value: string_from_chars(&tokens[1]),
            error: text("Expected index@orientation format"),
        });
    }
    assert(ps[0] == parts@[0]@);
    assert(ps[1] == parts@[1]@);
    let index = match parse_usize(&parts[0]) {
        Ok(index) => index,
        Err(_) => {
            return Err(ParseError::InvalidToken {
                position: 1,
                value: string_from_chars(&parts[0]),
                error: text("Expected index@orientation but could not parse usize from index"),
            });
        },
    };
    let reverse = parts[1].len() > 0 && parts[1][0] == 'r';
    let digits = if reverse { tail_chars(&parts[1]) } else { copy_chars(&parts[1]) };
    let rotations = match parse_usize(&digits) {
        Ok(rotations) => rotations,
        Err(_) => {
            return Err(ParseError::InvalidToken {
                position: 1,
                value: string_from_chars(&parts[1]),
                error: text("Expected index@orientation to be usize or r followed by a usize"),
            });
        },
    };
    let orientation = if reverse {
        GeomOrientation::Flipped { rotations }
    } else {
        GeomOrientation::Standard { rotations }
    };
    Ok(DebugCommand::PrintMesh { mesh: GeometryHandle { index, orientation } })
}

fn copy_chars(v: &Vec<char>) -> (r: Vec<char>)
    ensures
        r@ == v@,
{
    let mut out: Vec<char> = Vec::new();
    let mut i: usize = 0;
    while i < v.len()
        invariant
            i <= v@.len(),
            out@ == v@.subrange(0, i as int),
        decreases v@.len() - i,
    {
        out.push(v[i]);
        i = i + 1;
        proof {
            assert(out@ =~= v@.subrange(0, i as int));
        }
    }
    proof {
        assert(out@ =~= v@);
    }
    out
}

/// Reads a debugger command from a typed line.
pub fn parse_command(command: String) -> (r: Result<DebugCommand, ParseError>)
    ensures
        command_result_view(r) == command_spec(command@),
{
    let chars = chars_of(command.as_str());
    let tokens = split_chars(&chars, ' ');
    let ghost ts = pieces_view(tokens@);
    proof {
        lemma_split_nonempty(chars@, ' ');
    }
    if tokens.len() == 0 {
        return Ok(DebugCommand::Empty);
    }
    assert(ts[0] == tokens@[0]@);
    if is_word(&tokens[0], "break", "b") {
        let mut position: usize = 1;
        match parse_tile_index(&mut position, &tokens, true) {
            Ok(tile) => Ok(DebugCommand::ToggleBreak { tile }),
            Err(e) => Err(e),
        }
    } else if is_word(&tokens[0], "continue", "c") {
        Ok(DebugCommand::Continue)
    } else if is_word(&tokens[0], "step", "s") {
        Ok(DebugCommand::Step)
    } else if is_word(&tokens[0], "info", "i") {
        parse_info(&tokens)
    } else if is_word(&tokens[0], "name", "n") {
        parse_name(&tokens)
    } else if is_word(&tokens[0], "print", "p") {
        parse_print(&tokens)
    } else if is_word(&tokens[0], "help", "h") {
        Ok(DebugCommand::Help)
    } else {
        Err(ParseError::NoSuchCommand { command: string_from_chars(&tokens[0]) })
    }
}

/// The position of `tile` in `list`, if it is there.
pub(crate) fn position_of(list: &Vec<CollapseEntryIndex>, tile: CollapseEntryIndex) -> (r: Option<usize>)
    ensures
        match r {
            Some(i) => i < list@.len() && list@[i as int] == tile,
            None => !list@.contains(tile),
        },
{
    let mut i: usize = 0;
    while i < list.len()
        invariant
            i <= list@.len(),
            forall|j: int| 0 <= j < i ==> list@[j] != tile,
        decreases list@.len() - i,
    {
        if list[i] == tile {
            return Some(i);
        }
        i = i + 1;
    }
    None
}

/// Sets a breakpoint on a cell, or removes the one it has; says whether one was set.
pub fn toggle_break(break_on: &mut Vec<CollapseEntryIndex>, tile: CollapseEntryIndex) -> (set: bool)
    requires
        old(break_on)@.no_duplicates(),
    ensures
        final(break_on)@.no_duplicates(),
        set == !old(break_on)@.contains(tile),
        final(break_on)@.to_set() == if set { old(break_on)@.to_set().insert(tile) } else { old(break_on)@.to_set().remove(tile) },
{
    let ghost before = break_on@;
    match position_of(break_on, tile) {
        Some(i) => {
            break_on.remove(i);
            proof {
                assert(before.contains(tile)) by {
                    assert(before[i as int] == tile);
                }
                assert(break_on@ =~= before.remove(i as int));
                assert forall|a: int, b: int| 0 <= a < break_on@.len() && 0 <= b < break_on@.len() && a != b
                    implies break_on@[a] != break_on@[b] by {
                    let a0 = if a < i { a } else { a + 1 };
                    let b0 = if b < i { b } else { b + 1 };
                    assert(break_on@[a] == before[a0]);
                    assert(break_on@[b] == before[b0]);
                }
                assert forall|x: CollapseEntryIndex| break_on@.to_set().contains(x) <==> before.to_set().remove(tile).contains(x) by {
                    if break_on@.contains(x) {
                        let k = choose|k: int| 0 <= k < break_on@.len() && break_on@[k] == x;
                        let k0 = if k < i { k } else { k + 1 };
                        assert(before[k0] == x);
                        assert(k0 != i);
                        assert(before.contains(x));
                    }
                    if before.contains(x) && x != tile {
                        let k = choose|k: int| 0 <= k < before.len() && before[k] == x;
                        assert(k != i);
                        if k < i {
                            assert(break_on@[k] == x);
                        } else {
                            assert(break_on@[k - 1] == x);
                        }
                    }
                }
                assert(break_on@.to_set() =~= before.to_set().remove(tile));
            }
            false
        },
        None => {
            break_on.push(tile);
            proof {
                assert forall|a: int, b: int| 0 <= a < break_on@.len() && 0 <= b < break_on@.len() && a != b
                    implies break_on@[a] != break_on@[b] by {
                    if a < before.len() && b < before.len() {
                        assert(break_on@[a] == before[a]);
                        assert(break_on@[b] == before[b]);
                    } else if a < before.len() {
                        assert(break_on@[a] == before[a]);
                    } else {
                        assert(break_on@[b] == before[b]);
                    }
                }
                assert forall|x: CollapseEntryIndex| break_on@.to_set().contains(x) <==> before.to_set().insert(tile).contains(x) by {
                    if before.contains(x) {
                        let k = choose|k: int| 0 <= k < before.len() && before[k] == x;
                        assert(break_on@[k] == x);
                    }
                    if break_on@.contains(x) {
                        let k = choose|k: int| 0 <= k < break_on@.len() && break_on@[k] == x;
                        if k < before.len() {
                            assert(before[k] == x);
                        }
                    }
                    if x == tile {
                        assert(break_on@[before.len() as int] == tile);
                    }
                }
                assert(break_on@.to_set() =~= before.to_set().insert(tile));
            }
            true
        },
    }
}

/// The word after the cell of an `info` command picks the operation, one for each
/// pair of words: "display" or "d" shows the meshes, "meshes" or "m" prints them, and
/// "restrictions" or "r" prints the restrictions; every operation comes from exactly
/// its own words, so no two pairs give the same one.
pub proof fn law_info_words_pick_operations(tokens: Seq<Seq<char>>)
    ensures
        match info_spec(tokens) {
            Ok(DebugCommandView::DebugTile { debug_op, .. }) => {
                let t = tokens[tile_index_spec(tokens, 1, false).1];
                &&& (debug_op == DebugTileOps::DisplayMeshes) == (t == "display"@ || t == "d"@)
                &&& (debug_op == DebugTileOps::PrintMeshes) == (t == "meshes"@ || t == "m"@)
                &&& (debug_op == DebugTileOps::PrintRestrictions) == (t == "restrictions"@ || t == "r"@)
            },
            _ => true,
        },
{
    reveal_strlit("display");
    reveal_strlit("d");
    reveal_strlit("meshes");
    reveal_strlit("m");
    reveal_strlit("restrictions");
    reveal_strlit("r");
    assert("display"@[0] == 'd' && "d"@[0] == 'd');
    assert("meshes"@[0] == 'm' && "m"@[0] == 'm');
    assert("restrictions"@[0] == 'r' && "r"@[0] == 'r');
}

} // verus!
