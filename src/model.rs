//! The planning problem as handed to the solver: the stock catalog, the cut
//! list and the spacing added around every cut.
use vstd::prelude::*;

use crate::text::{chars_of, count, find_char, first_index, measure, read_count, read_measure, Number};

verus! {

/// Number of integer steps that make up one unit of length.
pub const RESOLUTION: u32 = 512;

/// A stock board size that may be used any number of times.
#[derive(Clone, Debug, PartialEq, Eq)]
pub struct Board {
    pub width: u32,
    pub length: u32,
    pub id: String,
}

/// A requested piece, wanted `count` times.
#[derive(Clone, Debug, PartialEq, Eq)]
pub struct Cut {
    pub length: u32,
    pub width: u32,
    pub count: u32,
    pub name: String,
}

/// A whole planning problem.
#[derive(Clone, Debug)]
pub struct Input {
    /// Added to both dimensions of every cut (saw kerf, margin).
    pub spacing: u32,
    pub boards: Vec<Board>,
    pub cutlist: Vec<Cut>,
}

/// The cut, grown by `spacing`, still has representable dimensions.
pub open spec fn fits_with_spacing(cut: Cut, spacing: u32) -> bool {
    cut.length + spacing <= u32::MAX && cut.width + spacing <= u32::MAX
}

impl Input {
    /// Every cut, once grown by the spacing, still has representable dimensions.
    pub open spec fn fits(&self) -> bool {
        forall|i: int|
            0 <= i < self.cutlist@.len() ==> fits_with_spacing(#[trigger] self.cutlist@[i], self.spacing)
    }
}


/// Why a board or cut specification was refused.
#[derive(Clone, Copy, Debug, PartialEq, Eq, Structural)]
pub enum ParseError {
    /// The text does not have the shape of a specification.
    InvalidFormat,
    /// A numeric field is not a number of the expected form, or a count
    /// beyond the range of an `i32`.
    InvalidNumber,
    /// A length or width is positive but smaller than one step, or too large
    /// to be held in steps.
    OutOfRange,
    CountBelowOne,
    LengthNotPositive,
    WidthNotPositive,
    EmptyId,
    NoBoards,
    NoCuts,
}

/// A count that cannot be read at all.
pub open spec fn unreadable(n: Number) -> bool {
    n is Malformed || n is TooLarge || n is TooSmall
}

/// Why a length or width cannot be used, before its sign is considered.
pub open spec fn measure_error(n: Number) -> Option<ParseError> {
    match n {
        Number::Malformed => Some(ParseError::InvalidNumber),
        Number::TooSmall => Some(ParseError::OutOfRange),
        Number::TooLarge => Some(ParseError::OutOfRange),
        _ => None,
    }
}

pub open spec fn positive_value(n: Number) -> u32 {
    match n {
        Number::Positive(v) => v,
        _ => 0,
    }
}

/// A board specification `LENGTHxWIDTH:ID`, split at the first `x` and at the
/// first `:` after it: its length, width and id, or why it is refused.
pub open spec fn board_spec(s: Seq<char>) -> Result<(u32, u32, Seq<char>), ParseError> {
    let x = first_index(s, 'x');
    if x >= s.len() {
        Err(ParseError::InvalidFormat)
    } else if measure_error(measure(s.take(x))) is Some {
        Err(measure_error(measure(s.take(x)))->0)
    } else {
        let rest = s.skip(x + 1);
        let c = first_index(rest, ':');
        if c >= rest.len() {
            Err(ParseError::InvalidFormat)
        } else if measure_error(measure(rest.take(c))) is Some {
            Err(measure_error(measure(rest.take(c)))->0)
        } else if measure(s.take(x)) is NotPositive {
            Err(ParseError::LengthNotPositive)
        } else if measure(rest.take(c)) is NotPositive {
            Err(ParseError::WidthNotPositive)
        } else if c + 1 == rest.len() {
            Err(ParseError::EmptyId)
        } else {
            Ok(
                (
                    positive_value(measure(s.take(x))),
                    positive_value(measure(rest.take(c))),
                    rest.skip(c + 1),
                ),
            )
        }
    }
}

/// A cut specification `COUNT@LENGTHxWIDTH:NAME`, split at the first `@`, the
/// first `x` after it and the first `:` after that: its count, length, width
/// and name, or why it is refused. The name may be empty.
pub open spec fn cut_spec(s: Seq<char>) -> Result<(u32, u32, u32, Seq<char>), ParseError> {
    let at = first_index(s, '@');
    if at >= s.len() {
        Err(ParseError::InvalidFormat)
    } else if unreadable(count(s.take(at))) {
        Err(ParseError::InvalidNumber)
    } else if count(s.take(at)) is NotPositive {
        Err(ParseError::CountBelowOne)
    } else {
        let r1 = s.skip(at + 1);
        let x = first_index(r1, 'x');
        if x >= r1.len() {
            Err(ParseError::InvalidFormat)
        } else if measure_error(measure(r1.take(x))) is Some {
            Err(measure_error(measure(r1.take(x)))->0)
        } else if measure(r1.take(x)) is NotPositive {
            Err(ParseError::LengthNotPositive)
        } else {
            let r2 = r1.skip(x + 1);
            let c = first_index(r2, ':');
            if c >= r2.len() {
                Err(ParseError::InvalidFormat)
            } else if measure_error(measure(r2.take(c))) is Some {
                Err(measure_error(measure(r2.take(c)))->0)
            } else if measure(r2.take(c)) is NotPositive {
                Err(ParseError::WidthNotPositive)
            } else {
                Ok(
                    (
                        positive_value(count(s.take(at))),
                        positive_value(measure(r1.take(x))),
                        positive_value(measure(r2.take(c))),
                        r2.skip(c + 1),
                    ),
                )
            }
        }
    }
}

impl Board {
    /// Reads a board specification such as `96x6.5:A` (length 96, width 6.5,
    /// id `A`); dimensions are counted in steps of `1 / RESOLUTION`.
    pub fn parse(spec: &str) -> (r: Result<Board, ParseError>)
        ensures
            match board_spec(spec@) {
                Ok((length, width, id)) => r matches Ok(b) && b.length == length && b.width
                    == width && b.id@ == id,
                Err(e) => r matches Err(f) && f == e,
            },
    {
        let ghost s = spec@;
        let cs = chars_of(spec);
        let n = cs.len();
        let x = find_char(&cs, 0, n, 'x');
        assert(cs@.subrange(0, n as int) =~= s);
        if x == n {
            return Err(ParseError::InvalidFormat);
        }
        assert(cs@.subrange(0, x as int) =~= s.take(x as int));
        let length = read_measure(&cs, 0, x);
        match length {
            Number::Malformed => {
                return Err(ParseError::InvalidNumber);
            },
            Number::TooSmall | Number::TooLarge => {
                return Err(ParseError::OutOfRange);
            },
            _ => {},
        }
        let ghost rest = s.skip(x + 1);
        assert(cs@.subrange(x + 1, n as int) =~= rest);
        let c = find_char(&cs, x + 1, n, ':');
        if c == n {
            return Err(ParseError::InvalidFormat);
        }
        assert(cs@.subrange(x + 1, c as int) =~= rest.take(c - x - 1));
        let width = read_measure(&cs, x + 1, c);
        let (length, width) = match (length, width) {
            (_, Number::Malformed) => {
                return Err(ParseError::InvalidNumber);
            },
            (_, Number::TooSmall) | (_, Number::TooLarge) => {
                return Err(ParseError::OutOfRange);
            },
            (Number::NotPositive, _) => {
                return Err(ParseError::LengthNotPositive);
            },
            (_, Number::NotPositive) => {
                return Err(ParseError::WidthNotPositive);
            },
            (Number::Positive(l), Number::Positive(w)) => (l, w),
            _ => {
                return Err(ParseError::InvalidNumber);
            },
        };
        if c + 1 == n {
            return Err(ParseError::EmptyId);
        }
        let id = spec.substring_char(c + 1, n).to_owned();
        assert(id@ =~= rest.skip(c - x));
        Ok(Board { length, width, id })
    }
}

impl Cut {
    /// Reads a cut specification such as `2@12x4:Apron` (two pieces, length 12,
    /// width 4, named `Apron`); dimensions are counted in steps of
    /// `1 / RESOLUTION`.
    pub fn parse(spec: &str) -> (r: Result<Cut, ParseError>)
        ensures
            match cut_spec(spec@) {
                Ok((count, length, width, name)) => r matches Ok(c) && c.count == count
                    && c.length == length && c.width == width && c.name@ == name,
                Err(e) => r matches Err(f) && f == e,
            },
    {
        let ghost s = spec@;
        let cs = chars_of(spec);
        let n = cs.len();
        let at = find_char(&cs, 0, n, '@');
        assert(cs@.subrange(0, n as int) =~= s);
        if at == n {
            return Err(ParseError::InvalidFormat);
        }
        assert(cs@.subrange(0, at as int) =~= s.take(at as int));
        let count = match read_count(&cs, 0, at) {
            Number::Positive(v) => v,
            Number::NotPositive => {
                return Err(ParseError::CountBelowOne);
            },
            _ => {
                return Err(ParseError::InvalidNumber);
            },
        };
        let ghost r1 = s.skip(at + 1);
        assert(cs@.subrange(at + 1, n as int) =~= r1);
        let x = find_char(&cs, at + 1, n, 'x');
        if x == n {
            return Err(ParseError::InvalidFormat);
        }
        assert(cs@.subrange(at + 1, x as int) =~= r1.take(x - at - 1));
        let length = match read_measure(&cs, at + 1, x) {
            Number::Positive(v) => v,
            Number::NotPositive => {
                return Err(ParseError::LengthNotPositive);
            },
            Number::Malformed => {
                return Err(ParseError::InvalidNumber);
            },
            _ => {
                return Err(ParseError::OutOfRange);
            },
        };
        let ghost r2 = r1.skip(x - at);
        assert(cs@.subrange(x + 1, n as int) =~= r2);
        let c = find_char(&cs, x + 1, n, ':');
        if c == n {
            return Err(ParseError::InvalidFormat);
        }
        assert(cs@.subrange(x + 1, c as int) =~= r2.take(c - x - 1));
        let width = match read_measure(&cs, x + 1, c) {
            Number::Positive(v) => v,
            Number::NotPositive => {
                return Err(ParseError::WidthNotPositive);
            },
            Number::Malformed => {
                return Err(ParseError::InvalidNumber);
            },
            _ => {
                return Err(ParseError::OutOfRange);
            },
        };
        let name = spec.substring_char(c + 1, n).to_owned();
        assert(name@ =~= r2.skip(c - x));
        Ok(Cut { length, width, count, name })
    }
}


/// The error of the first board specification that is refused, if any.
pub open spec fn boards_error(specs: Seq<String>) -> Option<ParseError>
    decreases specs.len(),
{
    if specs.len() == 0 {
        None
    } else {
        match board_spec(specs[0]@) {
            Err(e) => Some(e),
            Ok(_) => boards_error(specs.drop_first()),
        }
    }
}

/// The error of the first cut specification that is refused, if any.
pub open spec fn cuts_error(specs: Seq<String>) -> Option<ParseError>
    decreases specs.len(),
{
    if specs.len() == 0 {
        None
    } else {
        match cut_spec(specs[0]@) {
            Err(e) => Some(e),
            Ok(_) => cuts_error(specs.drop_first()),
        }
    }
}

/// Why a problem made of these specifications is refused: boards are checked
/// before cuts, and each list must hold at least one entry.
pub open spec fn input_error(boards: Seq<String>, cutlist: Seq<String>) -> Option<ParseError> {
    if boards_error(boards) is Some {
        boards_error(boards)
    } else if boards.len() == 0 {
        Some(ParseError::NoBoards)
    } else if cuts_error(cutlist) is Some {
        cuts_error(cutlist)
    } else if cutlist.len() == 0 {
        Some(ParseError::NoCuts)
    } else {
        None
    }
}

impl Input {
    /// A problem from its spacing and the text of each board and cut
    /// specification.
    pub fn from(spacing: u32, boards: &Vec<String>, cutlist: &Vec<String>) -> (r: Result<
        Input,
        ParseError,
    >)
        ensures
            match input_error(boards@, cutlist@) {
                Some(e) => r matches Err(f) && f == e,
                None => r matches Ok(input) && {
                    &&& input.spacing == spacing
                    &&& input.boards@.len() == boards@.len()
                    &&& input.cutlist@.len() == cutlist@.len()
                    &&& forall|i: int|
                        0 <= i < boards@.len() ==> board_spec(#[trigger] boards@[i]@) == Ok::<
                            (u32, u32, Seq<char>),
                            ParseError,
                        >((input.boards@[i].length, input.boards@[i].width, input.boards@[i].id@))
                    &&& forall|i: int|
                        0 <= i < cutlist@.len() ==> cut_spec(#[trigger] cutlist@[i]@) == Ok::<
                            (u32, u32, u32, Seq<char>),
                            ParseError,
                        >(
                            (
                                input.cutlist@[i].count,
                                input.cutlist@[i].length,
                                input.cutlist@[i].width,
                                input.cutlist@[i].name@,
                            ),
                        )
                },
            },
    {
        let mut parsed_boards: Vec<Board> = Vec::new();
        let mut i: usize = 0;
        assert(boards@.skip(0) =~= boards@);
        while i < boards.len()
            invariant
                i <= boards@.len(),
                boards_error(boards@) == boards_error(boards@.skip(i as int)),
                parsed_boards@.len() == i,
                forall|k: int|
                    0 <= k < i ==> board_spec(#[trigger] boards@[k]@) == Ok::<
                        (u32, u32, Seq<char>),
                        ParseError,
                    >((parsed_boards@[k].length, parsed_boards@[k].width, parsed_boards@[k].id@)),
            decreases boards@.len() - i,
        {
            assert(boards@.skip(i as int)[0] == boards@[i as int]);
            assert(boards@.skip(i as int).drop_first() =~= boards@.skip(i + 1));
            match Board::parse(boards[i].as_str()) {
                Ok(b) => {
                    parsed_boards.push(b);
                },
                Err(e) => {
                    return Err(e);
                },
            }
            i += 1;
        }
        assert(boards@.skip(i as int) =~= Seq::<String>::empty());
        if boards.len() == 0 {
            return Err(ParseError::NoBoards);
        }
        let mut parsed_cuts: Vec<Cut> = Vec::new();
        let mut j: usize = 0;
        assert(cutlist@.skip(0) =~= cutlist@);
        while j < cutlist.len()
            invariant
                j <= cutlist@.len(),
                boards_error(boards@) is None,
                boards@.len() > 0,
                cuts_error(cutlist@) == cuts_error(cutlist@.skip(j as int)),
                parsed_cuts@.len() == j,
                forall|k: int|
                    0 <= k < j ==> cut_spec(#[trigger] cutlist@[k]@) == Ok::<
                        (u32, u32, u32, Seq<char>),
                        ParseError,
                    >(
                        (
                            parsed_cuts@[k].count,
                            parsed_cuts@[k].length,
                            parsed_cuts@[k].width,
                            parsed_cuts@[k].name@,
                        ),
                    ),
            decreases cutlist@.len() - j,
        {
            assert(cutlist@.skip(j as int)[0] == cutlist@[j as int]);
            assert(cutlist@.skip(j as int).drop_first() =~= cutlist@.skip(j + 1));
            match Cut::parse(cutlist[j].as_str()) {
                Ok(c) => {
                    parsed_cuts.push(c);
                },
                Err(e) => {
                    return Err(e);
                },
            }
            j += 1;
        }
        assert(cutlist@.skip(j as int) =~= Seq::<String>::empty());
        if cutlist.len() == 0 {
            return Err(ParseError::NoCuts);
        }
        Ok(Input { spacing, boards: parsed_boards, cutlist: parsed_cuts })
    }
}

} // verus!
