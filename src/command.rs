//! The text protocol: one line per command, words separated by spaces.

use vstd::prelude::*;
use crate::board::Color;
use crate::error::ReversiError;

verus! {

/// What a line of text asks for.
pub enum Command {
    /// `/listRooms`
    ListRooms,
    /// `/join <room> <name>`
    Join { room: String, name: String },
    /// `/makeRoom <room> <name> [color]`
    MakeRoom { room: String, name: String, color: Option<Color> },
    /// `/move <color> <x> <y>`
    Move { color: Color, x: usize, y: usize },
    /// `/join` or `/makeRoom` with the wrong number of words.
    NeedsRoomName,
    /// `/move` with the wrong number of words.
    NeedsColor,
    /// A color or a coordinate that does not read.
    Malformed,
    /// Another word that starts with `/`.
    Unknown,
    /// Text that is not a command.
    Text,
}

impl Command {
    /// The error a refused line reports: a command word with the wrong number
    /// of words, or with a color or coordinate that does not read.
    pub fn error(&self) -> (r: Option<ReversiError>)
        ensures
            r == (if *self is NeedsRoomName || *self is NeedsColor || *self is Malformed {
                Some(ReversiError::MalformedCommand)
            } else {
                None
            }),
    {
        match self {
            Command::NeedsRoomName | Command::NeedsColor | Command::Malformed => Some(
                ReversiError::MalformedCommand,
            ),
            _ => None,
        }
    }
}

/// The words of `s`: split at the first three spaces, so that the fourth word
/// keeps whatever follows.
pub open spec fn words(s: Seq<char>) -> Seq<Seq<char>>
    decreases s.len(),
{
    if s.len() == 0 {
        seq![Seq::<char>::empty()]
    } else {
        let w = words(s.drop_last());
        if s.last() == ' ' && w.len() < 4 {
            w.push(Seq::<char>::empty())
        } else {
            w.update(w.len() - 1, w.last().push(s.last()))
        }
    }
}

proof fn lemma_words_len(s: Seq<char>)
    ensures
        1 <= words(s).len() <= 4,
    decreases s.len(),
{
    if s.len() > 0 {
        lemma_words_len(s.drop_last());
    }
}

/// The line with leading and trailing white space removed (`str::trim`).
pub uninterp spec fn trimmed(s: Seq<char>) -> Seq<char>;

/// The text in upper case (`str::to_uppercase`).
pub uninterp spec fn upper_of(s: Seq<char>) -> Seq<char>;

/// The value of a string of decimal digits.
pub open spec fn digits_value(s: Seq<char>) -> int
    decreases s.len(),
{
    if s.len() == 0 {
        0
    } else {
        digits_value(s.drop_last()) * 10 + (s.last() as int - '0' as int)
    }
}

/// What `s` reads as an unsigned decimal number: an optional `+`, then one or
/// more digits, nothing else.
pub open spec fn decimal(s: Seq<char>) -> Option<int> {
    let body = if s.len() > 0 && s[0] == '+' {
        s.subrange(1, s.len() as int)
    } else {
        s
    };
    if body.len() > 0 && forall|i: int| 0 <= i < body.len() ==> '0' <= #[trigger] body[i] <= '9' {
        Some(digits_value(body))
    } else {
        None
    }
}

/// Relies on str::trim: white space removed at both ends.
#[verifier::external_body]
fn trim(s: &str) -> (r: &str)
    ensures
        r@ == trimmed(s@),
{
    s.trim()
}

/// Relies on str::to_uppercase: the upper-case form of the text.
#[verifier::external_body]
fn to_upper(s: &str) -> (r: String)
    ensures
        r@ == upper_of(s@),
{
    s.to_uppercase()
}

/// Relies on usize's FromStr: an optional `+` and decimal digits, refused when
/// empty, on any other character, and when the value does not fit.
#[verifier::external_body]
fn parse_usize(s: &str) -> (r: Option<usize>)
    ensures
        r == (match decimal(s@) {
            Some(v) => if 0 <= v <= usize::MAX {
                Some(v as usize)
            } else {
                None
            },
            None => None,
        }),
{
    s.parse::<usize>().ok()
}

/// The color an upper-case word names.
pub open spec fn color_named(u: Seq<char>) -> Option<Color> {
    if u == "BLACK"@ {
        Some(Color::Black)
    } else if u == "WHITE"@ {
        Some(Color::White)
    } else {
        None
    }
}

impl Color {
    /// The color an upper-case word names: `BLACK` or `WHITE`.
    pub fn from_upper(u: &String) -> (r: Option<Color>)
        ensures
            r == color_named(u@),
    {
        if *u == "BLACK".to_owned() {
            Some(Color::Black)
        } else if *u == "WHITE".to_owned() {
            Some(Color::White)
        } else {
            None
        }
    }

    /// The color a word names, in any case: `black` or `white`.
    pub fn from_name(s: &str) -> (r: Option<Color>)
        ensures
            r == color_named(upper_of(s@)),
    {
        Color::from_upper(&to_upper(s))
    }

    /// The color a `/move` claims: black when the upper-case word is `BLACK`,
    /// white otherwise.
    pub fn claimed_from_upper(u: &String) -> (r: Color)
        ensures
            r == (if u@ == "BLACK"@ {
                Color::Black
            } else {
                Color::White
            }),
    {
        if *u == "BLACK".to_owned() {
            Color::Black
        } else {
            Color::White
        }
    }
}

/// The coordinate a word gives: a number below 8.
pub open spec fn coordinate(s: Seq<char>) -> Option<usize> {
    match decimal(s) {
        Some(v) => if 0 <= v < 8 {
            Some(v as usize)
        } else {
            None
        },
        None => None,
    }
}

/// Whether `cmd` is what the trimmed line `m` asks for.
pub open spec fn command_of(cmd: Command, m: Seq<char>) -> bool {
    let w = words(m);
    if m.len() == 0 || m[0] != '/' {
        cmd is Text
    } else if w[0] == "/listRooms"@ {
        cmd is ListRooms
    } else if w[0] == "/join"@ {
        if w.len() == 3 {
            cmd matches Command::Join { room, name } && room@ == w[1] && name@ == w[2]
        } else {
            cmd is NeedsRoomName
        }
    } else if w[0] == "/makeRoom"@ {
        if w.len() == 3 {
            cmd matches Command::MakeRoom { room, name, color } && room@ == w[1] && name@ == w[2]
                && color is None
        } else if w.len() == 4 {
            match color_named(upper_of(w[3])) {
                Some(c) => cmd matches Command::MakeRoom { room, name, color } && room@ == w[1]
                    && name@ == w[2] && color == Some(c),
                None => cmd is Malformed,
            }
        } else {
            cmd is NeedsRoomName
        }
    } else if w[0] == "/move"@ {
        if w.len() == 4 {
            match (coordinate(w[2]), coordinate(w[3])) {
                (Some(x), Some(y)) => cmd == Command::Move {
                    color: if upper_of(w[1]) == "BLACK"@ {
                        Color::Black
                    } else {
                        Color::White
                    },
                    x,
                    y,
                },
                _ => cmd is Malformed,
            }
        } else {
            cmd is NeedsColor
        }
    } else {
        cmd is Unknown
    }
}

/// Splits `m` into its words.
pub fn split_words(m: &str) -> (parts: Vec<String>)
    ensures
        parts@.len() == words(m@).len(),
        forall|j: int| 0 <= j < parts@.len() ==> (#[trigger] parts@[j])@ == words(m@)[j],
{
    let n = m.unicode_len();
    let mut parts: Vec<String> = Vec::new();
    let mut start: usize = 0;
    let mut i: usize = 0;
    while i < n
        invariant
            start <= i <= n,
            n == m@.len(),
            parts@.len() <= 3,
            words(m@.subrange(0, i as int)).len() == parts@.len() + 1,
            forall|j: int|
                0 <= j < parts@.len() ==> (#[trigger] parts@[j])@ == words(
                    m@.subrange(0, i as int),
                )[j],
            words(m@.subrange(0, i as int)).last() == m@.subrange(start as int, i as int),
        decreases n - i,
    {
        let ghost prefix = m@.subrange(0, i as int);
        assert(m@.subrange(0, i + 1).drop_last() =~= prefix);
        let c = m.get_char(i);
        if c == ' ' && parts.len() < 3 {
            parts.push(m.substring_char(start, i).to_owned());
            start = i + 1;
            assert(m@.subrange(start as int, i + 1) =~= Seq::<char>::empty());
        } else {
            assert(m@.subrange(start as int, i + 1) =~= m@.subrange(start as int, i as int).push(c));
        }
        i += 1;
    }
    assert(m@.subrange(0, n as int) =~= m@);
    parts.push(m.substring_char(start, n).to_owned());
    parts
}

/// Reads a trimmed line.
pub fn parse_trimmed(m: &str) -> (r: Command)
    ensures
        command_of(r, m@),
{
    if m.unicode_len() == 0 || m.get_char(0) != '/' {
        return Command::Text;
    }
    let parts = split_words(m);
    proof {
        lemma_words_len(m@);
    }
    let head = &parts[0];
    if *head == "/listRooms".to_owned() {
        Command::ListRooms
    } else if *head == "/join".to_owned() {
        if parts.len() == 3 {
            Command::Join { room: parts[1].clone(), name: parts[2].clone() }
        } else {
            Command::NeedsRoomName
        }
    } else if *head == "/makeRoom".to_owned() {
        if parts.len() == 3 {
            Command::MakeRoom { room: parts[1].clone(), name: parts[2].clone(), color: None }
        } else if parts.len() == 4 {
            match Color::from_name(parts[3].as_str()) {
                Some(c) => Command::MakeRoom {
                    room: parts[1].clone(),
                    name: parts[2].clone(),
                    color: Some(c),
                },
                None => Command::Malformed,
            }
        } else {
            Command::NeedsRoomName
        }
    } else if *head == "/move".to_owned() {
        if parts.len() == 4 {
            let color = Color::claimed_from_upper(&to_upper(parts[1].as_str()));
            match (parse_usize(parts[2].as_str()), parse_usize(parts[3].as_str())) {
                (Some(x), Some(y)) => {
                    if x < 8 && y < 8 {
                        Command::Move { color, x, y }
                    } else {
                        Command::Malformed
                    }
                },
                _ => Command::Malformed,
            }
        } else {
            Command::NeedsColor
        }
    } else {
        Command::Unknown
    }
}

/// Reads a line of text: white space at both ends is ignored.
pub fn parse_command(text: &str) -> (r: Command)
    ensures
        command_of(r, trimmed(text@)),
{
    parse_trimmed(trim(text))
}

} // verus!
