use vstd::prelude::*;
use vstd::string::StringSliceAdditionalSpecFns;

verus! {

/// A move from one square to another, with the piece index a pawn promotes to
/// (1 knight, 2 bishop, 3 rook, 4 queen).
#[derive(Clone, Copy, Debug, PartialEq, Eq, Structural)]
pub struct Move {
    pub from: u8,
    pub to: u8,
    pub promotion: Option<u8>,
}

pub type MoveList = Vec<Move>;

/// The file letter and rank digit of square `s`.
pub open spec fn square_text(s: int) -> Seq<char> {
    seq![((97 + s % 8) as u8) as char, ((49 + s / 8) as u8) as char]
}

/// The letter for a promotion piece index; a blank for an index that names none.
pub open spec fn promotion_letter(q: u8) -> char {
    if q == 1 {
        'n'
    } else if q == 2 {
        'b'
    } else if q == 3 {
        'r'
    } else if q == 4 {
        'q'
    } else {
        ' '
    }
}

/// The long algebraic text of a move: origin, destination, and the promotion letter if any.
pub open spec fn uci_text(m: Move) -> Seq<char> {
    square_text(m.from as int) + square_text(m.to as int) + match m.promotion {
        Some(q) => seq![promotion_letter(q)],
        None => Seq::empty(),
    }
}

/// The square named by a file byte `a`..`h` and a rank byte `1`..`8`.
pub open spec fn square_of_bytes(f: u8, r: u8) -> Option<u8> {
    if 97 <= f <= 104 && 49 <= r <= 56 {
        Some(((r - 49) * 8 + (f - 97)) as u8)
    } else {
        None
    }
}

/// The promotion piece index a byte names: `n`, `b`, `r`, `q`.
pub open spec fn promotion_of_byte(c: u8) -> Option<u8> {
    if c == 110 {
        Some(1u8)
    } else if c == 98 {
        Some(2u8)
    } else if c == 114 {
        Some(3u8)
    } else if c == 113 {
        Some(4u8)
    } else {
        None
    }
}

/// The move long algebraic text names: a file letter and a rank digit for each of two
/// squares, and, as a fifth and last byte, `n`, `b`, `r` or `q` for a promotion; none for any
/// other text.
pub open spec fn uci_parse(t: Seq<u8>) -> Option<Move> {
    if t.len() != 4 && t.len() != 5 {
        None
    } else if t.len() == 5 && promotion_of_byte(t[4]).is_none() {
        None
    } else {
        match (square_of_bytes(t[0], t[1]), square_of_bytes(t[2], t[3])) {
            (Some(from), Some(to)) => Some(
                Move {
                    from,
                    to,
                    promotion: if t.len() == 5 {
                        promotion_of_byte(t[4])
                    } else {
                        None
                    },
                },
            ),
            _ => None,
        }
    }
}

/// Relies on `String: FromIterator<char>`: the string holds the characters in order.
#[verifier::external_body]
fn string_of_chars(cs: &Vec<char>) -> (r: String)
    ensures
        r@ == cs@,
{
    cs.iter().collect()
}

fn square_of(f: u8, r: u8) -> (s: Option<u8>)
    ensures
        s == square_of_bytes(f, r),
{
    if 97 <= f && f <= 104 && 49 <= r && r <= 56 {
        Some((r - 49) * 8 + (f - 97))
    } else {
        None
    }
}

impl Move {
    /// The move as long algebraic text, such as `e2e4` or `a7a8q`.
    pub fn to_uci(&self) -> (r: String)
        requires
            self.from < 64,
            self.to < 64,
        ensures
            r@ == uci_text(*self),
    {
        let mut cs: Vec<char> = Vec::new();
        cs.push(((97 + self.from % 8) as u8) as char);
        cs.push(((49 + self.from / 8) as u8) as char);
        cs.push(((97 + self.to % 8) as u8) as char);
        cs.push(((49 + self.to / 8) as u8) as char);
        if let Some(promo) = self.promotion {
            let letter = match promo {
                1 => 'n',
                2 => 'b',
                3 => 'r',
                4 => 'q',
                _ => ' ',
            };
            cs.push(letter);
        }
        assert(cs@ =~= uci_text(*self));
        string_of_chars(&cs)
    }

    /// The move named by long algebraic text such as `e2e4` or `a7a8q`; none when the text is
    /// malformed.
    pub fn from_uci(uci_str: &str) -> (r: Option<Move>)
        ensures
            r == uci_parse(uci_str.spec_bytes()),
    {
        let bytes = uci_str.as_bytes();
        let n = bytes.len();
        if n != 4 && n != 5 {
            return None;
        }
        let promotion = if n == 5 {
            match bytes[4] {
                110 => Some(1u8),
                98 => Some(2u8),
                114 => Some(3u8),
                113 => Some(4u8),
                _ => {
                    return None;
                },
            }
        } else {
            None
        };
        let from = square_of(bytes[0], bytes[1]);
        let to = square_of(bytes[2], bytes[3]);
        match (from, to) {
            (Some(from), Some(to)) => Some(Move { from, to, promotion }),
            _ => None,
        }
    }
}

} // verus!
