use vstd::prelude::*;

verus! {

/// The value of a hexadecimal digit, either case.
pub open spec fn hex_digit(c: char) -> Option<int> {
    if '0' <= c && c <= '9' {
        Some(c as int - '0' as int)
    } else if 'a' <= c && c <= 'f' {
        Some(c as int - 'a' as int + 10)
    } else if 'A' <= c && c <= 'F' {
        Some(c as int - 'A' as int + 10)
    } else {
        None
    }
}

/// The byte written by two hexadecimal digits.
pub open spec fn hex_pair(high: char, low: char) -> Option<u8> {
    match (hex_digit(high), hex_digit(low)) {
        (Some(h), Some(l)) => Some((16 * h + l) as u8),
        _ => None,
    }
}

/// Relies on hex::FromHex for `[u8; 1]`: two hexadecimal digits of either case give one
/// byte, anything else is an error.
#[verifier::external_body]
fn decode_pair(high: char, low: char) -> (r: Option<u8>)
    ensures
        r == hex_pair(high, low),
{
    let digits: String = [high, low].iter().collect();
    <[u8; 1] as hex::FromHex>::from_hex(digits).ok().map(|b| b[0])
}

/// The byte written by the two characters of `s` from `index` on.
pub open spec fn hex_byte_at(s: Seq<char>, index: int) -> Option<u8> {
    if 0 <= index && index + 1 < s.len() {
        hex_pair(s[index], s[index + 1])
    } else {
        None
    }
}

/// Reads the byte written in hexadecimal at `index` of `hex_str`.
pub fn parse_hex_byte_at(hex_str: &str, index: usize) -> (r: Option<u8>)
    ensures
        r == hex_byte_at(hex_str@, index as int),
{
    let len = hex_str.unicode_len();
    if index >= len || len - index < 2 {
        return None;
    }
    decode_pair(hex_str.get_char(index), hex_str.get_char(index + 1))
}

/// A colour given as red, green and blue.
#[derive(Clone, Copy, Debug, PartialEq, Eq, Structural)]
pub struct HexColor {
    pub red: u8,
    pub green: u8,
    pub blue: u8,
}

/// The colour written as `#rrggbb` or `rrggbb`; what follows the six digits is ignored.
pub open spec fn hex_color(s: Seq<char>) -> Option<HexColor> {
    let t = if s.len() > 0 && s[0] == '#' {
        s.drop_first()
    } else {
        s
    };
    match (hex_byte_at(t, 0), hex_byte_at(t, 2), hex_byte_at(t, 4)) {
        (Some(red), Some(green), Some(blue)) => Some(HexColor { red, green, blue }),
        _ => None,
    }
}

impl HexColor {
    /// Parses a colour written in hexadecimal.
    pub fn parse(s: &str) -> (r: Option<HexColor>)
        ensures
            r == hex_color(s@),
    {
        let len = s.unicode_len();
        let offset: usize = if len > 0 && s.get_char(0) == '#' {
            1
        } else {
            0
        };
        let t = s.substring_char(offset, len);
        proof {
            if len > 0 && s@[0] == '#' {
                assert(t@ =~= s@.drop_first());
            } else {
                assert(t@ =~= s@);
            }
        }
        let red = match parse_hex_byte_at(t, 0) {
            Some(b) => b,
            None => {
                return None;
            },
        };
        let green = match parse_hex_byte_at(t, 2) {
            Some(b) => b,
            None => {
                return None;
            },
        };
        let blue = match parse_hex_byte_at(t, 4) {
            Some(b) => b,
            None => {
                return None;
            },
        };
        Some(HexColor { red, green, blue })
    }

    /// The colour as one number, `0xRRGGBB`.
    pub fn to_rgb(&self) -> (r: u32)
        ensures
            r == self.red * 65536 + self.green * 256 + self.blue,
    {
        (self.red as u32) * 65536 + (self.green as u32) * 256 + (self.blue as u32)
    }
}

} // verus!
