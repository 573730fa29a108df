use vstd::prelude::*;
use crate::enums::CellPhysicsType;
use vstd::string::StringSliceAdditionalSpecFns;

verus! {

/// A display colour: red, green, blue and alpha, one byte each.
#[derive(Clone, Copy, Debug, PartialEq, Eq, Structural)]
pub struct Color {
    pub r: u8,
    pub g: u8,
    pub b: u8,
    pub a: u8,
}

/// A material definition.
#[derive(Debug)]
pub struct CellAsset {
    pub physics_behavior: CellPhysicsType,
    pub color: Color,
    pub name: String,
    /// Kept with the material; no movement rule reads it.
    pub density: i32,
}

/// A material definition with its name as a sequence of characters.
pub struct CellAssetView {
    pub physics_behavior: CellPhysicsType,
    pub color: Color,
    pub name: Seq<char>,
    pub density: i32,
}

impl View for CellAsset {
    type V = CellAssetView;

    open spec fn view(&self) -> CellAssetView {
        CellAssetView {
            physics_behavior: self.physics_behavior,
            color: self.color,
            name: self.name@,
            density: self.density,
        }
    }
}

impl Clone for CellAsset {
    fn clone(&self) -> (copy: CellAsset)
        ensures
            copy@ == self@,
    {
        CellAsset {
            physics_behavior: self.physics_behavior,
            color: self.color,
            name: self.name.clone(),
            density: self.density,
        }
    }
}

/// Why a text is no colour in hexadecimal notation.
#[derive(Clone, Copy, Debug, PartialEq, Eq, Structural)]
pub enum HexColorError {
    /// After an optional `#`, the text has neither 3, 4, 6 nor 8 bytes.
    Length,
    /// The first byte that is no hexadecimal digit.
    Char(u8),
}

/// The value of a hexadecimal digit, in either case; `None` for any other byte.
pub open spec fn hex_value(byte: u8) -> Option<u8> {
    if 0x30 <= byte <= 0x39 {
        Some((byte - 0x30) as u8)
    } else if 0x41 <= byte <= 0x46 {
        Some((byte - 0x41 + 10) as u8)
    } else if 0x61 <= byte <= 0x66 {
        Some((byte - 0x61 + 10) as u8)
    } else {
        None
    }
}

/// The text without a leading `#`.
pub open spec fn strip_hash(text: Seq<u8>) -> Seq<u8> {
    if text.len() > 0 && text[0] == 0x23 {
        text.subrange(1, text.len() as int)
    } else {
        text
    }
}

/// The first of the first `n` bytes that is no hexadecimal digit.
pub open spec fn first_bad_digit(digits: Seq<u8>, n: nat) -> Option<u8>
    decreases n,
{
    if n == 0 {
        None
    } else if first_bad_digit(digits, (n - 1) as nat) is Some {
        first_bad_digit(digits, (n - 1) as nat)
    } else if hex_value(digits[n - 1]) is None {
        Some(digits[n - 1])
    } else {
        None
    }
}

/// The byte written with the two hexadecimal digits `high` and `low`.
pub open spec fn hex_pair(high: u8, low: u8) -> u8 {
    (hex_value(high).unwrap() * 16 + hex_value(low).unwrap()) as u8
}

/// The colour that a text denotes in hexadecimal notation: after an optional `#`, the
/// digits `rgb`, `rgba`, `rrggbb` or `rrggbbaa`. A single digit stands for the same digit
/// twice, and a colour without alpha is opaque.
pub open spec fn hex_color(text: Seq<u8>) -> Result<Color, HexColorError> {
    let d = strip_hash(text);
    if d.len() != 3 && d.len() != 4 && d.len() != 6 && d.len() != 8 {
        Err(HexColorError::Length)
    } else if first_bad_digit(d, d.len()) is Some {
        Err(HexColorError::Char(first_bad_digit(d, d.len()).unwrap()))
    } else if d.len() == 3 {
        Ok(Color { r: hex_pair(d[0], d[0]), g: hex_pair(d[1], d[1]), b: hex_pair(d[2], d[2]), a: 255 })
    } else if d.len() == 4 {
        Ok(
            Color {
                r: hex_pair(d[0], d[0]),
                g: hex_pair(d[1], d[1]),
                b: hex_pair(d[2], d[2]),
                a: hex_pair(d[3], d[3]),
            },
        )
    } else if d.len() == 6 {
        Ok(Color { r: hex_pair(d[0], d[1]), g: hex_pair(d[2], d[3]), b: hex_pair(d[4], d[5]), a: 255 })
    } else {
        Ok(
            Color {
                r: hex_pair(d[0], d[1]),
                g: hex_pair(d[2], d[3]),
                b: hex_pair(d[4], d[5]),
                a: hex_pair(d[6], d[7]),
            },
        )
    }
}

/// The value of a hexadecimal digit.
fn digit_value(byte: u8) -> (value: Option<u8>)
    ensures
        value == hex_value(byte),
        value matches Some(v) ==> v < 16,
{
    if 0x30 <= byte && byte <= 0x39 {
        Some(byte - 0x30)
    } else if 0x41 <= byte && byte <= 0x46 {
        Some(byte - 0x41 + 10)
    } else if 0x61 <= byte && byte <= 0x66 {
        Some(byte - 0x61 + 10)
    } else {
        None
    }
}

impl Color {
    /// Reads a colour in hexadecimal notation, such as `f6d7b0` or `#19212e`.
    pub fn hex(hex: &str) -> (color: Result<Color, HexColorError>)
        ensures
            color == hex_color(hex.spec_bytes()),
    {
        let bytes = hex.as_bytes();
        let start: usize = if bytes.len() > 0 && bytes[0] == 0x23 {
            1
        } else {
            0
        };
        let n: usize = bytes.len() - start;
        let ghost d = strip_hash(bytes@);
        assert(d.len() == n);
        if n != 3 && n != 4 && n != 6 && n != 8 {
            return Err(HexColorError::Length);
        }
        let mut values: Vec<u8> = Vec::new();
        let mut i: usize = 0;
        while i < n
            invariant
                i <= n,
                n == d.len(),
                n + start == bytes@.len(),
                n == 3 || n == 4 || n == 6 || n == 8,
                bytes@ == hex.spec_bytes(),
                d == strip_hash(bytes@),
                start == 0 || start == 1,
                forall|j: int| 0 <= j < n ==> d[j] == bytes@[j + start],
                first_bad_digit(d, i as nat) is None,
                values@.len() == i,
                forall|j: int| 0 <= j < i ==> hex_value(d[j]) == Some(#[trigger] values@[j]) && values@[j] < 16,
            decreases n - i,
        {
            match digit_value(bytes[i + start]) {
                Some(v) => {
                    values.push(v);
                },
                None => {
                    proof {
                        assert(d[i as int] == bytes@[i + start]);
                        assert(first_bad_digit(d, (i + 1) as nat) == Some(d[i as int]));
                        lemma_first_bad_digit_stays(d, (i + 1) as nat, n as nat);
                    }
                    return Err(HexColorError::Char(bytes[i + start]));
                },
            }
            i = i + 1;
        }
        if n == 3 {
            Ok(Color { r: values[0] * 17, g: values[1] * 17, b: values[2] * 17, a: 255 })
        } else if n == 4 {
            Ok(Color { r: values[0] * 17, g: values[1] * 17, b: values[2] * 17, a: values[3] * 17 })
        } else if n == 6 {
            Ok(
                Color {
                    r: values[0] * 16 + values[1],
                    g: values[2] * 16 + values[3],
                    b: values[4] * 16 + values[5],
                    a: 255,
                },
            )
        } else {
            Ok(
                Color {
                    r: values[0] * 16 + values[1],
                    g: values[2] * 16 + values[3],
                    b: values[4] * 16 + values[5],
                    a: values[6] * 16 + values[7],
                },
            )
        }
    }
}

/// A bad digit found among the first `n` bytes is still the first among the first `m`.
proof fn lemma_first_bad_digit_stays(digits: Seq<u8>, n: nat, m: nat)
    requires
        n <= m,
        first_bad_digit(digits, n) is Some,
    ensures
        first_bad_digit(digits, m) == first_bad_digit(digits, n),
    decreases m,
{
    if n < m {
        lemma_first_bad_digit_stays(digits, n, (m - 1) as nat);
    }
}

} // verus!
