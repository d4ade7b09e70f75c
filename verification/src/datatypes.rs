//! Shared wire-level data types: colors, shapes and pointer samples.

use vstd::prelude::*;
use vstd::string::StringExecFns;

verus! {

/// An RGB triple, as carried inside every wire message.
#[derive(Clone, Copy, PartialEq, Eq, Structural, Debug)]
pub struct Color {
    pub r: u8,
    pub g: u8,
    pub b: u8,
}

/// The lowercase hexadecimal digit character for a value below sixteen.
pub open spec fn hex_digit(n: u8) -> char {
    seq!['0', '1', '2', '3', '4', '5', '6', '7', '8', '9', 'a', 'b', 'c', 'd', 'e', 'f'][n as int]
}

/// Lowercase hexadecimal rendering of a byte string: two digits per byte,
/// most significant digit first.
pub open spec fn hex_chars_of(bytes: Seq<u8>) -> Seq<char>
    decreases bytes.len(),
{
    if bytes.len() == 0 {
        Seq::empty()
    } else {
        seq![hex_digit(bytes[0] / 16), hex_digit(bytes[0] % 16)] + hex_chars_of(
            bytes.drop_first(),
        )
    }
}

/// Relies on hex::encode: encodes each input byte as two lowercase
/// hexadecimal digits, most significant first, in input order.
#[verifier::external_body]
fn hex_encode(bytes: &Vec<u8>) -> (r: String)
    ensures
        r@ == hex_chars_of(bytes@),
{
    hex::encode(bytes)
}

impl Color {
    /// CSS-style `#rrggbb` rendering of the color, lowercase.
    pub fn hex_color(&self) -> (r: String)
        ensures
            r@ == seq!['#'] + hex_chars_of(seq![self.r, self.g, self.b]),
    {
        let mut bytes: Vec<u8> = Vec::new();
        bytes.push(self.r);
        bytes.push(self.g);
        bytes.push(self.b);
        let digits = hex_encode(&bytes);
        let mut out = String::from_str("#");
        proof {
            reveal_strlit("#");
        }
        out.append(digits.as_str());
        proof {
            assert(bytes@ =~= seq![self.r, self.g, self.b]);
            assert(out@ =~= seq!['#'] + hex_chars_of(seq![self.r, self.g, self.b]));
        }
        out
    }
}

/// A circle drawn on a board.  Coordinates and radius are integer canvas
/// pixels.
#[derive(Clone, Copy, PartialEq, Eq, Structural, Debug)]
pub struct Circle {
    pub x: i64,
    pub y: i64,
    pub radius: i64,
    pub color: Color,
}

/// One remote-pointer sample: which participant moved, and where to.
#[derive(Clone, Debug)]
pub struct PointerPosition {
    pub id: String,
    pub x: i64,
    pub y: i64,
    pub color: Color,
}

/// A message exchanged over a board's socket: either a durable shape or an
/// ephemeral pointer sample.
#[derive(Clone, Debug)]
pub enum SocketMessage {
    Circle(Circle),
    Pointer(PointerPosition),
}

/// A board as listed by the board-management collaborator.
#[derive(Clone, Debug)]
pub struct Board {
    pub name: String,
    pub id: i32,
}

/// Request body for creating a board.
#[derive(Clone, Debug)]
pub struct CreateBoardRequest {
    pub name: String,
}

/// Error reported by the board-listing API client.
#[derive(Clone, Debug)]
pub struct APIError {
    pub message: String,
}

} // verus!
