//! Diagnostic formatting: protocol identifiers rendered as hexadecimal
//! text for log lines.
use vstd::prelude::*;

verus! {

/// The lowercase hexadecimal digit byte of `d`.
pub open spec fn hex_digit(d: int) -> u8 {
    if d < 10 {
        (0x30 + d) as u8
    } else {
        (0x57 + d) as u8
    }
}

/// The lowercase hexadecimal digit bytes of `n`, most significant first.
pub open spec fn hex_rep(n: nat) -> Seq<u8>
    decreases n,
{
    if n < 16 {
        seq![hex_digit(n as int)]
    } else {
        hex_rep(n / 16) + seq![hex_digit((n % 16) as int)]
    }
}

/// The `0x`-prefixed lowercase hexadecimal rendering of `n`.
pub open spec fn xid_chars(n: nat) -> Seq<char> {
    (seq![0x30u8, 0x78u8] + hex_rep(n)).map_values(|b: u8| b as char)
}

/// One lowercase hexadecimal digit byte.
fn hex_byte(d: u8) -> (r: u8)
    requires
        d < 16,
    ensures
        r == hex_digit(d as int),
        r < 0x80,
{
    if d < 10 {
        0x30 + d
    } else {
        0x57 + d
    }
}

/// Appends the digits of `n` to `out`, most significant first.
fn push_hex(n: u32, out: &mut Vec<u8>)
    ensures
        final(out)@ == old(out)@ + hex_rep(n as nat),
        forall|i: int| old(out)@.len() <= i < final(out)@.len() ==> final(out)@[i] < 0x80,
    decreases n,
{
    if n < 16 {
        let b = hex_byte(n as u8);
        out.push(b);
        proof {
            assert(out@ =~= old(out)@ + hex_rep(n as nat));
        }
    } else {
        push_hex(n / 16, out);
        let ghost mid = out@;
        let b = hex_byte((n % 16) as u8);
        out.push(b);
        proof {
            assert(hex_rep(n as nat) == hex_rep(n as nat / 16) + seq![
                hex_digit((n as nat % 16) as int),
            ]);
            assert(n as nat / 16 == (n / 16) as nat);
            assert((n as nat % 16) as int == (n % 16) as int);
            assert(out@ =~= old(out)@ + hex_rep(n as nat));
        }
    }
}

/// Relies on String::from_utf8: bytes below 0x80 are valid UTF-8 and make
/// a string whose characters are exactly those bytes.
#[verifier::external_body]
fn ascii_string(bytes: Vec<u8>) -> (r: String)
    requires
        forall|i: int| 0 <= i < bytes@.len() ==> bytes@[i] < 0x80,
    ensures
        r@ == bytes@.map_values(|b: u8| b as char),
{
    String::from_utf8(bytes).unwrap_or_default()
}

/// A window or atom identifier, wrapped for diagnostic formatting.
pub struct MiniDebug(pub u32);

impl MiniDebug {
    /// The identifier as `0x`-prefixed lowercase hexadecimal text.
    pub fn xid(&self) -> (r: String)
        ensures
            r@ == xid_chars(self.0 as nat),
    {
        let mut bytes: Vec<u8> = Vec::new();
        bytes.push(0x30);
        bytes.push(0x78);
        proof {
            assert(bytes@ =~= seq![0x30u8, 0x78u8]);
        }
        push_hex(self.0, &mut bytes);
        proof {
            assert(bytes@ =~= seq![0x30u8, 0x78u8] + hex_rep(self.0 as nat));
        }
        ascii_string(bytes)
    }
}

} // verus!
