//! Bytes as hexadecimal text, for logs.
use vstd::prelude::*;
use vstd::utf8::*;
use crate::text::utf8_decode;

verus! {

/// How many bytes the short form shows.
pub const PRINT_CAP: usize = 4;

/// The lower-case hexadecimal digit of `n` (below 16), as an ASCII byte.
pub open spec fn hex_digit(n: u8) -> u8 {
    if n < 10 {
        (48 + n) as u8
    } else {
        (87 + n) as u8
    }
}

/// Two lower-case hexadecimal digits for each byte, as ASCII bytes.
pub open spec fn spec_hex(bytes: Seq<u8>) -> Seq<u8>
    decreases bytes.len(),
{
    if bytes.len() == 0 {
        Seq::empty()
    } else {
        spec_hex(bytes.drop_last()) + seq![hex_digit(bytes.last() / 16), hex_digit(bytes.last() % 16)]
    }
}

/// The text of the short form: the digits of the first `PRINT_CAP` bytes,
/// or `()` where there are none, as ASCII bytes.
pub open spec fn spec_short(bytes: Seq<u8>) -> Seq<u8> {
    if bytes.len() == 0 {
        seq![40u8, 41u8]
    } else {
        spec_hex(bytes.take(PRINT_CAP as int))
    }
}

fn push_hex_digit(out: &mut Vec<u8>, n: u8)
    requires
        n < 16,
    ensures
        final(out)@ == old(out)@.push(hex_digit(n)),
        hex_digit(n) <= 0x7f,
{
    if n < 10 {
        out.push(48 + n);
    } else {
        out.push(87 + n);
    }
}

/// The hexadecimal digits of `bytes`, as ASCII bytes.
fn hex_bytes(bytes: &[u8]) -> (r: Vec<u8>)
    ensures
        r@ == spec_hex(bytes@),
        forall|j: int| 0 <= j < r@.len() ==> #[trigger] is_leading_byte_width_1(r@[j]),
{
    let mut out: Vec<u8> = Vec::new();
    let mut i: usize = 0;
    while i < bytes.len()
        invariant
            i <= bytes@.len(),
            out@ == spec_hex(bytes@.take(i as int)),
            forall|j: int| 0 <= j < out@.len() ==> #[trigger] is_leading_byte_width_1(out@[j]),
        decreases bytes@.len() - i,
    {
        let b = bytes[i];
        assert(bytes@.take(i + 1).drop_last() =~= bytes@.take(i as int));
        push_hex_digit(&mut out, b / 16);
        push_hex_digit(&mut out, b % 16);
        i = i + 1;
    }
    assert(bytes@.take(i as int) =~= bytes@);
    out
}

/// The text of ASCII bytes.
fn ascii_text(bytes: &[u8]) -> (r: String)
    requires
        forall|j: int| 0 <= j < bytes@.len() ==> #[trigger] is_leading_byte_width_1(bytes@[j]),
    ensures
        r@ == decode_utf8(bytes@),
{
    proof {
        partial_valid_utf8_extend_ascii_block(bytes@, 0, bytes@.len() as int);
        assert(bytes@.subrange(0, bytes@.len() as int) =~= bytes@);
    }
    utf8_decode(bytes).unwrap()
}

/// Bytes shown as hexadecimal text.
pub struct DisplayBytes<'a>(pub &'a [u8]);

impl<'a> DisplayBytes<'a> {
    /// Every byte as two lower-case hexadecimal digits.
    pub fn debug_string(&self) -> (r: String)
        ensures
            r@ == decode_utf8(spec_hex(self.0@)),
    {
        let digits = hex_bytes(self.0);
        ascii_text(digits.as_slice())
    }

    /// The first `PRINT_CAP` bytes as hexadecimal digits, or `()` where
    /// there are none; bytes that are there are at least `PRINT_CAP`.
    pub fn to_string(&self) -> (r: String)
        requires
            self.0@.len() == 0 || self.0@.len() >= PRINT_CAP,
        ensures
            r@ == decode_utf8(spec_short(self.0@)),
    {
        if self.0.len() == 0 {
            let text: Vec<u8> = vec![40u8, 41u8];
            assert(text@ =~= seq![40u8, 41u8]);
            ascii_text(text.as_slice())
        } else {
            let digits = hex_bytes(&self.0[0..PRINT_CAP]);
            assert(self.0@.subrange(0, PRINT_CAP as int) =~= self.0@.take(PRINT_CAP as int));
            ascii_text(digits.as_slice())
        }
    }
}

} // verus!
