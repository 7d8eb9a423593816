//! Hex rendering of byte buffers, for diagnostics.
use vstd::prelude::*;

verus! {

/// The upper-case hex digit for a value below sixteen.
pub open spec fn hex_digit(n: u8) -> char {
    if n < 10 {
        (n + 48) as char
    } else {
        (n + 55) as char
    }
}

/// Each byte as two upper-case hex digits followed by a space.
pub open spec fn hex_spaced(b: Seq<u8>) -> Seq<char>
    decreases b.len(),
{
    if b.len() == 0 {
        seq![]
    } else {
        hex_spaced(b.drop_last()) + seq![
            hex_digit(b.last() / 16),
            hex_digit(b.last() % 16),
            ' ',
        ]
    }
}

/// Relies on `String::push`: the character is added at the end.
#[verifier::external_body]
pub(crate) fn push_char(s: &mut String, c: char)
    ensures
        final(s)@ == old(s)@.push(c),
{
    s.push(c)
}

fn hex_char(n: u8) -> (r: char)
    requires
        n < 16,
    ensures
        r == hex_digit(n),
{
    if n < 10 {
        (n + 48) as char
    } else {
        (n + 55) as char
    }
}

/// Appends the hex rendering of `buf` to `out`.
pub fn push_hex(out: &mut String, buf: &[u8])
    ensures
        final(out)@ == old(out)@ + hex_spaced(buf@),
{
    let mut i: usize = 0;
    while i < buf.len()
        invariant
            0 <= i <= buf@.len(),
            out@ == old(out)@ + hex_spaced(buf@.subrange(0, i as int)),
        decreases buf@.len() - i,
    {
        let b = buf[i];
        push_char(out, hex_char(b / 16));
        push_char(out, hex_char(b % 16));
        push_char(out, ' ');
        proof {
            let next = buf@.subrange(0, i + 1);
            assert(next.drop_last() =~= buf@.subrange(0, i as int));
            assert(next.last() == b);
        }
        i = i + 1;
        assert(out@ =~= old(out)@ + hex_spaced(buf@.subrange(0, i as int)));
    }
    assert(buf@.subrange(0, buf@.len() as int) =~= buf@);
}

/// Renders each byte as two upper-case hex digits followed by a space.
pub fn buf2string(buf: &[u8]) -> (r: String)
    ensures
        r@ == hex_spaced(buf@),
{
    let mut ret = String::new();
    push_hex(&mut ret, buf);
    assert(ret@ =~= hex_spaced(buf@));
    ret
}

/// The eight upper-case hex digits of `x`, most significant first.
pub open spec fn hex8(x: u32) -> Seq<char> {
    seq![
        hex_digit(((x / 0x1000_0000) % 16) as u8),
        hex_digit(((x / 0x100_0000) % 16) as u8),
        hex_digit(((x / 0x10_0000) % 16) as u8),
        hex_digit(((x / 0x1_0000) % 16) as u8),
        hex_digit(((x / 0x1000) % 16) as u8),
        hex_digit(((x / 0x100) % 16) as u8),
        hex_digit(((x / 0x10) % 16) as u8),
        hex_digit((x % 16) as u8),
    ]
}

/// Appends the eight hex digits of `x`.
pub fn push_hex8(out: &mut String, x: u32)
    ensures
        final(out)@ == old(out)@ + hex8(x),
{
    push_char(out, hex_char(((x / 0x1000_0000) % 16) as u8));
    push_char(out, hex_char(((x / 0x100_0000) % 16) as u8));
    push_char(out, hex_char(((x / 0x10_0000) % 16) as u8));
    push_char(out, hex_char(((x / 0x1_0000) % 16) as u8));
    push_char(out, hex_char(((x / 0x1000) % 16) as u8));
    push_char(out, hex_char(((x / 0x100) % 16) as u8));
    push_char(out, hex_char(((x / 0x10) % 16) as u8));
    push_char(out, hex_char((x % 16) as u8));
    assert(out@ =~= old(out)@ + hex8(x));
}

} // verus!
