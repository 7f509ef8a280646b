//! A class id, and the one way the registry writes one: `{F18C80B4-2DE1-43B8-AC84-19DDC22EBFC8}`.
use vstd::prelude::*;
use crate::text::{append_str, push_char};

verus! {

/// A COM class id, in its four parts.
#[derive(Clone, Copy, Debug, PartialEq, Eq)]
pub struct Guid {
    pub data1: u32,
    pub data2: u16,
    pub data3: u16,
    pub data4: [u8; 8],
}

/// One hexadecimal digit, in capitals.
pub open spec fn hex_char(digit: nat) -> char {
    if digit < 10 {
        (('0' as u32) + digit) as char
    } else {
        (('A' as u32) + digit - 10) as char
    }
}

/// The last `width` hexadecimal digits of a number, in capitals, most significant first.
pub open spec fn hex(value: nat, width: nat) -> Seq<char>
    decreases width,
{
    if width == 0 {
        Seq::empty()
    } else {
        hex(value / 16, (width - 1) as nat).push(hex_char(value % 16))
    }
}

/// The registry's way of writing a class id.
pub open spec fn spec_registry_string(guid: Guid) -> Seq<char> {
    seq!['{'] + hex(guid.data1 as nat, 8) + seq!['-'] + hex(guid.data2 as nat, 4) + seq!['-'] + hex(
        guid.data3 as nat,
        4,
    ) + seq!['-'] + hex(guid.data4[0] as nat, 2) + hex(guid.data4[1] as nat, 2) + seq!['-'] + hex(
        guid.data4[2] as nat,
        2,
    ) + hex(guid.data4[3] as nat, 2) + hex(guid.data4[4] as nat, 2) + hex(guid.data4[5] as nat, 2) + hex(
        guid.data4[6] as nat,
        2,
    ) + hex(guid.data4[7] as nat, 2) + seq!['}']
}

fn hex_digit(digit: u64) -> (c: char)
    requires
        digit < 16,
    ensures
        c == hex_char(digit as nat),
{
    if digit < 10 {
        let code: u8 = (digit as u8) + 48;
        code as char
    } else {
        let code: u8 = (digit as u8) + 55;
        code as char
    }
}

/// The last `width` hexadecimal digits of `value`, on the end of `text`.
fn push_hex(text: &mut String, value: u64, width: usize)
    ensures
        final(text)@ == old(text)@ + hex(value as nat, width as nat),
    decreases width,
{
    if width == 0 {
        assert(old(text)@ + hex(value as nat, 0) =~= old(text)@);
        return;
    }
    push_hex(text, value / 16, width - 1);
    push_char(text, hex_digit(value % 16));
    assert(final(text)@ =~= old(text)@ + hex(value as nat, width as nat));
}

impl Guid {
    /// The class id as the registry writes it.
    pub fn to_registry_string(&self) -> (text: String)
        ensures
            text@ == spec_registry_string(*self),
    {
        let mut text = String::new();
        push_char(&mut text, '{');
        push_hex(&mut text, self.data1 as u64, 8);
        push_char(&mut text, '-');
        push_hex(&mut text, self.data2 as u64, 4);
        push_char(&mut text, '-');
        push_hex(&mut text, self.data3 as u64, 4);
        push_char(&mut text, '-');
        push_hex(&mut text, self.data4[0] as u64, 2);
        push_hex(&mut text, self.data4[1] as u64, 2);
        push_char(&mut text, '-');
        push_hex(&mut text, self.data4[2] as u64, 2);
        push_hex(&mut text, self.data4[3] as u64, 2);
        push_hex(&mut text, self.data4[4] as u64, 2);
        push_hex(&mut text, self.data4[5] as u64, 2);
        push_hex(&mut text, self.data4[6] as u64, 2);
        push_hex(&mut text, self.data4[7] as u64, 2);
        push_char(&mut text, '}');
        assert(text@ =~= spec_registry_string(*self));
        text
    }
}

} // verus!
