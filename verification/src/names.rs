//! What the aggregate calls its channels: "Quadro 1", "Studio+ 12", and "Vocal mic (Quadro 1)" for
//! one the person has named, never longer than the interface carries.
use vstd::prelude::*;
use crate::text::{
    append_str, byte_len, char_bytes, char_len, chars_of, digits, number_usize, push_char, string_of,
    trim, trim_chars, trim_end, trim_end_bound,
};

verus! {

/// The longest name the interface carries for a channel: thirty one characters and a terminator.
pub const MAX_NAME: usize = 31;

/// A text taken in from the end, a character at a time, until it fits in `room` bytes.
pub open spec fn shrunk(s: Seq<char>, room: nat) -> Seq<char>
    decreases s.len(),
{
    if s.len() > 0 && byte_len(s) > room {
        shrunk(s.drop_last(), room)
    } else {
        s
    }
}

/// As much of a name as fits in `room`: whole characters, never half of one, never more bytes
/// than `room`, and no white space left dangling at the end.
pub open spec fn spec_cut(text: Seq<char>, room: nat) -> Seq<char> {
    trim_end(shrunk(text.take(if room < text.len() { room as int } else { text.len() as int }), room))
}

/// `a - b`, or nothing when `b` is the larger.
pub open spec fn less(a: nat, b: nat) -> nat {
    if b > a {
        0
    } else {
        (a - b) as nat
    }
}

/// A channel's number on the end of a name: a space and the number.
pub open spec fn spec_tail(number: nat) -> Seq<char> {
    seq![' '] + digits(number)
}

/// A channel's name, as short as the interface carries one.
pub open spec fn spec_channel_name(device: Seq<char>, number: nat) -> Seq<char> {
    spec_cut(device, less(MAX_NAME as nat, spec_tail(number).len())) + spec_tail(number)
}

/// A channel's name when the person has given it one: their name first, the automatic one in
/// brackets, or their name alone when the two together do not fit.
pub open spec fn spec_labelled_name(device: Seq<char>, number: nat, label: Option<Seq<char>>) -> Seq<char> {
    let automatic = spec_channel_name(device, number);
    match label {
        Some(given) if trim(given).len() > 0 => {
            let both = trim(given) + " ("@ + automatic + ")"@;
            if both.len() <= MAX_NAME && byte_len(both) <= MAX_NAME {
                both
            } else {
                spec_cut(trim(given), MAX_NAME as nat)
            }
        },
        _ => automatic,
    }
}

proof fn lemma_byte_len_push(s: Seq<char>, c: char)
    ensures
        byte_len(s.push(c)) == byte_len(s) + char_bytes(c),
{
    assert(s.push(c).drop_last() =~= s);
}

/// The bytes a text takes, counted one character at a time.
pub fn bytes_of(s: &[char]) -> (bytes: u128)
    ensures
        bytes == byte_len(s@),
{
    let mut total: u128 = 0;
    let mut i: usize = 0;
    while i < s.len()
        invariant
            i <= s@.len(),
            total == byte_len(s@.subrange(0, i as int)),
            total <= 4 * i,
        decreases s@.len() - i,
    {
        proof {
            lemma_byte_len_push(s@.subrange(0, i as int), s@[i as int]);
            assert(s@.subrange(0, i + 1) =~= s@.subrange(0, i as int).push(s@[i as int]));
        }
        total = total + char_len(s[i]) as u128;
        i = i + 1;
    }
    assert(s@.subrange(0, s@.len() as int) =~= s@);
    total
}

/// As much of a name as fits: whole characters, never half of one, and never more bytes than the
/// interface's buffer carries.
pub fn cut(text: &str, room: usize) -> (kept: String)
    ensures
        kept@ == spec_cut(text@, room as nat),
{
    let chars = chars_of(text);
    let take = if room < chars.len() { room } else { chars.len() };
    let mut kept: Vec<char> = Vec::new();
    let mut i: usize = 0;
    while i < take
        invariant
            i <= take,
            take <= chars@.len(),
            kept@ == chars@.subrange(0, i as int),
        decreases take - i,
    {
        kept.push(chars[i]);
        i = i + 1;
    }
    assert(kept@ =~= text@.take(if room < text@.len() { room as int } else { text@.len() as int }));
    let mut bytes = bytes_of(&kept);
    while kept.len() > 0 && bytes > room as u128
        invariant
            bytes == byte_len(kept@),
            shrunk(kept@, room as nat) == shrunk(text@.take(if room < text@.len() { room as int } else { text@.len() as int }), room as nat),
        decreases kept@.len(),
    {
        let ghost before = kept@;
        let last = kept.pop().unwrap();
        proof {
            assert(before.drop_last() =~= kept@);
            lemma_byte_len_push(kept@, last);
            assert(kept@.push(last) =~= before);
        }
        bytes = bytes - char_len(last) as u128;
    }
    let end = trim_end_bound(&kept);
    let mut out = String::new();
    let mut k: usize = 0;
    while k < end
        invariant
            k <= end,
            end <= kept@.len(),
            out@ == kept@.subrange(0, k as int),
        decreases end - k,
    {
        push_char(&mut out, kept[k]);
        k = k + 1;
    }
    out
}

/// Everything a channel is named by on the end: a space and its number.
fn tail_of(number: usize) -> (tail: String)
    ensures
        tail@ == spec_tail(number as nat),
{
    let mut tail = String::from_str(" ");
    let digits_text = number_usize(number);
    append_str(&mut tail, digits_text.as_str());
    proof {
        reveal_strlit(" ");
        assert(tail@ =~= spec_tail(number as nat));
    }
    tail
}

/// A channel's name, as short as the interface carries one: "Quadro 1", "Studio+ 12".
pub fn channel_name(device: &str, number: usize) -> (name: String)
    ensures
        name@ == spec_channel_name(device@, number as nat),
{
    let tail = tail_of(number);
    let tail_chars = chars_of(tail.as_str());
    let room = if tail_chars.len() > MAX_NAME { 0 } else { MAX_NAME - tail_chars.len() };
    let mut name = cut(device, room);
    append_str(&mut name, tail.as_str());
    name
}

/// A channel's name when the person has given it one: "Vocal mic (Quadro 1)".
///
/// Their own name comes first and the automatic one stays with it in brackets. When the two
/// together will not fit, their name alone is what is kept: half a bracket reads as a name that
/// was cut off.
pub fn labelled_name(device: &str, number: usize, label: Option<&str>) -> (name: String)
    ensures
        name@ == spec_labelled_name(device@, number as nat, match label {
            Some(given) => Some(given@),
            None => None,
        }),
{
    let automatic = channel_name(device, number);
    let given = match label {
        Some(given) => given,
        None => return automatic,
    };
    let chars = chars_of(given);
    let trimmed = trim_chars(&chars);
    if trimmed.len() == 0 {
        return automatic;
    }
    let own = string_of(&trimmed);
    let mut both = string_of(&trimmed);
    append_str(&mut both, " (");
    append_str(&mut both, automatic.as_str());
    append_str(&mut both, ")");
    let both_chars = chars_of(both.as_str());
    if both_chars.len() <= MAX_NAME && bytes_of(&both_chars) <= MAX_NAME as u128 {
        return both;
    }
    cut(own.as_str(), MAX_NAME)
}

} // verus!
