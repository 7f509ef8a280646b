//! Text, as the rest of the crate needs it: names trimmed and compared without case, numbers
//! written the way a person reads them, and a name cut to what an interface carries.
//!
//! Everything here works on characters, which is what a name is made of, and says what it does in
//! terms of them.
use vstd::prelude::*;
use vstd::string::StrSliceExecFns;

verus! {

/// Whether a character is white space, as Unicode's `White_Space` property has it, which is what
/// trimming a name takes off.
pub open spec fn is_space(c: char) -> bool {
    ||| '\u{9}' <= c <= '\u{d}'
    ||| c == ' '
    ||| c == '\u{85}'
    ||| c == '\u{a0}'
    ||| c == '\u{1680}'
    ||| '\u{2000}' <= c <= '\u{200a}'
    ||| c == '\u{2028}'
    ||| c == '\u{2029}'
    ||| c == '\u{202f}'
    ||| c == '\u{205f}'
    ||| c == '\u{3000}'
}

/// Text with the white space at its end taken off.
pub open spec fn trim_end(s: Seq<char>) -> Seq<char>
    decreases s.len(),
{
    if s.len() > 0 && is_space(s.last()) {
        trim_end(s.drop_last())
    } else {
        s
    }
}

/// Text with the white space at its start taken off.
pub open spec fn trim_start(s: Seq<char>) -> Seq<char>
    decreases s.len(),
{
    if s.len() > 0 && is_space(s[0]) {
        trim_start(s.drop_first())
    } else {
        s
    }
}

/// Text with the white space at both ends taken off.
pub open spec fn trim(s: Seq<char>) -> Seq<char> {
    trim_end(trim_start(s))
}

/// A letter of the Latin alphabet in its small form; anything else as it is.
pub open spec fn lower(c: char) -> char {
    if 'A' <= c <= 'Z' {
        ((c as u32) + 32) as char
    } else {
        c
    }
}

/// Text with its Latin capitals made small, which is how names are compared.
pub open spec fn lowered(s: Seq<char>) -> Seq<char> {
    s.map_values(|c: char| lower(c))
}

/// Whether `needle` appears somewhere in `hay`, whole and in order.
pub open spec fn appears_in(hay: Seq<char>, needle: Seq<char>) -> bool {
    exists|at: int| 0 <= at && at + needle.len() <= hay.len() && #[trigger] hay.subrange(at, at + needle.len()) == needle
}

/// The bytes one character takes in UTF-8.
pub open spec fn char_bytes(c: char) -> nat {
    if (c as u32) < 0x80 {
        1
    } else if (c as u32) < 0x800 {
        2
    } else if (c as u32) < 0x10000 {
        3
    } else {
        4
    }
}

/// The bytes a whole text takes in UTF-8.
pub open spec fn byte_len(s: Seq<char>) -> nat
    decreases s.len(),
{
    if s.len() == 0 {
        0
    } else {
        byte_len(s.drop_last()) + char_bytes(s.last())
    }
}

/// The digits of a number that is not negative, most significant first.
pub open spec fn digits(n: nat) -> Seq<char>
    decreases n,
{
    if n < 10 {
        seq![(('0' as u32) + n) as char]
    } else {
        digits(n / 10).push((('0' as u32) + (n % 10)) as char)
    }
}

/// A number, written the way a person writes it.
pub open spec fn decimal(n: int) -> Seq<char> {
    if n < 0 {
        seq!['-'] + digits((-n) as nat)
    } else {
        digits(n as nat)
    }
}

/// The character of one decimal digit.
fn digit_char(d: u64) -> (c: char)
    requires
        d < 10,
    ensures
        c == (('0' as u32) + d) as char,
{
    match d {
        0 => '0',
        1 => '1',
        2 => '2',
        3 => '3',
        4 => '4',
        5 => '5',
        6 => '6',
        7 => '7',
        8 => '8',
        _ => '9',
    }
}

/// Taking the last digit off a number of two digits or more leaves the digits of the rest.
proof fn lemma_digits_split(n: nat)
    requires
        n >= 10,
    ensures
        digits(n) == digits(n / 10).push((('0' as u32) + (n % 10)) as char),
{
}

/// A count, written the way a person writes it: its decimal digits, most significant first.
pub(crate) fn number_u64(n: u64) -> (text: String)
    ensures
        text@ == digits(n as nat),
{
    // The digits, least significant first.
    let mut backwards: Vec<char> = Vec::new();
    let mut rest: u64 = n;
    let mut first = true;
    while first || rest > 0
        invariant
            first ==> rest == n && backwards@.len() == 0,
            !first && rest > 0 ==> digits(n as nat) == digits(rest as nat) + backwards@.reverse(),
            !first && rest == 0 ==> digits(n as nat) == backwards@.reverse(),
        decreases rest, if first { 1int } else { 0int },
    {
        let d = rest % 10;
        let c = digit_char(d);
        proof {
            if first {
                assert(backwards@.reverse() =~= Seq::<char>::empty());
                assert(digits(n as nat) == digits(rest as nat) + backwards@.reverse());
            }
            assert(backwards@.push(c).reverse() =~= seq![c] + backwards@.reverse());
            if rest >= 10 {
                lemma_digits_split(rest as nat);
                assert(digits(rest as nat) + backwards@.reverse() =~= digits((rest / 10) as nat) + backwards@.push(
                    c,
                ).reverse());
            } else {
                assert(digits(rest as nat) == seq![c]);
            }
        }
        backwards.push(c);
        rest = rest / 10;
        first = false;
    }
    let mut text = String::new();
    let mut i: usize = backwards.len();
    while i > 0
        invariant
            i <= backwards@.len(),
            text@ == backwards@.reverse().take(backwards@.len() - i),
        decreases i,
    {
        i = i - 1;
        push_char(&mut text, backwards[i]);
        assert(backwards@.reverse().take(backwards@.len() - i) =~= backwards@.reverse().take(
            backwards@.len() - i - 1,
        ).push(backwards@[i as int]));
    }
    assert(backwards@.reverse().take(backwards@.len() as int) =~= backwards@.reverse());
    text
}

/// A count, written the way a person writes it.
pub(crate) fn number_usize(n: usize) -> (text: String)
    ensures
        text@ == digits(n as nat),
{
    number_u64(n as u64)
}

/// A number, written the way a person writes it: a minus sign before the digits of one below
/// zero.
pub(crate) fn number(n: i64) -> (text: String)
    ensures
        text@ == decimal(n as int),
{
    if n < 0 {
        let size: u64 = (-(n + 1)) as u64 + 1;
        let digits_text = number_u64(size);
        let mut text = String::from_str("-");
        append_str(&mut text, digits_text.as_str());
        proof {
            reveal_strlit("-");
        }
        text
    } else {
        number_u64(n as u64)
    }
}

/// One more character on the end: Rust's own `String::push`.
#[verifier::external_body]
pub(crate) fn push_char(text: &mut String, c: char)
    ensures
        final(text)@ == old(text)@.push(c),
{
    text.push(c)
}

/// A text's characters, one by one.
pub fn chars_of(s: &str) -> (chars: Vec<char>)
    ensures
        chars@ == s@,
{
    let count = s.unicode_len();
    let mut chars: Vec<char> = Vec::new();
    let mut i: usize = 0;
    while i < count
        invariant
            i <= count,
            count == s@.len(),
            chars@ == s@.subrange(0, i as int),
        decreases count - i,
    {
        chars.push(s.get_char(i));
        i = i + 1;
    }
    assert(chars@ =~= s@);
    chars
}

/// Characters, made back into text.
pub fn string_of(chars: &[char]) -> (text: String)
    ensures
        text@ == chars@,
{
    let mut text = String::new();
    let mut i: usize = 0;
    while i < chars.len()
        invariant
            i <= chars@.len(),
            text@ == chars@.subrange(0, i as int),
        decreases chars@.len() - i,
    {
        push_char(&mut text, chars[i]);
        i = i + 1;
    }
    assert(text@ =~= chars@);
    text
}

/// Whether a character is white space.
pub fn is_space_char(c: char) -> (space: bool)
    ensures
        space == is_space(c),
{
    ('\u{9}' <= c && c <= '\u{d}') || c == ' ' || c == '\u{85}' || c == '\u{a0}' || c == '\u{1680}'
        || ('\u{2000}' <= c && c <= '\u{200a}') || c == '\u{2028}' || c == '\u{2029}' || c == '\u{202f}'
        || c == '\u{205f}' || c == '\u{3000}'
}

/// Where the text starts once white space is taken off its start, and where it ends once it is
/// taken off its end: `trim(s)` is what lies between.
pub fn trimmed_bounds(s: &[char]) -> (bounds: (usize, usize))
    ensures
        bounds.0 <= bounds.1 <= s@.len(),
        s@.subrange(bounds.0 as int, bounds.1 as int) == trim(s@),
{
    let mut start: usize = 0;
    assert(s@.subrange(0, s@.len() as int) =~= s@);
    while start < s.len() && is_space_char(s[start])
        invariant
            start <= s@.len(),
            trim_start(s@) == trim_start(s@.subrange(start as int, s@.len() as int)),
        decreases s@.len() - start,
    {
        proof {
            let rest = s@.subrange(start as int, s@.len() as int);
            assert(rest.drop_first() =~= s@.subrange(start + 1, s@.len() as int));
        }
        start = start + 1;
    }
    let ghost front = s@.subrange(start as int, s@.len() as int);
    proof {
        assert(trim_start(front) == front);
    }
    let mut end: usize = s.len();
    while end > start && is_space_char(s[end - 1])
        invariant
            start <= end <= s@.len(),
            front == s@.subrange(start as int, s@.len() as int),
            trim_end(front) == trim_end(s@.subrange(start as int, end as int)),
        decreases end,
    {
        proof {
            let kept = s@.subrange(start as int, end as int);
            assert(kept.drop_last() =~= s@.subrange(start as int, end - 1));
        }
        end = end - 1;
    }
    proof {
        let kept = s@.subrange(start as int, end as int);
        assert(trim_end(kept) == kept);
    }
    (start, end)
}

/// Where a text ends once the white space at its end is taken off.
pub fn trim_end_bound(s: &[char]) -> (end: usize)
    ensures
        end <= s@.len(),
        s@.subrange(0, end as int) == trim_end(s@),
{
    let mut end: usize = s.len();
    assert(s@.subrange(0, s@.len() as int) =~= s@);
    while end > 0 && is_space_char(s[end - 1])
        invariant
            end <= s@.len(),
            trim_end(s@) == trim_end(s@.subrange(0, end as int)),
        decreases end,
    {
        proof {
            let kept = s@.subrange(0, end as int);
            assert(kept.drop_last() =~= s@.subrange(0, end - 1));
        }
        end = end - 1;
    }
    end
}

/// Text with the white space at both ends taken off.
pub fn trim_chars(s: &[char]) -> (kept: Vec<char>)
    ensures
        kept@ == trim(s@),
{
    let (start, end) = trimmed_bounds(s);
    let mut kept: Vec<char> = Vec::new();
    let mut i = start;
    while i < end
        invariant
            start <= i <= end,
            end <= s@.len(),
            kept@ == s@.subrange(start as int, i as int),
        decreases end - i,
    {
        kept.push(s[i]);
        i = i + 1;
    }
    kept
}

/// A character in its small form.
pub fn lower_char(c: char) -> (small: char)
    ensures
        small == lower(c),
{
    if 'A' <= c && c <= 'Z' {
        let code: u8 = (c as u32) as u8 + 32;
        code as char
    } else {
        c
    }
}

/// Text with its Latin capitals made small.
pub fn lowercase(s: &[char]) -> (small: Vec<char>)
    ensures
        small@ == lowered(s@),
{
    let mut small: Vec<char> = Vec::new();
    let mut i: usize = 0;
    while i < s.len()
        invariant
            i <= s@.len(),
            small@ == lowered(s@.subrange(0, i as int)),
        decreases s@.len() - i,
    {
        let c = lower_char(s[i]);
        proof {
            assert(lowered(s@.subrange(0, i + 1)) =~= lowered(s@.subrange(0, i as int)).push(c));
        }
        small.push(c);
        i = i + 1;
    }
    assert(s@.subrange(0, s@.len() as int) =~= s@);
    small
}

/// Whether `needle` appears somewhere in `hay`.
pub fn contains(hay: &[char], needle: &[char]) -> (found: bool)
    ensures
        found == appears_in(hay@, needle@),
{
    let n = needle.len();
    let hay_len = hay.len();
    if n == 0 {
        assert(hay@.subrange(0int, 0int + needle@.len()) =~= needle@);
        return true;
    }
    if n > hay_len {
        return false;
    }
    let mut at: usize = 0;
    while at <= hay_len - n
        invariant
            n == needle@.len(),
            n >= 1,
            n <= hay_len,
            hay_len == hay@.len(),
            forall|k: int| 0 <= k < at ==> #[trigger] hay@.subrange(k, k + n) != needle@,
        decreases hay_len - at,
    {
        let mut i: usize = 0;
        let mut same = true;
        while i < n
            invariant
                i <= n,
                n == needle@.len(),
                at + n <= hay_len,
                hay_len == hay@.len(),
                same == (forall|k: int| 0 <= k < i ==> hay@[at + k] == needle@[k]),
            decreases n - i,
        {
            if hay[at + i] != needle[i] {
                same = false;
            }
            i = i + 1;
        }
        if same {
            assert(hay@.subrange(at as int, at + n) =~= needle@);
            return true;
        }
        proof {
            let k = choose|k: int| 0 <= k < n && hay@[at + k] != needle@[k];
            assert(hay@.subrange(at as int, at + n)[k] != needle@[k]);
        }
        at = at + 1;
    }
    proof {
        assert forall|k: int| !(0 <= k && k + needle@.len() <= hay@.len() && #[trigger] hay@.subrange(k, k + needle@.len()) == needle@) by {
            if 0 <= k && k + n <= hay@.len() {
                assert(k < at);
            }
        }
    }
    false
}

/// Whether two texts are the same characters.
pub fn same_chars(a: &[char], b: &[char]) -> (same: bool)
    ensures
        same == (a@ == b@),
{
    if a.len() != b.len() {
        return false;
    }
    let mut i: usize = 0;
    while i < a.len()
        invariant
            i <= a@.len(),
            a@.len() == b@.len(),
            forall|k: int| 0 <= k < i ==> a@[k] == b@[k],
        decreases a@.len() - i,
    {
        if a[i] != b[i] {
            return false;
        }
        i = i + 1;
    }
    assert(a@ =~= b@);
    true
}

/// The bytes one character takes in UTF-8.
pub fn char_len(c: char) -> (bytes: usize)
    ensures
        bytes == char_bytes(c),
{
    let code = c as u32;
    if code < 0x80 {
        1
    } else if code < 0x800 {
        2
    } else if code < 0x10000 {
        3
    } else {
        4
    }
}

/// Text, joined: one more piece on the end.
pub fn append_str(text: &mut String, piece: &str)
    ensures
        final(text)@ == old(text)@ + piece@,
{
    text.append(piece);
}

/// Pieces of text with one separator between each two of them.
pub open spec fn joined(pieces: Seq<Seq<char>>, separator: Seq<char>) -> Seq<char>
    decreases pieces.len(),
{
    if pieces.len() == 0 {
        Seq::empty()
    } else if pieces.len() == 1 {
        pieces[0]
    } else {
        joined(pieces.drop_last(), separator) + separator + pieces.last()
    }
}

/// One more piece on the end of joined text is one more separator and the piece.
pub proof fn lemma_joined_push(pieces: Seq<Seq<char>>, separator: Seq<char>, piece: Seq<char>)
    ensures
        joined(pieces.push(piece), separator) == if pieces.len() == 0 {
            piece
        } else {
            joined(pieces, separator) + separator + piece
        },
{
    assert(pieces.push(piece).drop_last() =~= pieces);
}

/// Texts, joined with a separator between each two of them.
pub fn join_strings(pieces: &[String], separator: &str) -> (text: String)
    ensures
        text@ == joined(pieces@.map_values(|piece: String| piece@), separator@),
{
    let ghost views = pieces@.map_values(|piece: String| piece@);
    let mut text = String::new();
    let mut i: usize = 0;
    while i < pieces.len()
        invariant
            i <= pieces@.len(),
            views == pieces@.map_values(|piece: String| piece@),
            text@ == joined(views.take(i as int), separator@),
        decreases pieces@.len() - i,
    {
        proof {
            lemma_joined_push(views.take(i as int), separator@, pieces@[i as int]@);
            assert(views.take(i as int).push(pieces@[i as int]@) =~= views.take(i + 1));
        }
        if i > 0 {
            append_str(&mut text, separator);
        }
        append_str(&mut text, pieces[i].as_str());
        i = i + 1;
    }
    assert(views.take(pieces@.len() as int) =~= views);
    text
}

} // verus!
