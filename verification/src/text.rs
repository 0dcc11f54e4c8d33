//! Small operations on texts: decimal numerals, trailing white space, lines.

use vstd::prelude::*;
use vstd::string::*;
use vstd::std_specs::iter::IteratorSpec;
use vstd::utf8::valid_utf8;
use vstd::utf8::decode_utf8;

verus! {

/// `String::push` of the standard library: the character is added at the
/// end of the text, and nothing else changes.
pub assume_specification[ String::push ](s: &mut String, c: char)
    ensures
        final(s)@ == old(s)@.push(c),
;

/// The ten decimal digits in order.
pub open spec fn digits() -> Seq<char> {
    "0123456789"@
}

/// The decimal numeral of `n`, without leading zeros.
pub open spec fn decimal(n: nat) -> Seq<char>
    decreases n,
{
    if n < 10 {
        seq![digits()[n as int]]
    } else {
        decimal(n / 10).push(digits()[(n % 10) as int])
    }
}

/// Appends the decimal numeral of `n` to `out`.
pub fn push_decimal(out: &mut String, n: u128)
    ensures
        final(out)@ == old(out)@ + decimal(n as nat),
    decreases n,
{
    proof {
        reveal_strlit("0123456789");
    }
    if n >= 10 {
        push_decimal(out, n / 10);
    }
    let digit = "0123456789".get_char((n % 10) as usize);
    out.push(digit);
    assert(out@ =~= old(out)@ + decimal(n as nat));
}

/// The decimal numeral of `n`.
pub fn decimal_text(n: u128) -> (text: String)
    ensures
        text@ == decimal(n as nat),
{
    let mut text = String::new();
    push_decimal(&mut text, n);
    assert(Seq::<char>::empty() + decimal(n as nat) =~= decimal(n as nat));
    text
}

/// The characters that count as white space: those with the Unicode
/// property White_Space.
pub open spec fn is_whitespace(c: char) -> bool {
    let u: u32 = c as u32;
    ||| 0x09 <= u <= 0x0D
    ||| u == 0x20
    ||| u == 0x85
    ||| u == 0xA0
    ||| u == 0x1680
    ||| 0x2000 <= u <= 0x200A
    ||| u == 0x2028
    ||| u == 0x2029
    ||| u == 0x202F
    ||| u == 0x205F
    ||| u == 0x3000
}

/// Tells whether `c` is white space.
pub fn is_whitespace_char(c: char) -> (r: bool)
    ensures
        r == is_whitespace(c),
{
    let u: u32 = c as u32;
    (0x09 <= u && u <= 0x0D) || u == 0x20 || u == 0x85 || u == 0xA0 || u == 0x1680 || (0x2000 <= u
        && u <= 0x200A) || u == 0x2028 || u == 0x2029 || u == 0x202F || u == 0x205F || u == 0x3000
}

/// `s` without the white space at its end.
pub open spec fn trim_end(s: Seq<char>) -> Seq<char>
    decreases s.len(),
{
    if s.len() > 0 && is_whitespace(s.last()) {
        trim_end(s.drop_last())
    } else {
        s
    }
}

/// What is left of a text without its trailing white space is a prefix of
/// it, and does not end in white space.
pub proof fn lemma_trim_end(s: Seq<char>)
    ensures
        trim_end(s).len() <= s.len(),
        trim_end(s) == s.take(trim_end(s).len() as int),
        trim_end(s).len() > 0 ==> !is_whitespace(trim_end(s).last()),
        forall|i: int| trim_end(s).len() <= i < s.len() ==> is_whitespace(#[trigger] s[i]),
    decreases s.len(),
{
    if s.len() > 0 && is_whitespace(s.last()) {
        let init = s.drop_last();
        lemma_trim_end(init);
        assert(trim_end(s) == trim_end(init));
        assert(init.take(trim_end(s).len() as int) =~= s.take(trim_end(s).len() as int));
        assert forall|i: int| trim_end(s).len() <= i < s.len() implies is_whitespace(
            #[trigger] s[i],
        ) by {
            if i < init.len() {
                assert(s[i] == init[i]);
            }
        }
    } else {
        assert(s.take(s.len() as int) =~= s);
    }
}

/// Cuts the white space off the end of `text`.
pub fn trim_end_of(text: &str) -> (kept: &str)
    ensures
        kept@ == trim_end(text@),
{
    let total = text.unicode_len();
    let mut seen: usize = 0;
    let mut keep: usize = 0;
    assert(text@.take(0) =~= Seq::<char>::empty());
    for c in it: text.chars()
        invariant
            it.seq() == text@,
            total == text@.len(),
            seen == it.index(),
            keep <= seen <= total,
            trim_end(text@.take(seen as int)) == text@.take(keep as int),
    {
        proof {
            assert(text@.take(seen + 1).drop_last() =~= text@.take(seen as int));
            assert(text@.take(seen + 1).last() == c);
        }
        seen += 1;
        if !is_whitespace_char(c) {
            keep = seen;
        }
    }
    assert(text@.take(text@.len() as int) =~= text@);
    let kept = text.substring_char(0, keep);
    assert(kept@ =~= text@.take(keep as int));
    kept
}

/// Whether `s` ends with a line feed.
pub open spec fn ends_with_newline(s: Seq<char>) -> bool {
    s.len() > 0 && s.last() == '\n'
}

/// Tells whether `text` ends with a line feed.
pub fn has_final_newline(text: &str) -> (r: bool)
    ensures
        r == ends_with_newline(text@),
{
    let mut last: Option<char> = None;
    for c in it: text.chars()
        invariant
            it.seq() == text@,
            last == if it.index() == 0 {
                None::<char>
            } else {
                Some(text@[it.index() - 1])
            },
    {
        last = Some(c);
    }
    match last {
        Some(c) => c == '\n',
        None => false,
    }
}

/// The lines put together with a line feed between each two.
pub open spec fn joined(lines: Seq<Seq<char>>) -> Seq<char>
    decreases lines.len(),
{
    if lines.len() == 0 {
        Seq::empty()
    } else if lines.len() == 1 {
        lines[0]
    } else {
        joined(lines.drop_last()) + "\n"@ + lines.last()
    }
}

/// Puts the lines together with a line feed between each two.
pub fn join_lines(lines: &Vec<String>) -> (text: String)
    ensures
        text@ == joined(lines.deep_view()),
{
    let mut text = String::new();
    let ghost all = lines.deep_view();
    assert(all.take(0) =~= Seq::<Seq<char>>::empty());
    let mut i: usize = 0;
    while i < lines.len()
        invariant
            i <= lines.len(),
            all == lines.deep_view(),
            text@ == joined(all.take(i as int)),
        decreases lines.len() - i,
    {
        let ghost next = all.take(i + 1);
        proof {
            assert(next.drop_last() =~= all.take(i as int));
            assert(next.last() == lines[i as int]@);
        }
        if i > 0 {
            text.append("\n");
        } else {
            assert(text@ + lines[i as int]@ =~= lines[i as int]@);
        }
        text.append(lines[i].as_str());
        assert(text@ =~= joined(next));
        i += 1;
    }
    assert(all.take(lines.len() as int) =~= all);
    text
}

/// `String::from_utf8` of the standard library: the text that the bytes
/// encode, where they are valid UTF-8, and nothing where they are not.
/// Nothing is repaired or replaced.
#[verifier::external_body]
pub(crate) fn text_of_bytes(bytes: Vec<u8>) -> (text: Option<String>)
    ensures
        match text {
            Some(t) => valid_utf8(bytes@) && t@ == decode_utf8(bytes@),
            None => !valid_utf8(bytes@),
        },
{
    String::from_utf8(bytes).ok()
}

} // verus!
