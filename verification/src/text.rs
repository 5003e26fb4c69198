//! Characters and text: what every string in this crate is built with.
//!
//! A text is modelled as its sequence of characters. The functions here are the
//! few operations on such sequences that the prompt, the names of tensors and
//! the serialised answers need.

use vstd::prelude::*;

verus! {

/// `String::push` of the standard library: the character goes to the end of the
/// text, and nothing else changes.
pub assume_specification[ std::string::String::push ](s: &mut std::string::String, c: char)
    ensures
        final(s)@ == old(s)@.push(c),
;

/// The characters of a text, in order.
pub fn chars_of(text: &str) -> (out: Vec<char>)
    ensures
        out@ == text@,
{
    let mut out: Vec<char> = Vec::new();
    for c in it: text.chars()
        invariant
            out@ == it.seq().take(it.index()),
            it.seq() == text@,
    {
        out.push(c);
    }
    out
}

/// The text made of the characters from `from` up to, but without, `to`.
pub fn slice_text(chars: &[char], from: usize, to: usize) -> (out: String)
    requires
        from <= to <= chars@.len(),
    ensures
        out@ == chars@.subrange(from as int, to as int),
{
    let mut out = String::new();
    let mut i: usize = from;
    while i < to
        invariant
            from <= i <= to <= chars@.len(),
            out@ == chars@.subrange(from as int, i as int),
        decreases to - i,
    {
        out.push(chars[i]);
        assert(chars@.subrange(from as int, i + 1) == chars@.subrange(from as int, i as int).push(
            chars@[i as int],
        ));
        i += 1;
    }
    out
}

/// Whether two texts hold the same characters.
pub fn same_text(a: &str, b: &str) -> (same: bool)
    ensures
        same == (a@ == b@),
{
    let a = chars_of(a);
    let b = chars_of(b);
    same_chars(&a, &b)
}

/// Whether two runs of characters are the same.
pub fn same_chars(a: &[char], b: &[char]) -> (same: bool)
    ensures
        same == (a@ == b@),
{
    if a.len() != b.len() {
        return false;
    }
    for i in 0..a.len()
        invariant
            a@.len() == b@.len(),
            a@.take(i as int) == b@.take(i as int),
    {
        if a[i] != b[i] {
            assert(a@[i as int] != b@[i as int]);
            return false;
        }
        assert(a@.take(i + 1) == a@.take(i as int).push(a@[i as int]));
        assert(b@.take(i + 1) == b@.take(i as int).push(b@[i as int]));
    }
    assert(a@.take(a@.len() as int) == a@);
    assert(b@.take(b@.len() as int) == b@);
    true
}

/// Whether `text` begins with `prefix`.
pub open spec fn begins_with(text: Seq<char>, prefix: Seq<char>) -> bool {
    prefix.len() <= text.len() && text.take(prefix.len() as int) == prefix
}

/// Whether `text` ends with `suffix`.
pub open spec fn ends_in(text: Seq<char>, suffix: Seq<char>) -> bool {
    suffix.len() <= text.len() && text.skip(text.len() - suffix.len()) == suffix
}

/// Whether `text` begins with `prefix`.
pub fn starts_with(text: &str, prefix: &str) -> (yes: bool)
    ensures
        yes == begins_with(text@, prefix@),
{
    let whole = chars_of(text);
    let head = chars_of(prefix);
    if head.len() > whole.len() {
        return false;
    }
    for i in 0..head.len()
        invariant
            whole@ == text@,
            head@ == prefix@,
            head@.len() <= whole@.len(),
            forall|j: int| 0 <= j < i ==> whole@.take(head@.len() as int)[j] == head@[j],
    {
        if whole[i] != head[i] {
            assert(whole@.take(head@.len() as int)[i as int] != head@[i as int]);
            return false;
        }
    }
    assert(whole@.take(head@.len() as int) == head@);
    true
}

/// Whether `text` ends with `suffix`.
pub fn ends_with(text: &str, suffix: &str) -> (yes: bool)
    ensures
        yes == ends_in(text@, suffix@),
{
    let whole = chars_of(text);
    let tail = chars_of(suffix);
    if tail.len() > whole.len() {
        return false;
    }
    let from: usize = whole.len() - tail.len();
    for i in 0..tail.len()
        invariant
            whole@ == text@,
            tail@ == suffix@,
            tail@.len() <= whole@.len(),
            from == whole@.len() - tail@.len(),
            whole.len() == whole@.len(),
            forall|j: int| 0 <= j < i ==> whole@.skip(from as int)[j] == tail@[j],
    {
        assert(from + i < whole.len());
        if whole[from + i] != tail[i] {
            assert(whole@.skip(from as int)[i as int] != tail@[i as int]);
            return false;
        }
    }
    assert(whole@.skip(from as int) == tail@);
    true
}

/// What is left of `text` without the `suffix` it ends with, if it does.
pub fn strip_suffix(text: &str, suffix: &str) -> (rest: Option<String>)
    ensures
        rest is Some <==> ends_in(text@, suffix@),
        rest matches Some(rest) ==> rest@ == text@.take(text@.len() - suffix@.len()),
{
    if !ends_with(text, suffix) {
        return None;
    }
    let chars = chars_of(text);
    let tail = chars_of(suffix);
    Some(slice_text(&chars, 0, chars.len() - tail.len()))
}

/// What is left of `text` without the `prefix` it begins with, if it does.
pub fn strip_prefix(text: &str, prefix: &str) -> (rest: Option<String>)
    ensures
        rest is Some <==> begins_with(text@, prefix@),
        rest matches Some(rest) ==> rest@ == text@.skip(prefix@.len() as int),
{
    if !starts_with(text, prefix) {
        return None;
    }
    let chars = chars_of(text);
    let head = chars_of(prefix);
    Some(slice_text(&chars, head.len(), chars.len()))
}

/// Whether the character `c` occurs in `text`.
pub fn holds_char(text: &str, c: char) -> (yes: bool)
    ensures
        yes == text@.contains(c),
{
    let chars = chars_of(text);
    for i in 0..chars.len()
        invariant
            chars@ == text@,
            forall|j: int| 0 <= j < i ==> chars@[j] != c,
    {
        if chars[i] == c {
            assert(text@[i as int] == c);
            return true;
        }
    }
    false
}

// ---------------------------------------------------------------------------
// White space
// ---------------------------------------------------------------------------

/// The characters with Unicode's `White_Space` property.
pub open spec fn white_space(c: char) -> bool {
    let code = c as u32;
    ||| 0x09 <= code <= 0x0d
    ||| code == 0x20
    ||| code == 0x85
    ||| code == 0xa0
    ||| code == 0x1680
    ||| 0x2000 <= code <= 0x200a
    ||| code == 0x2028
    ||| code == 0x2029
    ||| code == 0x202f
    ||| code == 0x205f
    ||| code == 0x3000
}

/// A text without the white space it begins with.
pub open spec fn trimmed_start(text: Seq<char>) -> Seq<char>
    decreases text.len(),
{
    if text.len() > 0 && white_space(text[0]) {
        trimmed_start(text.drop_first())
    } else {
        text
    }
}

/// Whether a character is white space.
pub fn is_white_space(c: char) -> (yes: bool)
    ensures
        yes == white_space(c),
{
    let code = c as u32;
    (0x09 <= code && code <= 0x0d) || code == 0x20 || code == 0x85 || code == 0xa0 || code == 0x1680
        || (0x2000 <= code && code <= 0x200a) || code == 0x2028 || code == 0x2029 || code == 0x202f
        || code == 0x205f || code == 0x3000
}

/// A text without the white space it begins with.
pub fn trim_start(text: &str) -> (out: String)
    ensures
        out@ == trimmed_start(text@),
{
    let chars = chars_of(text);
    let mut from: usize = 0;
    assert(chars@.skip(0) == chars@);
    while from < chars.len() && is_white_space(chars[from])
        invariant
            from <= chars@.len(),
            chars@ == text@,
            trimmed_start(text@) == trimmed_start(chars@.skip(from as int)),
        decreases chars@.len() - from,
    {
        assert(chars@.skip(from as int).drop_first() == chars@.skip(from + 1));
        from += 1;
    }
    slice_text(&chars, from, chars.len())
}

/// A text without the slashes at its end.
pub open spec fn trimmed_slashes(text: Seq<char>) -> Seq<char>
    decreases text.len(),
{
    if text.len() > 0 && text.last() == '/' {
        trimmed_slashes(text.drop_last())
    } else {
        text
    }
}

/// A text without the slashes at its end.
pub fn trim_end_slashes(text: &str) -> (out: String)
    ensures
        out@ == trimmed_slashes(text@),
{
    let chars = chars_of(text);
    let mut to: usize = chars.len();
    assert(chars@.take(to as int) == chars@);
    while to > 0 && chars[to - 1] == '/'
        invariant
            to <= chars@.len(),
            chars@ == text@,
            trimmed_slashes(text@) == trimmed_slashes(chars@.take(to as int)),
        decreases to,
    {
        assert(chars@.take(to as int).drop_last() == chars@.take(to - 1));
        to -= 1;
    }
    slice_text(&chars, 0, to)
}

// ---------------------------------------------------------------------------
// Numbers as text
// ---------------------------------------------------------------------------

/// The decimal digit `d`.
pub open spec fn digit(d: nat) -> char {
    (48 + d) as char
}

/// A natural number in decimal, without leading zeros.
pub open spec fn decimal(n: nat) -> Seq<char>
    decreases n,
{
    if n < 10 {
        seq![digit(n)]
    } else {
        decimal(n / 10).push(digit(n % 10))
    }
}

/// Different numbers are written differently.
pub proof fn law_decimal_is_injective(a: nat, b: nat)
    requires
        decimal(a) == decimal(b),
    ensures
        a == b,
    decreases a,
{
    assert(decimal(a).last() == digit(a % 10));
    assert(decimal(b).last() == digit(b % 10));
    if a < 10 && b < 10 {
    } else if a < 10 {
        lemma_decimal_not_empty(b / 10);
        assert(decimal(b).len() >= 2);
    } else if b < 10 {
        lemma_decimal_not_empty(a / 10);
        assert(decimal(a).len() >= 2);
    } else {
        assert(decimal(a).drop_last() == decimal(a / 10));
        assert(decimal(b).drop_last() == decimal(b / 10));
        law_decimal_is_injective(a / 10, b / 10);
    }
}

/// A number is never written as the empty text.
pub proof fn lemma_decimal_not_empty(n: nat)
    ensures
        decimal(n).len() >= 1,
    decreases n,
{
    if n >= 10 {
        lemma_decimal_not_empty(n / 10);
    }
}

/// A number in decimal.
pub fn decimal_text(n: usize) -> (out: String)
    ensures
        out@ == decimal(n as nat),
    decreases n,
{
    let d: u8 = (n % 10) as u8;
    let c: char = (48 + d) as char;
    if n < 10 {
        let mut out = String::new();
        out.push(c);
        assert(out@ == seq![digit(n as nat)]);
        out
    } else {
        let mut out = decimal_text(n / 10);
        out.push(c);
        out
    }
}

/// The lower-case hexadecimal digit `d`.
pub open spec fn hex_digit(d: nat) -> char {
    if d < 10 {
        (48 + d) as char
    } else {
        (87 + d) as char
    }
}

/// A 16-bit unit as four hexadecimal digits.
pub open spec fn hex4(n: nat) -> Seq<char> {
    seq![
        hex_digit(n / 4096 % 16),
        hex_digit(n / 256 % 16),
        hex_digit(n / 16 % 16),
        hex_digit(n % 16),
    ]
}

/// The lower-case hexadecimal digit `d`.
pub fn hex_digit_char(d: u32) -> (c: char)
    requires
        d < 16,
    ensures
        c == hex_digit(d as nat),
{
    if d < 10 {
        (48 + d as u8) as char
    } else {
        (87 + d as u8) as char
    }
}

/// Append a 16-bit unit as four hexadecimal digits.
pub fn push_hex4(out: &mut String, n: u32)
    ensures
        final(out)@ == old(out)@ + hex4(n as nat),
{
    out.push(hex_digit_char(n / 4096 % 16));
    out.push(hex_digit_char(n / 256 % 16));
    out.push(hex_digit_char(n / 16 % 16));
    out.push(hex_digit_char(n % 16));
    assert(out@ == old(out)@ + hex4(n as nat));
}

// ---------------------------------------------------------------------------
// Several texts at once
// ---------------------------------------------------------------------------

/// The texts of a list, as their characters.
pub open spec fn views(list: Seq<String>) -> Seq<Seq<char>> {
    Seq::new(list.len(), |i: int| list[i]@)
}

/// The parts with the separator between them.
pub open spec fn joined(parts: Seq<Seq<char>>, separator: Seq<char>) -> Seq<char>
    decreases parts.len(),
{
    if parts.len() == 0 {
        Seq::empty()
    } else if parts.len() == 1 {
        parts[0]
    } else {
        joined(parts.drop_last(), separator) + separator + parts.last()
    }
}

/// Add one more part behind those already joined.
pub fn push_joined(out: &mut String, first: bool, separator: &str, part: &str)
    ensures
        final(out)@ == if first {
            old(out)@ + part@
        } else {
            old(out)@ + separator@ + part@
        },
{
    if !first {
        out.append(separator);
    }
    out.append(part);
}

/// The texts with the separator between them.
pub fn join(parts: &[String], separator: &str) -> (out: String)
    ensures
        out@ == joined(views(parts@), separator@),
{
    let mut out = String::new();
    for i in 0..parts.len()
        invariant
            out@ == joined(views(parts@).take(i as int), separator@),
    {
        push_joined(&mut out, i == 0, separator, parts[i].as_str());
        proof {
            lemma_joined_push(views(parts@).take(i as int), parts@[i as int]@, separator@);
            assert(views(parts@).take(i + 1) == views(parts@).take(i as int).push(
                parts@[i as int]@,
            ));
        }
    }
    assert(views(parts@).take(parts@.len() as int) == views(parts@));
    out
}

/// Joining one part more.
pub proof fn lemma_joined_push(parts: Seq<Seq<char>>, part: Seq<char>, separator: Seq<char>)
    ensures
        joined(parts.push(part), separator) == if parts.len() == 0 {
            joined(parts, separator) + part
        } else {
            joined(parts, separator) + separator + part
        },
{
    assert(parts.push(part).drop_last() == parts);
    if parts.len() == 0 {
        assert(joined(parts, separator) + part == part);
    }
}

/// Whether `text` is one of the texts in the list.
pub open spec fn listed(list: Seq<String>, text: Seq<char>) -> bool {
    views(list).contains(text)
}

/// Whether `text` is one of the texts in the list.
pub fn is_listed(list: &[String], text: &str) -> (yes: bool)
    ensures
        yes == listed(list@, text@),
{
    for i in 0..list.len()
        invariant
            forall|j: int| 0 <= j < i ==> views(list@)[j] != text@,
    {
        if same_text(list[i].as_str(), text) {
            assert(views(list@)[i as int] == text@);
            return true;
        }
    }
    false
}

/// A copy of a list of texts.
pub fn copy_texts(list: &[String]) -> (out: Vec<String>)
    ensures
        out@ == list@,
{
    let mut out: Vec<String> = Vec::new();
    for i in 0..list.len()
        invariant
            out@ == list@.take(i as int),
    {
        out.push(list[i].clone());
        assert(list@.take(i + 1) == list@.take(i as int).push(list@[i as int]));
    }
    assert(list@.take(list@.len() as int) == list@);
    out
}

/// A text begins with a prefix where it is the prefix and something behind it.
pub proof fn law_what_begins_so_goes_on(text: Seq<char>, prefix: Seq<char>, rest: Seq<char>)
    ensures
        begins_with(prefix + rest, prefix),
        begins_with(text, prefix) ==> text == prefix + text.skip(prefix.len() as int),
{
    assert((prefix + rest).take(prefix.len() as int) =~= prefix);
    if begins_with(text, prefix) {
        assert(text =~= prefix + text.skip(prefix.len() as int));
    }
}

/// A text ends in a suffix where it is something and the suffix behind it.
pub proof fn law_what_ends_so_began_somehow(text: Seq<char>, suffix: Seq<char>, start: Seq<char>)
    ensures
        ends_in(start + suffix, suffix),
        ends_in(text, suffix) ==> text == text.take(text.len() - suffix.len()) + suffix,
{
    assert((start + suffix).skip(start.len() as int) =~= suffix);
    if ends_in(text, suffix) {
        assert(text =~= text.take(text.len() - suffix.len()) + suffix);
    }
}

/// Trimming takes the white space at the start and nothing else: what is left is the end of the
/// text, begins with no white space, and only white space stood before it.
pub proof fn law_trimming_takes_the_white_space_at_the_start(text: Seq<char>)
    ensures
        trimmed_start(text).len() <= text.len(),
        trimmed_start(text) == text.skip(text.len() - trimmed_start(text).len()),
        trimmed_start(text).len() > 0 ==> !white_space(trimmed_start(text)[0]),
        forall|i: int|
            0 <= i < text.len() - trimmed_start(text).len() ==> white_space(#[trigger] text[i]),
    decreases text.len(),
{
    let out = trimmed_start(text);
    if text.len() > 0 && white_space(text[0]) {
        let rest = text.drop_first();
        law_trimming_takes_the_white_space_at_the_start(rest);
        assert(out =~= text.skip(text.len() - out.len()));
        assert forall|i: int| 0 <= i < text.len() - out.len() implies white_space(
            #[trigger] text[i],
        ) by {
            if i > 0 {
                assert(rest[i - 1] == text[i]);
            }
        }
    } else {
        assert(text.skip(0) =~= text);
    }
}

/// A space, a tab and a line break are white space; no letter, digit, bracket or punctuation mark
/// of ASCII is.
pub proof fn law_spaces_and_breaks_are_white_space(c: char)
    ensures
        c == ' ' || c == '\t' || c == '\n' || c == '\r' ==> white_space(c),
        0x21 <= c as u32 <= 0x7e ==> !white_space(c),
{
}

/// Trimming slashes takes those at the end and nothing else: what is left is the start of the
/// text, ends in no slash, and only slashes stood behind it.
pub proof fn law_trimming_takes_the_slashes_at_the_end(text: Seq<char>)
    ensures
        trimmed_slashes(text).len() <= text.len(),
        trimmed_slashes(text) == text.take(trimmed_slashes(text).len() as int),
        trimmed_slashes(text).len() > 0 ==> trimmed_slashes(text).last() != '/',
        forall|i: int| trimmed_slashes(text).len() <= i < text.len() ==> #[trigger] text[i] == '/',
    decreases text.len(),
{
    let out = trimmed_slashes(text);
    if text.len() > 0 && text.last() == '/' {
        let rest = text.drop_last();
        law_trimming_takes_the_slashes_at_the_end(rest);
        assert(out =~= text.take(out.len() as int));
        assert forall|i: int| out.len() <= i < text.len() implies #[trigger] text[i] == '/' by {
            if i < rest.len() {
                assert(rest[i] == text[i]);
            }
        }
    } else {
        assert(text.take(text.len() as int) =~= text);
    }
}

/// The number that digits stand for, read from the left.
pub open spec fn number_read(t: Seq<char>) -> int
    decreases t.len(),
{
    if t.len() == 0 {
        0
    } else {
        10 * number_read(t.drop_last()) + (t.last() as u32 - 48)
    }
}

/// A number in decimal reads back as the number, is made of digits alone, and has no zero before
/// it.
pub proof fn law_a_decimal_reads_back(n: nat)
    ensures
        number_read(decimal(n)) == n,
        decimal(n).len() > 0,
        forall|i: int|
            0 <= i < decimal(n).len() ==> '0' <= #[trigger] decimal(n)[i] && decimal(n)[i] <= '9',
        n > 0 ==> decimal(n)[0] != '0',
    decreases n,
{
    let t = decimal(n);
    reveal_with_fuel(number_read, 2);
    if n < 10 {
        assert(t.drop_last() =~= Seq::<char>::empty());
    } else {
        law_a_decimal_reads_back(n / 10);
        assert(t.drop_last() =~= decimal(n / 10));
        assert forall|i: int| 0 <= i < t.len() implies '0' <= #[trigger] t[i] && t[i] <= '9' by {
            if i < t.len() - 1 {
                assert(decimal(n / 10)[i] == t[i]);
            }
        }
        assert(t[0] == decimal(n / 10)[0]);
    }
}

/// Joining keeps every part whole and in order: the parts before a cut and those behind it are
/// joined on their own, with the separator between.
pub proof fn law_joining_keeps_the_parts_in_order(
    before: Seq<Seq<char>>,
    after: Seq<Seq<char>>,
    separator: Seq<char>,
)
    requires
        before.len() > 0,
        after.len() > 0,
    ensures
        joined(before + after, separator) == joined(before, separator) + separator + joined(
            after,
            separator,
        ),
        joined(seq![before[0]], separator) == before[0],
        joined(Seq::empty(), separator).len() == 0,
    decreases after.len(),
{
    let all = before + after;
    let rest = after.drop_last();
    assert(all.drop_last() =~= before + rest);
    if rest.len() == 0 {
        assert(before + rest =~= before);
        assert(joined(all, separator) =~= joined(before, separator) + separator + joined(
            after,
            separator,
        ));
    } else {
        law_joining_keeps_the_parts_in_order(before, rest, separator);
        assert(joined(all, separator) =~= joined(before, separator) + separator + joined(
            after,
            separator,
        ));
    }
}

/// A list's texts are those of its items, one for each, in order; a text is listed where an item
/// has it.
pub proof fn law_a_list_has_the_texts_of_its_items(list: Seq<String>, text: Seq<char>)
    ensures
        views(list).len() == list.len(),
        forall|i: int| 0 <= i < list.len() ==> #[trigger] views(list)[i] == list[i]@,
        listed(list, text) <==> exists|i: int| 0 <= i < list.len() && (#[trigger] list[i])@ == text,
{
    if listed(list, text) {
        let i = choose|i: int| 0 <= i < views(list).len() && views(list)[i] == text;
        assert(list[i]@ == text);
    }
    if exists|i: int| 0 <= i < list.len() && (#[trigger] list[i])@ == text {
        let i = choose|i: int| 0 <= i < list.len() && (#[trigger] list[i])@ == text;
        assert(views(list)[i] == text);
    }
}

/// White space is what Unicode calls so: the five control characters from the tab on, the space,
/// the next line, and the spaces and separators further on.
pub proof fn law_white_space_is_what_unicode_calls_so(c: char)
    ensures
        white_space(c) <==> (9 <= c as u32 <= 13) || c as u32 == 32 || c as u32 == 133 || c as u32
            == 160 || c as u32 == 5760 || (8192 <= c as u32 <= 8202) || c as u32 == 8232 || c as u32
            == 8233 || c as u32 == 8239 || c as u32 == 8287 || c as u32 == 12288,
{
}

} // verus!
