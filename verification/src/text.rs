//! Reading text: white space, words, and decimal numbers.

use vstd::prelude::*;
use vstd::utf8::{decode_utf8, valid_utf8};

verus! {

/// Whether a character is white space, by the Unicode property of that name.
pub open spec fn white_space(c: char) -> bool {
    ||| '\u{9}' <= c <= '\u{d}'
    ||| c == '\u{20}'
    ||| c == '\u{85}'
    ||| c == '\u{a0}'
    ||| c == '\u{1680}'
    ||| '\u{2000}' <= c <= '\u{200a}'
    ||| c == '\u{2028}'
    ||| c == '\u{2029}'
    ||| c == '\u{202f}'
    ||| c == '\u{205f}'
    ||| c == '\u{3000}'
}

/// Whether a character is white space.
pub fn is_white_space(c: char) -> (r: bool)
    ensures
        r == white_space(c),
{
    ('\u{9}' <= c && c <= '\u{d}') || c == '\u{20}' || c == '\u{85}' || c == '\u{a0}' || c
        == '\u{1680}' || ('\u{2000}' <= c && c <= '\u{200a}') || c == '\u{2028}' || c == '\u{2029}'
        || c == '\u{202f}' || c == '\u{205f}' || c == '\u{3000}'
}

/// Text without white space at its start.
pub open spec fn trim_start(s: Seq<char>) -> Seq<char>
    decreases s.len(),
{
    if s.len() > 0 && white_space(s[0]) {
        trim_start(s.drop_first())
    } else {
        s
    }
}

/// Text without white space at its end.
pub open spec fn trim_end(s: Seq<char>) -> Seq<char>
    decreases s.len(),
{
    if s.len() > 0 && white_space(s.last()) {
        trim_end(s.drop_last())
    } else {
        s
    }
}

/// Text without white space at either end.
pub open spec fn trim(s: Seq<char>) -> Seq<char> {
    trim_end(trim_start(s))
}

/// The start of a text up to the first white space.
pub open spec fn word(s: Seq<char>) -> Seq<char>
    decreases s.len(),
{
    if s.len() == 0 || white_space(s[0]) {
        Seq::empty()
    } else {
        seq![s[0]] + word(s.drop_first())
    }
}

/// The first word of a text, if it has any.
pub open spec fn first_word(s: Seq<char>) -> Option<Seq<char>> {
    let w = word(trim_start(s));
    if w.len() == 0 {
        None
    } else {
        Some(w)
    }
}

/// The characters of a text.
pub fn chars_of(s: &str) -> (r: Vec<char>)
    ensures
        r@ == s@,
{
    let mut r: Vec<char> = Vec::new();
    for c in it: s.chars()
        invariant
            r@ == s@.take(it.index() as int),
            it.seq() == s@,
    {
        r.push(c);
        assert(s@.take(it.index() + 1) =~= s@.take(it.index() as int).push(c));
    }
    assert(s@.take(s@.len() as int) =~= s@);
    r
}

/// Where the text between `from` and `to` starts once white space is skipped.
pub fn skip_white_space(chars: &Vec<char>, from: usize, to: usize) -> (r: usize)
    requires
        from <= to <= chars@.len(),
    ensures
        from <= r <= to,
        chars@.subrange(r as int, to as int) == trim_start(chars@.subrange(from as int, to as int)),
{
    let mut i: usize = from;
    while i < to && is_white_space(chars[i])
        invariant
            from <= i <= to <= chars@.len(),
            trim_start(chars@.subrange(i as int, to as int)) == trim_start(
                chars@.subrange(from as int, to as int),
            ),
        decreases to - i,
    {
        assert(chars@.subrange(i as int, to as int).drop_first() =~= chars@.subrange(
            i + 1,
            to as int,
        ));
        i = i + 1;
    }
    i
}

/// Where the text between `from` and `to` lies once white space is taken off
/// both ends.
pub fn trim_range(chars: &Vec<char>, from: usize, to: usize) -> (r: (usize, usize))
    requires
        from <= to <= chars@.len(),
    ensures
        from <= r.0 <= r.1 <= to,
        chars@.subrange(r.0 as int, r.1 as int) == trim(chars@.subrange(from as int, to as int)),
{
    let start = skip_white_space(chars, from, to);
    let mut end: usize = to;
    while end > start && is_white_space(chars[end - 1])
        invariant
            from <= start <= end <= to <= chars@.len(),
            trim_end(chars@.subrange(start as int, end as int)) == trim_end(
                chars@.subrange(start as int, to as int),
            ),
        decreases end - start,
    {
        assert(chars@.subrange(start as int, end as int).drop_last() =~= chars@.subrange(
            start as int,
            end - 1,
        ));
        end = end - 1;
    }
    (start, end)
}

/// Where the word that starts at `from` ends.
pub fn word_end(chars: &Vec<char>, from: usize, to: usize) -> (r: usize)
    requires
        from <= to <= chars@.len(),
    ensures
        from <= r <= to,
        chars@.subrange(from as int, r as int) == word(chars@.subrange(from as int, to as int)),
{
    let mut i: usize = from;
    assert(chars@.subrange(from as int, i as int) + word(chars@.subrange(i as int, to as int))
        =~= word(chars@.subrange(from as int, to as int)));
    while i < to && !is_white_space(chars[i])
        invariant
            from <= i <= to <= chars@.len(),
            chars@.subrange(from as int, i as int) + word(chars@.subrange(i as int, to as int))
                == word(chars@.subrange(from as int, to as int)),
        decreases to - i,
    {
        let ghost rest = chars@.subrange(i as int, to as int);
        assert(rest.drop_first() =~= chars@.subrange(i + 1, to as int));
        assert(chars@.subrange(from as int, i + 1) + word(chars@.subrange(i + 1, to as int))
            =~= chars@.subrange(from as int, i as int) + word(rest));
        i = i + 1;
    }
    assert(word(chars@.subrange(i as int, to as int)) =~= Seq::<char>::empty());
    assert(chars@.subrange(from as int, i as int) =~= word(
        chars@.subrange(from as int, to as int),
    ));
    i
}

/// Whether a character is a decimal digit.
pub open spec fn digit(c: char) -> bool {
    '0' <= c <= '9'
}

/// The number that decimal digits stand for.
pub open spec fn decimal(s: Seq<char>) -> nat
    decreases s.len(),
{
    if s.len() == 0 {
        0
    } else {
        (decimal(s.drop_last()) * 10 + (s.last() as int - '0' as int)) as nat
    }
}

/// The digits of a number that may start with a plus sign.
pub open spec fn unsigned_digits(s: Seq<char>) -> Seq<char> {
    if s.len() > 0 && s[0] == '+' {
        s.drop_first()
    } else {
        s
    }
}

/// The 32-bit number that a text stands for: at least one digit, nothing but
/// digits after an optional plus sign, and a value that fits.
pub open spec fn parsed_u32(s: Seq<char>) -> Option<u32> {
    let d = unsigned_digits(s);
    if d.len() > 0 && (forall|i: int| 0 <= i < d.len() ==> digit(#[trigger] d[i])) && decimal(d)
        <= u32::MAX {
        Some(decimal(d) as u32)
    } else {
        None
    }
}

proof fn lemma_decimal_grows(s: Seq<char>, k: int)
    requires
        0 <= k <= s.len(),
        forall|i: int| 0 <= i < s.len() ==> digit(#[trigger] s[i]),
    ensures
        decimal(s.take(k)) <= decimal(s),
    decreases s.len() - k,
{
    if k < s.len() {
        lemma_decimal_grows(s, k + 1);
        assert(s.take(k + 1).drop_last() =~= s.take(k));
        assert(digit(s[k]));
    } else {
        assert(s.take(k) =~= s);
    }
}

/// Reads a decimal number of 32 bits from the characters between `from` and `to`.
pub fn parse_u32_range(chars: &Vec<char>, from: usize, to: usize) -> (r: Option<u32>)
    requires
        from <= to <= chars@.len(),
    ensures
        r == parsed_u32(chars@.subrange(from as int, to as int)),
{
    let ghost all = chars@.subrange(from as int, to as int);
    let ghost d = unsigned_digits(all);
    let mut start: usize = from;
    if from < to && chars[from] == '+' {
        start = from + 1;
    }
    assert(d =~= chars@.subrange(start as int, to as int));
    if start == to {
        return None;
    }
    let mut value: u32 = 0;
    let mut i: usize = start;
    while i < to
        invariant
            from <= start <= i <= to <= chars@.len(),
            start < to,
            d == chars@.subrange(start as int, to as int),
            d == unsigned_digits(all),
            all == chars@.subrange(from as int, to as int),
            forall|k: int| 0 <= k < i - start ==> digit(#[trigger] d[k]),
            value == decimal(d.take(i - start)),
        decreases to - i,
    {
        let c = chars[i];
        assert(c == d[i - start]);
        if !('0' <= c && c <= '9') {
            assert(!digit(d[i - start]));
            return None;
        }
        assert(d.take(i + 1 - start).drop_last() =~= d.take(i - start));
        let wide: u64 = value as u64 * 10 + (c as u64 - '0' as u64);
        assert(wide == decimal(d.take(i + 1 - start)));
        if wide > 0xffff_ffff {
            proof {
                if forall|k: int| 0 <= k < d.len() ==> digit(#[trigger] d[k]) {
                    lemma_decimal_grows(d, i + 1 - start);
                }
            }
            return None;
        }
        value = wide as u32;
        i = i + 1;
    }
    assert(d.take(i - start) =~= d);
    Some(value)
}

/// Reads a decimal number of 32 bits.
pub fn parse_u32(s: &str) -> (r: Option<u32>)
    ensures
        r == parsed_u32(s@),
{
    let chars = chars_of(s);
    assert(chars@.subrange(0, chars@.len() as int) =~= s@);
    parse_u32_range(&chars, 0, chars.len())
}

/// Whether a string is the given one.
pub fn same_text(a: &String, b: &str) -> (r: bool)
    ensures
        r == (a@ == b@),
{
    *a == b.to_owned()
}

/// What `String::from_utf8_lossy` makes of a byte string.
pub uninterp spec fn utf8_lossy(bytes: Seq<u8>) -> Seq<char>;

/// `String::from_utf8_lossy`: the text that bytes hold in UTF-8. The result
/// depends on the bytes alone, and is their plain decoding where they are valid.
/// What stands for the parts that are not valid is left unsaid.
#[verifier::external_body]
pub(crate) fn decode_lossy(bytes: &[u8]) -> (r: String)
    ensures
        r@ == utf8_lossy(bytes@),
        valid_utf8(bytes@) ==> r@ == decode_utf8(bytes@),
{
    String::from_utf8_lossy(bytes).into_owned()
}

/// `std::str::from_utf8`: whether bytes are valid UTF-8.
#[verifier::external_body]
pub(crate) fn is_utf8(bytes: &[u8]) -> (r: bool)
    ensures
        r == valid_utf8(bytes@),
{
    std::str::from_utf8(bytes).is_ok()
}

/// Whether all of a text is white space.
pub open spec fn blank(s: Seq<char>) -> bool {
    forall|i: int| 0 <= i < s.len() ==> white_space(#[trigger] s[i])
}

/// Whether none of a text is white space.
pub open spec fn solid(s: Seq<char>) -> bool {
    forall|i: int| 0 <= i < s.len() ==> !white_space(#[trigger] s[i])
}

proof fn lemma_trim_start(before: Seq<char>, s: Seq<char>)
    requires
        blank(before),
        s.len() > 0 ==> !white_space(s[0]),
    ensures
        trim_start(before + s) == s,
    decreases before.len(),
{
    if before.len() == 0 {
        assert(before + s =~= s);
    } else {
        assert((before + s)[0] == before[0]);
        assert((before + s).drop_first() =~= before.drop_first() + s);
        assert forall|i: int| 0 <= i < before.drop_first().len() implies white_space(
            #[trigger] before.drop_first()[i],
        ) by {
            assert(before.drop_first()[i] == before[i + 1]);
        }
        lemma_trim_start(before.drop_first(), s);
    }
}

proof fn lemma_trim_end(s: Seq<char>, after: Seq<char>)
    requires
        blank(after),
        s.len() > 0 ==> !white_space(s.last()),
    ensures
        trim_end(s + after) == s,
    decreases after.len(),
{
    if after.len() == 0 {
        assert(s + after =~= s);
    } else {
        assert((s + after).last() == after[after.len() - 1]);
        assert((s + after).drop_last() =~= s + after.drop_last());
        assert forall|i: int| 0 <= i < after.drop_last().len() implies white_space(
            #[trigger] after.drop_last()[i],
        ) by {
            assert(after.drop_last()[i] == after[i]);
        }
        lemma_trim_end(s, after.drop_last());
    }
}

/// Trimming takes white space off both ends and nothing else: what is left starts
/// and ends with something that is no white space, or is empty.
pub proof fn trimming_takes_off_white_space(before: Seq<char>, body: Seq<char>, after: Seq<char>)
    requires
        blank(before),
        blank(after),
        body.len() > 0 ==> !white_space(body[0]) && !white_space(body.last()),
    ensures
        trim(before + body + after) == body,
{
    if body.len() > 0 {
        assert(before + body + after =~= before + (body + after));
        lemma_trim_start(before, body + after);
        lemma_trim_end(body, after);
    } else {
        let all = before + body + after;
        assert(blank(all));
        let none = Seq::<char>::empty();
        assert(all + none =~= all);
        lemma_trim_start(all, none);
        assert(body =~= none);
    }
}

/// Every text is trimmed to what lies between two positions, with white space before
/// the one and from the other on.
pub(crate) proof fn lemma_trim_bounds(s: Seq<char>) -> (r: (int, int))
    ensures
        0 <= r.0 <= r.1 <= s.len(),
        trim(s) == s.subrange(r.0, r.1),
        forall|i: int| 0 <= i < r.0 ==> white_space(#[trigger] s[i]),
        forall|i: int| r.1 <= i < s.len() ==> white_space(#[trigger] s[i]),
        r.0 < r.1 ==> !white_space(s[r.0]) && !white_space(s[r.1 - 1]),
    decreases s.len(),
{
    if s.len() == 0 {
        assert(trim(s) =~= s.subrange(0, 0));
        (0, 0)
    } else if white_space(s[0]) {
        let (a, b) = lemma_trim_bounds(s.drop_first());
        let t = s.drop_first();
        assert(trim(s) == trim(t));
        assert(s.subrange(a + 1, b + 1) =~= t.subrange(a, b));
        assert forall|i: int| 0 <= i < a + 1 implies white_space(#[trigger] s[i]) by {
            if i > 0 {
                assert(t[i - 1] == s[i]);
            }
        }
        assert forall|i: int| b + 1 <= i < s.len() implies white_space(#[trigger] s[i]) by {
            assert(t[i - 1] == s[i]);
        }
        (a + 1, b + 1)
    } else if white_space(s.last()) {
        let t = s.drop_last();
        let (a, b) = lemma_trim_bounds(t);
        assert(trim_start(s) == s);
        assert(trim_start(t) == t);
        assert(trim(s) == trim(t));
        assert(s.subrange(a, b) =~= t.subrange(a, b));
        assert forall|i: int| 0 <= i < a implies white_space(#[trigger] s[i]) by {
            assert(t[i] == s[i]);
        }
        assert forall|i: int| b <= i < s.len() implies white_space(#[trigger] s[i]) by {
            if i < s.len() - 1 {
                assert(t[i] == s[i]);
            }
        }
        (a, b)
    } else {
        assert(s.subrange(0, s.len() as int) =~= s);
        (0, s.len() as int)
    }
}

proof fn lemma_word(w: Seq<char>, rest: Seq<char>)
    requires
        solid(w),
        rest.len() > 0 ==> white_space(rest[0]),
    ensures
        word(w + rest) == w,
    decreases w.len(),
{
    if w.len() == 0 {
        assert(w + rest =~= rest);
        assert(word(rest) =~= w);
    } else {
        let t = w.drop_first();
        assert((w + rest)[0] == w[0]);
        assert((w + rest).drop_first() =~= t + rest);
        assert forall|i: int| 0 <= i < t.len() implies !white_space(#[trigger] t[i]) by {
            assert(t[i] == w[i + 1]);
        }
        lemma_word(t, rest);
        assert(seq![w[0]] + t =~= w);
    }
}

/// The first word of a text is all that stands between the white space before it
/// and the next white space, or the end.
pub proof fn first_words_are_whole(before: Seq<char>, w: Seq<char>, rest: Seq<char>)
    requires
        blank(before),
        w.len() > 0,
        solid(w),
        rest.len() > 0 ==> white_space(rest[0]),
    ensures
        first_word(before + w + rest) == Some(w),
{
    assert(before + w + rest =~= before + (w + rest));
    assert((w + rest)[0] == w[0]);
    lemma_trim_start(before, w + rest);
    lemma_word(w, rest);
}

/// Whether `w` stands in a text at `a`, after nothing but white space, and before
/// white space or the end.
pub open spec fn leads_at(s: Seq<char>, w: Seq<char>, a: int) -> bool {
    &&& 0 <= a && a + w.len() <= s.len()
    &&& s.subrange(a, a + w.len()) == w
    &&& blank(s.take(a))
    &&& a + w.len() == s.len() || white_space(s[a + w.len()])
}

/// A text has no first word only if it is all white space. Else the word stands in
/// it with nothing but white space before it, holds none, and goes on as far as it
/// can.
pub proof fn first_words_stand_in_the_text(s: Seq<char>)
    ensures
        match first_word(s) {
            Some(w) => w.len() > 0 && solid(w) && exists|a: int| #[trigger] leads_at(s, w, a),
            None => blank(s),
        },
{
    let a = lemma_start_of(s, 0);
    if a == s.len() {
        assert(blank(s));
        let none = Seq::<char>::empty();
        assert(s + none =~= s);
        lemma_trim_start(s, none);
    } else {
        let b = lemma_end_of(s, a);
        let (before, w, rest) = (s.take(a), s.subrange(a, b), s.skip(b));
        assert(before + w + rest =~= s);
        assert(w[0] == s[a]);
        first_words_are_whole(before, w, rest);
        assert(s.subrange(a, a + w.len()) == w);
        assert(leads_at(s, w, a));
    }
}

proof fn lemma_start_of(s: Seq<char>, from: int) -> (a: int)
    requires
        0 <= from <= s.len(),
    ensures
        from <= a <= s.len(),
        forall|i: int| from <= i < a ==> white_space(#[trigger] s[i]),
        a < s.len() ==> !white_space(s[a]),
    decreases s.len() - from,
{
    if from == s.len() || !white_space(s[from]) {
        from
    } else {
        lemma_start_of(s, from + 1)
    }
}

proof fn lemma_end_of(s: Seq<char>, from: int) -> (b: int)
    requires
        0 <= from <= s.len(),
    ensures
        from <= b <= s.len(),
        forall|i: int| from <= i < b ==> !white_space(#[trigger] s[i]),
        b < s.len() ==> white_space(s[b]),
        from < s.len() && !white_space(s[from]) ==> from < b,
    decreases s.len() - from,
{
    if from == s.len() || white_space(s[from]) {
        from
    } else {
        lemma_end_of(s, from + 1)
    }
}

/// A number is read digit by digit: a digit alone is its value, a digit after a
/// number counts the number ten times as long as it fits, and a plus sign in front
/// changes nothing.
pub proof fn numbers_are_read_digit_by_digit(s: Seq<char>, c: char)
    requires
        '0' <= c <= '9',
    ensures
        parsed_u32(seq![c]) == Some((c as int - '0' as int) as u32),
        parsed_u32(s) matches Some(n) ==> parsed_u32(s.push(c)) == (if n * 10 + (c as int
            - '0' as int) <= u32::MAX {
            Some((n * 10 + (c as int - '0' as int)) as u32)
        } else {
            None
        }),
        s.len() > 0 && '0' <= s[0] <= '9' ==> parsed_u32(seq!['+'] + s) == parsed_u32(s),
{
    let one = seq![c];
    assert(one.drop_last() =~= Seq::<char>::empty());
    assert(decimal(one.drop_last()) == 0);
    assert(unsigned_digits(one) == one);
    assert(digit(one[0]));
    if let Some(n) = parsed_u32(s) {
        let (d, e) = (unsigned_digits(s), unsigned_digits(s.push(c)));
        assert(e =~= d.push(c));
        assert(e.drop_last() =~= d);
        assert forall|i: int| 0 <= i < e.len() implies digit(#[trigger] e[i]) by {
            if i < d.len() {
                assert(e[i] == d[i]);
            }
        }
    }
    if s.len() > 0 && '0' <= s[0] <= '9' {
        assert((seq!['+'] + s).drop_first() =~= s);
    }
}

/// Text that holds anything but digits after an optional plus sign is no number, and
/// neither is text without a digit.
pub proof fn only_digits_are_numbers(s: Seq<char>, i: int)
    requires
        s.len() == 0 || s == seq!['+'] || (0 <= i < s.len() && !('0' <= s[i] <= '9') && (i > 0
            || s[0] != '+')),
    ensures
        parsed_u32(s) is None,
{
    let d = unsigned_digits(s);
    if s.len() > 0 && s != seq!['+'] {
        if s[0] == '+' {
            assert(d[i - 1] == s[i]);
            assert(!digit(d[i - 1]));
        } else {
            assert(!digit(d[i]));
        }
    }
}

} // verus!
