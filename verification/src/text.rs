//! Text: building strings, decimal numbers, order, substrings, lower case.

use vstd::prelude::*;
#[allow(unused_imports)]
use vstd::string::*;
use vstd::utf8::encode_utf8;

verus! {

/// `String::push` appends the character to the end of the string.
pub assume_specification[ String::push ](text: &mut String, character: char)
    ensures
        final(text)@ == old(text)@.push(character),
;

/// What `str::to_lowercase` makes of a text: the Unicode lower case of it.
pub uninterp spec fn lowercase(text: Seq<char>) -> Seq<char>;

/// Calls `str::to_lowercase`. It claims that the result depends on the text alone; what
/// the lower case of a given text is stays unsaid.
#[verifier::external_body]
pub(crate) fn to_lowercase(text: &str) -> (lower: String)
    ensures
        lower@ == lowercase(text@),
{
    text.to_lowercase()
}

/// The characters of a text.
pub(crate) fn to_chars(text: &str) -> (chars: Vec<char>)
    ensures
        chars@ == text@,
{
    let mut chars: Vec<char> = Vec::new();
    for c in it: text.chars()
        invariant
            chars@ == it.seq().take(it.index() as int),
            it.seq() == text@,
    {
        chars.push(c);
    }
    chars
}

/// The character of a decimal digit.
pub open spec fn digit(value: int) -> char {
    (48 + value) as char
}

/// A natural number in decimal digits, without leading zeros.
pub open spec fn natural(value: nat) -> Seq<char>
    decreases value,
{
    if value < 10 {
        seq![digit(value as int)]
    } else {
        natural(value / 10).push(digit((value % 10) as int))
    }
}

/// An integer in decimal digits, with a minus sign before a negative one.
pub open spec fn integer(value: int) -> Seq<char> {
    if value < 0 {
        seq!['-'] + natural((-value) as nat)
    } else {
        natural(value as nat)
    }
}

/// Append a natural number in decimal digits.
pub fn push_natural(text: &mut String, value: u64)
    ensures
        final(text)@ == old(text)@ + natural(value as nat),
    decreases value,
{
    let ghost before = text@;
    if value >= 10 {
        push_natural(text, value / 10);
    }
    let c: char = (48u8 + (value % 10) as u8) as char;
    text.push(c);
    assert(text@ =~= before + natural(value as nat));
}

/// Append an integer in decimal digits.
pub fn push_integer(text: &mut String, value: i64)
    ensures
        final(text)@ == old(text)@ + integer(value as int),
{
    let ghost before = text@;
    if value < 0 {
        text.push('-');
        let magnitude: u64 = (-(value + 1)) as u64 + 1;
        push_natural(text, magnitude);
    } else {
        push_natural(text, value as u64);
    }
    assert(text@ =~= before + integer(value as int));
}

/// `needle` occurs in `haystack` as a run of neighbouring characters.
pub open spec fn occurs_in(needle: Seq<char>, haystack: Seq<char>) -> bool {
    exists|start: int|
        0 <= start <= haystack.len() - needle.len() && #[trigger] haystack.subrange(
            start,
            start + needle.len(),
        ) == needle
}

/// Whether `needle` occurs in `haystack` starting at `start`.
fn occurs_at(needle: &Vec<char>, haystack: &Vec<char>, start: usize) -> (found: bool)
    requires
        start + needle@.len() <= haystack@.len(),
    ensures
        found == (haystack@.subrange(start as int, start + needle@.len()) == needle@),
{
    let len: usize = haystack.len();
    let mut i: usize = 0;
    while i < needle.len()
        invariant
            i <= needle@.len(),
            len == haystack@.len(),
            start + needle@.len() <= len,
            forall|k: int| 0 <= k < i ==> haystack@[start + k] == needle@[k],
        decreases needle@.len() - i,
    {
        if haystack[start + i] != needle[i] {
            assert(haystack@.subrange(start as int, start + needle@.len())[i as int]
                != needle@[i as int]);
            return false;
        }
        i += 1;
    }
    assert(haystack@.subrange(start as int, start + needle@.len()) =~= needle@);
    true
}

/// Whether `needle` occurs in `haystack`. The empty text occurs in every text.
pub fn contains_text(haystack: &str, needle: &str) -> (found: bool)
    ensures
        found == occurs_in(needle@, haystack@),
{
    let hay: Vec<char> = to_chars(haystack);
    let sought: Vec<char> = to_chars(needle);
    if sought.len() > hay.len() {
        return false;
    }
    let last: usize = hay.len() - sought.len();
    let mut start: usize = 0;
    loop
        invariant
            hay@ == haystack@,
            sought@ == needle@,
            start <= last,
            last == hay@.len() - sought@.len(),
            forall|k: int|
                0 <= k < start ==> #[trigger] hay@.subrange(k, k + sought@.len()) != sought@,
        decreases last - start,
    {
        if occurs_at(&sought, &hay, start) {
            return true;
        }
        if start == last {
            return false;
        }
        start += 1;
    }
}

/// The order of byte strings: the first byte that differs decides, and a byte string
/// comes after each proper prefix of it.
pub open spec fn bytes_before(left: Seq<u8>, right: Seq<u8>) -> bool
    decreases left.len(),
{
    if right.len() == 0 {
        false
    } else if left.len() == 0 {
        true
    } else if left[0] != right[0] {
        left[0] < right[0]
    } else {
        bytes_before(left.skip(1), right.skip(1))
    }
}

/// The order of texts: that of their UTF-8 bytes.
pub open spec fn text_before(left: Seq<char>, right: Seq<char>) -> bool {
    bytes_before(encode_utf8(left), encode_utf8(right))
}

/// Whether `left` comes before `right` in the order of texts.
pub fn comes_before(left: &str, right: &str) -> (before: bool)
    ensures
        before == text_before(left@, right@),
{
    let l: &[u8] = left.as_bytes();
    let r: &[u8] = right.as_bytes();
    let mut i: usize = 0;
    proof {
        assert(l@.skip(0) =~= l@);
        assert(r@.skip(0) =~= r@);
    }
    while i < l.len() && i < r.len()
        invariant
            i <= l@.len(),
            i <= r@.len(),
            l@ == encode_utf8(left@),
            r@ == encode_utf8(right@),
            bytes_before(l@, r@) == bytes_before(l@.skip(i as int), r@.skip(i as int)),
        decreases l@.len() - i,
    {
        if l[i] != r[i] {
            return l[i] < r[i];
        }
        proof {
            assert(l@.skip(i as int).skip(1) =~= l@.skip(i + 1));
            assert(r@.skip(i as int).skip(1) =~= r@.skip(i + 1));
        }
        i += 1;
    }
    i < r.len()
}

/// Of two different byte strings one comes before the other, and never both.
proof fn lemma_bytes_trichotomy(left: Seq<u8>, right: Seq<u8>)
    ensures
        left != right ==> bytes_before(left, right) || bytes_before(right, left),
        !(bytes_before(left, right) && bytes_before(right, left)),
        !bytes_before(left, left),
    decreases left.len(),
{
    if left.len() > 0 {
        if right.len() > 0 {
            lemma_bytes_trichotomy(left.skip(1), right.skip(1));
            if left[0] == right[0] && left.skip(1) == right.skip(1) {
                assert(left =~= seq![left[0]] + left.skip(1));
                assert(right =~= seq![right[0]] + right.skip(1));
            }
        } else {
            lemma_bytes_trichotomy(left.skip(1), right);
        }
    } else if right.len() == 0 {
        assert(left =~= right);
    }
}

proof fn lemma_bytes_transitive(a: Seq<u8>, b: Seq<u8>, c: Seq<u8>)
    requires
        bytes_before(a, b),
        bytes_before(b, c),
    ensures
        bytes_before(a, c),
    decreases a.len(),
{
    if a.len() > 0 && b.len() > 0 && c.len() > 0 && a[0] == b[0] && b[0] == c[0] {
        lemma_bytes_transitive(a.skip(1), b.skip(1), c.skip(1));
    }
}

/// The order of texts is total: of two different texts exactly one comes first, and no
/// text comes before itself.
pub proof fn law_text_order_total(left: Seq<char>, right: Seq<char>)
    ensures
        left != right <==> text_before(left, right) || text_before(right, left),
        !(text_before(left, right) && text_before(right, left)),
{
    lemma_bytes_trichotomy(encode_utf8(left), encode_utf8(right));
    vstd::utf8::encode_utf8_decode_utf8(left);
    vstd::utf8::encode_utf8_decode_utf8(right);
}

/// The order of texts is transitive.
pub proof fn law_text_order_transitive(a: Seq<char>, b: Seq<char>, c: Seq<char>)
    requires
        text_before(a, b),
        text_before(b, c),
    ensures
        text_before(a, c),
{
    lemma_bytes_transitive(encode_utf8(a), encode_utf8(b), encode_utf8(c));
}

/// The first byte in which the UTF-8 forms of two texts differ decides which comes first,
/// and a text comes after each proper prefix of it.
pub proof fn law_text_order_is_lexicographic(left: Seq<char>, right: Seq<char>)
    ensures
        text_before(left, right) <==> exists|same: int|
            {
                &&& 0 <= same <= encode_utf8(left).len()
                &&& same < encode_utf8(right).len()
                &&& #[trigger] encode_utf8(left).take(same) == encode_utf8(right).take(same)
                &&& same == encode_utf8(left).len() || encode_utf8(left)[same] < encode_utf8(
                    right,
                )[same]
            },
{
    lemma_bytes_lexicographic(encode_utf8(left), encode_utf8(right));
}

proof fn lemma_bytes_lexicographic(l: Seq<u8>, r: Seq<u8>)
    ensures
        bytes_before(l, r) <==> exists|same: int|
            {
                &&& 0 <= same <= l.len()
                &&& same < r.len()
                &&& #[trigger] l.take(same) == r.take(same)
                &&& same == l.len() || l[same] < r[same]
            },
    decreases l.len(),
{
    if l.len() == 0 || r.len() == 0 || l[0] != r[0] {
        assert(l.take(0) =~= r.take(0));
        assert forall|same: int|
            0 < same <= l.len() && same < r.len() && #[trigger] l.take(same) == r.take(
                same,
            ) implies l[0] == r[0] by {
            assert(l.take(same)[0] == r.take(same)[0]);
        }
    } else {
        let m = l.skip(1);
        let s = r.skip(1);
        lemma_bytes_lexicographic(m, s);
        if bytes_before(m, s) {
            let same = choose|same: int|
                {
                    &&& 0 <= same <= m.len()
                    &&& same < s.len()
                    &&& #[trigger] m.take(same) == s.take(same)
                    &&& same == m.len() || m[same] < s[same]
                };
            assert forall|k: int| 0 <= k < same + 1 implies l[k] == r[k] by {
                if k > 0 {
                    assert(m.take(same)[k - 1] == s.take(same)[k - 1]);
                }
            }
            assert(l.take(same + 1) =~= r.take(same + 1));
        }
        assert forall|same: int|
            {
                &&& 0 <= same <= l.len()
                &&& same < r.len()
                &&& #[trigger] l.take(same) == r.take(same)
                &&& same == l.len() || l[same] < r[same]
            } implies bytes_before(m, s) by {
            assert forall|k: int| 0 <= k < same - 1 implies m[k] == s[k] by {
                assert(l.take(same)[k + 1] == r.take(same)[k + 1]);
            }
            assert(m.take(same - 1) =~= s.take(same - 1));
        }
    }
}

/// A text occurs in another exactly if that one is made of a part before it, the text itself
/// and a part after it.
pub proof fn law_occurrence_splits_the_text(needle: Seq<char>, haystack: Seq<char>)
    ensures
        occurs_in(needle, haystack) <==> exists|before: Seq<char>, after: Seq<char>|
            haystack == #[trigger] (before + needle + after),
{
    if occurs_in(needle, haystack) {
        let start = choose|start: int|
            0 <= start <= haystack.len() - needle.len() && #[trigger] haystack.subrange(
                start,
                start + needle.len(),
            ) == needle;
        let before = haystack.take(start);
        let after = haystack.skip(start + needle.len());
        assert(haystack =~= before + haystack.subrange(start, start + needle.len()) + after);
        assert(haystack == before + needle + after);
    }
    if exists|before: Seq<char>, after: Seq<char>|
        haystack == #[trigger] (before + needle + after) {
        let (before, after) = choose|before: Seq<char>, after: Seq<char>|
            haystack == #[trigger] (before + needle + after);
        let start = before.len() as int;
        assert(haystack.subrange(start, start + needle.len()) =~= needle);
    }
}

/// One more decimal digit makes ten times the number and that digit; a number below ten is
/// the one digit, of the ten characters that follow `0`.
pub proof fn law_digits_shift_by_ten(number: nat, last: nat)
    requires
        last < 10,
    ensures
        natural(last).len() == 1,
        natural(last)[0] as int == '0' as int + last,
        number > 0 ==> natural(10 * number + last).len() == natural(number).len() + 1,
        number > 0 ==> natural(10 * number + last).drop_last() == natural(number),
        number > 0 ==> natural(10 * number + last).last() as int == '0' as int + last,
{
    if number > 0 {
        assert((10 * number + last) / 10 == number);
        assert((10 * number + last) % 10 == last);
        assert(natural(10 * number + last).drop_last() =~= natural(number));
    }
}

/// A negative number is written as the number without its sign, behind a minus sign.
pub proof fn law_minus_sign_stands_first(number: nat)
    ensures
        integer(number as int) == natural(number),
        number > 0 ==> integer(-(number as int)).len() == natural(number).len() + 1,
        number > 0 ==> integer(-(number as int))[0] == '-',
        number > 0 ==> integer(-(number as int)).drop_first() == natural(number),
{
    if number > 0 {
        assert(integer(-(number as int)).drop_first() =~= natural(number));
    }
}

} // verus!
