//! Text as sequences of characters.
use vstd::prelude::*;

verus! {

/// `String::push` of the standard library: the character goes to the end.
pub assume_specification[ String::push ](s: &mut String, ch: char)
    ensures
        final(s)@ == old(s)@.push(ch),
;

/// The characters of a string.
pub fn chars_of(s: &str) -> (v: Vec<char>)
    ensures
        v@ == s@,
{
    let mut v: Vec<char> = Vec::new();
    for c in it: s.chars()
        invariant
            v@.len() == it.index(),
            forall|j: int| 0 <= j < v@.len() ==> v@[j] == s@[j],
            it.seq() == s@,
    {
        v.push(c);
    }
    assert(v@ =~= s@);
    v
}

/// Appends characters `from..to` to a string.
pub fn push_range(s: &mut String, chars: &[char], from: usize, to: usize)
    requires
        from <= to <= chars@.len(),
    ensures
        final(s)@ == old(s)@ + chars@.subrange(from as int, to as int),
{
    let mut i: usize = from;
    assert(old(s)@ + chars@.subrange(from as int, from as int) =~= old(s)@);
    while i < to
        invariant
            from <= i <= to <= chars@.len(),
            s@ == old(s)@ + chars@.subrange(from as int, i as int),
        decreases to - i,
    {
        s.push(chars[i]);
        i = i + 1;
        assert(s@ =~= old(s)@ + chars@.subrange(from as int, i as int));
    }
}

/// Characters `from..to` as a string.
pub fn string_of(chars: &[char], from: usize, to: usize) -> (s: String)
    requires
        from <= to <= chars@.len(),
    ensures
        s@ == chars@.subrange(from as int, to as int),
{
    let mut s: String = String::new();
    push_range(&mut s, chars, from, to);
    assert(s@ =~= chars@.subrange(from as int, to as int));
    s
}

/// Is this white space, in the sense of Unicode?
pub open spec fn is_space(c: char) -> bool {
    let u = c as int;
    0x09 <= u <= 0x0D || u == 0x20 || u == 0x85 || u == 0xA0 || u == 0x1680 || 0x2000 <= u <= 0x200A
        || u == 0x2028 || u == 0x2029 || u == 0x202F || u == 0x205F || u == 0x3000
}

/// Is this white space, in the sense of Unicode?
pub fn is_whitespace(c: char) -> (r: bool)
    ensures
        r == is_space(c),
{
    let u: u32 = c as u32;
    (0x09 <= u && u <= 0x0D) || u == 0x20 || u == 0x85 || u == 0xA0 || u == 0x1680 || (0x2000 <= u
        && u <= 0x200A) || u == 0x2028 || u == 0x2029 || u == 0x202F || u == 0x205F || u == 0x3000
}

/// Text without the white space in front.
pub open spec fn trimmed_front(s: Seq<char>) -> Seq<char>
    decreases s.len(),
{
    if s.len() > 0 && is_space(s[0]) {
        trimmed_front(s.drop_first())
    } else {
        s
    }
}

/// Text without the white space behind.
pub open spec fn trimmed_back(s: Seq<char>) -> Seq<char>
    decreases s.len(),
{
    if s.len() > 0 && is_space(s.last()) {
        trimmed_back(s.drop_last())
    } else {
        s
    }
}

/// Text without the white space at either end.
pub open spec fn trimmed(s: Seq<char>) -> Seq<char> {
    trimmed_back(trimmed_front(s))
}

/// The part of the text between the white space at either end: from the first
/// returned place to the second.
pub fn trim_range(chars: &[char], from: usize, to: usize) -> (r: (usize, usize))
    requires
        from <= to <= chars@.len(),
    ensures
        from <= r.0 <= r.1 <= to,
        chars@.subrange(r.0 as int, r.1 as int) == trimmed(
            chars@.subrange(from as int, to as int),
        ),
{
    let mut a: usize = from;
    let ghost whole = chars@.subrange(from as int, to as int);
    while a < to && is_whitespace(chars[a])
        invariant
            from <= a <= to <= chars@.len(),
            trimmed_front(whole) == trimmed_front(chars@.subrange(a as int, to as int)),
        decreases to - a,
    {
        assert(chars@.subrange(a as int, to as int).drop_first() =~= chars@.subrange(
            a + 1,
            to as int,
        ));
        a = a + 1;
    }
    assert(trimmed_front(whole) == chars@.subrange(a as int, to as int));
    let mut b: usize = to;
    while a < b && is_whitespace(chars[b - 1])
        invariant
            from <= a <= b <= to <= chars@.len(),
            trimmed(whole) == trimmed_back(chars@.subrange(a as int, b as int)),
        decreases b - a,
    {
        assert(chars@.subrange(a as int, b as int).drop_last() =~= chars@.subrange(
            a as int,
            b - 1,
        ));
        b = b - 1;
    }
    (a, b)
}

/// An ASCII capital as the small letter; any other character as it is.
pub open spec fn lower(c: char) -> char {
    if 'A' <= c && c <= 'Z' {
        ((c as u8) + 32) as char
    } else {
        c
    }
}

/// Text with its ASCII capitals made small.
pub open spec fn lowered(s: Seq<char>) -> Seq<char> {
    s.map_values(|c: char| lower(c))
}

/// An ASCII capital as the small letter; any other character as it is.
pub fn to_lower(c: char) -> (r: char)
    ensures
        r == lower(c),
{
    if 'A' <= c && c <= 'Z' {
        ((c as u8) + 32) as char
    } else {
        c
    }
}

/// Do the characters `from..to`, made small, spell `word`?
pub fn spells(chars: &[char], from: usize, to: usize, word: &str) -> (r: bool)
    requires
        from <= to <= chars@.len(),
    ensures
        r == (lowered(chars@.subrange(from as int, to as int)) == word@),
{
    let w: Vec<char> = chars_of(word);
    let ghost low = lowered(chars@.subrange(from as int, to as int));
    if w.len() != to - from {
        assert(low.len() == to - from);
        return false;
    }
    let mut i: usize = 0;
    while i < w.len()
        invariant
            from <= to <= chars@.len(),
            w@.len() == to - from,
            w@ == word@,
            i <= w@.len(),
            low == lowered(chars@.subrange(from as int, to as int)),
            forall|j: int| 0 <= j < i ==> low[j] == w@[j],
        decreases w@.len() - i,
    {
        assert(low[i as int] == lower(chars@[from + i]));
        if to_lower(chars[from + i]) != w[i] {
            return false;
        }
        i = i + 1;
    }
    assert(low =~= word@);
    true
}

/// Does the text from `from` to `to` begin with `word`?
pub fn begins_with(chars: &[char], from: usize, to: usize, word: &str) -> (r: bool)
    requires
        from <= to <= chars@.len(),
    ensures
        r == word@.is_prefix_of(chars@.subrange(from as int, to as int)),
        r ==> from + word@.len() <= to,
{
    let w: Vec<char> = chars_of(word);
    let ghost s = chars@.subrange(from as int, to as int);
    if w.len() > to - from {
        return false;
    }
    let mut i: usize = 0;
    while i < w.len()
        invariant
            from <= to <= chars@.len(),
            w@.len() <= to - from,
            w@ == word@,
            i <= w@.len(),
            s == chars@.subrange(from as int, to as int),
            forall|j: int| 0 <= j < i ==> s[j] == w@[j],
        decreases w@.len() - i,
    {
        if chars[from + i] != w[i] {
            assert(s[i as int] != word@[i as int]);
            assert(s.subrange(0, word@.len() as int)[i as int] == s[i as int]);
            return false;
        }
        i = i + 1;
    }
    assert(s.subrange(0, word@.len() as int) =~= word@);
    true
}

/// Does the text from `from` to `to` end with `word`?
pub fn ends_with(chars: &[char], from: usize, to: usize, word: &str) -> (r: bool)
    requires
        from <= to <= chars@.len(),
    ensures
        r == word@.is_suffix_of(chars@.subrange(from as int, to as int)),
        r ==> from + word@.len() <= to,
{
    let w: Vec<char> = chars_of(word);
    let ghost s = chars@.subrange(from as int, to as int);
    if w.len() > to - from {
        return false;
    }
    let start: usize = to - w.len();
    let ghost tail = s.subrange(s.len() - word@.len(), s.len() as int);
    let mut i: usize = 0;
    while i < w.len()
        invariant
            from <= to <= chars@.len(),
            w@.len() <= to - from,
            start == to - w@.len(),
            w@ == word@,
            i <= w@.len(),
            s == chars@.subrange(from as int, to as int),
            tail == s.subrange(s.len() - word@.len(), s.len() as int),
            forall|j: int| 0 <= j < i ==> tail[j] == w@[j],
        decreases w@.len() - i,
    {
        assert(tail[i as int] == chars@[start + i]);
        if chars[start + i] != w[i] {
            return false;
        }
        i = i + 1;
    }
    assert(tail =~= word@);
    true
}

/// The decimal digit of a number below ten.
pub open spec fn digit(d: int) -> char {
    (48 + d) as char
}

/// A number in decimal.
pub open spec fn decimal(n: int) -> Seq<char>
    decreases n,
{
    if n < 10 {
        seq![digit(n)]
    } else {
        decimal(n / 10).push(digit(n % 10))
    }
}

/// Appends a number in decimal.
pub fn push_decimal(s: &mut String, n: u64)
    ensures
        final(s)@ == old(s)@ + decimal(n as int),
    decreases n,
{
    if n >= 10 {
        push_decimal(s, n / 10);
    }
    let d: u8 = (n % 10) as u8;
    s.push((48 + d) as char);
    assert(s@ =~= old(s)@ + decimal(n as int));
}

/// A number with its sign.
pub open spec fn signed_decimal(n: int) -> Seq<char> {
    if n < 0 {
        seq!['-'] + decimal(-n)
    } else {
        decimal(n)
    }
}

/// Appends a number with its sign.
pub fn push_signed(s: &mut String, n: i32)
    ensures
        final(s)@ == old(s)@ + signed_decimal(n as int),
{
    if n < 0 {
        s.push('-');
        push_decimal(s, (-(n as i64)) as u64);
    } else {
        push_decimal(s, n as u64);
    }
    assert(s@ =~= old(s)@ + signed_decimal(n as int));
}

/// Appends a text.
pub fn push_text(s: &mut String, t: &str)
    ensures
        final(s)@ == old(s)@ + t@,
{
    let v: Vec<char> = chars_of(t);
    push_range(s, &v, 0, v.len());
    assert(v@.subrange(0, v@.len() as int) =~= t@);
}

/// A hexadecimal digit.
pub open spec fn hex_digit(n: int) -> char {
    if n < 10 {
        (48 + n) as char
    } else {
        (87 + n) as char
    }
}

/// A character as it is quoted in a message: one that cannot be seen is written
/// by its short escape or by its number.
pub open spec fn quoted(c: char) -> Seq<char> {
    let n = c as int;
    if n == 0 {
        seq!['\'', '\\', '0', '\'']
    } else if n == 9 {
        seq!['\'', '\\', 't', '\'']
    } else if n == 10 {
        seq!['\'', '\\', 'n', '\'']
    } else if n == 13 {
        seq!['\'', '\\', 'r', '\'']
    } else if n == 92 {
        seq!['\'', '\\', '\\', '\'']
    } else if n < 16 {
        seq!['\'', '\\', 'u', '{', hex_digit(n), '}', '\'']
    } else if n < 32 {
        seq!['\'', '\\', 'u', '{', '1', hex_digit(n - 16), '}', '\'']
    } else {
        seq!['\'', c, '\'']
    }
}

fn push_hex(s: &mut String, n: u8)
    requires
        n < 16,
    ensures
        final(s)@ == old(s)@.push(hex_digit(n as int)),
{
    if n < 10 {
        s.push((48 + n) as char);
    } else {
        s.push((87 + n) as char);
    }
}

fn push_escape(s: &mut String, c: char)
    ensures
        final(s)@ == old(s)@ + seq!['\\', c],
{
    s.push('\\');
    s.push(c);
    assert(s@ =~= old(s)@ + seq!['\\', c]);
}

/// Appends a character quoted.
pub fn push_quoted(s: &mut String, c: char)
    ensures
        final(s)@ == old(s)@ + quoted(c),
{
    let n: u32 = c as u32;
    s.push('\'');
    if n == 0 {
        push_escape(s, '0');
    } else if n == 9 {
        push_escape(s, 't');
    } else if n == 10 {
        push_escape(s, 'n');
    } else if n == 13 {
        push_escape(s, 'r');
    } else if n == 92 {
        push_escape(s, '\\');
    } else if n < 32 {
        push_escape(s, 'u');
        s.push('{');
        if n >= 16 {
            s.push('1');
            push_hex(s, (n - 16) as u8);
        } else {
            push_hex(s, n as u8);
        }
        s.push('}');
    } else {
        s.push(c);
    }
    s.push('\'');
    assert(s@ =~= old(s)@ + quoted(c));
}

/// Is `a` before `b` in the order of code points?
pub open spec fn text_before(a: Seq<char>, b: Seq<char>) -> bool
    decreases a.len(),
{
    if b.len() == 0 {
        false
    } else if a.len() == 0 {
        true
    } else if a[0] == b[0] {
        text_before(a.drop_first(), b.drop_first())
    } else {
        a[0] < b[0]
    }
}

/// Is `a` before `b` in the order of code points?
pub fn is_before(a: &[char], b: &[char]) -> (r: bool)
    ensures
        r == text_before(a@, b@),
{
    let mut i: usize = 0;
    assert(a@.skip(0) =~= a@);
    assert(b@.skip(0) =~= b@);
    while i < a.len() && i < b.len() && a[i] == b[i]
        invariant
            i <= a@.len(),
            i <= b@.len(),
            text_before(a@, b@) == text_before(a@.skip(i as int), b@.skip(i as int)),
        decreases a@.len() - i,
    {
        assert(a@.skip(i as int).drop_first() =~= a@.skip(i + 1));
        assert(b@.skip(i as int).drop_first() =~= b@.skip(i + 1));
        i = i + 1;
    }
    if i >= b.len() {
        false
    } else if i >= a.len() {
        true
    } else {
        a[i] < b[i]
    }
}

/// Bytes that a character takes in UTF-8.
pub open spec fn utf8_width(c: char) -> int {
    if (c as int) < 0x80 {
        1
    } else if (c as int) < 0x800 {
        2
    } else if (c as int) < 0x1_0000 {
        3
    } else {
        4
    }
}

fn width_of(c: char) -> (w: usize)
    ensures
        w == utf8_width(c),
{
    let u: u32 = c as u32;
    if u < 0x80 {
        1
    } else if u < 0x800 {
        2
    } else if u < 0x1_0000 {
        3
    } else {
        4
    }
}

/// Bytes that text takes in UTF-8.
pub open spec fn utf8_len(s: Seq<char>) -> int
    decreases s.len(),
{
    if s.len() == 0 {
        0
    } else {
        utf8_len(s.drop_last()) + utf8_width(s.last())
    }
}

/// Does the text from `from` to `to` take more than `limit` bytes in UTF-8?
pub fn longer_than(chars: &[char], from: usize, to: usize, limit: usize) -> (r: bool)
    requires
        from <= to <= chars@.len(),
        limit <= usize::MAX - 4,
    ensures
        r == (utf8_len(chars@.subrange(from as int, to as int)) > limit),
{
    let mut i: usize = from;
    let mut total: usize = 0;
    assert(chars@.subrange(from as int, from as int) =~= Seq::<char>::empty());
    while i < to && total <= limit
        invariant
            from <= i <= to <= chars@.len(),
            limit <= usize::MAX - 4,
            total == utf8_len(chars@.subrange(from as int, i as int)),
            total <= limit + 4,
        decreases to - i,
    {
        total = total + width_of(chars[i]);
        i = i + 1;
        assert(chars@.subrange(from as int, i as int).drop_last() =~= chars@.subrange(
            from as int,
            i - 1,
        ));
    }
    proof {
        lemma_utf8_len_grows(chars@, from as int, i as int, to as int);
    }
    total > limit
}

proof fn lemma_utf8_len_grows(s: Seq<char>, from: int, i: int, to: int)
    requires
        0 <= from <= i <= to <= s.len(),
    ensures
        utf8_len(s.subrange(from, i)) <= utf8_len(s.subrange(from, to)),
    decreases to - i,
{
    if i < to {
        lemma_utf8_len_grows(s, from, i, to - 1);
        assert(s.subrange(from, to).drop_last() =~= s.subrange(from, to - 1));
    }
}

proof fn lemma_trimmed_front(s: Seq<char>) -> (a: int)
    ensures
        0 <= a <= s.len(),
        trimmed_front(s) == s.subrange(a, s.len() as int),
        forall|i: int| 0 <= i < a ==> is_space(#[trigger] s[i]),
        a < s.len() ==> !is_space(s[a]),
    decreases s.len(),
{
    if s.len() > 0 && is_space(s[0]) {
        let rest = s.drop_first();
        let a = lemma_trimmed_front(rest);
        assert(rest.subrange(a, rest.len() as int) =~= s.subrange(a + 1, s.len() as int));
        assert forall|i: int| 0 <= i < a + 1 implies is_space(#[trigger] s[i]) by {
            if i > 0 {
                assert(is_space(rest[i - 1]));
            }
        }
        if a < rest.len() {
            assert(!is_space(rest[a]));
        }
        a + 1
    } else {
        assert(s.subrange(0, s.len() as int) =~= s);
        0
    }
}

proof fn lemma_trimmed_back(s: Seq<char>) -> (b: int)
    ensures
        0 <= b <= s.len(),
        trimmed_back(s) == s.subrange(0, b),
        forall|i: int| b <= i < s.len() ==> is_space(#[trigger] s[i]),
        b > 0 ==> !is_space(s[b - 1]),
    decreases s.len(),
{
    if s.len() > 0 && is_space(s.last()) {
        let rest = s.drop_last();
        let b = lemma_trimmed_back(rest);
        assert(rest.subrange(0, b) =~= s.subrange(0, b));
        assert forall|i: int| b <= i < s.len() implies is_space(#[trigger] s[i]) by {
            if i < s.len() - 1 {
                assert(is_space(rest[i]));
            }
        }
        if b > 0 {
            assert(!is_space(rest[b - 1]));
        }
        b
    } else {
        assert(s.subrange(0, s.len() as int) =~= s);
        s.len() as int
    }
}

/// Trimming takes the white space at both ends and nothing else: what is left is one
/// stretch of the text without white space at its ends, and all around it there was only
/// white space. Trimming it again changes nothing.
pub proof fn trimming_takes_only_the_ends(s: Seq<char>)
    ensures
        exists|a: int, b: int|
            0 <= a <= b <= s.len() && trimmed(s) == #[trigger] s.subrange(a, b) && (forall|i: int|
                0 <= i < a || b <= i < s.len() ==> is_space(#[trigger] s[i])),
        trimmed(s).len() > 0 ==> !is_space(trimmed(s)[0]) && !is_space(trimmed(s).last()),
        trimmed(trimmed(s)) == trimmed(s),
{
    let a = lemma_trimmed_front(s);
    let mid = s.subrange(a, s.len() as int);
    let n = lemma_trimmed_back(mid);
    let b = a + n;
    assert(mid.subrange(0, n) =~= s.subrange(a, b));
    assert forall|i: int| 0 <= i < a || b <= i < s.len() implies is_space(#[trigger] s[i]) by {
        if b <= i {
            assert(is_space(mid[i - a]));
        }
    }
    let t = trimmed(s);
    assert(t == s.subrange(a, b));
    if t.len() > 0 {
        assert(mid[0] == s[a]);
        assert(!is_space(mid[n - 1]));
    }
}

/// Small letters stay as they are, capitals keep their place in the alphabet, and nothing
/// that comes out is a capital.
pub proof fn capitals_become_their_small_letters(c: char, d: char)
    ensures
        !('A' <= lower(c) && lower(c) <= 'Z'),
        lower(lower(c)) == lower(c),
        lower('A') == 'a',
        'A' <= c && c <= 'Z' && 'A' <= d && d <= 'Z' ==> lower(c) as int - lower(d) as int == c as int
            - d as int,
        c < 'A' || 'Z' < c ==> lower(c) == c,
{
}

/// The number that a row of decimal digits says.
pub open spec fn number_of(s: Seq<char>) -> int
    decreases s.len(),
{
    if s.len() == 0 {
        0
    } else {
        10 * number_of(s.drop_last()) + (s.last() as int - '0' as int)
    }
}

/// A number in decimal is made of digits, says the number, and does not begin with a zero
/// unless it is zero.
pub proof fn a_decimal_says_its_number(n: int)
    requires
        n >= 0,
    ensures
        number_of(decimal(n)) == n,
        decimal(n).len() > 0,
        forall|i: int|
            0 <= i < decimal(n).len() ==> '0' <= #[trigger] decimal(n)[i] && decimal(n)[i] <= '9',
        n > 0 ==> decimal(n)[0] != '0',
        n == 0 ==> decimal(n) == seq!['0'],
    decreases n,
{
    if n < 10 {
        let d = decimal(n);
        assert(d.drop_last() =~= Seq::<char>::empty());
        assert(number_of(d.drop_last()) == 0);
        assert(d.last() == digit(n));
    } else {
        a_decimal_says_its_number(n / 10);
        let front = decimal(n / 10);
        let d = decimal(n);
        assert(d.drop_last() =~= front);
        assert(d.last() == digit(n % 10));
        assert(d[0] == front[0]);
        assert forall|i: int| 0 <= i < d.len() implies '0' <= #[trigger] d[i] && d[i] <= '9' by {
            if i < front.len() {
                assert(d[i] == front[i]);
            }
        }
    }
}

/// A signed number begins with a minus just where it is below zero, and says the size of the
/// number behind it.
pub proof fn a_signed_decimal_says_its_number(n: int)
    ensures
        (signed_decimal(n)[0] == '-') == (n < 0),
        n < 0 ==> number_of(signed_decimal(n).drop_first()) == -n,
        n >= 0 ==> number_of(signed_decimal(n)) == n,
{
    if n < 0 {
        a_decimal_says_its_number(-n);
        assert(signed_decimal(n).drop_first() =~= decimal(-n));
    } else {
        a_decimal_says_its_number(n);
        assert('0' <= decimal(n)[0]);
    }
}

/// One text is before another just where it ends first while they agree, or where its
/// character is the smaller one at the first place at which they differ.
pub proof fn the_first_difference_decides(a: Seq<char>, b: Seq<char>, k: int)
    requires
        0 <= k <= a.len(),
        k <= b.len(),
        forall|i: int| 0 <= i < k ==> #[trigger] a[i] == b[i],
    ensures
        k < a.len() && k < b.len() && a[k] != b[k] ==> (text_before(a, b) <==> a[k] < b[k]),
        k == a.len() && k < b.len() ==> text_before(a, b) && !text_before(b, a),
        k == a.len() && k == b.len() ==> !text_before(a, b),
    decreases k,
{
    if k > 0 {
        assert(a[0] == b[0]);
        let x = a.drop_first();
        let y = b.drop_first();
        assert forall|i: int| 0 <= i < k - 1 implies #[trigger] x[i] == y[i] by {
            assert(a[i + 1] == b[i + 1]);
        }
        the_first_difference_decides(x, y, k - 1);
    }
}

/// Lengths in UTF-8 add up, and are those of the encoding.
pub proof fn utf8_lengths_add_up(a: Seq<char>, b: Seq<char>, c: char)
    ensures
        utf8_len(a + b) == utf8_len(a) + utf8_len(b),
        utf8_len(seq![c]) == vstd::utf8::encode_scalar(c as u32).len(),
    decreases b.len(),
{
    if b.len() == 0 {
        assert(a + b =~= a);
    } else {
        utf8_lengths_add_up(a, b.drop_last(), c);
        assert((a + b).drop_last() =~= a + b.drop_last());
        assert((a + b).last() == b.last());
    }
    let one = seq![c];
    assert(one.drop_last() =~= Seq::<char>::empty());
    assert(utf8_len(one.drop_last()) == 0);
    assert(one.last() == c);
}

/// A quoted character stands between quotes, one that can be seen as itself, and no two
/// characters look the same.
pub proof fn quoted_characters_differ(c: char, d: char)
    ensures
        quoted(c)[0] == '\'' && quoted(c).last() == '\'',
        c >= ' ' && c != '\\' ==> quoted(c) == seq!['\'', c, '\''],
        c != d ==> quoted(c) != quoted(d),
{
    if quoted(c) == quoted(d) {
        assert(quoted(c)[1] == quoted(d)[1]);
        assert(quoted(c)[2] == quoted(d)[2]);
        assert(quoted(c)[4] == quoted(d)[4]);
        assert(quoted(c)[5] == quoted(d)[5]);
        assert(quoted(c).len() == quoted(d).len());
    }
}

/// The length of a text in UTF-8 is the length of its encoding.
pub proof fn the_length_is_that_of_the_encoding(s: Seq<char>)
    ensures
        utf8_len(s) == vstd::utf8::encode_utf8(s).len(),
    decreases s.len(),
{
    if s.len() > 0 {
        let first = seq![s[0]];
        let rest = s.drop_first();
        the_length_is_that_of_the_encoding(rest);
        utf8_lengths_add_up(first, rest, s[0]);
        assert(first + rest =~= s);
    }
}

/// The space, the tabs and the line ends of ASCII are white space, and nothing that can be
/// seen there is.
pub proof fn what_can_be_seen_is_no_space(c: char)
    requires
        (c as int) < 0x80,
    ensures
        '!' <= c && c <= '~' ==> !is_space(c),
        c == ' ' || c == '\t' || c == '\n' || c == '\r' ==> is_space(c),
        c == '\0' || c as int == 0x7F ==> !is_space(c),
{
}

/// Trimming undoes white space that was put around a text.
pub proof fn trimming_undoes_white_space(front: Seq<char>, s: Seq<char>, back: Seq<char>)
    requires
        s.len() > 0,
        !is_space(s[0]),
        !is_space(s.last()),
        forall|i: int| 0 <= i < front.len() ==> is_space(#[trigger] front[i]),
        forall|i: int| 0 <= i < back.len() ==> is_space(#[trigger] back[i]),
    ensures
        trimmed(front + s + back) == s,
{
    let t = front + s + back;
    let a = lemma_trimmed_front(t);
    if a < front.len() {
        assert(t[a] == front[a]);
    }
    if a > front.len() {
        assert(t[front.len() as int] == s[0]);
    }
    let mid = t.subrange(a, t.len() as int);
    assert(mid =~= s + back);
    let b = lemma_trimmed_back(mid);
    if b > s.len() {
        assert(mid[b - 1] == back[b - 1 - s.len()]);
    }
    if b < s.len() {
        assert(mid[s.len() - 1] == s.last());
    }
    assert(mid.subrange(0, b) =~= s);
}

/// The number that a digit to base sixteen says.
pub open spec fn hex_number(c: char) -> int {
    if '0' <= c && c <= '9' {
        c as int - '0' as int
    } else {
        c as int - 'a' as int + 10
    }
}

/// A digit to base sixteen says its number, and a character that is quoted by its number
/// says it between braces.
pub proof fn escapes_say_their_character(n: int, c: char)
    requires
        0 <= n < 16,
        c < ' ',
        c != '\0' && c != '\t' && c != '\n' && c != '\r',
    ensures
        hex_number(hex_digit(n)) == n,
        ('0' <= hex_digit(n) && hex_digit(n) <= '9') || ('a' <= hex_digit(n) && hex_digit(n) <= 'f'),
        ({
            let q = quoted(c);
            let last = q.len() - 3;
            &&& q[1] == '\\' && q[2] == 'u' && q[3] == '{' && q[last + 1] == '}'
            &&& last == 4 || last == 5
            &&& (if last == 5 {
                16 * hex_number(q[4]) + hex_number(q[5])
            } else {
                hex_number(q[4])
            }) == c as int
        }),
{
}

} // verus!
