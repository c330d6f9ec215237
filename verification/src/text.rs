//! Text: characters, decimal numbers, splitting and trimming.
use vstd::prelude::*;

verus! {

/// The character of a decimal digit.
pub open spec fn digit_char(d: int) -> char {
    if d == 0 {
        '0'
    } else if d == 1 {
        '1'
    } else if d == 2 {
        '2'
    } else if d == 3 {
        '3'
    } else if d == 4 {
        '4'
    } else if d == 5 {
        '5'
    } else if d == 6 {
        '6'
    } else if d == 7 {
        '7'
    } else if d == 8 {
        '8'
    } else {
        '9'
    }
}

/// `n` in decimal, without leading zeros.
pub open spec fn decimal(n: nat) -> Seq<char>
    decreases n,
{
    if n < 10 {
        seq![digit_char(n as int)]
    } else {
        decimal(n / 10).push(digit_char((n % 10) as int))
    }
}

/// `n` in decimal, with a sign where it is negative.
pub open spec fn signed_decimal(n: int) -> Seq<char> {
    if n < 0 {
        seq!['-'] + decimal((-n) as nat)
    } else {
        decimal(n as nat)
    }
}

/// `n` in decimal, two characters at least.
pub open spec fn two_digits(n: nat) -> Seq<char> {
    if n < 10 {
        seq!['0', digit_char(n as int)]
    } else {
        decimal(n)
    }
}

/// Append one digit.
pub fn push_digit(out: &mut String, d: u8)
    requires
        d < 10,
    ensures
        final(out)@ == old(out)@.push(digit_char(d as int)),
{
    proof {
        reveal_strlit("0");
        reveal_strlit("1");
        reveal_strlit("2");
        reveal_strlit("3");
        reveal_strlit("4");
        reveal_strlit("5");
        reveal_strlit("6");
        reveal_strlit("7");
        reveal_strlit("8");
        reveal_strlit("9");
    }
    let ghost before = out@;
    if d == 0 {
        out.append("0");
    } else if d == 1 {
        out.append("1");
    } else if d == 2 {
        out.append("2");
    } else if d == 3 {
        out.append("3");
    } else if d == 4 {
        out.append("4");
    } else if d == 5 {
        out.append("5");
    } else if d == 6 {
        out.append("6");
    } else if d == 7 {
        out.append("7");
    } else if d == 8 {
        out.append("8");
    } else {
        out.append("9");
    }
    assert(out@ =~= before.push(digit_char(d as int)));
}

/// Append `n` in decimal.
pub fn push_decimal(out: &mut String, n: u64)
    ensures
        final(out)@ == old(out)@ + decimal(n as nat),
    decreases n,
{
    let ghost before = out@;
    if n < 10 {
        push_digit(out, n as u8);
        assert(out@ =~= before + decimal(n as nat));
    } else {
        push_decimal(out, n / 10);
        push_digit(out, (n % 10) as u8);
        assert(out@ =~= before + decimal(n as nat));
    }
}

/// Append `n` in decimal, with a sign where it is negative.
pub fn push_signed(out: &mut String, n: i64)
    ensures
        final(out)@ == old(out)@ + signed_decimal(n as int),
{
    let ghost before = out@;
    if n < 0 {
        proof {
            reveal_strlit("-");
        }
        out.append("-");
        let magnitude: u64 = (-(n as i128)) as u64;
        push_decimal(out, magnitude);
        assert(seq!['-'] =~= "-"@);
        assert(out@ =~= before + (seq!['-'] + decimal((-n) as nat)));
    } else {
        push_decimal(out, n as u64);
    }
}

/// Append `n` in decimal, two characters at least.
pub fn push_two_digits(out: &mut String, n: u64)
    ensures
        final(out)@ == old(out)@ + two_digits(n as nat),
{
    let ghost before = out@;
    if n < 10 {
        push_digit(out, 0);
        push_digit(out, n as u8);
        assert(out@ =~= before + seq!['0', digit_char(n as int)]);
    } else {
        push_decimal(out, n);
    }
}

/// Whether two texts are the same.
pub fn same_text(a: &str, b: &str) -> (same: bool)
    ensures
        same == (a@ == b@),
{
    let a: String = a.to_owned();
    let b: String = b.to_owned();
    a == b
}

/// The characters of `text`.
pub fn characters(text: &str) -> (chars: Vec<char>)
    ensures
        chars@ == text@,
{
    let mut chars: Vec<char> = Vec::new();
    for c in iter: text.chars()
        invariant
            iter.seq() == text@,
            chars@ == text@.take(iter.index() as int),
    {
        chars.push(c);
        assert(text@.take(iter.index() + 1) =~= text@.take(iter.index() as int).push(
            text@[iter.index() as int],
        ));
    }
    assert(text@.take(text@.len() as int) =~= text@);
    chars
}

/// Whether `part` is `word`.
pub fn is_word(part: &[char], word: &str) -> (same: bool)
    ensures
        same == (part@ == word@),
{
    let text: Vec<char> = characters(word);
    if part.len() != text.len() {
        return false;
    }
    let mut i: usize = 0;
    while i < part.len()
        invariant
            i <= part.len() == text.len(),
            text@ == word@,
            forall|j: int| 0 <= j < i ==> part@[j] == text@[j],
        decreases part.len() - i,
    {
        if part[i] != text[i] {
            return false;
        }
        i = i + 1;
    }
    assert(part@ =~= text@);
    true
}

/// Where `c` first stands in `s`, or the end of `s`.
pub open spec fn find(s: Seq<char>, c: char) -> int
    decreases s.len(),
{
    if s.len() == 0 || s[0] == c {
        0
    } else {
        1 + find(s.skip(1), c)
    }
}

/// `find` is the only position with no `c` before it and `c`, or the end, at it.
pub proof fn lemma_find_is(s: Seq<char>, c: char, i: int)
    requires
        0 <= i <= s.len(),
        forall|j: int| 0 <= j < i ==> s[j] != c,
        i < s.len() ==> s[i] == c,
    ensures
        find(s, c) == i,
    decreases s.len(),
{
    if i > 0 {
        assert(s[0] != c);
        assert forall|j: int| 0 <= j < i - 1 implies s.skip(1)[j] != c by {
            assert(s.skip(1)[j] == s[j + 1]);
        }
        lemma_find_is(s.skip(1), c, i - 1);
    }
}

/// The position of the first `c` in `s`, or the length of `s`.
pub fn position(s: &[char], c: char) -> (at: usize)
    ensures
        at == find(s@, c),
        at <= s.len(),
        forall|j: int| 0 <= j < at ==> s@[j] != c,
        at < s.len() ==> s@[at as int] == c,
{
    let mut i: usize = 0;
    while i < s.len() && s[i] != c
        invariant
            i <= s.len(),
            forall|j: int| 0 <= j < i ==> s@[j] != c,
        decreases s.len() - i,
    {
        i = i + 1;
    }
    proof {
        lemma_find_is(s@, c, i as int);
    }
    i
}

/// `s` cut at every `sep`: one more piece than there are separators.
pub open spec fn pieces(s: Seq<char>, sep: char) -> Seq<Seq<char>>
    decreases s.len(),
{
    if s.len() == 0 {
        seq![Seq::<char>::empty()]
    } else {
        let before = pieces(s.drop_last(), sep);
        if s.last() == sep {
            before.push(Seq::empty())
        } else {
            before.drop_last().push(before.last().push(s.last()))
        }
    }
}

/// A list of texts as a sequence of sequences.
pub open spec fn texts(list: Seq<Vec<char>>) -> Seq<Seq<char>> {
    Seq::new(list.len(), |i: int| list[i]@)
}

/// Cut `s` at every `sep`.
pub fn split(s: &[char], sep: char) -> (parts: Vec<Vec<char>>)
    ensures
        texts(parts@) == pieces(s@, sep),
        parts.len() > 0,
{
    let mut parts: Vec<Vec<char>> = Vec::new();
    let mut current: Vec<char> = Vec::new();
    let mut i: usize = 0;
    assert(s@.take(0) =~= Seq::<char>::empty());
    assert(texts(parts@).push(current@) =~= seq![Seq::<char>::empty()]);
    while i < s.len()
        invariant
            i <= s.len(),
            texts(parts@).push(current@) == pieces(s@.take(i as int), sep),
        decreases s.len() - i,
    {
        let c: char = s[i];
        let ghost before = pieces(s@.take(i as int), sep);
        assert(s@.take(i + 1).drop_last() =~= s@.take(i as int));
        assert(s@.take(i + 1).last() == c);
        let ghost earlier = texts(parts@);
        let ghost piece = current@;
        if c == sep {
            parts.push(current);
            current = Vec::new();
            assert(texts(parts@) =~= earlier.push(piece));
            assert(current@ =~= Seq::<char>::empty());
        } else {
            current.push(c);
            assert(before.drop_last() =~= earlier);
            assert(texts(parts@).push(current@) =~= before.drop_last().push(
                before.last().push(c),
            ));
        }
        i = i + 1;
    }
    let ghost earlier = texts(parts@);
    let ghost piece = current@;
    parts.push(current);
    assert(texts(parts@) =~= earlier.push(piece));
    assert(s@.take(s.len() as int) =~= s@);
    parts
}

/// A white-space character.
pub open spec fn space(c: char) -> bool {
    let u = c as u32;
    9 <= u <= 13 || u == 0x20 || u == 0x85 || u == 0xA0 || u == 0x1680 || 0x2000 <= u <= 0x200A || u
        == 0x2028 || u == 0x2029 || u == 0x202F || u == 0x205F || u == 0x3000
}

/// Whether `c` is white space.
pub fn is_space(c: char) -> (yes: bool)
    ensures
        yes == space(c),
{
    let u: u32 = c as u32;
    (9 <= u && u <= 13) || u == 0x20 || u == 0x85 || u == 0xA0 || u == 0x1680 || (0x2000 <= u && u
        <= 0x200A) || u == 0x2028 || u == 0x2029 || u == 0x202F || u == 0x205F || u == 0x3000
}

/// `s` without white space at its start.
pub open spec fn trim_start(s: Seq<char>) -> Seq<char>
    decreases s.len(),
{
    if s.len() > 0 && space(s[0]) {
        trim_start(s.skip(1))
    } else {
        s
    }
}

/// `s` without white space at its end.
pub open spec fn trim_end(s: Seq<char>) -> Seq<char>
    decreases s.len(),
{
    if s.len() > 0 && space(s.last()) {
        trim_end(s.drop_last())
    } else {
        s
    }
}

/// `s` without white space at either end.
pub open spec fn trimmed(s: Seq<char>) -> Seq<char> {
    trim_end(trim_start(s))
}

/// The characters of `s` from `from` up to `to`.
pub fn copy(s: &[char], from: usize, to: usize) -> (part: Vec<char>)
    requires
        from <= to <= s.len(),
    ensures
        part@ == s@.subrange(from as int, to as int),
{
    let mut part: Vec<char> = Vec::new();
    let mut i: usize = from;
    while i < to
        invariant
            from <= i <= to <= s.len(),
            part@ == s@.subrange(from as int, i as int),
        decreases to - i,
    {
        part.push(s[i]);
        i = i + 1;
        assert(s@.subrange(from as int, i as int) =~= s@.subrange(from as int, i - 1).push(
            s@[i - 1],
        ));
    }
    part
}

/// `s` without white space at either end.
pub fn trim(s: &[char]) -> (inner: Vec<char>)
    ensures
        inner@ == trimmed(s@),
{
    let mut start: usize = 0;
    assert(s@.skip(0) =~= s@);
    while start < s.len() && is_space(s[start])
        invariant
            start <= s.len(),
            trim_start(s@) == trim_start(s@.skip(start as int)),
        decreases s.len() - start,
    {
        assert(s@.skip(start as int).skip(1) =~= s@.skip(start + 1));
        start = start + 1;
    }
    let ghost rest = s@.skip(start as int);
    assert(trim_start(s@) == rest);
    let mut end: usize = s.len();
    assert(s@.subrange(start as int, end as int) =~= rest);
    while start < end && is_space(s[end - 1])
        invariant
            start <= end <= s.len(),
            trim_end(rest) == trim_end(s@.subrange(start as int, end as int)),
        decreases end - start,
    {
        let ghost part = s@.subrange(start as int, end as int);
        assert(part.last() == s@[end - 1]);
        assert(part.drop_last() =~= s@.subrange(start as int, end - 1));
        end = end - 1;
    }
    proof {
        let part = s@.subrange(start as int, end as int);
        if start < end {
            assert(part.last() == s@[end - 1]);
        }
    }
    copy(s, start, end)
}

/// A decimal digit.
pub open spec fn digit(c: char) -> bool {
    '0' <= c <= '9'
}

/// Every character is a digit.
pub open spec fn all_digits(s: Seq<char>) -> bool {
    forall|i: int| 0 <= i < s.len() ==> digit(#[trigger] s[i])
}

/// The number a run of digits stands for.
pub open spec fn digits_value(s: Seq<char>) -> int
    decreases s.len(),
{
    if s.len() == 0 {
        0
    } else {
        10 * digits_value(s.drop_last()) + (s.last() as u32 - '0' as u32)
    }
}

/// The number `s` stands for, where it is digits, at least one.
pub open spec fn parsed_digits(s: Seq<char>) -> Option<int> {
    if s.len() > 0 && all_digits(s) {
        Some(digits_value(s))
    } else {
        None
    }
}

/// The unsigned number `s` stands for: digits, perhaps after a plus sign,
/// within the range of a `u64`.
pub open spec fn parsed_u64(s: Seq<char>) -> Option<u64> {
    let magnitude = if s.len() > 0 && s[0] == '+' {
        parsed_digits(s.skip(1))
    } else {
        parsed_digits(s)
    };
    match magnitude {
        Some(n) => if n <= u64::MAX {
            Some(n as u64)
        } else {
            None
        },
        None => None,
    }
}

/// The signed number `s` stands for: digits, perhaps after a sign, within the
/// range of an `i64`.
pub open spec fn parsed_i64(s: Seq<char>) -> Option<i64> {
    let negative = s.len() > 0 && s[0] == '-';
    let magnitude = if s.len() > 0 && (s[0] == '+' || s[0] == '-') {
        parsed_digits(s.skip(1))
    } else {
        parsed_digits(s)
    };
    match magnitude {
        Some(n) => if negative && n <= i64::MAX + 1 {
            Some((-n) as i64)
        } else if !negative && n <= i64::MAX {
            Some(n as i64)
        } else {
            None
        },
        None => None,
    }
}

/// A number only grows with the digits that follow.
proof fn lemma_digits_grow(s: Seq<char>, i: int)
    requires
        all_digits(s),
        0 <= i <= s.len(),
    ensures
        0 <= digits_value(s.take(i)) <= digits_value(s),
    decreases s.len(),
{
    if i == s.len() {
        assert(s.take(i) =~= s);
        if s.len() > 0 {
            let shorter = s.drop_last();
            assert(all_digits(shorter)) by {
                assert forall|j: int| 0 <= j < shorter.len() implies digit(#[trigger] shorter[j]) by {
                    assert(shorter[j] == s[j]);
                }
            }
            lemma_digits_grow(shorter, i - 1);
            assert(shorter.take(i - 1) =~= shorter);
            assert(digit(s[s.len() - 1]));
        }
    } else {
        let shorter = s.drop_last();
        assert(all_digits(shorter)) by {
            assert forall|j: int| 0 <= j < shorter.len() implies digit(#[trigger] shorter[j]) by {
                assert(shorter[j] == s[j]);
            }
        }
        lemma_digits_grow(shorter, i);
        assert(shorter.take(i) =~= s.take(i));
        assert(digit(s[s.len() - 1]));
    }
}

/// The number the characters of `s` from `from` on stand for, if it is digits
/// and fits.
fn magnitude(s: &[char], from: usize) -> (n: Option<u64>)
    requires
        from <= s.len(),
    ensures
        match (n, parsed_digits(s@.skip(from as int))) {
            (Some(n), Some(value)) => n == value,
            (Some(n), None) => false,
            (None, Some(value)) => value > u64::MAX,
            (None, None) => true,
        },
{
    let ghost t = s@.skip(from as int);
    if from == s.len() {
        return None;
    }
    let mut value: u64 = 0;
    let mut i: usize = from;
    while i < s.len()
        invariant
            from <= i <= s.len(),
            t == s@.skip(from as int),
            value == digits_value(t.take(i - from)),
            all_digits(t.take(i - from)),
        decreases s.len() - i,
    {
        let c: char = s[i];
        let ghost k = i - from;
        assert(t[k] == c);
        assert(t.take(k + 1).drop_last() =~= t.take(k));
        if !('0' <= c && c <= '9') {
            assert(!digit(t[k]));
            return None;
        }
        let d: u64 = (c as u32 - '0' as u32) as u64;
        let next: Option<u64> = match value.checked_mul(10) {
            Some(tens) => tens.checked_add(d),
            None => None,
        };
        proof {
            assert(digits_value(t.take(k + 1)) == 10 * value + d);
            assert forall|j: int| 0 <= j < k + 1 implies digit(#[trigger] t.take(k + 1)[j]) by {
                if j < k {
                    assert(t.take(k + 1)[j] == t.take(k)[j]);
                }
            }
        }
        match next {
            Some(n) => {
                value = n;
            },
            None => {
                proof {
                    if all_digits(t) {
                        lemma_digits_grow(t, k + 1);
                    }
                }
                return None;
            },
        }
        i = i + 1;
    }
    assert(t.take(i - from) =~= t);
    Some(value)
}

/// The unsigned number `s` stands for.
pub fn parse_u64(s: &[char]) -> (n: Option<u64>)
    ensures
        n == parsed_u64(s@),
{
    assert(s@.skip(0) =~= s@);
    let from: usize = if s.len() > 0 && s[0] == '+' {
        1
    } else {
        0
    };
    magnitude(s, from)
}

/// The signed number `s` stands for.
pub fn parse_i64(s: &[char]) -> (n: Option<i64>)
    ensures
        n == parsed_i64(s@),
{
    assert(s@.skip(0) =~= s@);
    let negative = s.len() > 0 && s[0] == '-';
    let from: usize = if s.len() > 0 && (s[0] == '+' || s[0] == '-') {
        1
    } else {
        0
    };
    match magnitude(s, from) {
        Some(n) => {
            if negative && n <= 0x8000_0000_0000_0000 {
                Some((-(n as i128)) as i64)
            } else if !negative && n <= 0x7fff_ffff_ffff_ffff {
                Some(n as i64)
            } else {
                None
            }
        },
        None => None,
    }
}

/// `part` stands somewhere in `whole`.
pub open spec fn holds_text(whole: Seq<char>, part: Seq<char>) -> bool {
    exists|i: int|
        0 <= i <= whole.len() - part.len() && #[trigger] whole.subrange(i, i + part.len()) == part
}

/// Whether `part` stands at position `at` of `whole`.
fn stands_at(whole: &[char], part: &[char], at: usize) -> (yes: bool)
    requires
        at + part.len() <= whole.len(),
    ensures
        yes == (whole@.subrange(at as int, at + part.len()) == part@),
{
    let mut i: usize = 0;
    while i < part.len()
        invariant
            i <= part.len(),
            at + part.len() <= whole.len(),
            forall|j: int| 0 <= j < i ==> whole@[at + j] == part@[j],
        decreases part.len() - i,
    {
        if whole[at + i] != part[i] {
            assert(whole@.subrange(at as int, at + part.len())[i as int] != part@[i as int]);
            return false;
        }
        i = i + 1;
    }
    assert(whole@.subrange(at as int, at + part.len()) =~= part@);
    true
}

/// Whether `part` stands somewhere in `whole`.
pub fn contains(whole: &[char], part: &[char]) -> (yes: bool)
    ensures
        yes == holds_text(whole@, part@),
{
    if part.len() > whole.len() {
        return false;
    }
    let last: usize = whole.len() - part.len();
    let mut i: usize = 0;
    while i <= last
        invariant
            i <= last + 1,
            last == whole.len() - part.len(),
            forall|j: int|
                0 <= j < i ==> #[trigger] whole@.subrange(j, j + part.len()) != part@,
        decreases last + 1 - i,
    {
        if stands_at(whole, part, i) {
            return true;
        }
        if i == last {
            return false;
        }
        i = i + 1;
    }
    false
}

/// The text an optional string holds.
pub open spec fn optional(text: Option<String>) -> Option<Seq<char>> {
    match text {
        Some(text) => Some(text@),
        None => None,
    }
}

/// The texts that four optional strings hold.
pub open spec fn four(texts: [Option<String>; 4]) -> Seq<Option<Seq<char>>> {
    seq![
        optional(texts@[0]),
        optional(texts@[1]),
        optional(texts@[2]),
        optional(texts@[3]),
    ]
}

/// An optional string once more.
pub fn copy_optional(text: &Option<String>) -> (same: Option<String>)
    ensures
        optional(same) == optional(*text),
{
    match text {
        Some(text) => Some(text.clone()),
        None => None,
    }
}

/// Four optional strings once more.
pub fn copy_four(texts: &[Option<String>; 4]) -> (same: [Option<String>; 4])
    ensures
        four(same) == four(*texts),
{
    [
        copy_optional(&texts[0]),
        copy_optional(&texts[1]),
        copy_optional(&texts[2]),
        copy_optional(&texts[3]),
    ]
}

/// Whether two optional strings hold the same.
pub fn same_optional(a: &Option<String>, b: &Option<String>) -> (same: bool)
    ensures
        same == (optional(*a) == optional(*b)),
{
    match (a, b) {
        (Some(a), Some(b)) => *a == *b,
        (None, None) => true,
        _ => false,
    }
}

/// Whether two times four optional strings hold the same.
pub fn same_four(a: &[Option<String>; 4], b: &[Option<String>; 4]) -> (same: bool)
    ensures
        same == (four(*a) == four(*b)),
{
    let same = same_optional(&a[0], &b[0]) && same_optional(&a[1], &b[1]) && same_optional(
        &a[2],
        &b[2],
    ) && same_optional(&a[3], &b[3]);
    proof {
        if same {
            assert(four(*a) =~= four(*b));
        } else {
            assert(four(*a)[0] != four(*b)[0] || four(*a)[1] != four(*b)[1] || four(*a)[2] != four(
                *b,
            )[2] || four(*a)[3] != four(*b)[3]);
        }
    }
    same
}

/// A character, an ASCII capital as its small letter.
pub open spec fn small(c: char) -> char {
    if 'A' <= c <= 'Z' {
        (c as int + 32) as char
    } else {
        c
    }
}

/// A text with each character that is `from` replaced by `to`.
pub open spec fn replaced(s: Seq<char>, from: char, to: char) -> Seq<char> {
    s.map_values(
        |c: char|
            if c == from {
                to
            } else {
                c
            },
    )
}

/// A text in small letters.
pub open spec fn lowercase(s: Seq<char>) -> Seq<char> {
    s.map_values(|c: char| small(c))
}

/// A text without `prefix`, as often as it starts with it.
pub open spec fn stripped(s: Seq<char>, prefix: Seq<char>) -> Seq<char>
    decreases s.len(),
{
    if prefix.len() > 0 && prefix.len() <= s.len() && s.take(prefix.len() as int) == prefix {
        stripped(s.skip(prefix.len() as int), prefix)
    } else {
        s
    }
}

/// Append one character of `text`.
fn push_char_of(out: &mut String, text: &str, at: usize)
    requires
        at < text@.len(),
        at < usize::MAX,
    ensures
        final(out)@ == old(out)@.push(text@[at as int]),
{
    let ghost before = out@;
    out.append(text.substring_char(at, at + 1));
    proof {
        assert(out@ =~= before.push(text@[at as int]));
    }
}

/// A text in small letters.
pub fn to_lowercase(text: &str) -> (small: String)
    ensures
        small@ == lowercase(text@),
{
    let letters = "abcdefghijklmnopqrstuvwxyz";
    proof {
        reveal_strlit("abcdefghijklmnopqrstuvwxyz");
        assert forall|d: int| 0 <= d < 26 implies #[trigger] letters@[d] == (97 + d) as char by {
            assert(d == 0 || d == 1 || d == 2 || d == 3 || d == 4 || d == 5 || d == 6 || d == 7 || d
                == 8 || d == 9 || d == 10 || d == 11 || d == 12 || d == 13 || d == 14 || d == 15
                || d == 16 || d == 17 || d == 18 || d == 19 || d == 20 || d == 21 || d == 22 || d
                == 23 || d == 24 || d == 25);
        }
    }
    let chars = characters(text);
    let mut out: String = String::new();
    let mut i: usize = 0;
    proof {
        assert(out@ =~= lowercase(text@).take(0));
    }
    while i < chars.len()
        invariant
            i <= chars@.len(),
            chars@ == text@,
            out@ == lowercase(text@).take(i as int),
            letters@.len() == 26,
            forall|d: int| 0 <= d < 26 ==> #[trigger] letters@[d] == (97 + d) as char,
        decreases chars@.len() - i,
    {
        let c = chars[i];
        if 'A' <= c && c <= 'Z' {
            push_char_of(&mut out, letters, (c as u32 - 65) as usize);
        } else {
            push_char_of(&mut out, text, i);
        }
        proof {
            assert(lowercase(text@).take(i + 1) =~= lowercase(text@).take(i as int).push(
                small(text@[i as int]),
            ));
        }
        i += 1;
    }
    proof {
        assert(lowercase(text@).take(i as int) =~= lowercase(text@));
    }
    out
}

/// A text with each space replaced by a hyphen.
pub fn hyphenate(text: &str) -> (out: String)
    ensures
        out@ == replaced(text@, ' ', '-'),
{
    proof {
        reveal_strlit("-");
    }
    let chars = characters(text);
    let mut out: String = String::new();
    let mut i: usize = 0;
    let ghost all = replaced(text@, ' ', '-');
    proof {
        assert(out@ =~= all.take(0));
    }
    while i < chars.len()
        invariant
            i <= chars@.len(),
            chars@ == text@,
            all == replaced(text@, ' ', '-'),
            out@ == all.take(i as int),
            "-"@ == seq!['-'],
        decreases chars@.len() - i,
    {
        if chars[i] == ' ' {
            push_char_of(&mut out, "-", 0);
        } else {
            push_char_of(&mut out, text, i);
        }
        proof {
            assert(all.take(i + 1) =~= all.take(i as int).push(all[i as int]));
        }
        i += 1;
    }
    proof {
        assert(all.take(i as int) =~= all);
    }
    out
}

/// A text without `prefix`, as often as it starts with it.
pub fn strip(text: &str, prefix: &str) -> (rest: String)
    requires
        prefix@.len() > 0,
    ensures
        rest@ == stripped(text@, prefix@),
{
    let chars = characters(text);
    let lead = characters(prefix);
    let mut at: usize = 0;
    proof {
        assert(text@.skip(0) =~= text@);
    }
    while lead.len() <= chars.len() - at && stands_at(&chars, &lead, at)
        invariant
            at <= chars@.len(),
            chars@ == text@,
            lead@ == prefix@,
            prefix@.len() > 0,
            stripped(text@, prefix@) == stripped(text@.skip(at as int), prefix@),
        decreases chars@.len() - at,
    {
        proof {
            let here = text@.skip(at as int);
            assert(here.take(prefix@.len() as int) =~= text@.subrange(
                at as int,
                at + prefix@.len(),
            ));
            assert(here.skip(prefix@.len() as int) =~= text@.skip(at + prefix@.len()));
        }
        at += lead.len();
    }
    proof {
        let here = text@.skip(at as int);
        if prefix@.len() <= here.len() {
            assert(here.take(prefix@.len() as int) =~= text@.subrange(
                at as int,
                at + prefix@.len(),
            ));
        }
        assert(text@.subrange(at as int, text@.len() as int) =~= here);
    }
    text.substring_char(at, chars.len()).to_owned()
}

/// The number that a text spells for an `i32`.
pub open spec fn parsed_i32(s: Seq<char>) -> Option<i32> {
    match parsed_i64(s) {
        Some(n) => if i32::MIN <= n <= i32::MAX {
            Some(n as i32)
        } else {
            None
        },
        None => None,
    }
}

/// The number that a text spells for an `i32`.
pub fn parse_i32(s: &[char]) -> (n: Option<i32>)
    ensures
        n == parsed_i32(s@),
{
    match parse_i64(s) {
        Some(n) => if -0x8000_0000 <= n && n <= 0x7fff_ffff {
            Some(n as i32)
        } else {
            None
        },
        None => None,
    }
}

/// Where the digits of `s` that start at `at` end.
pub open spec fn digits_end(s: Seq<char>, at: int) -> int
    decreases s.len() - at,
{
    if 0 <= at < s.len() && digit(s[at]) {
        digits_end(s, at + 1)
    } else {
        at
    }
}

/// Where what follows a sign at `at` starts, if there is a sign.
pub open spec fn past_sign(s: Seq<char>, at: int) -> int {
    if at < s.len() && (s[at] == '+' || s[at] == '-') {
        at + 1
    } else {
        at
    }
}

/// From `at` on, `s` is an exponent and nothing else.
pub open spec fn exponent_text(s: Seq<char>, at: int) -> bool {
    let from = past_sign(s, at + 1);
    let end = digits_end(s, from);
    (s[at] == 'e' || s[at] == 'E') && from < end && end == s.len()
}

/// `s` is a decimal number: a sign, digits with a point among, before or
/// behind them, and an exponent, of which only digits have to be there.
pub open spec fn decimal_text(s: Seq<char>) -> bool {
    let from = past_sign(s, 0);
    let whole = digits_end(s, from);
    let pointed = whole < s.len() && s[whole] == '.';
    let end = if pointed {
        digits_end(s, whole + 1)
    } else {
        whole
    };
    &&& from < whole || (pointed && whole + 1 < end)
    &&& end == s.len() || exponent_text(s, end)
}

/// Where the digits of `s` that start at `at` end.
fn skip_digits(s: &[char], at: usize) -> (end: usize)
    requires
        at <= s.len(),
    ensures
        end == digits_end(s@, at as int),
        at <= end <= s.len(),
{
    let mut end: usize = at;
    while end < s.len() && '0' <= s[end] && s[end] <= '9'
        invariant
            at <= end <= s.len(),
            digits_end(s@, at as int) == digits_end(s@, end as int),
        decreases s.len() - end,
    {
        end = end + 1;
    }
    end
}

/// Where what follows a sign at `at` starts, if there is a sign.
fn skip_sign(s: &[char], at: usize) -> (from: usize)
    requires
        at <= s.len(),
    ensures
        from == past_sign(s@, at as int),
        at <= from <= s.len(),
{
    if at < s.len() && (s[at] == '+' || s[at] == '-') {
        at + 1
    } else {
        at
    }
}

/// Whether `s` is a decimal number.
pub fn is_decimal(s: &[char]) -> (yes: bool)
    ensures
        yes == decimal_text(s@),
{
    let from = skip_sign(s, 0);
    let whole = skip_digits(s, from);
    let pointed = whole < s.len() && s[whole] == '.';
    let end: usize = if pointed {
        skip_digits(s, whole + 1)
    } else {
        whole
    };
    if from == whole && !(pointed && whole + 1 < end) {
        return false;
    }
    if end == s.len() {
        return true;
    }
    if s[end] != 'e' && s[end] != 'E' {
        return false;
    }
    let first = skip_sign(s, end + 1);
    let last = skip_digits(s, first);
    first < last && last == s.len()
}

/// A decimal number reads back as what it stands for: it is digits, worth by
/// their places what was written, and it does not begin with a zero unless it
/// is one.
pub proof fn a_number_reads_back(n: nat)
    ensures
        decimal(n).len() > 0,
        all_digits(decimal(n)),
        digits_value(decimal(n)) == n,
        decimal(n)[0] == '0' ==> n == 0,
        n <= u64::MAX ==> parsed_u64(decimal(n)) == Some(n as u64),
        n <= i64::MAX ==> parsed_i64(decimal(n)) == Some(n as i64),
    decreases n,
{
    let text = decimal(n);
    if n < 10 {
        assert(text.drop_last().len() == 0);
        assert(digits_value(text.drop_last()) == 0);
        assert(text.last() == text[0]);
    } else {
        let before = decimal(n / 10);
        a_number_reads_back(n / 10);
        assert(text.drop_last() =~= before);
        assert(text.last() == digit_char((n % 10) as int));
        assert forall|i: int| 0 <= i < text.len() implies digit(#[trigger] text[i]) by {
            if i < before.len() {
                assert(text[i] == before[i]);
            }
        }
        assert(text[0] == before[0]);
    }
    assert(digit(text[0]));
}

/// A signed number reads back too.
pub proof fn a_signed_number_reads_back(n: i64)
    ensures
        parsed_i64(signed_decimal(n as int)) == Some(n),
{
    if n < 0 {
        a_number_reads_back((-n) as nat);
        assert(signed_decimal(n as int).skip(1) =~= decimal((-n) as nat));
    } else {
        a_number_reads_back(n as nat);
    }
}

/// What stands between two texts stands in the whole.
pub proof fn lemma_holds(whole: Seq<char>, front: Seq<char>, part: Seq<char>, back: Seq<char>)
    requires
        whole == front + part + back,
    ensures
        holds_text(whole, part),
{
    let i = front.len() as int;
    assert(whole.subrange(i, i + part.len()) =~= part);
}

/// Texts of the same front and back that are the same are the same between.
pub proof fn lemma_same_between(front: Seq<char>, a: Seq<char>, b: Seq<char>, back: Seq<char>)
    requires
        front + a + back == front + b + back,
    ensures
        a == b,
{
    let (x, y) = (front + a + back, front + b + back);
    let n = front.len() as int;
    assert(x.len() == n + a.len() + back.len() && y.len() == n + b.len() + back.len());
    assert(x.subrange(n, n + a.len()) =~= a);
    assert(y.subrange(n, n + b.len()) =~= b);
}

/// Zeros in front change neither that a text is a number nor which.
pub proof fn lemma_zeros(count: nat, digits: Seq<char>)
    requires
        all_digits(digits),
    ensures
        all_digits(Seq::new(count, |i: int| '0') + digits),
        digits_value(Seq::new(count, |i: int| '0') + digits) == digits_value(digits),
    decreases digits.len(), count,
{
    let zeros = Seq::new(count, |i: int| '0');
    let all = zeros + digits;
    assert forall|i: int| 0 <= i < all.len() implies digit(#[trigger] all[i]) by {
        if i >= count {
            assert(all[i] == digits[i - count]);
        }
    }
    if digits.len() > 0 {
        let shorter = digits.drop_last();
        assert forall|i: int| 0 <= i < shorter.len() implies digit(#[trigger] shorter[i]) by {
            assert(shorter[i] == digits[i]);
        }
        lemma_zeros(count, shorter);
        assert(all.drop_last() =~= zeros + shorter);
        assert(all.last() == digits.last());
    } else if count > 0 {
        lemma_zeros((count - 1) as nat, digits);
        assert(all.drop_last() =~= Seq::new((count - 1) as nat, |i: int| '0') + digits);
        assert(all.last() == '0');
    } else {
        assert(all =~= digits);
    }
}

/// A text without white space at its ends is as it is.
pub proof fn lemma_trimmed_is(s: Seq<char>)
    requires
        s.len() > 0 ==> !space(s[0]) && !space(s.last()),
    ensures
        trimmed(s) == s,
{
}

} // verus!
