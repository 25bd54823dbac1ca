//! Character-level building blocks of the flat text format: decimal numbers,
//! fields delimited by a separator, and lines.

use vstd::prelude::*;

verus! {

/// Trusted, not proved: `String::push` of the standard library appends the
/// given character to the end of the string. The string afterwards is the
/// string before with `ch` as one more, last character.
pub assume_specification[ String::push ](s: &mut String, ch: char)
    ensures
        final(s)@ == old(s)@.push(ch),
;

/// Whether `c` is one of the ten ASCII decimal digits.
pub open spec fn is_digit(c: char) -> bool {
    '0' <= c <= '9'
}

/// The number a digit stands for; zero for any other character.
pub open spec fn digit_value(c: char) -> nat {
    if is_digit(c) {
        (c as int - '0' as int) as nat
    } else {
        0
    }
}

/// The digit that stands for `d`, for `d` below ten.
pub open spec fn digit_char(d: nat) -> char
    recommends
        d < 10,
{
    (('0' as u8 + d) as u8) as char
}

/// Whether every character of `s` is a decimal digit.
pub open spec fn all_digits(s: Seq<char>) -> bool {
    forall|i: int| 0 <= i < s.len() ==> is_digit(#[trigger] s[i])
}

/// The number that a sequence of digits denotes in base ten, most significant
/// digit first. The empty sequence denotes zero.
pub open spec fn decimal_value(s: Seq<char>) -> nat
    decreases s.len(),
{
    if s.len() == 0 {
        0
    } else {
        decimal_value(s.drop_last()) * 10 + digit_value(s.last())
    }
}

/// The shortest decimal notation of `n`: no sign, no leading zeros, and the
/// single digit `0` for zero.
pub open spec fn decimal(n: nat) -> Seq<char>
    decreases n,
{
    if n < 10 {
        seq![digit_char(n)]
    } else {
        decimal(n / 10).push(digit_char(n % 10))
    }
}

/// What a field denotes as an unsigned 32-bit number, if anything: an
/// optional `+`, then at least one digit and nothing else, with a value
/// that fits in 32 bits. Leading zeros are allowed; spaces are not.
pub open spec fn parsed_u32(s: Seq<char>) -> Option<u32> {
    let digits = if s.len() > 0 && s[0] == '+' {
        s.drop_first()
    } else {
        s
    };
    if digits.len() > 0 && all_digits(digits) && decimal_value(digits) <= u32::MAX {
        Some(decimal_value(digits) as u32)
    } else {
        None
    }
}

/// Position of the first occurrence of `c` in `s`, or the length of `s`
/// where `c` does not occur.
pub open spec fn first_index(s: Seq<char>, c: char) -> int
    decreases s.len(),
{
    if s.len() == 0 || s[0] == c {
        0
    } else {
        1 + first_index(s.drop_first(), c)
    }
}

/// The pieces of `s` between occurrences of `sep`. There is always one piece
/// more than there are separators, and pieces may be empty.
pub open spec fn split_on(s: Seq<char>, sep: char) -> Seq<Seq<char>>
    decreases s.len(),
{
    let i = first_index(s, sep);
    if 0 <= i < s.len() {
        seq![s.take(i)] + split_on(s.skip(i + 1), sep)
    } else {
        seq![s]
    }
}

/// A line without the carriage return that may precede its line feed.
pub open spec fn strip_cr(line: Seq<char>) -> Seq<char> {
    if line.len() > 0 && line.last() == '\r' {
        line.drop_last()
    } else {
        line
    }
}

/// The lines of a text. A line ends at a line feed, and a carriage return
/// directly before that line feed belongs to the line ending. The last line
/// needs no line ending, and a text that ends with one has no empty line
/// after it.
pub open spec fn lines_of(text: Seq<char>) -> Seq<Seq<char>>
    decreases text.len(),
{
    let i = first_index(text, '\n');
    if text.len() == 0 {
        Seq::empty()
    } else if 0 <= i < text.len() {
        seq![strip_cr(text.take(i))] + lines_of(text.skip(i + 1))
    } else {
        seq![text]
    }
}

/// `first_index` is in range, nothing before it is `c`, and where it is a
/// position of `s` that position holds `c`.
pub proof fn lemma_first_index(s: Seq<char>, c: char)
    ensures
        0 <= first_index(s, c) <= s.len(),
        forall|j: int| 0 <= j < first_index(s, c) ==> s[j] != c,
        first_index(s, c) < s.len() ==> s[first_index(s, c)] == c,
    decreases s.len(),
{
    if s.len() == 0 || s[0] == c {
    } else {
        let rest = s.drop_first();
        lemma_first_index(rest, c);
        assert forall|j: int| 0 <= j < first_index(s, c) implies s[j] != c by {
            if j > 0 {
                assert(s[j] == rest[j - 1]);
            }
        }
        assert(first_index(s, c) < s.len() ==> s[first_index(s, c)] == rest[first_index(rest, c)]);
    }
}

/// A position that holds the first `c`, or the length where there is none,
/// is what `first_index` gives.
pub proof fn lemma_first_index_is(s: Seq<char>, c: char, i: int)
    requires
        0 <= i <= s.len(),
        forall|j: int| 0 <= j < i ==> s[j] != c,
        i < s.len() ==> s[i] == c,
    ensures
        first_index(s, c) == i,
    decreases s.len(),
{
    if s.len() == 0 || s[0] == c {
    } else {
        let rest = s.drop_first();
        assert forall|j: int| 0 <= j < i - 1 implies rest[j] != c by {
            assert(rest[j] == s[j + 1]);
        }
        lemma_first_index_is(rest, c, i - 1);
    }
}

/// Splitting what follows position `from`, given the position `i` of the
/// next separator, or the length where none follows.
pub proof fn lemma_split_on_from(s: Seq<char>, sep: char, from: int, i: int)
    requires
        0 <= from <= i <= s.len(),
        forall|j: int| from <= j < i ==> s[j] != sep,
        i < s.len() ==> s[i] == sep,
    ensures
        i < s.len() ==> split_on(s.skip(from), sep) == seq![s.subrange(from, i)] + split_on(
            s.skip(i + 1),
            sep,
        ),
        i == s.len() ==> split_on(s.skip(from), sep) == seq![s.skip(from)],
{
    let rest = s.skip(from);
    lemma_first_index_is(rest, sep, i - from);
    if i < s.len() {
        assert(rest.take(i - from) =~= s.subrange(from, i));
        assert(rest.skip(i - from + 1) =~= s.skip(i + 1));
    }
}

/// The lines of what follows position `from`, given the position `i` of the
/// next line feed, or the length where none follows.
pub proof fn lemma_lines_of_from(text: Seq<char>, from: int, i: int)
    requires
        0 <= from <= i <= text.len(),
        from < text.len(),
        forall|j: int| from <= j < i ==> text[j] != '\n',
        i < text.len() ==> text[i] == '\n',
    ensures
        i < text.len() ==> lines_of(text.skip(from)) == seq![strip_cr(text.subrange(from, i))]
            + lines_of(text.skip(i + 1)),
        i == text.len() ==> lines_of(text.skip(from)) == seq![text.skip(from)],
{
    let rest = text.skip(from);
    lemma_first_index_is(rest, '\n', i - from);
    if i < text.len() {
        assert(rest.take(i - from) =~= text.subrange(from, i));
        assert(rest.skip(i - from + 1) =~= text.skip(i + 1));
    }
}

/// Splitting yields at least one piece.
pub proof fn lemma_split_on_nonempty(s: Seq<char>, sep: char)
    ensures
        split_on(s, sep).len() >= 1,
    decreases s.len(),
{
    let i = first_index(s, sep);
    if 0 <= i < s.len() {
        lemma_split_on_nonempty(s.skip(i + 1), sep);
    }
}

/// Whether `c` occurs nowhere in `s`.
pub open spec fn is_free_of(s: Seq<char>, c: char) -> bool {
    forall|i: int| 0 <= i < s.len() ==> s[i] != c
}

/// A sequence without separator is one piece.
pub proof fn lemma_split_on_one(s: Seq<char>, sep: char)
    requires
        is_free_of(s, sep),
    ensures
        split_on(s, sep) == seq![s],
{
    lemma_first_index_is(s, sep, s.len() as int);
}

/// The first piece ends at the first separator, and the other pieces are
/// those of what follows it.
pub proof fn lemma_split_on_first(head: Seq<char>, tail: Seq<char>, sep: char)
    requires
        is_free_of(head, sep),
    ensures
        split_on(head + seq![sep] + tail, sep) == seq![head] + split_on(tail, sep),
{
    let s = head + seq![sep] + tail;
    let i = head.len() as int;
    assert(s[i] == sep);
    lemma_first_index_is(s, sep, i);
    assert(s.take(i) =~= head);
    assert(s.skip(i + 1) =~= tail);
}

/// After a text that is empty or ends with a line feed, the lines of what
/// follows come after the lines of that text.
pub proof fn lemma_lines_of_concat(a: Seq<char>, b: Seq<char>)
    requires
        a.len() == 0 || a.last() == '\n',
    ensures
        lines_of(a + b) == lines_of(a) + lines_of(b),
    decreases a.len(),
{
    if a.len() == 0 {
        assert(a + b =~= b);
        assert(lines_of(a) + lines_of(b) =~= lines_of(b));
    } else {
        let i = first_index(a, '\n');
        lemma_first_index(a, '\n');
        assert(0 <= i < a.len()) by {
            if i == a.len() {
                assert(a[a.len() - 1] != '\n');
            }
        }
        let whole = a + b;
        assert forall|j: int| 0 <= j < i implies whole[j] != '\n' by {
            assert(whole[j] == a[j]);
        }
        assert(whole[i] == a[i]);
        lemma_first_index_is(whole, '\n', i);
        let rest = a.skip(i + 1);
        assert(rest.len() == 0 || rest.last() == '\n') by {
            if rest.len() > 0 {
                assert(rest.last() == a.last());
            }
        }
        lemma_lines_of_concat(rest, b);
        assert(whole.skip(i + 1) =~= rest + b);
        assert(whole.take(i) =~= a.take(i));
        assert(lines_of(whole) =~= lines_of(a) + lines_of(b));
    }
}

/// A text of one line with its line feed has that one line.
pub proof fn lemma_lines_of_one(line: Seq<char>)
    requires
        is_free_of(line, '\n'),
    ensures
        lines_of(line + seq!['\n']) == seq![strip_cr(line)],
{
    let text = line + seq!['\n'];
    let i = line.len() as int;
    assert(text[i] == '\n');
    assert forall|j: int| 0 <= j < i implies text[j] != '\n' by {
        assert(text[j] == line[j]);
    }
    lemma_first_index_is(text, '\n', i);
    assert(text.take(i) =~= line);
    assert(text.skip(i + 1) =~= Seq::<char>::empty());
    assert(lines_of(text.skip(i + 1)) =~= Seq::<Seq<char>>::empty());
    assert(lines_of(text) =~= seq![strip_cr(line)]);
}

/// A prefix of a digit sequence denotes no more than the whole.
pub proof fn lemma_decimal_value_prefix(s: Seq<char>, k: int)
    requires
        0 <= k <= s.len(),
    ensures
        decimal_value(s.take(k)) <= decimal_value(s),
    decreases s.len(),
{
    if k == s.len() {
        assert(s.take(k) =~= s);
    } else {
        lemma_decimal_value_prefix(s.drop_last(), k);
        assert(s.drop_last().take(k) =~= s.take(k));
    }
}

/// The decimal notation of a number consists of digits, is not empty, and
/// denotes that number.
pub proof fn lemma_decimal(n: nat)
    ensures
        decimal(n).len() > 0,
        all_digits(decimal(n)),
        decimal_value(decimal(n)) == n,
    decreases n,
{
    if n < 10 {
        let s = decimal(n);
        assert(s.drop_last() =~= Seq::<char>::empty());
        assert(decimal_value(s.drop_last()) == 0);
    } else {
        lemma_decimal(n / 10);
        let s = decimal(n);
        assert(s.drop_last() =~= decimal(n / 10));
    }
}

/// The characters of a string slice, in order.
pub fn chars_of(s: &str) -> (chars: Vec<char>)
    ensures
        chars@ == s@,
{
    let mut chars: Vec<char> = Vec::new();
    for c in it: s.chars()
        invariant
            it.seq() == s@,
            chars@ == it.seq().take(it.index() as int),
    {
        chars.push(c);
    }
    chars
}

/// A string made of the given characters, in order.
pub fn string_of(chars: &[char]) -> (s: String)
    ensures
        s@ == chars@,
{
    let mut s = String::new();
    let mut i: usize = 0;
    while i < chars.len()
        invariant
            i <= chars.len(),
            s@ == chars@.take(i as int),
        decreases chars.len() - i,
    {
        s.push(chars[i]);
        i += 1;
    }
    s
}

/// Finds the first `c` at or after position `from`; gives the length where
/// there is none.
pub fn find_char(chars: &[char], from: usize, c: char) -> (i: usize)
    requires
        from <= chars.len(),
    ensures
        from <= i <= chars.len(),
        forall|j: int| from <= j < i ==> chars@[j] != c,
        i < chars.len() ==> chars@[i as int] == c,
        i - from == first_index(chars@.skip(from as int), c),
{
    let mut i: usize = from;
    while i < chars.len() && chars[i] != c
        invariant
            from <= i <= chars.len(),
            forall|j: int| from <= j < i ==> chars@[j] != c,
        decreases chars.len() - i,
    {
        i += 1;
    }
    proof {
        lemma_first_index_is(chars@.skip(from as int), c, i - from);
    }
    i
}

/// Reads an unsigned 32-bit number in decimal notation.
pub fn parse_u32(field: &[char]) -> (r: Option<u32>)
    ensures
        r == parsed_u32(field@),
{
    let n = field.len();
    let start: usize = if n > 0 && field[0] == '+' {
        1
    } else {
        0
    };
    if start == n {
        return None;
    }
    let ghost digits = if field@.len() > 0 && field@[0] == '+' {
        field@.drop_first()
    } else {
        field@
    };
    assert(digits =~= field@.skip(start as int));
    let mut acc: u64 = 0;
    let mut i: usize = start;
    while i < n
        invariant
            start <= i <= n,
            n == field.len(),
            digits == field@.skip(start as int),
            parsed_u32(field@) == if digits.len() > 0 && all_digits(digits) && decimal_value(
                digits,
            ) <= u32::MAX {
                Some(decimal_value(digits) as u32)
            } else {
                None
            },
            all_digits(digits.take(i - start)),
            acc == decimal_value(digits.take(i - start)),
            acc <= u32::MAX,
        decreases n - i,
    {
        let c = field[i];
        if !(c >= '0' && c <= '9') {
            assert(!is_digit(digits[i - start]));
            return None;
        }
        acc = acc * 10 + (c as u32 - '0' as u32) as u64;
        proof {
            let next = digits.take(i - start + 1);
            assert(next.drop_last() =~= digits.take(i - start));
            assert(next.last() == c);
            assert(acc == decimal_value(next));
            lemma_decimal_value_prefix(digits, i - start + 1);
        }
        if acc > u32::MAX as u64 {
            return None;
        }
        i += 1;
    }
    assert(digits.take(i - start) =~= digits);
    Some(acc as u32)
}

/// Appends the decimal notation of `n`.
pub fn push_decimal(out: &mut String, n: u32)
    ensures
        final(out)@ == old(out)@ + decimal(n as nat),
    decreases n,
{
    if n >= 10 {
        push_decimal(out, n / 10);
    }
    out.push((48u8 + (n % 10) as u8) as char);
    proof {
        if n < 10 {
            assert(old(out)@.push(digit_char(n as nat)) =~= old(out)@ + decimal(n as nat));
        } else {
            assert((old(out)@ + decimal((n / 10) as nat)).push(digit_char((n % 10) as nat))
                =~= old(out)@ + decimal(n as nat));
        }
    }
}

} // verus!
