//! Which font file is used, as a setting or another program names it.
use vstd::prelude::*;

use crate::text;
use crate::uri;

verus! {

/// The number that decimal digits stand for. Anything but digits stands for none.
pub open spec fn digits_value(s: Seq<char>) -> Option<int>
    decreases s.len(),
{
    if s.len() == 0 {
        Some(0)
    } else {
        match digits_value(s.drop_last()) {
            Some(v) => if '0' <= s.last() <= '9' {
                Some(v * 10 + (s.last() as int - '0' as int))
            } else {
                None
            },
            None => None,
        }
    }
}

/// The 32-bit number that a text stands for: decimal digits, perhaps after a plus sign.
pub open spec fn number_in(s: Seq<char>) -> Option<u32> {
    let digits = if s.len() > 0 && s[0] == '+' {
        s.skip(1)
    } else {
        s
    };
    match digits_value(digits) {
        Some(v) => if digits.len() > 0 && v <= u32::MAX {
            Some(v as u32)
        } else {
            None
        },
        None => None,
    }
}

/// Where `c` is last found, or a negative number where it is not.
pub open spec fn last_index_of(s: Seq<char>, c: char) -> int
    decreases s.len(),
{
    if s.len() == 0 {
        -1
    } else if s.last() == c {
        s.len() - 1
    } else {
        last_index_of(s.drop_last(), c)
    }
}

/// The path and the index of the font in a setting: a path, or a path, a colon and an index.
pub open spec fn setting_of(s: Seq<char>) -> (Seq<char>, u32) {
    let i = last_index_of(s, ':');
    if i < 0 {
        (s, 0)
    } else {
        match number_in(s.skip(i + 1)) {
            Some(index) => (s.take(i), index),
            None => (s, 0),
        }
    }
}

/// The first line of a text. It ends with a line feed, perhaps after a carriage return, or with the
/// text.
pub open spec fn first_line(s: Seq<char>) -> Seq<char> {
    let n = uri::index_of(s, '\n');
    if n >= s.len() {
        s
    } else if n > 0 && s[n - 1] == '\r' {
        s.take(n - 1)
    } else {
        s.take(n)
    }
}

/// What follows the first line.
pub open spec fn other_lines(s: Seq<char>) -> Seq<char> {
    let n = uri::index_of(s, '\n');
    if n >= s.len() {
        seq![]
    } else {
        s.skip(n + 1)
    }
}

/// The path and the index in the answer of a font search, which has them on one line each.
pub open spec fn match_of(s: Seq<char>) -> Option<(Seq<char>, u32)> {
    if s.len() == 0 {
        None
    } else {
        Some(
            (
                first_line(s),
                match number_in(first_line(other_lines(s))) {
                    Some(index) => index,
                    None => 0,
                },
            ),
        )
    }
}

/// Once a text is no number, no longer one is.
proof fn digits_stop(s: Seq<char>, n: int)
    requires
        0 <= n <= s.len(),
        digits_value(s.take(n)) is None,
    ensures
        digits_value(s) is None,
    decreases s.len() - n,
{
    if n < s.len() {
        assert(s.take(n + 1).drop_last() =~= s.take(n));
        digits_stop(s, n + 1);
    } else {
        assert(s.take(n) =~= s);
    }
}

/// Digits stand for more the more of them there are.
proof fn digits_grow(s: Seq<char>, n: int)
    requires
        0 <= n <= s.len(),
        digits_value(s) is Some,
    ensures
        digits_value(s.take(n)) matches Some(v) && 0 <= v <= digits_value(s)->0,
    decreases s.len(),
{
    if n == s.len() {
        assert(s.take(n) =~= s);
        if s.len() > 0 {
            digits_grow(s.drop_last(), s.len() - 1);
            assert(s.drop_last().take(s.len() - 1) =~= s.drop_last());
        }
    } else {
        digits_grow(s.drop_last(), n);
        assert(s.drop_last().take(n) =~= s.take(n));
    }
}

/// The 32-bit number between `a` and `b`.
fn read_number(s: &Vec<char>, a: usize, b: usize) -> (r: Option<u32>)
    requires
        a <= b <= s@.len(),
    ensures
        r == number_in(s@.subrange(a as int, b as int)),
{
    let ghost all = s@.subrange(a as int, b as int);
    let from: usize = if a < b && s[a] == '+' { a + 1 } else { a };
    let ghost digits = s@.subrange(from as int, b as int);
    assert(from > a ==> all.skip(1) =~= digits);
    if from == b {
        return None;
    }
    let mut v: u64 = 0;
    let mut i: usize = from;
    assert(digits.take(0) =~= seq![]);
    while i < b
        invariant
            a <= from <= i <= b <= s@.len(),
            from < b,
            all == s@.subrange(a as int, b as int),
            digits == s@.subrange(from as int, b as int),
            digits == if all.len() > 0 && all[0] == '+' {
                all.skip(1)
            } else {
                all
            },
            digits_value(digits.take(i - from)) == Some(v as int),
            v <= u32::MAX,
        decreases b - i,
    {
        let c = s[i];
        proof {
            assert(digits.take(i - from + 1).drop_last() =~= digits.take(i - from));
            assert(digits.take(i - from + 1).last() == c);
        }
        if c < '0' || c > '9' {
            proof {
                digits_stop(digits, i - from + 1);
            }
            return None;
        }
        v = v * 10 + (c as u32 - '0' as u32) as u64;
        if v > u32::MAX as u64 {
            proof {
                if digits_value(digits) is Some {
                    digits_grow(digits, i - from + 1);
                }
            }
            return None;
        }
        i = i + 1;
    }
    assert(digits.take(i - from) =~= digits);
    Some(v as u32)
}

/// The path and the index of the font in a setting.
pub fn font_setting(value: &str) -> (r: (String, u32))
    ensures
        (r.0@, r.1) == setting_of(value@),
{
    let s = text::characters(value);
    let mut i: usize = s.len();
    assert(s@.take(i as int) =~= s@);
    while i > 0 && s[i - 1] != ':'
        invariant
            s@ == value@,
            i <= s@.len(),
            last_index_of(s@, ':') == last_index_of(s@.take(i as int), ':'),
        decreases i,
    {
        assert(s@.take(i as int).drop_last() =~= s@.take(i - 1));
        i = i - 1;
    }
    if i > 0 {
        assert(s@.take(i as int).last() == ':');
        assert(s@.subrange(i as int, s@.len() as int) =~= s@.skip(i as int));
        if let Some(index) = read_number(&s, i, s.len()) {
            assert(value@.subrange(0, i - 1) =~= value@.take(i - 1));
            return (value.substring_char(0, i - 1).to_owned(), index);
        }
    }
    (value.to_owned(), 0)
}

/// Where the line from `a` on ends, and where the next one begins.
fn line_from(s: &Vec<char>, a: usize) -> (r: (usize, usize))
    requires
        a <= s@.len(),
    ensures
        a <= r.0 <= s@.len(),
        a <= r.1 <= s@.len(),
        s@.subrange(a as int, r.0 as int) == first_line(s@.skip(a as int)),
        s@.skip(r.1 as int) == other_lines(s@.skip(a as int)),
{
    let n: usize = s.len();
    let end: usize = uri::find(s, a, n, '\n');
    let ghost rest = s@.skip(a as int);
    assert(s@.subrange(a as int, n as int) =~= rest);
    if end >= n {
        assert(s@.subrange(a as int, n as int) =~= first_line(rest));
        assert(s@.skip(n as int) =~= other_lines(rest));
        return (n, n);
    }
    let stop: usize = if end > a && s[end - 1] == '\r' { end - 1 } else { end };
    assert(s@.subrange(a as int, stop as int) =~= first_line(rest));
    assert(s@.skip(end + 1) =~= other_lines(rest));
    (stop, end + 1)
}

/// The path and the index in the answer of a font search.
pub fn font_match(answer: &str) -> (r: Option<(String, u32)>)
    ensures
        match r {
            Some((path, index)) => match_of(answer@) == Some((path@, index)),
            None => match_of(answer@) is None,
        },
{
    let s = text::characters(answer);
    if s.len() == 0 {
        return None;
    }
    assert(s@.skip(0) =~= s@);
    let (stop, next) = line_from(&s, 0);
    let (second_stop, _) = line_from(&s, next);
    let index: u32 = match read_number(&s, next, second_stop) {
        Some(v) => v,
        None => 0,
    };
    Some((answer.substring_char(0, stop).to_owned(), index))
}

/// The digits of a number are digits, and stand for it.
pub proof fn numbers_are_read_back(n: nat)
    ensures
        digits_value(text::decimal_text(n)) == Some(n as int),
        text::decimal_text(n).len() > 0,
        forall|i: int|
            0 <= i < text::decimal_text(n).len() ==> '0' <= #[trigger] text::decimal_text(n)[i]
                <= '9',
    decreases n,
{
    let s = text::decimal_text(n);
    if n < 10 {
        reveal_with_fuel(digits_value, 2);
        assert(s.drop_last() =~= seq![]);
        assert(s.last() as int == '0' as int + n);
    } else {
        numbers_are_read_back(n / 10);
        assert(s.drop_last() =~= text::decimal_text(n / 10));
        assert(s.last() as int == '0' as int + n % 10);
        assert(n / 10 * 10 + n % 10 == n);
    }
}

/// A character is found where it last stands.
proof fn last_place_of(a: Seq<char>, c: char, b: Seq<char>)
    requires
        forall|i: int| 0 <= i < b.len() ==> (#[trigger] b[i]) != c,
    ensures
        last_index_of(a + seq![c] + b, c) == a.len(),
        last_index_of(b, c) < 0,
    decreases b.len(),
{
    let s = a + seq![c] + b;
    if b.len() > 0 {
        let rest = b.drop_last();
        assert(s.last() == b[b.len() - 1]);
        assert(s.drop_last() =~= a + seq![c] + rest);
        assert forall|i: int| 0 <= i < rest.len() implies (#[trigger] rest[i]) != c by {
            assert(rest[i] == b[i]);
        }
        last_place_of(a, c, rest);
    } else {
        assert(s.last() == c);
    }
}

/// A setting with an index is read back: the path, which may hold colons too, and the index.
pub proof fn settings_are_read_back(path: Seq<char>, index: u32)
    ensures
        setting_of(path + seq![':'] + text::decimal_text(index as nat)) == (path, index),
{
    let digits = text::decimal_text(index as nat);
    numbers_are_read_back(index as nat);
    last_place_of(path, ':', digits);
    let s = path + seq![':'] + digits;
    assert(s.skip(path.len() as int + 1) =~= digits);
    assert(s.take(path.len() as int) =~= path);
    assert('0' <= digits[0]);
}

/// A setting without a colon is a path alone.
pub proof fn plain_settings_are_paths(path: Seq<char>)
    requires
        forall|i: int| 0 <= i < path.len() ==> (#[trigger] path[i]) != ':',
    ensures
        setting_of(path) == (path, 0u32),
{
    last_place_of(seq![], ':', path);
}

/// A setting whose last colon is not followed by a number is a path alone.
pub proof fn settings_with_other_colons_are_paths(path: Seq<char>, tail: Seq<char>, k: int)
    requires
        forall|i: int| 0 <= i < tail.len() ==> (#[trigger] tail[i]) != ':',
        0 <= k < tail.len(),
        tail[k] < '0' || tail[k] > '9',
        k == 0 ==> tail[k] != '+',
    ensures
        setting_of(path + seq![':'] + tail) == (path + seq![':'] + tail, 0u32),
{
    let s = path + seq![':'] + tail;
    last_place_of(path, ':', tail);
    assert(s.skip(path.len() as int + 1) =~= tail);
    let digits = if tail[0] == '+' {
        tail.skip(1)
    } else {
        tail
    };
    let at = if tail[0] == '+' {
        k - 1
    } else {
        k
    };
    assert(digits[at] == tail[k]);
    assert(digits.take(at + 1).last() == tail[k]);
    digits_stop(digits, at + 1);
}

/// The answer of a font search is read back: the path on the first line and the index on the second,
/// whichever way the lines end.
pub proof fn answers_are_read_back(
    path: Seq<char>,
    index: u32,
    rest: Seq<char>,
    carried: bool,
)
    requires
        forall|i: int| 0 <= i < path.len() ==> (#[trigger] path[i]) != '\n',
        path.len() > 0,
        path.last() != '\r',
    ensures
        ({
            let end = if carried {
                seq!['\r', '\n']
            } else {
                seq!['\n']
            };
            match_of(path + end + (text::decimal_text(index as nat) + end + rest)) == Some(
                (path, index),
            )
        }),
{
    let end = if carried {
        seq!['\r', '\n']
    } else {
        seq!['\n']
    };
    let digits = text::decimal_text(index as nat);
    numbers_are_read_back(index as nat);
    let second = digits + end + rest;
    lines_end(path, second, carried);
    lines_end(digits, rest, carried);
    assert('0' <= digits[0]);
}

/// A line ends with a line feed, perhaps after a carriage return.
proof fn lines_end(line: Seq<char>, rest: Seq<char>, carried: bool)
    requires
        forall|i: int| 0 <= i < line.len() ==> (#[trigger] line[i]) != '\n',
        line.len() > 0 ==> line.last() != '\r',
    ensures
        ({
            let end = if carried {
                seq!['\r', '\n']
            } else {
                seq!['\n']
            };
            &&& first_line(line + end + rest) == line
            &&& other_lines(line + end + rest) == rest
        }),
{
    let end = if carried {
        seq!['\r', '\n']
    } else {
        seq!['\n']
    };
    let s = line + end + rest;
    let head = if carried {
        line + seq!['\r']
    } else {
        line
    };
    assert(s =~= head + seq!['\n'] + rest);
    assert forall|i: int| 0 <= i < head.len() implies (#[trigger] head[i]) != '\n' by {}
    uri::first_place_of(head, '\n', rest);
    let n = head.len() as int;
    assert(s.skip(n + 1) =~= rest);
    if carried {
        assert(s[n - 1] == '\r');
        assert(s.take(n - 1) =~= line);
    } else {
        assert(n > 0 ==> s[n - 1] == line.last());
        assert(s.take(n) =~= line);
    }
}

/// Only an empty answer names no font.
pub proof fn empty_answers_name_nothing(s: Seq<char>)
    ensures
        match_of(s) is None <==> s.len() == 0,
{
}

} // verus!
