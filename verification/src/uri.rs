//! Lists of files as other programs write them.
use vstd::prelude::*;

use crate::text;

verus! {

/// Whether the character is white space.
pub open spec fn is_space(c: char) -> bool {
    ||| '\t' <= c <= '\r'
    ||| c == ' '
    ||| c == '\u{85}'
    ||| c == '\u{A0}'
    ||| c == '\u{1680}'
    ||| '\u{2000}' <= c <= '\u{200A}'
    ||| c == '\u{2028}'
    ||| c == '\u{2029}'
    ||| c == '\u{202F}'
    ||| c == '\u{205F}'
    ||| c == '\u{3000}'
}

/// `s` without white space at its beginning.
pub open spec fn without_front(s: Seq<char>) -> Seq<char>
    decreases s.len(),
{
    if s.len() > 0 && is_space(s[0]) {
        without_front(s.skip(1))
    } else {
        s
    }
}

/// `s` without white space at its end.
pub open spec fn without_back(s: Seq<char>) -> Seq<char>
    decreases s.len(),
{
    if s.len() > 0 && is_space(s.last()) {
        without_back(s.drop_last())
    } else {
        s
    }
}

/// `s` without white space around it.
pub open spec fn trimmed(s: Seq<char>) -> Seq<char> {
    without_front(without_back(s))
}

/// Where `c` is first found, or the length where it is not.
pub open spec fn index_of(s: Seq<char>, c: char) -> int
    decreases s.len(),
{
    if s.len() == 0 || s[0] == c {
        0
    } else {
        1 + index_of(s.skip(1), c)
    }
}

/// The value of a hexadecimal digit.
pub open spec fn hex_value(b: u8) -> Option<u8> {
    if '0' as u8 <= b <= '9' as u8 {
        Some((b - '0' as u8) as u8)
    } else if 'a' as u8 <= b <= 'f' as u8 {
        Some((b - 'a' as u8 + 10) as u8)
    } else if 'A' as u8 <= b <= 'F' as u8 {
        Some((b - 'A' as u8 + 10) as u8)
    } else {
        None
    }
}

/// The byte that a percent sign and two digits stand for, where `b` begins so.
pub open spec fn escaped(b: Seq<u8>) -> Option<u8> {
    if b.len() >= 3 && b[0] == '%' as u8 {
        match (hex_value(b[1]), hex_value(b[2])) {
            (Some(hi), Some(lo)) => Some((hi * 16 + lo) as u8),
            _ => None,
        }
    } else {
        None
    }
}

/// The bytes with each percent sign and two digits replaced by what they stand for.
pub open spec fn decoded(b: Seq<u8>) -> Seq<u8>
    decreases b.len(),
{
    if b.len() == 0 {
        seq![]
    } else {
        match escaped(b) {
            Some(v) => seq![v] + decoded(b.skip(3)),
            None => seq![b[0]] + decoded(b.skip(1)),
        }
    }
}

/// The path in what follows `file://`. A host before the first slash is left out.
pub open spec fn path_part(rest: Seq<char>) -> Seq<char> {
    let i = index_of(rest, '/');
    if i < rest.len() {
        rest.skip(i)
    } else {
        rest
    }
}

/// The path that a line gives. A comment, or anything else that is not a file, gives none.
pub open spec fn line_path(line: Seq<char>) -> Option<Seq<u8>> {
    let t = trimmed(line);
    if t.len() >= 7 && t.take(7) == "file://"@ {
        Some(decoded(vstd::utf8::encode_utf8(path_part(t.skip(7)))))
    } else {
        None
    }
}

/// `s` with `p`, where there is one.
pub open spec fn with_path(s: Seq<Seq<u8>>, p: Option<Seq<u8>>) -> Seq<Seq<u8>> {
    match p {
        Some(p) => s.push(p),
        None => s,
    }
}

/// The paths that the lines of `s` give, after those in `before`.
pub open spec fn paths_from(before: Seq<Seq<u8>>, s: Seq<char>) -> Seq<Seq<u8>>
    decreases s.len(),
{
    let n = index_of(s, '\n');
    if 0 <= n < s.len() {
        paths_from(with_path(before, line_path(s.take(n))), s.skip(n + 1))
    } else {
        with_path(before, line_path(s))
    }
}

/// Whether the character is white space.
fn space(c: char) -> (r: bool)
    ensures
        r == is_space(c),
{
    ('\t' <= c && c <= '\r') || c == ' ' || c == '\u{85}' || c == '\u{A0}' || c == '\u{1680}' || (
    '\u{2000}' <= c && c <= '\u{200A}') || c == '\u{2028}' || c == '\u{2029}' || c == '\u{202F}'
        || c == '\u{205F}' || c == '\u{3000}'
}

/// The part between `a` and `b` without white space around it.
fn trim(s: &Vec<char>, a: usize, b: usize) -> (r: (usize, usize))
    requires
        a <= b <= s@.len(),
    ensures
        a <= r.0 <= r.1 <= b,
        s@.subrange(r.0 as int, r.1 as int) == trimmed(s@.subrange(a as int, b as int)),
{
    let mut y: usize = b;
    while a < y && space(s[y - 1])
        invariant
            a <= y <= b <= s@.len(),
            without_back(s@.subrange(a as int, b as int)) == without_back(
                s@.subrange(a as int, y as int),
            ),
        decreases y,
    {
        assert(s@.subrange(a as int, y as int).drop_last() =~= s@.subrange(a as int, y - 1));
        y = y - 1;
    }
    let ghost back = s@.subrange(a as int, y as int);
    let mut x: usize = a;
    while x < y && space(s[x])
        invariant
            a <= x <= y <= b <= s@.len(),
            without_front(back) == without_front(s@.subrange(x as int, y as int)),
        decreases y - x,
    {
        assert(s@.subrange(x as int, y as int).skip(1) =~= s@.subrange(x + 1, y as int));
        x = x + 1;
    }
    (x, y)
}

/// Where `c` is first found between `a` and `b`.
pub fn find(s: &Vec<char>, a: usize, b: usize, c: char) -> (r: usize)
    requires
        a <= b <= s@.len(),
    ensures
        a <= r <= b,
        r == a + index_of(s@.subrange(a as int, b as int), c),
{
    let mut i: usize = a;
    while i < b
        invariant
            a <= i <= b <= s@.len(),
            index_of(s@.subrange(a as int, b as int), c) == i - a + index_of(
                s@.subrange(i as int, b as int),
                c,
            ),
        decreases b - i,
    {
        if s[i] == c {
            return i;
        }
        assert(s@.subrange(i as int, b as int).skip(1) =~= s@.subrange(i + 1, b as int));
        i = i + 1;
    }
    i
}

/// The value of a hexadecimal digit.
fn hex(b: u8) -> (r: Option<u8>)
    ensures
        r == hex_value(b),
{
    if '0' as u8 <= b && b <= '9' as u8 {
        Some(b - '0' as u8)
    } else if 'a' as u8 <= b && b <= 'f' as u8 {
        Some(b - 'a' as u8 + 10)
    } else if 'A' as u8 <= b && b <= 'F' as u8 {
        Some(b - 'A' as u8 + 10)
    } else {
        None
    }
}

/// The byte that a percent sign and two digits at `i` stand for.
fn escape_at(b: &[u8], i: usize) -> (r: Option<u8>)
    requires
        i < b@.len(),
    ensures
        r == escaped(b@.skip(i as int)),
{
    if b[i] != '%' as u8 || b.len() - i < 3 {
        return None;
    }
    match (hex(b[i + 1]), hex(b[i + 2])) {
        (Some(hi), Some(lo)) => Some(hi * 16 + lo),
        _ => None,
    }
}

/// The bytes of a text with each percent sign and two digits replaced by what they stand for.
pub fn percent_decode(s: &str) -> (r: Vec<u8>)
    ensures
        r@ == decoded(vstd::utf8::encode_utf8(s@)),
{
    let b = s.as_bytes();
    let mut r: Vec<u8> = Vec::new();
    let mut i: usize = 0;
    assert(b@.skip(0) =~= b@);
    while i < b.len()
        invariant
            i <= b@.len(),
            decoded(b@) =~= r@ + decoded(b@.skip(i as int)),
        decreases b@.len() - i,
    {
        match escape_at(b, i) {
            Some(v) => {
                assert(b@.skip(i as int).skip(3) =~= b@.skip(i + 3));
                r.push(v);
                i = i + 3;
            },
            None => {
                assert(b@.skip(i as int).skip(1) =~= b@.skip(i + 1));
                r.push(b[i]);
                i = i + 1;
            },
        }
    }
    r
}

/// The path that the line between `a` and `b` gives.
fn path_of_line(text: &str, s: &Vec<char>, a: usize, b: usize) -> (r: Option<Vec<u8>>)
    requires
        s@ == text@,
        a <= b <= s@.len(),
    ensures
        match r {
            Some(p) => line_path(s@.subrange(a as int, b as int)) == Some(p@),
            None => line_path(s@.subrange(a as int, b as int)) is None,
        },
{
    let (x, y) = trim(s, a, b);
    let ghost t = s@.subrange(x as int, y as int);
    proof {
        reveal_strlit("file://");
    }
    if y - x < 7 || s[x] != 'f' || s[x + 1] != 'i' || s[x + 2] != 'l' || s[x + 3] != 'e' || s[x + 4]
        != ':' || s[x + 5] != '/' || s[x + 6] != '/' {
        proof {
            if t.len() >= 7 && t.take(7) == "file://"@ {
                let p = t.take(7);
                assert(p[0] == t[0] && p[1] == t[1] && p[2] == t[2] && p[3] == t[3]);
                assert(p[4] == t[4] && p[5] == t[5] && p[6] == t[6]);
            }
        }
        return None;
    }
    assert(t.take(7) =~= "file://"@);
    let from: usize = x + 7;
    let slash: usize = find(s, from, y, '/');
    let start: usize = if slash < y { slash } else { from };
    assert(t.skip(7) =~= s@.subrange(from as int, y as int));
    assert(path_part(t.skip(7)) =~= s@.subrange(start as int, y as int));
    Some(percent_decode(text.substring_char(start, y)))
}

/// What the paths hold.
pub open spec fn path_views(s: Seq<Vec<u8>>) -> Seq<Seq<u8>> {
    s.map_values(|p: Vec<u8>| p@)
}

/// The paths of the files in a list of URIs, one on each line.
pub fn parse_uri_list(text: &str) -> (r: Vec<Vec<u8>>)
    ensures
        path_views(r@) == paths_from(seq![], text@),
{
    let s = text::characters(text);
    let n: usize = s.len();
    let mut r: Vec<Vec<u8>> = Vec::new();
    let mut a: usize = 0;
    assert(path_views(r@) =~= seq![]);
    assert(s@.subrange(0, n as int) =~= s@);
    loop
        invariant
            s@ == text@,
            n == s@.len(),
            a <= n,
            paths_from(seq![], text@) == paths_from(
                path_views(r@),
                s@.subrange(a as int, n as int),
            ),
        decreases n - a,
    {
        let end: usize = find(&s, a, n, '\n');
        let ghost rest = s@.subrange(a as int, n as int);
        let ghost before = path_views(r@);
        proof {
            assert(rest.take(end - a) =~= s@.subrange(a as int, end as int));
            if end < n {
                assert(rest.skip(end - a + 1) =~= s@.subrange(end + 1, n as int));
            }
        }
        if let Some(p) = path_of_line(text, &s, a, end) {
            r.push(p);
            assert(path_views(r@) =~= before.push(p@));
        }
        if end >= n {
            assert(s@.subrange(a as int, end as int) =~= rest);
            return r;
        }
        a = end + 1;
    }
}

/// The paths of the files that another program has dropped. What it wrote is read as text.
pub fn dropped_files(bytes: &[u8]) -> (r: Vec<Vec<u8>>)
    ensures
        path_views(r@) == paths_from(seq![], text::lossy_text(bytes@)),
{
    parse_uri_list(text::decode_utf8_lossy(bytes).as_str())
}

/// A list that is written as UTF-8 gives the files that it names.
pub proof fn written_lists_are_read(list: Seq<char>)
    ensures
        paths_from(seq![], text::lossy_text(vstd::utf8::encode_utf8(list))) == paths_from(
            seq![],
            list,
        ),
{
    text::text_is_read_back(list);
}

/// A hexadecimal digit, in upper or lower case.
pub open spec fn hex_digit(v: u8, upper: bool) -> u8 {
    if v < 10 {
        ('0' as u8 + v) as u8
    } else if upper {
        ('A' as u8 + v - 10) as u8
    } else {
        ('a' as u8 + v - 10) as u8
    }
}

/// Every digit is read as its value, in either case.
pub proof fn digits_have_their_values(v: u8, upper: bool)
    requires
        v < 16,
    ensures
        hex_value(hex_digit(v, upper)) == Some(v),
{
}

/// Whether `e` holds the bytes `b`, each of them as a percent sign and two digits of either case.
pub open spec fn encodes(e: Seq<u8>, b: Seq<u8>) -> bool
    decreases b.len(),
{
    if b.len() == 0 {
        e.len() == 0
    } else {
        &&& e.len() >= 3
        &&& e[0] == '%' as u8
        &&& exists|upper: bool| e[1] == #[trigger] hex_digit(b[0] / 16, upper)
        &&& exists|upper: bool| e[2] == #[trigger] hex_digit(b[0] % 16, upper)
        &&& encodes(e.skip(3), b.skip(1))
    }
}

/// What is encoded is read back, whatever the case of its digits.
pub proof fn decoding_undoes_encoding(e: Seq<u8>, b: Seq<u8>)
    requires
        encodes(e, b),
    ensures
        decoded(e) == b,
    decreases b.len(),
{
    if b.len() > 0 {
        decoding_undoes_encoding(e.skip(3), b.skip(1));
        assert(escaped(e) == Some(b[0]));
        assert(decoded(e) =~= b);
    }
}

/// Bytes without a percent sign stand for themselves, whatever follows them.
pub proof fn plain_bytes_stay(a: Seq<u8>, b: Seq<u8>)
    requires
        forall|i: int| 0 <= i < a.len() ==> #[trigger] a[i] != '%' as u8,
    ensures
        decoded(a + b) == a + decoded(b),
        decoded(a) == a,
    decreases a.len(),
{
    if a.len() > 0 {
        let rest = a.skip(1);
        assert forall|i: int| 0 <= i < rest.len() implies #[trigger] rest[i] != '%' as u8 by {
            assert(rest[i] == a[i + 1]);
        }
        plain_bytes_stay(rest, b);
        assert((a + b).skip(1) =~= rest + b);
        assert(decoded(a + b) =~= a + decoded(b));
        assert(decoded(a) =~= a);
    } else {
        assert(a + b =~= b);
        assert(a + decoded(b) =~= decoded(b));
    }
}

/// Whether all the characters are white space.
pub open spec fn blank(s: Seq<char>) -> bool {
    forall|i: int| 0 <= i < s.len() ==> is_space(#[trigger] s[i])
}

/// White space at the end of a text is taken away.
proof fn back_is_taken_away(m: Seq<char>, b: Seq<char>)
    requires
        blank(b),
        m.len() > 0 ==> !is_space(m.last()),
    ensures
        without_back(m + b) == m,
    decreases b.len(),
{
    let s = m + b;
    if b.len() > 0 {
        let rest = b.drop_last();
        assert(s.last() == b[b.len() - 1]);
        assert(s.drop_last() =~= m + rest);
        assert forall|i: int| 0 <= i < rest.len() implies is_space(#[trigger] rest[i]) by {
            assert(rest[i] == b[i]);
        }
        back_is_taken_away(m, rest);
    } else {
        assert(s =~= m);
    }
}

/// White space at the front of a text is taken away.
proof fn front_is_taken_away(a: Seq<char>, m: Seq<char>)
    requires
        blank(a),
        m.len() > 0 ==> !is_space(m[0]),
    ensures
        without_front(a + m) == m,
    decreases a.len(),
{
    let s = a + m;
    if a.len() > 0 {
        let rest = a.skip(1);
        assert(s[0] == a[0]);
        assert(s.skip(1) =~= rest + m);
        assert forall|i: int| 0 <= i < rest.len() implies is_space(#[trigger] rest[i]) by {
            assert(rest[i] == a[i + 1]);
        }
        front_is_taken_away(rest, m);
    } else {
        assert(s =~= m);
    }
}

/// White space around a text is taken away, and nothing else.
pub proof fn texts_are_trimmed(a: Seq<char>, m: Seq<char>, b: Seq<char>)
    requires
        blank(a),
        blank(b),
        m.len() > 0,
        !is_space(m[0]),
        !is_space(m.last()),
    ensures
        trimmed(a + m + b) == m,
{
    assert((a + m).last() == m.last());
    back_is_taken_away(a + m, b);
    front_is_taken_away(a, m);
}

/// A character is found where it first stands.
pub proof fn first_place_of(a: Seq<char>, c: char, b: Seq<char>)
    requires
        forall|i: int| 0 <= i < a.len() ==> (#[trigger] a[i]) != c,
    ensures
        index_of(a + seq![c] + b, c) == a.len(),
        index_of(a, c) == a.len(),
    decreases a.len(),
{
    let s = a + seq![c] + b;
    if a.len() > 0 {
        let rest = a.skip(1);
        assert(s[0] == a[0]);
        assert(s.skip(1) =~= rest + seq![c] + b);
        assert forall|i: int| 0 <= i < rest.len() implies (#[trigger] rest[i]) != c by {
            assert(rest[i] == a[i + 1]);
        }
        first_place_of(rest, c, b);
    } else {
        assert(s[0] == c);
    }
}

/// A line with a file gives its path, without the name of the host, with its percent signs decoded
/// and without white space around it.
pub proof fn file_lines_give_paths(
    a: Seq<char>,
    host: Seq<char>,
    path: Seq<char>,
    b: Seq<char>,
)
    requires
        blank(a),
        blank(b),
        forall|i: int| 0 <= i < host.len() ==> (#[trigger] host[i]) != '/',
        path.len() > 0,
        path[0] == '/',
        !is_space(path.last()),
    ensures
        line_path(a + ("file://"@ + host + path) + b) == Some(
            decoded(vstd::utf8::encode_utf8(path)),
        ),
{
    reveal_strlit("file://");
    let m = "file://"@ + host + path;
    assert(m[0] == 'f');
    assert(m.last() == path.last());
    texts_are_trimmed(a, m, b);
    assert(m.take(7) =~= "file://"@);
    assert(m.skip(7) =~= host + path);
    let rest = path.skip(1);
    assert(host + path =~= host + seq!['/'] + rest);
    first_place_of(host, '/', rest);
    assert((host + path).skip(host.len() as int) =~= path);
}

/// A line that does not begin as a file does, such as a comment, gives nothing.
pub proof fn other_lines_give_nothing(a: Seq<char>, m: Seq<char>, b: Seq<char>)
    requires
        blank(a),
        blank(b),
        m.len() > 0,
        !is_space(m[0]),
        !is_space(m.last()),
        m.len() < 7 || m.take(7) != "file://"@,
    ensures
        line_path(a + m + b) is None,
{
    texts_are_trimmed(a, m, b);
}

/// The lines of a list are read one after another, each for itself.
pub proof fn lists_are_read_line_by_line(
    before: Seq<Seq<u8>>,
    line: Seq<char>,
    rest: Seq<char>,
)
    requires
        forall|i: int| 0 <= i < line.len() ==> (#[trigger] line[i]) != '\n',
    ensures
        ({
            let after = match line_path(line) {
                Some(path) => before.push(path),
                None => before,
            };
            &&& paths_from(before, line + seq!['\n'] + rest) == paths_from(after, rest)
            &&& paths_from(before, line) == after
        }),
{
    first_place_of(line, '\n', rest);
    let s = line + seq!['\n'] + rest;
    assert(s.take(line.len() as int) =~= line);
    assert(s.skip(line.len() as int + 1) =~= rest);
}

/// White space is the tab, the line feed, the vertical tab, the form feed, the carriage return, the
/// space, and what else Unicode counts among it.
pub proof fn spaces_have_their_numbers(c: char)
    ensures
        is_space(c) <==> {
            let n = c as u32;
            ||| 9 <= n <= 13
            ||| n == 32
            ||| n == 133
            ||| n == 160
            ||| n == 5760
            ||| 8192 <= n <= 8202
            ||| n == 8232
            ||| n == 8233
            ||| n == 8239
            ||| n == 8287
            ||| n == 12288
        },
{
}

/// A line with a file that has no slash gives all that stands there.
pub proof fn files_without_a_slash_are_kept(a: Seq<char>, name: Seq<char>, b: Seq<char>)
    requires
        blank(a),
        blank(b),
        forall|i: int| 0 <= i < name.len() ==> (#[trigger] name[i]) != '/',
        name.len() > 0 ==> !is_space(name.last()),
    ensures
        line_path(a + ("file://"@ + name) + b) == Some(decoded(vstd::utf8::encode_utf8(name))),
{
    reveal_strlit("file://");
    let m = "file://"@ + name;
    assert(m[0] == 'f');
    assert(m.last() == if name.len() > 0 {
        name.last()
    } else {
        '/'
    });
    texts_are_trimmed(a, m, b);
    assert(m.take(7) =~= "file://"@);
    assert(m.skip(7) =~= name);
    not_found_without(name, '/');
}

/// A character that is not there is not found.
proof fn not_found_without(s: Seq<char>, c: char)
    requires
        forall|i: int| 0 <= i < s.len() ==> (#[trigger] s[i]) != c,
    ensures
        index_of(s, c) == s.len(),
    decreases s.len(),
{
    if s.len() > 0 {
        let rest = s.skip(1);
        assert forall|i: int| 0 <= i < rest.len() implies (#[trigger] rest[i]) != c by {
            assert(rest[i] == s[i + 1]);
        }
        not_found_without(rest, c);
    }
}

} // verus!
