//! Text that is decoded from a file or shown to the user.
use vstd::prelude::*;

verus! {

/// The text that bytes stand for when what is not valid UTF-8 is replaced.
pub uninterp spec fn utf8_text(b: Seq<u8>) -> Seq<char>;

/// The text that bytes stand for. Valid UTF-8 is read as itself; else the parts that are not valid
/// are replaced.
pub open spec fn lossy_text(b: Seq<u8>) -> Seq<char> {
    if vstd::utf8::valid_utf8(b) {
        vstd::utf8::decode_utf8(b)
    } else {
        utf8_text(b)
    }
}

/// The text that UTF-16 units stand for. A surrogate without its other half is replaced.
pub open spec fn utf16_text(u: Seq<u16>) -> Seq<char>
    decreases u.len(),
{
    if u.len() == 0 {
        seq![]
    } else if u[0] < 0xD800 || u[0] >= 0xE000 {
        seq![u[0] as char] + utf16_text(u.skip(1))
    } else if u[0] < 0xDC00 && u.len() > 1 && 0xDC00 <= u[1] < 0xE000 {
        seq![(0x10000 + (u[0] - 0xD800) * 0x400 + (u[1] - 0xDC00)) as char] + utf16_text(u.skip(2))
    } else {
        seq!['\u{FFFD}'] + utf16_text(u.skip(1))
    }
}

/// `s` without the NUL characters at its end.
pub open spec fn without_nul(s: Seq<char>) -> Seq<char>
    decreases s.len(),
{
    if s.len() > 0 && s.last() == '\0' {
        without_nul(s.drop_last())
    } else {
        s
    }
}

/// The decimal digits of `n`.
pub open spec fn decimal_text(n: nat) -> Seq<char>
    decreases n,
{
    if n < 10 {
        seq![('0' as int + n) as char]
    } else {
        decimal_text(n / 10).push(('0' as int + n % 10) as char)
    }
}

/// Calls `String::from_utf8_lossy`. The text is a function of the bytes, and valid UTF-8 is
/// decoded as it is; how much of an invalid part one replacement character stands for is not
/// stated.
#[verifier::external_body]
pub(crate) fn decode_utf8_lossy(b: &[u8]) -> (s: String)
    ensures
        s@ == utf8_text(b@),
        vstd::utf8::valid_utf8(b@) ==> s@ == vstd::utf8::decode_utf8(b@),
{
    String::from_utf8_lossy(b).into_owned()
}

/// A text that is written as UTF-8 is read back as it was.
pub proof fn text_is_read_back(t: Seq<char>)
    ensures
        lossy_text(vstd::utf8::encode_utf8(t)) == t,
{
    vstd::utf8::encode_utf8_valid_utf8(t);
    vstd::utf8::encode_utf8_decode_utf8(t);
}

/// Calls `String::from_utf16_lossy`, which decodes UTF-16 and puts U+FFFD for each surrogate
/// that is not part of a pair.
#[verifier::external_body]
pub(crate) fn decode_utf16_lossy(u: &[u16]) -> (s: String)
    ensures
        s@ == utf16_text(u@),
{
    String::from_utf16_lossy(u)
}

/// `s` without the NUL characters at its end.
pub fn trim_nul(s: &str) -> (r: String)
    ensures
        r@ == without_nul(s@),
{
    let mut n: usize = s.unicode_len();
    assert(s@.take(n as int) =~= s@);
    while n > 0 && s.get_char(n - 1) == '\0'
        invariant
            n <= s@.len(),
            without_nul(s@) == without_nul(s@.take(n as int)),
        decreases n,
    {
        assert(s@.take(n as int).drop_last() =~= s@.take(n - 1));
        n = n - 1;
    }
    s.substring_char(0, n).to_owned()
}

/// One decimal digit.
fn digit(n: u64) -> (s: &'static str)
    requires
        n < 10,
    ensures
        s@ == decimal_text(n as nat),
{
    proof {
        reveal_strlit("0");
        reveal_strlit("1");
        reveal_strlit("2");
        reveal_strlit("3");
        reveal_strlit("4");
        reveal_strlit("5");
        reveal_strlit("6");
        reveal_strlit("7");
        reveal_strlit("8");
        reveal_strlit("9");
    }
    let s = if n == 0 {
        "0"
    } else if n == 1 {
        "1"
    } else if n == 2 {
        "2"
    } else if n == 3 {
        "3"
    } else if n == 4 {
        "4"
    } else if n == 5 {
        "5"
    } else if n == 6 {
        "6"
    } else if n == 7 {
        "7"
    } else if n == 8 {
        "8"
    } else {
        "9"
    };
    assert(s@ =~= decimal_text(n as nat));
    s
}

/// The decimal digits of `n`.
pub fn decimal(n: u64) -> (s: String)
    ensures
        s@ == decimal_text(n as nat),
    decreases n,
{
    if n < 10 {
        digit(n).to_owned()
    } else {
        let mut s = decimal(n / 10);
        s.append(digit(n % 10));
        assert(s@ =~= decimal_text(n as nat));
        s
    }
}

/// The three texts one after another.
pub fn join3(a: &str, b: &str, c: &str) -> (s: String)
    ensures
        s@ == a@ + b@ + c@,
{
    let mut s = a.to_owned();
    s.append(b);
    s.append(c);
    s
}

/// The characters of a text.
pub fn characters(s: &str) -> (v: Vec<char>)
    ensures
        v@ == s@,
{
    let mut v: Vec<char> = Vec::new();
    for c in it: s.chars()
        invariant
            it.seq() == s@,
            v@ == s@.take(it.index() as int),
    {
        assert(s@.take(it.index() + 1) =~= s@.take(it.index() as int).push(c));
        v.push(c);
    }
    assert(s@.take(s@.len() as int) =~= s@);
    v
}

/// A number is written without zeros before it, and in as few digits as it needs.
pub proof fn numbers_have_no_leading_zeros(n: nat)
    ensures
        decimal_text(n).len() > 0,
        n > 0 ==> decimal_text(n)[0] != '0',
        n == 0 ==> decimal_text(n) == seq!['0'],
    decreases n,
{
    if n >= 10 {
        numbers_have_no_leading_zeros(n / 10);
        assert(decimal_text(n)[0] == decimal_text(n / 10)[0]);
    } else {
        let c = decimal_text(n)[0];
        assert(c as u32 == '0' as u32 + n);
    }
}

} // verus!
