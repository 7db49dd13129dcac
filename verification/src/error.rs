//! Why a file cannot be shown.
use vstd::prelude::*;

use crate::fonts;
use crate::text;

verus! {

/// Why a file is not read.
#[derive(Clone, Copy, Debug, PartialEq, Eq, Structural)]
pub enum ParseError {
    /// The file ends early.
    Eof,
    /// The file does not begin as a PSD file.
    NotPsd,
    /// The version of the format is not known.
    Version(u16),
    /// The channels do not have 8 bits.
    Depth(u16),
    /// The color mode is not known.
    ColorMode(u16),
    /// A layer record does not have the expected signature.
    BrokenLayers,
}

impl ParseError {
    /// What the user is told.
    pub open spec fn text(self) -> Seq<char> {
        match self {
            ParseError::Eof => "ファイルが途中で終わっています"@,
            ParseError::NotPsd => "PSD ファイルではありません"@,
            ParseError::Version(v) => "未対応のバージョンです ("@ + text::decimal_text(v as nat) + ")"@,
            ParseError::Depth(v) => "8bit 以外は未対応です ("@ + text::decimal_text(v as nat) + "bit)"@,
            ParseError::ColorMode(v) => "未対応のカラーモードです ("@ + text::decimal_text(v as nat)
                + ")"@,
            ParseError::BrokenLayers => "レイヤー情報が壊れています"@,
        }
    }

    /// What the user is told.
    pub fn message(self) -> (s: String)
        ensures
            s@ == self.text(),
    {
        match self {
            ParseError::Eof => "ファイルが途中で終わっています".to_owned(),
            ParseError::NotPsd => "PSD ファイルではありません".to_owned(),
            ParseError::Version(v) => text::join3(
                "未対応のバージョンです (",
                text::decimal(v as u64).as_str(),
                ")",
            ),
            ParseError::Depth(v) => text::join3(
                "8bit 以外は未対応です (",
                text::decimal(v as u64).as_str(),
                "bit)",
            ),
            ParseError::ColorMode(v) => text::join3(
                "未対応のカラーモードです (",
                text::decimal(v as u64).as_str(),
                ")",
            ),
            ParseError::BrokenLayers => "レイヤー情報が壊れています".to_owned(),
        }
    }
}

/// The first and the fifth character of a message.
proof fn messages_begin(e: ParseError)
    ensures
        e.text().len() > 4,
        (e.text()[0], e.text()[4]) == match e {
            ParseError::Eof => ('フ', 'が'),
            ParseError::NotPsd => ('P', 'フ'),
            ParseError::Version(_) => ('未', 'バ'),
            ParseError::Depth(_) => ('8', ' '),
            ParseError::ColorMode(_) => ('未', 'カ'),
            ParseError::BrokenLayers => ('レ', '情'),
        },
{
    reveal_strlit("ファイルが途中で終わっています");
    reveal_strlit("PSD ファイルではありません");
    reveal_strlit("未対応のバージョンです (");
    reveal_strlit("8bit 以外は未対応です (");
    reveal_strlit("未対応のカラーモードです (");
    reveal_strlit("レイヤー情報が壊れています");
}

/// Two errors that are told alike are the same error.
pub proof fn messages_tell_errors_apart(a: ParseError, b: ParseError)
    requires
        a.text() == b.text(),
    ensures
        a == b,
{
    messages_begin(a);
    messages_begin(b);
    match (a, b) {
        (ParseError::Version(v), ParseError::Version(w)) => {
            numbers_are_kept("未対応のバージョンです ("@, v as nat, w as nat, ")"@);
        },
        (ParseError::Depth(v), ParseError::Depth(w)) => {
            numbers_are_kept("8bit 以外は未対応です ("@, v as nat, w as nat, "bit)"@);
        },
        (ParseError::ColorMode(v), ParseError::ColorMode(w)) => {
            numbers_are_kept("未対応のカラーモードです ("@, v as nat, w as nat, ")"@);
        },
        _ => {},
    }
}

/// Two texts with a number in the same place differ if the numbers do.
proof fn numbers_are_kept(before: Seq<char>, v: nat, w: nat, after: Seq<char>)
    requires
        before + text::decimal_text(v) + after == before + text::decimal_text(w) + after,
    ensures
        v == w,
{
    let x = text::decimal_text(v);
    let y = text::decimal_text(w);
    assert((before + x + after).len() == (before + y + after).len());
    assert((before + x + after).subrange(before.len() as int, before.len() as int + x.len()) =~= x);
    assert((before + y + after).subrange(before.len() as int, before.len() as int + y.len()) =~= y);
    fonts::numbers_are_read_back(v);
    fonts::numbers_are_read_back(w);
}

} // verus!
