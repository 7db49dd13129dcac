//! What the user is told about a file that is shown in part.
use vstd::prelude::*;

use crate::text;

verus! {

/// Something that is wrong with a file that is shown all the same.
#[derive(Debug)]
pub enum Warning {
    /// Data is missing, about so many bytes of it, and some layers cannot be shown.
    Damaged { layers: u64, missing: u64 },
    /// The end of a group was not found.
    UnendedGroup { name: String },
    /// A group that ends does not begin.
    UnopenedGroup,
    /// There are no layers, so the merged image is shown.
    MergedImage,
}

/// What a warning says.
#[verifier::ext_equal]
pub enum WarningView {
    Damaged { layers: u64, missing: u64 },
    UnendedGroup { name: Seq<char> },
    UnopenedGroup,
    MergedImage,
}

impl View for Warning {
    type V = WarningView;

    open spec fn view(&self) -> WarningView {
        match *self {
            Warning::Damaged { layers, missing } => WarningView::Damaged { layers, missing },
            Warning::UnendedGroup { name } => WarningView::UnendedGroup { name: name@ },
            Warning::UnopenedGroup => WarningView::UnopenedGroup,
            Warning::MergedImage => WarningView::MergedImage,
        }
    }
}

/// What a list of warnings says.
pub open spec fn warning_views(s: Seq<Warning>) -> Seq<WarningView> {
    s.map_values(|w: Warning| w@)
}

impl WarningView {
    /// What the user is told. `megabytes` is the missing size, written out.
    pub open spec fn text(self, megabytes: Seq<char>) -> Seq<char> {
        match self {
            WarningView::Damaged { layers, .. } => "ファイルの一部が壊れています（約 "@ + megabytes
                + " MB のデータが欠落）。"@ + text::decimal_text(layers as nat)
                + " 個のレイヤーを表示できません"@,
            WarningView::UnendedGroup { name } => "グループ「"@ + name + "」の終端が見つかりません"@,
            WarningView::UnopenedGroup => "閉じられていないグループがあります"@,
            WarningView::MergedImage => "レイヤー情報がないため統合画像を表示しています"@,
        }
    }
}

impl Warning {
    /// What the user is told. `megabytes` is the missing size, written out.
    pub fn message(&self, megabytes: &str) -> (s: String)
        ensures
            s@ == self@.text(megabytes@),
    {
        match self {
            Warning::Damaged { layers, .. } => {
                let mut s = text::join3(
                    "ファイルの一部が壊れています（約 ",
                    megabytes,
                    " MB のデータが欠落）。",
                );
                s.append(text::decimal(*layers).as_str());
                s.append(" 個のレイヤーを表示できません");
                s
            },
            Warning::UnendedGroup { name } => text::join3(
                "グループ「",
                name.as_str(),
                "」の終端が見つかりません",
            ),
            Warning::UnopenedGroup => "閉じられていないグループがあります".to_owned(),
            Warning::MergedImage => "レイヤー情報がないため統合画像を表示しています".to_owned(),
        }
    }
}

} // verus!
