//! What a layer's additional blocks say about effects and adjustments.
use vstd::prelude::*;

use crate::bytes;
use crate::reader::Reader;

verus! {

/// The kind of adjustment or fill layer that a block key marks.
pub open spec fn adjustment_text(key: Seq<u8>) -> Option<Seq<char>> {
    if key == bytes::key4('l', 'e', 'v', 'l') {
        Some("レベル補正"@)
    } else if key == bytes::key4('c', 'u', 'r', 'v') {
        Some("トーンカーブ"@)
    } else if key == bytes::key4('b', 'r', 'i', 't') {
        Some("明るさ・コントラスト"@)
    } else if key == bytes::key4('h', 'u', 'e', '2') {
        Some("色相・彩度"@)
    } else if key == bytes::key4('h', 'u', 'e', ' ') {
        Some("色相・彩度"@)
    } else if key == bytes::key4('b', 'l', 'n', 'c') {
        Some("カラーバランス"@)
    } else if key == bytes::key4('s', 'e', 'l', 'c') {
        Some("特定色域の選択"@)
    } else if key == bytes::key4('m', 'i', 'x', 'r') {
        Some("チャンネルミキサー"@)
    } else if key == bytes::key4('g', 'r', 'd', 'm') {
        Some("グラデーションマップ"@)
    } else if key == bytes::key4('p', 'h', 'f', 'l') {
        Some("レンズフィルター"@)
    } else if key == bytes::key4('e', 'x', 'p', 'A') {
        Some("露光量"@)
    } else if key == bytes::key4('v', 'i', 'b', 'A') {
        Some("自然な彩度"@)
    } else if key == bytes::key4('t', 'h', 'r', 's') {
        Some("2 階調化"@)
    } else if key == bytes::key4('p', 'o', 's', 't') {
        Some("ポスタリゼーション"@)
    } else if key == bytes::key4('n', 'v', 'r', 't') {
        Some("階調の反転"@)
    } else if key == bytes::key4('b', 'l', 'w', 'h') {
        Some("白黒"@)
    } else if key == bytes::key4('c', 'l', 'r', 'L') {
        Some("カラールックアップ"@)
    } else if key == bytes::key4('S', 'o', 'C', 'o') {
        Some("べた塗り"@)
    } else if key == bytes::key4('G', 'd', 'F', 'l') {
        Some("グラデーション"@)
    } else if key == bytes::key4('P', 't', 'F', 'l') {
        Some("パターン"@)
    } else {
        None
    }
}

/// Where the switch of an effect lies in its structure of the older format, counted from its
/// version field.
pub open spec fn switch_at(key: Seq<u8>) -> Option<int> {
    if key == bytes::key4('d', 's', 'd', 'w') || key == bytes::key4('i', 's', 'd', 'w') {
        Some(38)
    } else if key == bytes::key4('o', 'g', 'l', 'w') || key == bytes::key4('i', 'g', 'l', 'w') {
        Some(30)
    } else if key == bytes::key4('b', 'e', 'v', 'l') {
        Some(55)
    } else if key == bytes::key4('s', 'o', 'f', 'i') {
        Some(23)
    } else {
        None
    }
}

/// Whether one of the `count` effects from `pos` on is switched on. The first one that the block
/// does not hold ends them.
pub open spec fn effect_on_from(b: Seq<u8>, pos: int, count: int) -> bool
    decreases count,
{
    if count <= 0 || !bytes::within(b, pos, 12) {
        false
    } else {
        let body = pos + 12;
        ||| switch_at(b.subrange(pos + 4, pos + 8)) matches Some(at) && bytes::within(b, body + at, 1)
            && b[body + at] != 0
        ||| effect_on_from(b, bytes::sat(body, bytes::be32(b, pos + 8)), count - 1)
    }
}

/// Whether a block of effects of the older format has one that is switched on.
pub open spec fn legacy_effect_on(b: Seq<u8>) -> bool {
    bytes::within(b, 2, 2) && effect_on_from(b, 4, bytes::be16(b, 2))
}

/// The first place from `i` on at which `b` holds `part`.
pub open spec fn first_index(b: Seq<u8>, part: Seq<u8>, i: int) -> Option<int>
    decreases b.len() - i,
{
    if i + part.len() > b.len() || i >= b.len() {
        None
    } else if b.subrange(i, i + part.len()) == part {
        Some(i)
    } else {
        first_index(b, part, i + 1)
    }
}

/// The name of the main switch of the effects.
pub open spec fn main_switch() -> Seq<u8> {
    seq!['m' as u8, 'a' as u8, 's' as u8, 't' as u8, 'e' as u8, 'r' as u8, 'F' as u8, 'X' as u8, 'S' as u8, 'w' as u8, 'i' as u8, 't' as u8, 'c' as u8, 'h' as u8]
}

/// Whether a descriptor of effects has its main switch on. One that is not found counts as on.
pub open spec fn descriptor_effect_on(b: Seq<u8>) -> bool {
    match first_index(b, main_switch(), 0) {
        None => true,
        Some(at) => {
            let rest = b.skip(at + 14);
            match first_index(rest, bytes::key4('b', 'o', 'o', 'l'), 0) {
                None => true,
                Some(i) => !bytes::within(rest, i + 4, 1) || rest[i + 4] != 0,
            }
        },
    }
}

/// The kind of adjustment or fill layer that a block key marks.
pub fn adjustment_name(key: &[u8; 4]) -> (r: Option<&'static str>)
    ensures
        (match r {
            Some(s) => Some(s@),
            None => None,
        }) == adjustment_text(key@),
{
    if bytes::is_key(key, 'l', 'e', 'v', 'l') {
        Some("レベル補正")
    } else if bytes::is_key(key, 'c', 'u', 'r', 'v') {
        Some("トーンカーブ")
    } else if bytes::is_key(key, 'b', 'r', 'i', 't') {
        Some("明るさ・コントラスト")
    } else if bytes::is_key(key, 'h', 'u', 'e', '2') {
        Some("色相・彩度")
    } else if bytes::is_key(key, 'h', 'u', 'e', ' ') {
        Some("色相・彩度")
    } else if bytes::is_key(key, 'b', 'l', 'n', 'c') {
        Some("カラーバランス")
    } else if bytes::is_key(key, 's', 'e', 'l', 'c') {
        Some("特定色域の選択")
    } else if bytes::is_key(key, 'm', 'i', 'x', 'r') {
        Some("チャンネルミキサー")
    } else if bytes::is_key(key, 'g', 'r', 'd', 'm') {
        Some("グラデーションマップ")
    } else if bytes::is_key(key, 'p', 'h', 'f', 'l') {
        Some("レンズフィルター")
    } else if bytes::is_key(key, 'e', 'x', 'p', 'A') {
        Some("露光量")
    } else if bytes::is_key(key, 'v', 'i', 'b', 'A') {
        Some("自然な彩度")
    } else if bytes::is_key(key, 't', 'h', 'r', 's') {
        Some("2 階調化")
    } else if bytes::is_key(key, 'p', 'o', 's', 't') {
        Some("ポスタリゼーション")
    } else if bytes::is_key(key, 'n', 'v', 'r', 't') {
        Some("階調の反転")
    } else if bytes::is_key(key, 'b', 'l', 'w', 'h') {
        Some("白黒")
    } else if bytes::is_key(key, 'c', 'l', 'r', 'L') {
        Some("カラールックアップ")
    } else if bytes::is_key(key, 'S', 'o', 'C', 'o') {
        Some("べた塗り")
    } else if bytes::is_key(key, 'G', 'd', 'F', 'l') {
        Some("グラデーション")
    } else if bytes::is_key(key, 'P', 't', 'F', 'l') {
        Some("パターン")
    } else {
        None
    }
}

/// Where the switch of an effect lies in its structure.
fn switch_offset(key: &[u8; 4]) -> (r: Option<u64>)
    ensures
        (match r {
            Some(at) => Some(at as int),
            None => None,
        }) == switch_at(key@),
{
    if bytes::is_key(key, 'd', 's', 'd', 'w') || bytes::is_key(key, 'i', 's', 'd', 'w') {
        Some(38)
    } else if bytes::is_key(key, 'o', 'g', 'l', 'w') || bytes::is_key(key, 'i', 'g', 'l', 'w') {
        Some(30)
    } else if bytes::is_key(key, 'b', 'e', 'v', 'l') {
        Some(55)
    } else if bytes::is_key(key, 's', 'o', 'f', 'i') {
        Some(23)
    } else {
        None
    }
}

/// Whether a block of effects of the older format has one that is switched on.
pub fn legacy_effects_enabled(block: &[u8]) -> (r: bool)
    ensures
        r == legacy_effect_on(block@),
{
    let mut r = Reader { data: block, pos: 2, psb: false };
    let count: u16 = match r.u16() {
        Ok(n) => n,
        Err(_) => return false,
    };
    assert(block@.len() == block.len());
    let mut i: u16 = 0;
    while i < count
        invariant
            i <= count,
            r.data@ == block@,
            block@.len() == block.len(),
            legacy_effect_on(block@) == effect_on_from(block@, r.pos as int, count - i),
        decreases count - i,
    {
        let ghost pos = r.pos as int;
        if r.bytes(4).is_err() {
            return false;
        }
        let key = match r.key() {
            Ok(k) => k,
            Err(_) => return false,
        };
        let len: u32 = match r.u32() {
            Ok(n) => n,
            Err(_) => return false,
        };
        match switch_offset(&key) {
            Some(at) => {
                let mut switch = Reader { data: block, pos: r.pos.saturating_add(at), psb: false };
                match switch.u8() {
                    Ok(v) => if v != 0 {
                        return true;
                    },
                    Err(_) => {},
                }
            },
            None => {},
        }
        r.pos = r.pos.saturating_add(len as u64);
        i = i + 1;
    }
    false
}

/// The first place at which `b` holds `part`.
fn find(b: &[u8], part: &[u8]) -> (r: Option<usize>)
    requires
        part@.len() > 0,
    ensures
        (match r {
            Some(i) => Some(i as int),
            None => None,
        }) == first_index(b@, part@, 0),
        r matches Some(i) ==> i + part@.len() <= b@.len(),
{
    let n: usize = part.len();
    let size: usize = b.len();
    let mut i: usize = 0;
    while i < size && n <= size - i
        invariant
            i <= size == b@.len(),
            n == part@.len(),
            n > 0,
            first_index(b@, part@, 0) == first_index(b@, part@, i as int),
        decreases size - i,
    {
        let mut j: usize = 0;
        while j < n && b[i + j] == part[j]
            invariant
                j <= n == part@.len(),
                i + n <= size == b@.len(),
                forall|k: int| 0 <= k < j ==> b@[i + k] == part@[k],
            decreases n - j,
        {
            j = j + 1;
        }
        if j == n {
            assert(b@.subrange(i as int, i + n) =~= part@);
            return Some(i);
        }
        assert(b@.subrange(i as int, i + n)[j as int] != part@[j as int]);
        i = i + 1;
    }
    None
}

/// Whether a descriptor of effects has its main switch on. The descriptor is not interpreted:
/// only the value after the switch's name is looked for, and one that is not found counts as on.
pub fn descriptor_effects_enabled(block: &[u8]) -> (r: bool)
    ensures
        r == descriptor_effect_on(block@),
{
    let size: usize = block.len();
    let name: [u8; 14] = ['m' as u8, 'a' as u8, 's' as u8, 't' as u8, 'e' as u8, 'r' as u8, 'F' as u8, 'X' as u8, 'S' as u8, 'w' as u8, 'i' as u8, 't' as u8, 'c' as u8, 'h' as u8];
    let kind: [u8; 4] = ['b' as u8, 'o' as u8, 'o' as u8, 'l' as u8];
    assert(name@ =~= main_switch());
    assert(kind@ =~= bytes::key4('b', 'o', 'o', 'l'));
    let at: usize = match find(block, name.as_slice()) {
        Some(i) => i,
        None => return true,
    };
    let rest = vstd::slice::slice_subrange(block, at + 14, size);
    assert(rest@ =~= block@.skip(at + 14));
    match find(rest, kind.as_slice()) {
        Some(i) => if i + 4 < rest.len() {
            rest[i + 4] != 0
        } else {
            true
        },
        None => true,
    }
}

/// The keys of the adjustment and fill layers, as the codes of their letters, with their names.
pub open spec fn adjustments() -> Seq<(Seq<u8>, Seq<char>)> {
    seq![
        (seq![108u8, 101u8, 118u8, 108u8], "レベル補正"@),
        (seq![99u8, 117u8, 114u8, 118u8], "トーンカーブ"@),
        (seq![98u8, 114u8, 105u8, 116u8], "明るさ・コントラスト"@),
        (seq![104u8, 117u8, 101u8, 50u8], "色相・彩度"@),
        (seq![104u8, 117u8, 101u8, 32u8], "色相・彩度"@),
        (seq![98u8, 108u8, 110u8, 99u8], "カラーバランス"@),
        (seq![115u8, 101u8, 108u8, 99u8], "特定色域の選択"@),
        (seq![109u8, 105u8, 120u8, 114u8], "チャンネルミキサー"@),
        (seq![103u8, 114u8, 100u8, 109u8], "グラデーションマップ"@),
        (seq![112u8, 104u8, 102u8, 108u8], "レンズフィルター"@),
        (seq![101u8, 120u8, 112u8, 65u8], "露光量"@),
        (seq![118u8, 105u8, 98u8, 65u8], "自然な彩度"@),
        (seq![116u8, 104u8, 114u8, 115u8], "2 階調化"@),
        (seq![112u8, 111u8, 115u8, 116u8], "ポスタリゼーション"@),
        (seq![110u8, 118u8, 114u8, 116u8], "階調の反転"@),
        (seq![98u8, 108u8, 119u8, 104u8], "白黒"@),
        (seq![99u8, 108u8, 114u8, 76u8], "カラールックアップ"@),
        (seq![83u8, 111u8, 67u8, 111u8], "べた塗り"@),
        (seq![71u8, 100u8, 70u8, 108u8], "グラデーション"@),
        (seq![80u8, 116u8, 70u8, 108u8], "パターン"@),
    ]
}

/// Each of these keys marks the kind of layer beside it, and no other key marks any.
pub proof fn adjustments_are_known(key: Seq<u8>, i: int)
    ensures
        0 <= i < 20 ==> adjustment_text(adjustments()[i].0) == Some(adjustments()[i].1),
        adjustment_text(key) is Some ==> exists|k: int|
            0 <= k < 20 && (#[trigger] adjustments()[k]).0 == key,
        adjustments().len() == 20,
{
    let t = adjustments();
    assert(t[0].0 =~= bytes::key4('l', 'e', 'v', 'l'));
    assert(t[1].0 =~= bytes::key4('c', 'u', 'r', 'v'));
    assert(t[2].0 =~= bytes::key4('b', 'r', 'i', 't'));
    assert(t[3].0 =~= bytes::key4('h', 'u', 'e', '2'));
    assert(t[4].0 =~= bytes::key4('h', 'u', 'e', ' '));
    assert(t[5].0 =~= bytes::key4('b', 'l', 'n', 'c'));
    assert(t[6].0 =~= bytes::key4('s', 'e', 'l', 'c'));
    assert(t[7].0 =~= bytes::key4('m', 'i', 'x', 'r'));
    assert(t[8].0 =~= bytes::key4('g', 'r', 'd', 'm'));
    assert(t[9].0 =~= bytes::key4('p', 'h', 'f', 'l'));
    assert(t[10].0 =~= bytes::key4('e', 'x', 'p', 'A'));
    assert(t[11].0 =~= bytes::key4('v', 'i', 'b', 'A'));
    assert(t[12].0 =~= bytes::key4('t', 'h', 'r', 's'));
    assert(t[13].0 =~= bytes::key4('p', 'o', 's', 't'));
    assert(t[14].0 =~= bytes::key4('n', 'v', 'r', 't'));
    assert(t[15].0 =~= bytes::key4('b', 'l', 'w', 'h'));
    assert(t[16].0 =~= bytes::key4('c', 'l', 'r', 'L'));
    assert(t[17].0 =~= bytes::key4('S', 'o', 'C', 'o'));
    assert(t[18].0 =~= bytes::key4('G', 'd', 'F', 'l'));
    assert(t[19].0 =~= bytes::key4('P', 't', 'F', 'l'));
    keys_differ(i);
}

/// No two of the keys are the same.
proof fn keys_differ(i: int)
    ensures
        0 <= i < 20 ==> forall|k: int|
            0 <= k < 20 && k != i ==> (#[trigger] adjustments()[k]).0 != adjustments()[i].0,
{
    let t = adjustments();
    assert forall|k: int| 0 <= i < 20 && 0 <= k < 20 && k != i implies (#[trigger] t[k]).0
        != t[i].0 by {
        let a = t[k].0;
        let b = t[i].0;
        assert(a[0] != b[0] || a[1] != b[1] || a[2] != b[2] || a[3] != b[3]);
    }
}

} // verus!
