//! What was written is read back: the laws of the additional blocks of a layer.
use vstd::prelude::*;

use crate::bytes;
use crate::channel;
use crate::effects;
use crate::layers;
use crate::text;
use crate::writing;

verus! {

/// The UTF-16 units of a character: itself, or a pair of surrogates.
pub open spec fn units_of(c: char) -> Seq<u16> {
    let n = c as u32 as int;
    if n < 0x10000 {
        seq![n as u16]
    } else {
        seq![
            (0xD800 + (n - 0x10000) / 0x400) as u16,
            (0xDC00 + (n - 0x10000) % 0x400) as u16,
        ]
    }
}

/// The UTF-16 units of a text.
pub open spec fn units(t: Seq<char>) -> Seq<u16>
    decreases t.len(),
{
    if t.len() == 0 {
        seq![]
    } else {
        units_of(t[0]) + units(t.skip(1))
    }
}

/// `n` units that are NUL.
pub open spec fn nul_units(n: int) -> Seq<u16> {
    Seq::new(n as nat, |i: int| 0u16)
}

/// `n` NUL characters.
pub open spec fn nuls(n: int) -> Seq<char> {
    Seq::new(n as nat, |i: int| '\0')
}

/// A text is read back from its units.
proof fn units_are_read(t: Seq<char>, n: int)
    requires
        0 <= n,
    ensures
        text::utf16_text(units(t) + nul_units(n)) == t + nuls(n),
    decreases t.len(), n,
{
    let u = units(t) + nul_units(n);
    if t.len() > 0 {
        let rest = t.skip(1);
        units_are_read(rest, n);
        let c = t[0];
        vstd::utf8::char_is_scalar(c);
        vstd::utf8::char_u32_cast(c, c as u32);
        assert((c as u32) as char == c);
        let after = units(rest) + nul_units(n);
        assert(u =~= units_of(c) + after);
        if (c as u32) < 0x10000 {
            assert(u[0] == c as u32);
            assert(u[0] as char == c);
            assert(u.skip(1) =~= after);
        } else {
            assert(u.skip(2) =~= after);
            assert(u[0] == 0xD800 + (c as u32 - 0x10000) / 0x400);
            assert(u[1] == 0xDC00 + (c as u32 - 0x10000) % 0x400);
            let joined = 0x10000 + (u[0] - 0xD800) * 0x400 + (u[1] - 0xDC00);
            assert(joined == c as u32);
            assert(joined as char == c);
        }
        assert(text::utf16_text(u) =~= seq![c] + text::utf16_text(after));
        assert(t + nuls(n) =~= seq![c] + (rest + nuls(n)));
    } else if n > 0 {
        units_are_read(t, n - 1);
        assert(u.skip(1) =~= units(t) + nul_units(n - 1));
        assert(u[0] == 0);
        assert(text::utf16_text(u) =~= t + nuls(n));
    } else {
        assert(u =~= seq![]);
        assert(text::utf16_text(u) =~= t + nuls(n));
    }
}

/// A text without NUL at its end is left when NUL characters are taken away.
proof fn nuls_are_taken_away(t: Seq<char>, n: int)
    requires
        0 <= n,
        t.len() > 0 ==> t.last() != '\0',
    ensures
        text::without_nul(t + nuls(n)) == t,
    decreases n,
{
    let s = t + nuls(n);
    if n > 0 {
        nuls_are_taken_away(t, n - 1);
        assert(s.drop_last() =~= t + nuls(n - 1));
    } else {
        assert(s =~= t);
    }
}

/// A surrogate without its other half is replaced, and reading goes on after it.
pub proof fn lone_surrogates_are_replaced(t: Seq<char>, u: u16, rest: Seq<u16>)
    requires
        0xD800 <= u < 0xE000,
        u < 0xDC00 ==> rest.len() == 0 || rest[0] < 0xDC00 || rest[0] >= 0xE000,
    ensures
        text::utf16_text(units(t) + (seq![u] + rest)) == t + (seq!['\u{FFFD}'] + text::utf16_text(
            rest,
        )),
    decreases t.len(),
{
    let tail = seq![u] + rest;
    let all = units(t) + tail;
    if t.len() == 0 {
        assert(all =~= tail);
        assert(all.skip(1) =~= rest);
        assert(text::utf16_text(all) =~= t + (seq!['\u{FFFD}'] + text::utf16_text(rest)));
    } else {
        let more = t.skip(1);
        lone_surrogates_are_replaced(more, u, rest);
        let c = t[0];
        vstd::utf8::char_is_scalar(c);
        vstd::utf8::char_u32_cast(c, c as u32);
        assert((c as u32) as char == c);
        let after = units(more) + tail;
        if (c as u32) < 0x10000 {
            assert(all[0] == c as u32);
            assert(all[0] as char == c);
            assert(all.skip(1) =~= after);
        } else {
            assert(all.skip(2) =~= after);
            assert(all[0] == 0xD800 + (c as u32 - 0x10000) / 0x400);
            assert(all[1] == 0xDC00 + (c as u32 - 0x10000) % 0x400);
            let joined = 0x10000 + (all[0] - 0xD800) * 0x400 + (all[1] - 0xDC00);
            assert(joined == c as u32);
            assert(joined as char == c);
        }
        assert(text::utf16_text(all) =~= seq![c] + text::utf16_text(after));
        assert(text::utf16_text(all) =~= t + (seq!['\u{FFFD}'] + text::utf16_text(rest)));
    }
}

/// The bytes of the units.
pub open spec fn written_units(u: Seq<u16>) -> Seq<u8>
    decreases u.len(),
{
    if u.len() == 0 {
        seq![]
    } else {
        written_units(u.drop_last()) + writing::put16(u.last() as int)
    }
}

/// Units are read as they were written.
proof fn written_units_are_read(d: Seq<u8>, at: int, u: Seq<u16>, i: int)
    requires
        writing::holds(d, at, written_units(u)),
        0 <= i <= u.len(),
    ensures
        written_units(u).len() == 2 * u.len(),
        i < u.len() ==> bytes::be16(d, at + 2 * i) == u[i],
    decreases u.len(),
{
    if u.len() > 0 {
        let before = u.drop_last();
        let last = writing::put16(u.last() as int);
        writing::held_pieces(d, at, written_units(before), last);
        if i < before.len() {
            written_units_are_read(d, at, before, i);
        } else {
            written_units_are_read(d, at, before, before.len() as int);
            writing::written16_is_read(d, at + 2 * before.len(), u.last() as int);
        }
    }
}

/// The units of a name block are those that were written, at most as many as are announced and as
/// are there.
pub proof fn name_blocks_hold_their_units(u: Seq<u16>, announced: int, odd: Seq<u8>)
    requires
        0 <= announced < 4294967296,
        odd.len() < 2 || announced <= u.len(),
    ensures
        layers::name_units(writing::put32(announced) + (written_units(u) + odd)) == if announced
            < u.len() {
            u.take(announced)
        } else {
            u
        },
{
    let b = writing::put32(announced) + (written_units(u) + odd);
    writing::bytes_held(b, 0, b);
    writing::held_pieces(b, 0, writing::put32(announced), written_units(u) + odd);
    writing::written32_is_read(b, 0, announced);
    writing::held_pieces(b, 4, written_units(u), odd);
    written_units_are_read(b, 4, u, 0);
    let read = layers::name_units(b);
    let wanted = if announced < u.len() {
        u.take(announced)
    } else {
        u
    };
    assert(read.len() == wanted.len());
    assert forall|i: int| 0 <= i < read.len() implies read[i] == wanted[i] by {
        written_units_are_read(b, 4, u, i);
    }
    assert(read =~= wanted);
}

/// The key of a block, as the codes of its letters.
pub open spec fn is_letters(key: Seq<u8>, a: u8, b: u8, c: u8, d: u8) -> bool {
    key == seq![a, b, c, d]
}

/// Names are read back: a `luni` block that was written for a text, perhaps with NUL characters
/// after it, gives the layer that name and changes nothing else.
pub proof fn names_are_read_back(
    x: layers::ExtraView,
    key: Seq<u8>,
    len: int,
    t: Seq<char>,
    n: int,
    tail: Seq<u8>,
)
    requires
        is_letters(key, 108, 117, 110, 105),
        0 <= n,
        t.len() > 0 ==> t.last() != '\0',
        units(t).len() + n < 4294967296,
    ensures
        layers::with_block(
            x,
            key,
            len,
            writing::put32(units(t).len() + n) + (written_units(units(t) + nul_units(n)) + tail),
        ) == (layers::ExtraView { name: t, ..x }),
{
    let u = units(t) + nul_units(n);
    let b = writing::put32(u.len() as int) + (written_units(u) + tail);
    name_blocks_hold_their_units(u, u.len() as int, tail);
    units_are_read(t, n);
    nuls_are_taken_away(t, n);
    assert(key =~= bytes::key4('l', 'u', 'n', 'i'));
    assert(writing::put32(u.len() as int).len() == 4);
    name_block_names(x, len, b);
}

proof fn name_block_names(x: layers::ExtraView, len: int, b: Seq<u8>)
    requires
        b.len() >= 4,
    ensures
        layers::with_block(x, bytes::key4('l', 'u', 'n', 'i'), len, b) == (layers::ExtraView {
            name: text::without_nul(text::utf16_text(layers::name_units(b))),
            ..x
        }),
{
}

/// What a folder block says: its kind, and, where it goes on, its blend key.
pub proof fn folder_blocks_are_read_back(
    x: layers::ExtraView,
    key: Seq<u8>,
    kind: u32,
    mark: Seq<u8>,
    blend: Seq<u8>,
    tail: Seq<u8>,
)
    requires
        is_letters(key, 108, 115, 99, 116) || is_letters(key, 108, 115, 100, 107),
        mark.len() == 4,
        blend.len() == 4,
    ensures
        ({
            let short = writing::put32(kind as int);
            let b = short + (mark + (blend + tail));
            &&& layers::with_block(x, key, b.len() as int, b) == (layers::ExtraView {
                divider: kind,
                blend,
                ..x
            })
            &&& layers::with_block(x, key, short.len() as int, short) == (layers::ExtraView {
                divider: kind,
                ..x
            })
        }),
{
    let short = writing::put32(kind as int);
    let b = short + (mark + (blend + tail));
    writing::bytes_held(b, 0, b);
    writing::held_pieces(b, 0, short, mark + (blend + tail));
    writing::written32_is_read(b, 0, kind as int);
    writing::held_pieces(b, 4, mark, blend + tail);
    writing::held_pieces(b, 8, blend, tail);
    writing::bytes_held(short, 0, short);
    writing::written32_is_read(short, 0, kind as int);
    assert(bytes::key4('l', 's', 'c', 't') =~= seq![108u8, 115u8, 99u8, 116u8]);
    assert(bytes::key4('l', 's', 'd', 'k') =~= seq![108u8, 115u8, 100u8, 107u8]);
    assert(key != bytes::key4('l', 'u', 'n', 'i')) by {
        assert(bytes::key4('l', 'u', 'n', 'i')[1] == 117);
    }
}

/// What a block of the fill opacity says.
pub proof fn fill_opacities_are_read_back(
    x: layers::ExtraView,
    key: Seq<u8>,
    len: int,
    fill: u8,
    tail: Seq<u8>,
)
    requires
        is_letters(key, 105, 79, 112, 97),
    ensures
        layers::with_block(x, key, len, seq![fill] + tail) == (layers::ExtraView {
            fill_opacity: fill,
            ..x
        }),
{
    assert(key =~= bytes::key4('i', 'O', 'p', 'a'));
    assert(key[0] != bytes::key4('l', 'u', 'n', 'i')[0]);
    assert(key[0] != bytes::key4('l', 's', 'c', 't')[0]);
    assert(key[0] != bytes::key4('l', 's', 'd', 'k')[0]);
}

/// What a block of effects says: the layer has effects if it had some or one of these is on.
pub proof fn effect_blocks_are_told(x: layers::ExtraView, key: Seq<u8>, len: int, b: Seq<u8>)
    requires
        is_letters(key, 108, 114, 70, 88) || is_letters(key, 108, 102, 120, 50) || is_letters(
            key,
            108,
            109,
            102,
            120,
        ),
    ensures
        ({
            let on = if key[1] == 114 {
                effects::legacy_effect_on(b)
            } else {
                effects::descriptor_effect_on(b)
            };
            layers::with_block(x, key, len, b) == (layers::ExtraView {
                has_effects: x.has_effects || on,
                ..x
            })
        }),
{
    assert(bytes::key4('l', 'r', 'F', 'X') =~= seq![108u8, 114u8, 70u8, 88u8]);
    assert(bytes::key4('l', 'f', 'x', '2') =~= seq![108u8, 102u8, 120u8, 50u8]);
    assert(bytes::key4('l', 'm', 'f', 'x') =~= seq![108u8, 109u8, 102u8, 120u8]);
    assert(key[1] != bytes::key4('l', 'u', 'n', 'i')[1]);
    assert(key[1] != bytes::key4('l', 's', 'c', 't')[1]);
    assert(key[1] != bytes::key4('l', 's', 'd', 'k')[1]);
    assert(key[0] != bytes::key4('i', 'O', 'p', 'a')[0]);
    assert(seq![108u8, 102u8, 120u8, 50u8][1] != seq![108u8, 114u8, 70u8, 88u8][1]);
    assert(seq![108u8, 109u8, 102u8, 120u8][1] != seq![108u8, 114u8, 70u8, 88u8][1]);
}

/// Any other block changes nothing, but for the kind of adjustment that its key may mark.
pub proof fn other_blocks_say_nothing(x: layers::ExtraView, key: Seq<u8>, len: int, b: Seq<u8>)
    requires
        !is_letters(key, 108, 117, 110, 105),
        !is_letters(key, 108, 115, 99, 116),
        !is_letters(key, 108, 115, 100, 107),
        !is_letters(key, 105, 79, 112, 97),
        !is_letters(key, 108, 114, 70, 88),
        !is_letters(key, 108, 102, 120, 50),
        !is_letters(key, 108, 109, 102, 120),
    ensures
        layers::with_block(x, key, len, b) == (layers::ExtraView {
            adjustment: if effects::adjustment_text(key) is Some {
                effects::adjustment_text(key)
            } else {
                x.adjustment
            },
            ..x
        }),
{
    assert(bytes::key4('l', 'u', 'n', 'i') =~= seq![108u8, 117u8, 110u8, 105u8]);
    assert(bytes::key4('l', 's', 'c', 't') =~= seq![108u8, 115u8, 99u8, 116u8]);
    assert(bytes::key4('l', 's', 'd', 'k') =~= seq![108u8, 115u8, 100u8, 107u8]);
    assert(bytes::key4('i', 'O', 'p', 'a') =~= seq![105u8, 79u8, 112u8, 97u8]);
    assert(bytes::key4('l', 'r', 'F', 'X') =~= seq![108u8, 114u8, 70u8, 88u8]);
    assert(bytes::key4('l', 'f', 'x', '2') =~= seq![108u8, 102u8, 120u8, 50u8]);
    assert(bytes::key4('l', 'm', 'f', 'x') =~= seq![108u8, 109u8, 102u8, 120u8]);
}

/// An effect of the older format as a writer has it.
pub struct Effect {
    pub mark: Seq<u8>,
    pub key: Seq<u8>,
    pub body: Seq<u8>,
}

impl Effect {
    /// Where the switch of an effect of this kind lies in its body: of the two shadows (dsdw, isdw),
    /// the two glows (oglw, iglw), the bevel (bevl) and the solid fill (sofi).
    pub open spec fn switch(self) -> Option<int> {
        if self.key == seq![100u8, 115u8, 100u8, 119u8] || self.key == seq![
            105u8,
            115u8,
            100u8,
            119u8,
        ] {
            Some(38int)
        } else if self.key == seq![111u8, 103u8, 108u8, 119u8] || self.key == seq![
            105u8,
            103u8,
            108u8,
            119u8,
        ] {
            Some(30int)
        } else if self.key == seq![98u8, 101u8, 118u8, 108u8] {
            Some(55int)
        } else if self.key == seq![115u8, 111u8, 102u8, 105u8] {
            Some(23int)
        } else {
            None
        }
    }

    /// Whether the effect can be written, with its switch.
    pub open spec fn fits(self) -> bool {
        &&& self.mark.len() == 4
        &&& self.key.len() == 4
        &&& self.body.len() < 4294967296
        &&& self.switch() matches Some(at) ==> at < self.body.len()
    }

    /// Whether the effect is switched on.
    pub open spec fn is_on(self) -> bool {
        self.switch() matches Some(at) && self.body[at] != 0
    }

    /// The bytes of the effect.
    pub open spec fn written(self) -> Seq<u8> {
        self.mark + (self.key + (writing::put32(self.body.len() as int) + self.body))
    }
}

/// The bytes of the effects, one after another.
pub open spec fn written_effects(s: Seq<Effect>) -> Seq<u8>
    decreases s.len(),
{
    if s.len() == 0 {
        seq![]
    } else {
        s[0].written() + written_effects(s.skip(1))
    }
}

/// One of the effects is switched on if and only if reading finds one.
proof fn effects_are_found(b: Seq<u8>, pos: int, s: Seq<Effect>)
    requires
        writing::holds(b, pos, written_effects(s)),
        forall|i: int| 0 <= i < s.len() ==> (#[trigger] s[i]).fits(),
        b.len() <= u64::MAX,
    ensures
        effects::effect_on_from(b, pos, s.len() as int) <==> exists|i: int|
            0 <= i < s.len() && (#[trigger] s[i]).is_on(),
    decreases s.len(),
{
    if s.len() > 0 {
        let e = s[0];
        let rest = s.skip(1);
        let sized = writing::put32(e.body.len() as int) + e.body;
        writing::held_pieces(b, pos, e.written(), written_effects(rest));
        writing::held_pieces(b, pos, e.mark, e.key + sized);
        writing::held_pieces(b, pos + 4, e.key, sized);
        writing::held_pieces(b, pos + 8, writing::put32(e.body.len() as int), e.body);
        writing::written32_is_read(b, pos + 8, e.body.len() as int);
        writing::held_bytes(b, pos + 12, e.body);
        assert forall|i: int| 0 <= i < rest.len() implies (#[trigger] rest[i]).fits() by {
            assert(rest[i] == s[i + 1]);
        }
        effects_are_found(b, pos + 12 + e.body.len(), rest);
        switches_are_known(e);
        if let Some(at) = e.switch() {
            assert(b[pos + 12 + at] == e.body[at]);
        }
        if exists|i: int| 0 <= i < rest.len() && (#[trigger] rest[i]).is_on() {
            let i = choose|i: int| 0 <= i < rest.len() && (#[trigger] rest[i]).is_on();
            assert(s[i + 1].is_on());
        }
        if exists|i: int| 0 <= i < s.len() && (#[trigger] s[i]).is_on() {
            let i = choose|i: int| 0 <= i < s.len() && (#[trigger] s[i]).is_on();
            if i > 0 {
                assert(rest[i - 1].is_on());
            }
        }
    }
}

/// The switch of an effect is looked for where it is written.
proof fn switches_are_known(e: Effect)
    requires
        e.fits(),
    ensures
        effects::switch_at(e.key) == e.switch(),
{
    assert(bytes::key4('d', 's', 'd', 'w') =~= seq![100u8, 115u8, 100u8, 119u8]);
    assert(bytes::key4('i', 's', 'd', 'w') =~= seq![105u8, 115u8, 100u8, 119u8]);
    assert(bytes::key4('o', 'g', 'l', 'w') =~= seq![111u8, 103u8, 108u8, 119u8]);
    assert(bytes::key4('i', 'g', 'l', 'w') =~= seq![105u8, 103u8, 108u8, 119u8]);
    assert(bytes::key4('b', 'e', 'v', 'l') =~= seq![98u8, 101u8, 118u8, 108u8]);
    assert(bytes::key4('s', 'o', 'f', 'i') =~= seq![115u8, 111u8, 102u8, 105u8]);
}

/// A block of effects of the older format has one that is switched on if and only if one was
/// written so.
pub proof fn effects_are_read_back(version: Seq<u8>, s: Seq<Effect>, tail: Seq<u8>)
    requires
        version.len() == 2,
        s.len() < 65536,
        forall|i: int| 0 <= i < s.len() ==> (#[trigger] s[i]).fits(),
        version.len() + 2 + written_effects(s).len() + tail.len() <= u64::MAX,
    ensures
        effects::legacy_effect_on(
            version + (writing::put16(s.len() as int) + (written_effects(s) + tail)),
        ) <==> exists|i: int| 0 <= i < s.len() && (#[trigger] s[i]).is_on(),
{
    let n = writing::put16(s.len() as int);
    let b = version + (n + (written_effects(s) + tail));
    writing::bytes_held(b, 0, b);
    writing::held_pieces(b, 0, version, n + (written_effects(s) + tail));
    writing::held_pieces(b, 2, n, written_effects(s) + tail);
    writing::held_pieces(b, 4, written_effects(s), tail);
    writing::written16_is_read(b, 2, s.len() as int);
    effects_are_found(b, 4, s);
}

/// Whether `part` lies in `b` at `i`.
pub open spec fn lies_at(b: Seq<u8>, part: Seq<u8>, i: int) -> bool {
    0 <= i && i + part.len() <= b.len() && b.subrange(i, i + part.len()) == part
}

/// What is looked for is found at the first place where it lies, and nowhere if it lies nowhere.
proof fn first_place_is_found(b: Seq<u8>, part: Seq<u8>, from: int)
    requires
        part.len() > 0,
        0 <= from,
    ensures
        match effects::first_index(b, part, from) {
            Some(i) => from <= i && lies_at(b, part, i) && forall|k: int|
                from <= k < i ==> !#[trigger] lies_at(b, part, k),
            None => forall|k: int| from <= k ==> !#[trigger] lies_at(b, part, k),
        },
    decreases b.len() - from,
{
    if from + part.len() <= b.len() && b.subrange(from, from + part.len()) != part {
        first_place_is_found(b, part, from + 1);
    }
}

/// The letters `masterFXSwitch`.
pub open spec fn switch_name() -> Seq<u8> {
    seq![
        109u8,
        97u8,
        115u8,
        116u8,
        101u8,
        114u8,
        70u8,
        88u8,
        83u8,
        119u8,
        105u8,
        116u8,
        99u8,
        104u8,
    ]
}

/// The letters `bool`.
pub open spec fn bool_name() -> Seq<u8> {
    seq![98u8, 111u8, 111u8, 108u8]
}

/// A descriptor has its effects on unless the byte behind the first `bool` after the first
/// `masterFXSwitch` is 0.
pub proof fn main_switches_are_read(b: Seq<u8>)
    ensures
        effects::descriptor_effect_on(b) <==> !exists|i: int, k: int|
            {
                &&& #[trigger] lies_at(b, switch_name(), i)
                &&& forall|a: int| a < i ==> !#[trigger] lies_at(b, switch_name(), a)
                &&& i + 14 <= k
                &&& #[trigger] lies_at(b, bool_name(), k)
                &&& forall|a: int| i + 14 <= a < k ==> !#[trigger] lies_at(b, bool_name(), a)
                &&& k + 4 < b.len()
                &&& b[k + 4] == 0
            },
{
    assert(effects::main_switch() =~= switch_name());
    assert(bytes::key4('b', 'o', 'o', 'l') =~= bool_name());
    first_place_is_found(b, switch_name(), 0);
    if let Some(at) = effects::first_index(b, switch_name(), 0) {
        let rest = b.skip(at + 14);
        first_place_is_found(rest, bool_name(), 0);
        assert forall|a: int| at + 14 <= a implies (#[trigger] lies_at(b, bool_name(), a)
            <==> lies_at(rest, bool_name(), a - (at + 14))) by {
            if a + 4 <= b.len() {
                assert(b.subrange(a, a + 4) =~= rest.subrange(a - (at + 14), a - (at + 14) + 4));
            }
        }
        if let Some(k) = effects::first_index(rest, bool_name(), 0) {
            assert(lies_at(b, bool_name(), at + 14 + k));
            assert forall|a: int| at + 14 <= a < at + 14 + k implies !#[trigger] lies_at(
                b,
                bool_name(),
                a,
            ) by {
                assert(!lies_at(rest, bool_name(), a - (at + 14)));
            }
            assert forall|i: int, m: int|
                {
                    &&& #[trigger] lies_at(b, switch_name(), i)
                    &&& forall|a: int| a < i ==> !#[trigger] lies_at(b, switch_name(), a)
                    &&& i + 14 <= m
                    &&& #[trigger] lies_at(b, bool_name(), m)
                    &&& forall|a: int| i + 14 <= a < m ==> !#[trigger] lies_at(b, bool_name(), a)
                } implies i == at && m == at + 14 + k by {
                assert(!(at < i) && !(i < at));
                assert(!(at + 14 + k < m));
            }
        }
    }
}

/// What a block says that is too short for its content: one of a name leaves the name as it is, one
/// of a folder stands for no folder, and one of the fill opacity for the full one.
pub proof fn short_blocks_say_little(x: layers::ExtraView, key: Seq<u8>, len: int, b: Seq<u8>)
    requires
        b.len() < 4,
    ensures
        is_letters(key, 108, 117, 110, 105) ==> layers::with_block(x, key, len, b) == x,
        is_letters(key, 108, 115, 99, 116) || is_letters(key, 108, 115, 100, 107)
            ==> layers::with_block(x, key, len, b) == (layers::ExtraView { divider: 0, ..x }),
        is_letters(key, 105, 79, 112, 97) && b.len() == 0 ==> layers::with_block(x, key, len, b)
            == (layers::ExtraView { fill_opacity: 255, ..x }),
{
    if is_letters(key, 108, 117, 110, 105) {
        assert(key =~= bytes::key4('l', 'u', 'n', 'i'));
    } else if is_letters(key, 108, 115, 99, 116) {
        assert(key =~= bytes::key4('l', 's', 'c', 't'));
        assert(key[1] != bytes::key4('l', 'u', 'n', 'i')[1]);
    } else if is_letters(key, 108, 115, 100, 107) {
        assert(key =~= bytes::key4('l', 's', 'd', 'k'));
        assert(key[1] != bytes::key4('l', 'u', 'n', 'i')[1]);
    } else if is_letters(key, 105, 79, 112, 97) {
        assert(key =~= bytes::key4('i', 'O', 'p', 'a'));
        assert(key[0] != bytes::key4('l', 'u', 'n', 'i')[0]);
        assert(key[0] != bytes::key4('l', 's', 'c', 't')[0]);
        assert(key[0] != bytes::key4('l', 's', 'd', 'k')[0]);
    }
}

} // verus!
