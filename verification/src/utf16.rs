//! UTF-16 encoding of color and group names.
//!
//! The wire format stores a name as big-endian UTF-16 code units.
//! `utf16_units` is the mathematical encoding of a character sequence;
//! it is injective, so a well-formed unit sequence determines its text.

use vstd::arithmetic::div_mod::lemma_fundamental_div_mod;
use vstd::prelude::*;

use crate::endian::be16;

verus! {

/// The UTF-16 code units of one character: a single unit for a code
/// point below `0x10000`, a surrogate pair for the rest.
pub open spec fn utf16_units_of_char(c: char) -> Seq<u16> {
    let v = c as int;
    if v < 0x10000 {
        seq![v as u16]
    } else {
        seq![
            (0xd800 + (v - 0x10000) / 0x400) as u16,
            (0xdc00 + (v - 0x10000) % 0x400) as u16,
        ]
    }
}

/// The UTF-16 code units of a character sequence.
pub open spec fn utf16_units(s: Seq<char>) -> Seq<u16>
    decreases s.len(),
{
    if s.len() == 0 {
        Seq::empty()
    } else {
        utf16_units_of_char(s[0]) + utf16_units(s.skip(1))
    }
}

/// The big-endian bytes of a sequence of UTF-16 code units.
pub open spec fn units_bytes(us: Seq<u16>) -> Seq<u8>
    decreases us.len(),
{
    if us.len() == 0 {
        Seq::empty()
    } else {
        be16(us[0]) + units_bytes(us.skip(1))
    }
}

/// A character sequence is UTF-16 encodable as is; its unit sequence is
/// at least as long and at most twice as long.
pub proof fn lemma_utf16_units_len(s: Seq<char>)
    ensures
        s.len() <= utf16_units(s).len() <= 2 * s.len(),
    decreases s.len(),
{
    if s.len() > 0 {
        lemma_utf16_units_len(s.skip(1));
    }
}

/// Encoding a concatenation concatenates the encodings.
pub proof fn lemma_utf16_units_concat(s1: Seq<char>, s2: Seq<char>)
    ensures
        utf16_units(s1 + s2) == utf16_units(s1) + utf16_units(s2),
    decreases s1.len(),
{
    if s1.len() == 0 {
        assert(s1 + s2 =~= s2);
        assert(utf16_units(s1) + utf16_units(s2) =~= utf16_units(s2));
    } else {
        assert((s1 + s2).skip(1) =~= s1.skip(1) + s2);
        lemma_utf16_units_concat(s1.skip(1), s2);
        assert(utf16_units(s1 + s2) =~= utf16_units(s1) + utf16_units(s2));
    }
}

/// The encoding of a single character.
pub proof fn lemma_utf16_units_singleton(c: char)
    ensures
        utf16_units(seq![c]) == utf16_units_of_char(c),
{
    assert(seq![c].skip(1) =~= Seq::<char>::empty());
    assert(utf16_units(Seq::<char>::empty()) =~= Seq::<u16>::empty());
    assert(seq![c][0] == c);
    assert(utf16_units(seq![c]) =~= utf16_units_of_char(c));
}

/// Appending one character appends its units.
pub proof fn lemma_utf16_units_push(s: Seq<char>, c: char)
    ensures
        utf16_units(s.push(c)) == utf16_units(s) + utf16_units_of_char(c),
{
    assert(s.push(c) =~= s + seq![c]);
    lemma_utf16_units_concat(s, seq![c]);
    lemma_utf16_units_singleton(c);
}

/// Shape of a character's units: a one-unit character is stored as its
/// own code point, outside the surrogate range; a two-unit character is
/// stored as a high surrogate followed by a low surrogate, and the pair
/// determines the code point.
pub proof fn lemma_utf16_units_of_char_shape(c: char)
    ensures
        (c as int) < 0x10000 ==> ({
            let us = utf16_units_of_char(c);
            us.len() == 1 && us[0] == c as int && !(0xd800 <= us[0] < 0xe000)
        }),
        (c as int) >= 0x10000 ==> ({
            let us = utf16_units_of_char(c);
            us.len() == 2 && 0xd800 <= us[0] < 0xdc00 && 0xdc00 <= us[1] < 0xe000
                && c as int == 0x10000 + 0x400 * (us[0] - 0xd800) + (us[1] - 0xdc00)
        }),
{
    let v = c as int;
    if v >= 0x10000 {
        lemma_fundamental_div_mod(v - 0x10000, 0x400);
        assert((v - 0x10000) / 0x400 <= 0x3ff) by {
            assert(v <= 0x10ffff);
            if (v - 0x10000) / 0x400 > 0x3ff {
                assert(0x400 * ((v - 0x10000) / 0x400) >= 0x400 * 0x400) by (nonlinear_arith)
                    requires
                        (v - 0x10000) / 0x400 >= 0x400,
                ;
            }
        }
    }
}

/// UTF-16 encoding is injective: equal unit sequences come from equal
/// texts.
pub proof fn lemma_utf16_units_injective(s1: Seq<char>, s2: Seq<char>)
    requires
        utf16_units(s1) == utf16_units(s2),
    ensures
        s1 == s2,
    decreases s1.len(),
{
    if s1.len() == 0 {
        if s2.len() != 0 {
            assert(utf16_units(s2).len() > 0);
        }
        assert(s1 =~= s2);
    } else if s2.len() == 0 {
        assert(utf16_units(s1).len() > 0);
        assert(s1 =~= s2);
    } else {
        let c1 = s1[0];
        let c2 = s2[0];
        let u1 = utf16_units_of_char(c1);
        let u2 = utf16_units_of_char(c2);
        lemma_utf16_units_of_char_shape(c1);
        lemma_utf16_units_of_char_shape(c2);
        assert(utf16_units(s1)[0] == u1[0]);
        assert(utf16_units(s2)[0] == u2[0]);
        if (c1 as int) < 0x10000 && (c2 as int) >= 0x10000 {
            assert(false);
        } else if (c1 as int) >= 0x10000 && (c2 as int) < 0x10000 {
            assert(false);
        } else if (c1 as int) >= 0x10000 {
            assert(utf16_units(s1).len() >= 2 && utf16_units(s2).len() >= 2);
            assert(utf16_units(s1)[1] == u1[1]);
            assert(utf16_units(s2)[1] == u2[1]);
            assert(c1 as int == c2 as int);
        } else {
            assert(c1 as int == c2 as int);
        }
        assert(c1 == c2);
        let k = u1.len() as int;
        assert(utf16_units(s1.skip(1)) =~= utf16_units(s1).skip(k));
        assert(utf16_units(s2.skip(1)) =~= utf16_units(s2).skip(k));
        lemma_utf16_units_injective(s1.skip(1), s2.skip(1));
        assert(s1 =~= s2) by {
            assert forall|i: int| 0 < i < s1.len() implies s1[i] == s2[i] by {
                assert(s1[i] == s1.skip(1)[i - 1]);
                assert(s2[i] == s2.skip(1)[i - 1]);
            }
        }
    }
}

/// The byte form of a unit sequence is twice as long.
pub proof fn lemma_units_bytes_len(us: Seq<u16>)
    ensures
        units_bytes(us).len() == 2 * us.len(),
    decreases us.len(),
{
    if us.len() > 0 {
        lemma_units_bytes_len(us.skip(1));
    }
}

/// The bytes of a concatenation of unit sequences.
pub proof fn lemma_units_bytes_concat(a: Seq<u16>, b: Seq<u16>)
    ensures
        units_bytes(a + b) == units_bytes(a) + units_bytes(b),
    decreases a.len(),
{
    if a.len() == 0 {
        assert(a + b =~= b);
        assert(units_bytes(a) + units_bytes(b) =~= units_bytes(b));
    } else {
        assert((a + b).skip(1) =~= a.skip(1) + b);
        lemma_units_bytes_concat(a.skip(1), b);
        assert(units_bytes(a + b) =~= units_bytes(a) + units_bytes(b));
    }
}

/// Appending one unit appends its two bytes.
pub proof fn lemma_units_bytes_push(us: Seq<u16>, u: u16)
    ensures
        units_bytes(us.push(u)) == units_bytes(us) + be16(u),
{
    assert(us.push(u) =~= us + seq![u]);
    lemma_units_bytes_concat(us, seq![u]);
    assert(seq![u].skip(1) =~= Seq::<u16>::empty());
    assert(units_bytes(Seq::<u16>::empty()) =~= Seq::<u8>::empty());
    assert(seq![u][0] == u);
    assert(units_bytes(seq![u]) =~= be16(u));
}

/// Each unit's big-endian bytes stand at twice its index.
pub proof fn lemma_units_bytes_index(us: Seq<u16>, i: int)
    requires
        0 <= i < us.len(),
    ensures
        units_bytes(us)[2 * i] == be16(us[i])[0],
        units_bytes(us)[2 * i + 1] == be16(us[i])[1],
    decreases i,
{
    lemma_units_bytes_len(us);
    lemma_units_bytes_len(us.skip(1));
    if i == 0 {
    } else {
        lemma_units_bytes_index(us.skip(1), i - 1);
    }
}

/// Relies on `String::from_utf16`: it succeeds exactly on well-formed
/// UTF-16 — the unit sequences that `utf16_units` yields on some text,
/// with every surrogate correctly paired — and returns that text.
#[verifier::external_body]
pub(crate) fn string_from_utf16(units: &Vec<u16>) -> (r: Option<String>)
    ensures
        r is Some <==> exists|s: Seq<char>| utf16_units(s) == units@,
        r matches Some(name) ==> utf16_units(name@) == units@,
{
    String::from_utf16(units.as_slice()).ok()
}

/// Count the UTF-16 code units of a string.
pub(crate) fn utf16_unit_count(s: &str) -> (n: usize)
    requires
        utf16_units(s@).len() <= 0xfffe,
    ensures
        n == utf16_units(s@).len(),
{
    let len = s.unicode_len();
    let mut n: usize = 0;
    let mut i: usize = 0;
    while i < len
        invariant
            i <= len,
            len == s@.len(),
            n == utf16_units(s@.subrange(0, i as int)).len(),
            utf16_units(s@).len() <= 0xfffe,
        decreases len - i,
    {
        let c = s.get_char(i);
        proof {
            assert(s@.subrange(0, i + 1) =~= s@.subrange(0, i as int).push(c));
            lemma_utf16_units_push(s@.subrange(0, i as int), c);
            assert(s@ =~= s@.subrange(0, i + 1) + s@.subrange(i + 1, len as int));
            lemma_utf16_units_concat(s@.subrange(0, i + 1), s@.subrange(i + 1, len as int));
        }
        if (c as u32) < 0x10000 {
            n += 1;
        } else {
            n += 2;
        }
        i += 1;
    }
    proof {
        assert(s@.subrange(0, len as int) =~= s@);
    }
    n
}

} // verus!
