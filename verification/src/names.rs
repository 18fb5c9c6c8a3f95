//! The name field shared by color blocks and groups: a `u16` count of
//! UTF-16 code units including one zero terminator, then that many
//! big-endian units, the last of them the terminator.

use vstd::prelude::*;

use crate::endian::{be16, lemma_be16_round_trip, read_u16_be, u16_at};
use crate::error::ASEError;
use crate::utf16::{
    lemma_units_bytes_index, lemma_units_bytes_len, lemma_utf16_units_injective,
    string_from_utf16, units_bytes, utf16_units,
};

verus! {

/// The wire form of a name: unit count including the terminator, the
/// units, the zero terminator.
pub open spec fn spec_name_field_bytes(name: Seq<char>) -> Seq<u8> {
    be16((utf16_units(name).len() + 1) as u16) + units_bytes(utf16_units(name)) + seq![0u8, 0u8]
}

/// A name fits its wire form: the unit count including the terminator
/// fits the 16-bit count field.
pub open spec fn name_wf(name: Seq<char>) -> bool {
    utf16_units(name).len() + 1 <= 0xffff
}

/// The name read from the head of `bytes`, and the offset just past its
/// field.  A count of zero, or one that points past the end, is an
/// `InputDataParseError`; units that no text encodes to are a
/// `UTF16Error`.  The unit in terminator position is not inspected.
pub open spec fn spec_parse_name(bytes: Seq<u8>) -> Result<(Seq<char>, int), ASEError> {
    if bytes.len() < 2 {
        Err(ASEError::InputDataParseError)
    } else {
        let nl = u16_at(bytes, 0) as int;
        if nl < 1 || 2 * nl > bytes.len() {
            Err(ASEError::InputDataParseError)
        } else {
            let units = Seq::new((nl - 1) as nat, |i: int| u16_at(bytes, 2 + 2 * i));
            if exists|s: Seq<char>| utf16_units(s) == units {
                Ok(((choose|s: Seq<char>| utf16_units(s) == units), 2 * nl + 2))
            } else {
                Err(ASEError::UTF16Error)
            }
        }
    }
}

/// Parse a name field from the head of `bytes`.
pub(crate) fn parse_name(bytes: &[u8]) -> (r: Result<(String, usize), ASEError>)
    ensures
        match r {
            Ok(p) => spec_parse_name(bytes@) == Ok::<_, ASEError>((p.0@, p.1 as int)),
            Err(e) => spec_parse_name(bytes@) == Err::<(Seq<char>, int), _>(e),
        },
{
    let n = bytes.len();
    if n < 2 {
        return Err(ASEError::InputDataParseError);
    }
    let nl = read_u16_be(bytes, 0) as usize;
    if nl < 1 || 2 * nl > n {
        return Err(ASEError::InputDataParseError);
    }
    let mut units: Vec<u16> = Vec::new();
    let mut j: usize = 0;
    while j < nl - 1
        invariant
            j <= nl - 1,
            1 <= nl <= 0xffff,
            2 * nl <= bytes@.len(),
            units@ == Seq::new(j as nat, |i: int| u16_at(bytes@, 2 + 2 * i)),
        decreases nl - 1 - j,
    {
        let u = read_u16_be(bytes, 2 + 2 * j);
        units.push(u);
        proof {
            assert(units@ =~= Seq::new((j + 1) as nat, |i: int| u16_at(bytes@, 2 + 2 * i)));
        }
        j += 1;
    }
    let ghost spec_units = Seq::new((nl - 1) as nat, |i: int| u16_at(bytes@, 2 + 2 * i));
    match string_from_utf16(&units) {
        Some(name) => {
            proof {
                let picked = choose|s: Seq<char>| utf16_units(s) == spec_units;
                lemma_utf16_units_injective(name@, picked);
            }
            Ok((name, 2 * nl + 2))
        },
        None => Err(ASEError::UTF16Error),
    }
}

/// Parsing a well-formed name's wire form, whatever follows it, yields
/// the name back and stops just past its field.
pub proof fn lemma_parse_name_round_trip(name: Seq<char>, suffix: Seq<u8>)
    requires
        name_wf(name),
    ensures
        spec_parse_name(spec_name_field_bytes(name) + suffix) == Ok::<_, ASEError>(
            (name, spec_name_field_bytes(name).len() as int),
        ),
{
    let units = utf16_units(name);
    let nl16 = (units.len() + 1) as u16;
    let field = spec_name_field_bytes(name);
    let bytes = field + suffix;
    lemma_units_bytes_len(units);
    lemma_be16_round_trip(nl16);
    assert(bytes[0] == be16(nl16)[0]);
    assert(bytes[1] == be16(nl16)[1]);
    assert(u16_at(bytes, 0) == nl16);
    let nl = nl16 as int;
    assert(nl == units.len() + 1);
    assert(field.len() == 2 * nl + 2);
    assert(2 * nl <= bytes.len());
    let parsed = Seq::new((nl - 1) as nat, |i: int| u16_at(bytes, 2 + 2 * i));
    assert forall|i: int| 0 <= i < units.len() implies parsed[i] == units[i] by {
        lemma_units_bytes_index(units, i);
        assert(bytes[2 + 2 * i] == units_bytes(units)[2 * i]);
        assert(bytes[2 + 2 * i + 1] == units_bytes(units)[2 * i + 1]);
        lemma_be16_round_trip(units[i]);
    }
    assert(parsed =~= units);
    assert(utf16_units(name) == parsed);
    let picked = choose|s: Seq<char>| utf16_units(s) == parsed;
    lemma_utf16_units_injective(picked, name);
}

} // verus!
