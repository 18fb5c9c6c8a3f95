//! The round-trip guarantee: decoding what the encoder wrote yields the
//! groups and colors back, layer by layer — color values, color blocks,
//! groups, and whole files.

use vstd::prelude::*;

use crate::color_block::{
    block_wf, lemma_block_body_len, spec_block_body, spec_block_bytes, spec_block_len,
    spec_parse_color_block, ColorBlockView,
};
use crate::color_type::color_type_code;
use crate::color_value::{
    lemma_color_payload_len, spec_color_bytes, spec_color_payload, spec_color_payload_len,
    spec_color_tag, spec_parse_color_value, ColorValue,
};
use crate::endian::{be16, be32, lemma_be32_round_trip, u16_at, u32_at};
use crate::error::ASEError;
use crate::group::{
    group_wf, lemma_blocks_bytes_len, lemma_blocks_len_nonneg, lemma_group_body_len,
    spec_blocks_bytes, spec_blocks_len, spec_group_blocks, spec_group_body, spec_group_bytes,
    spec_group_len, spec_parse_group, GroupHoldView, GroupView,
};
use crate::names::{lemma_parse_name_round_trip, name_wf, spec_name_field_bytes};
use crate::utf16::{lemma_units_bytes_len, utf16_units};
use crate::{
    file_wf, spec_file_bytes, spec_groups_bytes, spec_read_ase, spec_read_blocks,
    stream_decodable,
};

verus! {

/// Parsing an encoded color value, whatever follows it, yields the
/// value back.
pub proof fn lemma_parse_color_value_round_trip(v: ColorValue, suffix: Seq<u8>)
    ensures
        spec_parse_color_value(spec_color_bytes(v) + suffix) == Ok::<_, ASEError>(v),
{
    let bytes = spec_color_bytes(v) + suffix;
    let tag = spec_color_tag(v);
    let payload = spec_color_payload(v);
    lemma_color_payload_len(v);
    assert(bytes.subrange(0, 4) =~= tag);
    match v {
        ColorValue::Cmyk(c, m, y, k) => {
            assert(u32_at(bytes, 4) == c && u32_at(bytes, 8) == m && u32_at(bytes, 12) == y
                && u32_at(bytes, 16) == k) by {
                assert(payload =~= be32(c) + be32(m) + be32(y) + be32(k));
                assert forall|i: int| 0 <= i < 16 implies bytes[4 + i] == payload[i] by {}
                lemma_be32_round_trip(c);
                lemma_be32_round_trip(m);
                lemma_be32_round_trip(y);
                lemma_be32_round_trip(k);
            }
        },
        ColorValue::Rgb(r, g, b) => {
            assert(u32_at(bytes, 4) == r && u32_at(bytes, 8) == g && u32_at(bytes, 12) == b) by {
                assert(payload =~= be32(r) + be32(g) + be32(b));
                assert forall|i: int| 0 <= i < 12 implies bytes[4 + i] == payload[i] by {}
                lemma_be32_round_trip(r);
                lemma_be32_round_trip(g);
                lemma_be32_round_trip(b);
            }
        },
        ColorValue::Lab(l, a, b) => {
            assert(u32_at(bytes, 4) == l && u32_at(bytes, 8) == a && u32_at(bytes, 12) == b) by {
                assert(payload =~= be32(l) + be32(a) + be32(b));
                assert forall|i: int| 0 <= i < 12 implies bytes[4 + i] == payload[i] by {}
                lemma_be32_round_trip(l);
                lemma_be32_round_trip(a);
                lemma_be32_round_trip(b);
            }
        },
        ColorValue::Gray(g) => {
            assert(u32_at(bytes, 4) == g) by {
                assert(payload =~= be32(g));
                assert forall|i: int| 0 <= i < 4 implies bytes[4 + i] == payload[i] by {}
                lemma_be32_round_trip(g);
            }
        },
    }
}

/// Parsing an encoded color block's body, whatever follows it, yields
/// the block back.
pub proof fn lemma_parse_color_block_round_trip(b: ColorBlockView, suffix: Seq<u8>)
    requires
        block_wf(b),
    ensures
        spec_parse_color_block(spec_block_body(b) + suffix) == Ok::<_, ASEError>(b),
{
    let body = spec_block_body(b);
    let bytes = body + suffix;
    let namefield = spec_name_field_bytes(b.name);
    let colorbytes = spec_color_bytes(b.color);
    let typebytes = be16(color_type_code(b.color_type));
    lemma_units_bytes_len(utf16_units(b.name));
    lemma_color_payload_len(b.color);
    assert(bytes == namefield + (colorbytes + typebytes + suffix)) by {
        assert(bytes =~= namefield + (colorbytes + typebytes + suffix));
    }
    lemma_parse_name_round_trip(b.name, colorbytes + typebytes + suffix);
    let cvs = namefield.len() as int;
    assert(bytes.subrange(cvs, bytes.len() as int) =~= colorbytes + (typebytes + suffix));
    lemma_parse_color_value_round_trip(b.color, typebytes + suffix);
    let cts = cvs + spec_color_payload_len(b.color) + 4;
    assert(cts + 1 < bytes.len());
    assert(bytes[cts + 1] == typebytes[1]);
    assert(typebytes[1] == color_type_code(b.color_type) as u8);
    assert(ColorBlockView { name: b.name, color: b.color, color_type: b.color_type } == b);
}

/// The byte count a well-formed block's length field can carry.
pub proof fn lemma_block_len_bounds(b: ColorBlockView)
    requires
        block_wf(b),
    ensures
        14 <= spec_block_len(b) <= 0xffff_ffff,
{
    lemma_color_payload_len(b.color);
}

/// Parsing one encoded block standing at `pointer`, with `restbytes`
/// after it: the block is collected, and the parse either ends there —
/// when nothing, or too little for another block, follows — or goes on
/// just past the block.
#[verifier::rlimit(100)]
pub proof fn lemma_group_blocks_step(bytes: Seq<u8>, pointer: int, b0: ColorBlockView, restbytes: Seq<u8>)
    requires
        0 <= pointer <= bytes.len(),
        bytes.subrange(pointer, bytes.len() as int) == spec_block_bytes(b0) + restbytes,
        block_wf(b0),
    ensures
        restbytes.len() == 0 ==> spec_group_blocks(bytes, pointer) == Ok::<_, ASEError>(
            seq![b0],
        ),
        restbytes.len() >= 2 ==> spec_group_blocks(bytes, pointer) == (
        match spec_group_blocks(bytes, pointer + 6 + spec_block_len(b0)) {
            Ok(rest) => Ok::<_, ASEError>(seq![b0].add(rest)),
            Err(e) => Err::<Seq<ColorBlockView>, _>(e),
        }),
{
    let b0bytes = spec_block_bytes(b0);
    let sub = bytes.subrange(pointer, bytes.len() as int);
    lemma_block_body_len(b0);
    lemma_block_len_bounds(b0);
    let bl32 = spec_block_len(b0) as u32;
    assert(b0bytes == be16(0x0001) + be32(bl32) + spec_block_body(b0));
    assert(b0bytes.len() == 6 + spec_block_len(b0));
    assert(sub.len() == bytes.len() - pointer);
    assert(sub.len() == b0bytes.len() + restbytes.len());
    assert(pointer + b0bytes.len() + restbytes.len() == bytes.len());
    assert(pointer < bytes.len() - 1);
    assert(bytes[pointer] == be16(0x0001)[0]) by {
        assert(sub[0] == b0bytes[0]);
    }
    assert(bytes[pointer + 1] == be16(0x0001)[1]) by {
        assert(sub[1] == b0bytes[1]);
    }
    assert(u16_at(bytes, pointer) == 0x0001);
    lemma_be32_round_trip(bl32);
    assert(u32_at(bytes, pointer + 2) == bl32) by {
        assert(sub[2] == b0bytes[2] && b0bytes[2] == be32(bl32)[0]);
        assert(sub[3] == b0bytes[3] && b0bytes[3] == be32(bl32)[1]);
        assert(sub[4] == b0bytes[4] && b0bytes[4] == be32(bl32)[2]);
        assert(sub[5] == b0bytes[5] && b0bytes[5] == be32(bl32)[3]);
    }
    assert(bytes.subrange(pointer + 6, bytes.len() as int) =~= sub.skip(6));
    assert(sub.skip(6) =~= spec_block_body(b0) + restbytes);
    lemma_parse_color_block_round_trip(b0, restbytes);
    let next = pointer + 6 + spec_block_len(b0);
    assert(next == bytes.len() - restbytes.len());
}

/// Parsing the block region of a group payload — the encoded blocks
/// running exactly to the payload's end — collects them all.
#[verifier::rlimit(100)]
pub proof fn lemma_group_blocks_round_trip(bytes: Seq<u8>, pointer: int, bs: Seq<ColorBlockView>)
    requires
        0 <= pointer <= bytes.len(),
        bytes.subrange(pointer, bytes.len() as int) == spec_blocks_bytes(bs),
        forall|i: int| 0 <= i < bs.len() ==> block_wf(#[trigger] bs[i]),
    ensures
        spec_group_blocks(bytes, pointer) == Ok::<_, ASEError>(bs),
    decreases bs.len(),
{
    lemma_blocks_bytes_len(bs);
    assert(pointer + spec_blocks_len(bs) == bytes.len());
    if bs.len() == 0 {
        assert(bs =~= Seq::<ColorBlockView>::empty());
    } else {
        let b0 = bs[0];
        let rest = bs.skip(1);
        let restbytes = spec_blocks_bytes(rest);
        let sub = bytes.subrange(pointer, bytes.len() as int);
        lemma_blocks_len_nonneg(rest);
        lemma_blocks_bytes_len(rest);
        assert(spec_blocks_bytes(bs) == spec_block_bytes(b0) + restbytes);
        lemma_group_blocks_step(bytes, pointer, b0, restbytes);
        lemma_block_body_len(b0);
        lemma_block_len_bounds(b0);
        let k = 6 + spec_block_len(b0);
        let next = pointer + k;
        assert(spec_block_bytes(b0).len() == k);
        assert(sub.len() == bytes.len() - pointer);
        if rest.len() == 0 {
            assert(seq![b0] =~= bs);
        } else {
            lemma_block_len_bounds(rest[0]);
            lemma_blocks_len_nonneg(rest.skip(1));
            assert(restbytes.len() >= 20);
            assert(bytes.subrange(next, bytes.len() as int) =~= sub.skip(k));
            assert(sub.skip(k) =~= restbytes);
            assert forall|i: int| 0 <= i < rest.len() implies block_wf(#[trigger] rest[i]) by {
                assert(rest[i] == bs[i + 1]);
            }
            lemma_group_blocks_round_trip(bytes, next, rest);
            assert(seq![b0].add(rest) =~= bs);
        }
    }
}

/// Parsing an encoded group's payload yields the group back.
pub proof fn lemma_parse_group_round_trip(g: GroupView)
    requires
        group_wf(g),
    ensures
        spec_parse_group(spec_group_body(g)) == Ok::<_, ASEError>(g),
{
    let body = spec_group_body(g);
    lemma_parse_name_round_trip(g.name, spec_blocks_bytes(g.blocks));
    let p = spec_name_field_bytes(g.name).len() as int;
    assert(body.subrange(p, body.len() as int) =~= spec_blocks_bytes(g.blocks));
    lemma_group_blocks_round_trip(body, p, g.blocks);
    assert(GroupView { name: g.name, blocks: g.blocks } == g);
}

/// Reading one encoded nonempty group from the stream: the decoder
/// takes its GroupStart, holds it pre-built, consumes the GroupEnd, and
/// emits the group, charging one header count.
#[verifier::rlimit(100)]
pub proof fn lemma_read_group_step(
    bytes: Seq<u8>,
    pos: int,
    g: GroupView,
    remaining: int,
    accg: Seq<GroupView>,
    accc: Seq<ColorBlockView>,
    skipped: int,
    safe: bool,
)
    requires
        0 <= pos,
        pos + 8 + spec_group_len(g) <= bytes.len(),
        bytes.subrange(pos, pos + 8 + spec_group_len(g)) == spec_group_bytes(g),
        group_wf(g),
        g.blocks.len() > 0,
        remaining >= 1,
    ensures
        spec_read_blocks(bytes, pos, remaining, GroupHoldView::Empty, accg, accc, skipped, safe)
            == spec_read_blocks(
            bytes,
            pos + 8 + spec_group_len(g),
            remaining - 1,
            GroupHoldView::Empty,
            accg.push(g),
            accc,
            0,
            true,
        ),
{
    let gl = spec_group_len(g);
    let gl32 = gl as u32;
    let gb = spec_group_bytes(g);
    let body = spec_group_body(g);
    let sub = bytes.subrange(pos, pos + 8 + gl);
    lemma_group_body_len(g);
    assert(gb == be16(0xc001) + be32(gl32) + body + be16(0xc002));
    assert(gb.len() == 8 + gl);
    assert(bytes.subrange(pos, pos + 6 + gl) =~= sub.subrange(0, 6 + gl));
    assert(sub.subrange(0, 6 + gl) =~= be16(0xc001) + be32(gl32) + body);
    lemma_read_group_start_built(bytes, pos, g, remaining, accg, accc, skipped, safe);
    let pos2 = pos + 6 + gl;
    assert(bytes[pos2] == gb[6 + gl] && gb[6 + gl] == be16(0xc002)[0]) by {
        assert(sub[6 + gl] == gb[6 + gl]);
    }
    assert(bytes[pos2 + 1] == gb[7 + gl] && gb[7 + gl] == be16(0xc002)[1]) by {
        assert(sub[7 + gl] == gb[7 + gl]);
    }
    lemma_read_group_end_built(bytes, pos2, g, remaining, accg, accc, skipped);
}

/// Reading the GroupStart of an encoded nonempty group: the decoder
/// holds the group pre-built, to be closed by the GroupEnd that
/// follows; the header count is charged only when it is.
#[verifier::rlimit(100)]
pub proof fn lemma_read_group_start_built(
    bytes: Seq<u8>,
    pos: int,
    g: GroupView,
    remaining: int,
    accg: Seq<GroupView>,
    accc: Seq<ColorBlockView>,
    skipped: int,
    safe: bool,
)
    requires
        0 <= pos,
        pos + 6 + spec_group_len(g) <= bytes.len(),
        bytes.subrange(pos, pos + 6 + spec_group_len(g)) == be16(0xc001) + be32(
            spec_group_len(g) as u32,
        ) + spec_group_body(g),
        group_wf(g),
        g.blocks.len() > 0,
        remaining >= 1,
    ensures
        spec_read_blocks(bytes, pos, remaining, GroupHoldView::Empty, accg, accc, skipped, safe)
            == spec_read_blocks(
            bytes,
            pos + 6 + spec_group_len(g),
            remaining,
            GroupHoldView::Built(g),
            accg,
            accc,
            skipped,
            false,
        ),
{
    let gl = spec_group_len(g);
    let gl32 = gl as u32;
    let body = spec_group_body(g);
    let hb = be16(0xc001) + be32(gl32) + body;
    let sub = bytes.subrange(pos, pos + 6 + gl);
    lemma_group_body_len(g);
    assert(bytes[pos] == hb[0] && hb[0] == be16(0xc001)[0]) by {
        assert(sub[0] == hb[0]);
    }
    assert(bytes[pos + 1] == hb[1] && hb[1] == be16(0xc001)[1]) by {
        assert(sub[1] == hb[1]);
    }
    assert(u16_at(bytes, pos) == 0xc001);
    lemma_be32_round_trip(gl32);
    assert(u32_at(bytes, pos + 2) == gl32) by {
        assert(sub[2] == hb[2] && hb[2] == be32(gl32)[0]);
        assert(sub[3] == hb[3] && hb[3] == be32(gl32)[1]);
        assert(sub[4] == hb[4] && hb[4] == be32(gl32)[2]);
        assert(sub[5] == hb[5] && hb[5] == be32(gl32)[3]);
    }
    assert(bytes.subrange(pos + 6, pos + 6 + gl) =~= sub.subrange(6, 6 + gl));
    assert(sub.subrange(6, 6 + gl) =~= body);
    lemma_parse_group_round_trip(g);
}

/// Reading a GroupEnd tag while a pre-built group is held: the group is
/// emitted, one header count is charged, and the padding-skip window
/// opens.
pub proof fn lemma_read_group_end_built(
    bytes: Seq<u8>,
    pos: int,
    g: GroupView,
    remaining: int,
    accg: Seq<GroupView>,
    accc: Seq<ColorBlockView>,
    skipped: int,
)
    requires
        0 <= pos,
        pos + 2 <= bytes.len(),
        bytes[pos] == 0xc0,
        bytes[pos + 1] == 0x02,
        remaining >= 1,
    ensures
        spec_read_blocks(
            bytes,
            pos,
            remaining,
            GroupHoldView::Built(g),
            accg,
            accc,
            skipped,
            false,
        ) == spec_read_blocks(
            bytes,
            pos + 2,
            remaining - 1,
            GroupHoldView::Empty,
            accg.push(g),
            accc,
            0,
            true,
        ),
{
    assert(u16_at(bytes, pos) == 0xc002);
}

/// Reading one encoded group that holds only its name: the decoder
/// takes its GroupStart and begins collecting colors for it, charging
/// one header count.
#[verifier::rlimit(100)]
pub proof fn lemma_read_group_start_building(
    bytes: Seq<u8>,
    pos: int,
    g: GroupView,
    remaining: int,
    accg: Seq<GroupView>,
    accc: Seq<ColorBlockView>,
    skipped: int,
    safe: bool,
)
    requires
        0 <= pos,
        pos + 6 + spec_group_len(g) <= bytes.len(),
        bytes.subrange(pos, pos + 6 + spec_group_len(g)) == be16(0xc001) + be32(
            spec_group_len(g) as u32,
        ) + spec_group_body(g),
        group_wf(g),
        g.blocks.len() == 0,
        remaining >= 1,
    ensures
        spec_read_blocks(bytes, pos, remaining, GroupHoldView::Empty, accg, accc, skipped, safe)
            == spec_read_blocks(
            bytes,
            pos + 6 + spec_group_len(g),
            remaining - 1,
            GroupHoldView::Building(g),
            accg,
            accc,
            skipped,
            false,
        ),
{
    let gl = spec_group_len(g);
    let gl32 = gl as u32;
    let body = spec_group_body(g);
    let hb = be16(0xc001) + be32(gl32) + body;
    let sub = bytes.subrange(pos, pos + 6 + gl);
    lemma_group_body_len(g);
    assert(bytes[pos] == hb[0] && hb[0] == be16(0xc001)[0]) by {
        assert(sub[0] == hb[0]);
    }
    assert(bytes[pos + 1] == hb[1] && hb[1] == be16(0xc001)[1]) by {
        assert(sub[1] == hb[1]);
    }
    assert(u16_at(bytes, pos) == 0xc001);
    lemma_be32_round_trip(gl32);
    assert(u32_at(bytes, pos + 2) == gl32) by {
        assert(sub[2] == hb[2] && hb[2] == be32(gl32)[0]);
        assert(sub[3] == hb[3] && hb[3] == be32(gl32)[1]);
        assert(sub[4] == hb[4] && hb[4] == be32(gl32)[2]);
        assert(sub[5] == hb[5] && hb[5] == be32(gl32)[3]);
    }
    assert(bytes.subrange(pos + 6, pos + 6 + gl) =~= sub.subrange(6, 6 + gl));
    assert(sub.subrange(6, 6 + gl) =~= body);
    lemma_parse_group_round_trip(g);
}

/// Reading one encoded top-level color from the stream: the decoder
/// emits it, charging one header count.
#[verifier::rlimit(100)]
pub proof fn lemma_read_color_step(
    bytes: Seq<u8>,
    pos: int,
    b: ColorBlockView,
    remaining: int,
    accg: Seq<GroupView>,
    accc: Seq<ColorBlockView>,
    skipped: int,
    safe: bool,
)
    requires
        0 <= pos,
        pos + 6 + spec_block_len(b) <= bytes.len(),
        bytes.subrange(pos, pos + 6 + spec_block_len(b)) == spec_block_bytes(b),
        block_wf(b),
        remaining >= 1,
    ensures
        spec_read_blocks(bytes, pos, remaining, GroupHoldView::Empty, accg, accc, skipped, safe)
            == spec_read_blocks(
            bytes,
            pos + 6 + spec_block_len(b),
            remaining - 1,
            GroupHoldView::Empty,
            accg,
            accc.push(b),
            skipped,
            false,
        ),
{
    let bl = spec_block_len(b);
    let bl32 = bl as u32;
    let bb = spec_block_bytes(b);
    let body = spec_block_body(b);
    let sub = bytes.subrange(pos, pos + 6 + bl);
    lemma_block_body_len(b);
    lemma_block_len_bounds(b);
    assert(bb == be16(0x0001) + be32(bl32) + body);
    assert(bytes[pos] == bb[0] && bb[0] == be16(0x0001)[0]) by {
        assert(sub[0] == bb[0]);
    }
    assert(bytes[pos + 1] == bb[1] && bb[1] == be16(0x0001)[1]) by {
        assert(sub[1] == bb[1]);
    }
    assert(u16_at(bytes, pos) == 0x0001);
    lemma_be32_round_trip(bl32);
    assert(u32_at(bytes, pos + 2) == bl32) by {
        assert(sub[2] == bb[2] && bb[2] == be32(bl32)[0]);
        assert(sub[3] == bb[3] && bb[3] == be32(bl32)[1]);
        assert(sub[4] == bb[4] && bb[4] == be32(bl32)[2]);
        assert(sub[5] == bb[5] && bb[5] == be32(bl32)[3]);
    }
    assert(bytes.subrange(pos + 6, pos + 6 + bl) =~= sub.subrange(6, 6 + bl));
    assert(sub.subrange(6, 6 + bl) =~= body);
    assert(body + Seq::<u8>::empty() =~= body);
    lemma_parse_color_block_round_trip(b, Seq::<u8>::empty());
}

/// Walking a decodable stream of encoded groups followed by encoded
/// top-level colors, with the header count owing exactly one block per
/// group and per color, appends them all to what was already decoded —
/// whatever the padding-skip state, and whatever follows the stream.
#[verifier::rlimit(100)]
pub proof fn lemma_read_stream(
    bytes: Seq<u8>,
    pos: int,
    gs: Seq<GroupView>,
    cs: Seq<ColorBlockView>,
    accg: Seq<GroupView>,
    accc: Seq<ColorBlockView>,
    skipped: int,
    safe: bool,
)
    requires
        0 <= pos,
        pos + spec_groups_bytes(gs).len() + spec_blocks_bytes(cs).len() <= bytes.len(),
        bytes.subrange(
            pos,
            pos + spec_groups_bytes(gs).len() + spec_blocks_bytes(cs).len(),
        ) == spec_groups_bytes(gs) + spec_blocks_bytes(cs),
        forall|i: int| 0 <= i < gs.len() ==> group_wf(#[trigger] gs[i]),
        forall|i: int| 0 <= i < cs.len() ==> block_wf(#[trigger] cs[i]),
        stream_decodable(gs, cs),
    ensures
        spec_read_blocks(
            bytes,
            pos,
            gs.len() + cs.len() as int,
            GroupHoldView::Empty,
            accg,
            accc,
            skipped,
            safe,
        ) == Ok::<_, ASEError>((accg + gs, accc + cs)),
    decreases gs.len() + cs.len(),
{
    let glen = spec_groups_bytes(gs).len() as int;
    let clen = spec_blocks_bytes(cs).len() as int;
    let sub = bytes.subrange(pos, pos + glen + clen);
    if gs.len() > 0 {
        let g0 = gs[0];
        let gb = spec_group_bytes(g0);
        let grest = spec_groups_bytes(gs.skip(1));
        lemma_group_body_len(g0);
        assert(spec_groups_bytes(gs) == gb + grest);
        assert(gb.len() == 8 + spec_group_len(g0));
        if g0.blocks.len() == 0 {
            // a decodable stream has an empty group only at its very
            // end: the count runs out right after its GroupStart, and
            // the lenient end-of-stream rule emits it
            assert(gs.len() == 1 && cs.len() == 0);
            assert(grest =~= Seq::<u8>::empty());
            assert(spec_blocks_bytes(cs) =~= Seq::<u8>::empty());
            assert(bytes.subrange(pos, pos + 6 + spec_group_len(g0)) =~= sub.subrange(
                0,
                6 + spec_group_len(g0),
            ));
            assert(sub.subrange(0, 6 + spec_group_len(g0)) =~= be16(0xc001) + be32(
                spec_group_len(g0) as u32,
            ) + spec_group_body(g0));
            lemma_read_group_start_building(bytes, pos, g0, 1, accg, accc, skipped, safe);
            assert(accg.push(g0) =~= accg + gs);
            assert(accc =~= accc + cs);
        } else {
            assert(bytes.subrange(pos, pos + gb.len()) =~= sub.subrange(0, gb.len() as int));
            assert(sub.subrange(0, gb.len() as int) =~= gb);
            lemma_read_group_step(
                bytes,
                pos,
                g0,
                gs.len() + cs.len() as int,
                accg,
                accc,
                skipped,
                safe,
            );
            let pos2 = pos + gb.len();
            assert(bytes.subrange(pos2, pos2 + grest.len() + clen) =~= sub.subrange(
                gb.len() as int,
                glen + clen,
            ));
            assert(sub.subrange(gb.len() as int, glen + clen) =~= grest + spec_blocks_bytes(cs));
            assert forall|i: int| 0 <= i < gs.skip(1).len() implies group_wf(
                #[trigger] gs.skip(1)[i],
            ) by {
                assert(gs.skip(1)[i] == gs[i + 1]);
            }
            assert(stream_decodable(gs.skip(1), cs)) by {
                assert forall|i: int|
                    0 <= i < gs.skip(1).len() && (#[trigger] gs.skip(1)[i]).blocks.len()
                        == 0 implies i == gs.skip(1).len() - 1 && cs.len() == 0 by {
                    assert(gs.skip(1)[i] == gs[i + 1]);
                }
            }
            lemma_read_stream(bytes, pos2, gs.skip(1), cs, accg.push(g0), accc, 0, true);
            assert(accg.push(g0) + gs.skip(1) =~= accg + gs);
        }
    } else {
        assert(glen == 0);
        assert(spec_groups_bytes(gs) =~= Seq::<u8>::empty());
        assert(bytes.subrange(pos, pos + clen) =~= sub);
        assert(sub =~= spec_blocks_bytes(cs));
        lemma_read_stream_colors(bytes, pos, cs, accg, accc, skipped, safe);
        assert(accg + gs =~= accg);
    }
}

/// Walking a decodable stream that holds only encoded top-level colors
/// appends them all to what was already decoded.
#[verifier::rlimit(100)]
pub proof fn lemma_read_stream_colors(
    bytes: Seq<u8>,
    pos: int,
    cs: Seq<ColorBlockView>,
    accg: Seq<GroupView>,
    accc: Seq<ColorBlockView>,
    skipped: int,
    safe: bool,
)
    requires
        0 <= pos,
        pos + spec_blocks_bytes(cs).len() <= bytes.len(),
        bytes.subrange(pos, pos + spec_blocks_bytes(cs).len()) == spec_blocks_bytes(cs),
        forall|i: int| 0 <= i < cs.len() ==> block_wf(#[trigger] cs[i]),
    ensures
        spec_read_blocks(
            bytes,
            pos,
            cs.len() as int,
            GroupHoldView::Empty,
            accg,
            accc,
            skipped,
            safe,
        ) == Ok::<_, ASEError>((accg, accc + cs)),
    decreases cs.len(),
{
    let clen = spec_blocks_bytes(cs).len() as int;
    let sub = bytes.subrange(pos, pos + clen);
    if cs.len() > 0 {
        let b0 = cs[0];
        let bb = spec_block_bytes(b0);
        let crest = spec_blocks_bytes(cs.skip(1));
        lemma_block_body_len(b0);
        assert(spec_blocks_bytes(cs) == bb + crest);
        assert(bb.len() == 6 + spec_block_len(b0));
        assert(bytes.subrange(pos, pos + bb.len()) =~= sub.subrange(0, bb.len() as int));
        assert(sub.subrange(0, bb.len() as int) =~= bb);
        lemma_read_color_step(bytes, pos, b0, cs.len() as int, accg, accc, skipped, safe);
        let pos2 = pos + bb.len();
        assert(bytes.subrange(pos2, pos2 + crest.len()) =~= sub.subrange(
            bb.len() as int,
            clen,
        ));
        assert(sub.subrange(bb.len() as int, clen) =~= crest);
        assert forall|i: int| 0 <= i < cs.skip(1).len() implies block_wf(
            #[trigger] cs.skip(1)[i],
        ) by {
            assert(cs.skip(1)[i] == cs[i + 1]);
        }
        lemma_read_stream_colors(bytes, pos2, cs.skip(1), accg, accc.push(b0), skipped, false);
        assert(accc.push(b0) + cs.skip(1) =~= accc + cs);
    } else {
        assert(accc + cs =~= accc);
    }
}

/// Round trip: decoding an encoded file yields the groups and colors
/// back — for every input whose names and sizes fit the format's
/// fields, and whose only empty group, if any, stands at the very end
/// of the stream (an empty group anywhere else desynchronizes the
/// header count, as `stream_decodable` explains).
#[verifier::rlimit(100)]
pub proof fn lemma_ase_round_trip(groups: Seq<GroupView>, colors: Seq<ColorBlockView>)
    requires
        file_wf(groups, colors),
        stream_decodable(groups, colors),
    ensures
        spec_read_ase(spec_file_bytes(groups, colors)) == Ok::<_, ASEError>((groups, colors)),
{
    let bytes = spec_file_bytes(groups, colors);
    let glen = spec_groups_bytes(groups).len() as int;
    let clen = spec_blocks_bytes(colors).len() as int;
    let count = (groups.len() + colors.len()) as u32;
    assert(bytes.len() == 12 + glen + clen);
    assert(bytes.subrange(0, 4) =~= seq![65u8, 83u8, 69u8, 70u8]);
    assert(bytes.subrange(4, 8) =~= be32(0x00010000));
    lemma_be32_round_trip(count);
    assert(u32_at(bytes, 8) == count) by {
        assert(bytes[8] == be32(count)[0]);
        assert(bytes[9] == be32(count)[1]);
        assert(bytes[10] == be32(count)[2]);
        assert(bytes[11] == be32(count)[3]);
    }
    assert(bytes.subrange(12, 12 + glen + clen) =~= spec_groups_bytes(groups)
        + spec_blocks_bytes(colors));
    lemma_read_stream(
        bytes,
        12,
        groups,
        colors,
        Seq::<GroupView>::empty(),
        Seq::<ColorBlockView>::empty(),
        0,
        false,
    );
    assert(Seq::<GroupView>::empty() + groups =~= groups);
    assert(Seq::<ColorBlockView>::empty() + colors =~= colors);
}

} // verus!
