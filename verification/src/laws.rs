//! Guarantees of the decoder beyond the round trip: header validation,
//! the lenient handling of streams that end inside a group, and the
//! skipping of spurious zero padding after a GroupEnd.

use vstd::prelude::*;

use crate::color_block::{block_wf, spec_block_bytes, spec_block_len, ColorBlockView};
use crate::endian::{be16, be32, lemma_be32_round_trip, u32_at};
use crate::error::{ASEError, ConformationError};
use crate::group::{
    group_wf, lemma_group_body_len, spec_blocks_bytes, spec_group_body, spec_group_bytes,
    spec_group_len, GroupHoldView, GroupView,
};
use crate::names::{name_wf, spec_name_field_bytes};
use crate::roundtrip::{
    lemma_read_group_start_building, lemma_read_group_step, lemma_read_stream,
};
use crate::{
    file_wf, spec_file_bytes, spec_groups_bytes, spec_read_ase, spec_read_blocks,
    stream_decodable,
};

verus! {

/// A signature other than `"ASEF"` is rejected as an invalid file
/// signature, whatever follows it.
pub proof fn lemma_bad_signature(bytes: Seq<u8>)
    requires
        bytes.len() >= 4,
        bytes.subrange(0, 4) != seq![65u8, 83u8, 69u8, 70u8],
    ensures
        spec_read_ase(bytes) == Err::<(Seq<GroupView>, Seq<ColorBlockView>), ASEError>(
            ASEError::Invalid(ConformationError::FileSignature),
        ),
{
}

/// A version other than 1.0 after a valid signature is rejected as an
/// invalid file version, whatever follows it.
pub proof fn lemma_bad_version(bytes: Seq<u8>)
    requires
        bytes.len() >= 8,
        bytes.subrange(0, 4) == seq![65u8, 83u8, 69u8, 70u8],
        bytes.subrange(4, 8) != be32(0x00010000),
    ensures
        spec_read_ase(bytes) == Err::<(Seq<GroupView>, Seq<ColorBlockView>), ASEError>(
            ASEError::Invalid(ConformationError::FileVersion),
        ),
{
}

/// When the header count runs out while a group is still collecting
/// colors — a name-only GroupStart whose GroupEnd never arrived — the
/// group is emitted as it stands; a pre-built group left unclosed is an
/// invalid group end.
pub proof fn lemma_count_exhausted(
    bytes: Seq<u8>,
    pos: int,
    g: GroupView,
    groups: Seq<GroupView>,
    colors: Seq<ColorBlockView>,
    skipped: int,
    safe: bool,
)
    ensures
        spec_read_blocks(
            bytes,
            pos,
            0,
            GroupHoldView::Building(g),
            groups,
            colors,
            skipped,
            safe,
        ) == Ok::<_, ASEError>((groups.push(g), colors)),
        spec_read_blocks(
            bytes,
            pos,
            0,
            GroupHoldView::Built(g),
            groups,
            colors,
            skipped,
            safe,
        ) == Err::<(Seq<GroupView>, Seq<ColorBlockView>), ASEError>(
            ASEError::Invalid(ConformationError::GroupEnd),
        ),
{
}

/// Reading one encoded color while a group is collecting: the color
/// joins the held group, charging one header count.
#[verifier::rlimit(100)]
pub proof fn lemma_read_color_step_building(
    bytes: Seq<u8>,
    pos: int,
    b: ColorBlockView,
    held: GroupView,
    remaining: int,
    accg: Seq<GroupView>,
    accc: Seq<ColorBlockView>,
    skipped: int,
    safe: bool,
)
    requires
        0 <= pos,
        pos + 6 + spec_block_len(b) <= bytes.len(),
        bytes.subrange(pos, pos + 6 + spec_block_len(b)) == spec_block_bytes(b),
        block_wf(b),
        remaining >= 1,
    ensures
        spec_read_blocks(
            bytes,
            pos,
            remaining,
            GroupHoldView::Building(held),
            accg,
            accc,
            skipped,
            safe,
        ) == spec_read_blocks(
            bytes,
            pos + 6 + spec_block_len(b),
            remaining - 1,
            GroupHoldView::Building(GroupView { name: held.name, blocks: held.blocks.push(b) }),
            accg,
            accc,
            skipped,
            false,
        ),
{
    let bl = spec_block_len(b);
    let bl32 = bl as u32;
    let bb = spec_block_bytes(b);
    let body = crate::color_block::spec_block_body(b);
    let sub = bytes.subrange(pos, pos + 6 + bl);
    crate::color_block::lemma_block_body_len(b);
    crate::roundtrip::lemma_block_len_bounds(b);
    assert(bb == be16(0x0001) + be32(bl32) + body);
    assert(bytes[pos] == bb[0] && bb[0] == be16(0x0001)[0]) by {
        assert(sub[0] == bb[0]);
    }
    assert(bytes[pos + 1] == bb[1] && bb[1] == be16(0x0001)[1]) by {
        assert(sub[1] == bb[1]);
    }
    assert(crate::endian::u16_at(bytes, pos) == 0x0001);
    lemma_be32_round_trip(bl32);
    assert(u32_at(bytes, pos + 2) == bl32) by {
        assert(sub[2] == bb[2] && bb[2] == be32(bl32)[0]);
        assert(sub[3] == bb[3] && bb[3] == be32(bl32)[1]);
        assert(sub[4] == bb[4] && bb[4] == be32(bl32)[2]);
        assert(sub[5] == bb[5] && bb[5] == be32(bl32)[3]);
    }
    assert(bytes.subrange(pos + 6, pos + 6 + bl) =~= sub.subrange(6, 6 + bl));
    assert(sub.subrange(6, 6 + bl) =~= body);
    assert(body + Seq::<u8>::empty() =~= body);
    crate::roundtrip::lemma_parse_color_block_round_trip(b, Seq::<u8>::empty());
}

/// Walking the encoded colors that follow a name-only GroupStart: each
/// joins the collecting group, and when the count runs out the group is
/// emitted with all of them — the lenient end-of-stream rule.
#[verifier::rlimit(100)]
pub proof fn lemma_read_stream_building(
    bytes: Seq<u8>,
    pos: int,
    held: GroupView,
    cs: Seq<ColorBlockView>,
    accg: Seq<GroupView>,
    accc: Seq<ColorBlockView>,
    skipped: int,
    safe: bool,
)
    requires
        0 <= pos,
        pos + spec_blocks_bytes(cs).len() <= bytes.len(),
        bytes.subrange(pos, pos + spec_blocks_bytes(cs).len()) == spec_blocks_bytes(cs),
        forall|i: int| 0 <= i < cs.len() ==> block_wf(#[trigger] cs[i]),
    ensures
        spec_read_blocks(
            bytes,
            pos,
            cs.len() as int,
            GroupHoldView::Building(held),
            accg,
            accc,
            skipped,
            safe,
        ) == Ok::<_, ASEError>(
            (accg.push(GroupView { name: held.name, blocks: held.blocks + cs }), accc),
        ),
    decreases cs.len(),
{
    let clen = spec_blocks_bytes(cs).len() as int;
    let sub = bytes.subrange(pos, pos + clen);
    if cs.len() > 0 {
        let b0 = cs[0];
        let bb = spec_block_bytes(b0);
        let crest = spec_blocks_bytes(cs.skip(1));
        crate::color_block::lemma_block_body_len(b0);
        assert(spec_blocks_bytes(cs) == bb + crest);
        assert(bb.len() == 6 + spec_block_len(b0));
        assert(bytes.subrange(pos, pos + bb.len()) =~= sub.subrange(0, bb.len() as int));
        assert(sub.subrange(0, bb.len() as int) =~= bb);
        lemma_read_color_step_building(
            bytes,
            pos,
            b0,
            held,
            cs.len() as int,
            accg,
            accc,
            skipped,
            safe,
        );
        let pos2 = pos + bb.len();
        assert(bytes.subrange(pos2, pos2 + crest.len()) =~= sub.subrange(bb.len() as int, clen));
        assert(sub.subrange(bb.len() as int, clen) =~= crest);
        assert forall|i: int| 0 <= i < cs.skip(1).len() implies block_wf(
            #[trigger] cs.skip(1)[i],
        ) by {
            assert(cs.skip(1)[i] == cs[i + 1]);
        }
        let held2 = GroupView { name: held.name, blocks: held.blocks.push(b0) };
        lemma_read_stream_building(bytes, pos2, held2, cs.skip(1), accg, accc, skipped, false);
        assert(held.blocks.push(b0) + cs.skip(1) =~= held.blocks + cs);
    } else {
        assert(held.blocks + cs =~= held.blocks);
        assert(GroupView { name: held.name, blocks: held.blocks + cs } == held);
    }
}

/// The bytes of a file written in the non-conformant layout and cut off
/// before its GroupEnd: a GroupStart sized to hold only the group's
/// name, the group's colors as top-level entries, and a header count
/// covering the GroupStart and each color — then end of stream.
pub open spec fn spec_unterminated_building_file(
    name: Seq<char>,
    colors: Seq<ColorBlockView>,
) -> Seq<u8> {
    let gl = spec_group_len(GroupView { name, blocks: Seq::empty() });
    seq![65u8, 83u8, 69u8, 70u8] + be32(0x00010000) + be32((1 + colors.len()) as u32) + be16(
        0xc001,
    ) + be32(gl as u32) + spec_name_field_bytes(name) + spec_blocks_bytes(colors)
}

/// A group being collected from the top-level stream, with no GroupEnd
/// before the end of the stream, is still returned complete: the
/// lenient end-of-stream rule.
#[verifier::rlimit(100)]
pub proof fn lemma_lenient_eof_building(name: Seq<char>, colors: Seq<ColorBlockView>)
    requires
        name_wf(name),
        forall|i: int| 0 <= i < colors.len() ==> block_wf(#[trigger] colors[i]),
        1 + colors.len() <= u32::MAX,
    ensures
        spec_read_ase(spec_unterminated_building_file(name, colors)) == Ok::<_, ASEError>(
            (seq![GroupView { name, blocks: colors }], Seq::<ColorBlockView>::empty()),
        ),
{
    let g0 = GroupView { name, blocks: Seq::<ColorBlockView>::empty() };
    let gl = spec_group_len(g0);
    let bytes = spec_unterminated_building_file(name, colors);
    let clen = spec_blocks_bytes(colors).len() as int;
    let count = (1 + colors.len()) as u32;
    lemma_group_body_len(g0);
    assert(spec_group_body(g0) =~= spec_name_field_bytes(name));
    assert(bytes.len() == 12 + 6 + gl + clen);
    assert(bytes.subrange(0, 4) =~= seq![65u8, 83u8, 69u8, 70u8]);
    assert(bytes.subrange(4, 8) =~= be32(0x00010000));
    lemma_be32_round_trip(count);
    assert(u32_at(bytes, 8) == count) by {
        assert(bytes[8] == be32(count)[0]);
        assert(bytes[9] == be32(count)[1]);
        assert(bytes[10] == be32(count)[2]);
        assert(bytes[11] == be32(count)[3]);
    }
    assert(bytes.subrange(12, 12 + 6 + gl) =~= be16(0xc001) + be32(gl as u32) + spec_group_body(
        g0,
    ));
    assert(group_wf(g0)) by {
        crate::group::lemma_blocks_len_nonneg(Seq::<ColorBlockView>::empty());
        crate::utf16::lemma_utf16_units_len(name);
    }
    lemma_read_group_start_building(
        bytes,
        12,
        g0,
        count as int,
        Seq::<GroupView>::empty(),
        Seq::<ColorBlockView>::empty(),
        0,
        false,
    );
    let pos2 = 12 + 6 + gl;
    assert(bytes.subrange(pos2, pos2 + clen) =~= spec_blocks_bytes(colors));
    lemma_read_stream_building(
        bytes,
        pos2,
        g0,
        colors,
        Seq::<GroupView>::empty(),
        Seq::<ColorBlockView>::empty(),
        0,
        false,
    );
    assert(g0.blocks + colors =~= colors);
    assert(Seq::<GroupView>::empty().push(GroupView { name, blocks: colors }) =~= seq![
        GroupView { name, blocks: colors },
    ]);
}

/// Walking a run of encoded nonempty groups mid-stream: each is decoded
/// and emitted, one header count apiece, and the decoder stands just
/// past the last GroupEnd with the padding-skip window open.
#[verifier::rlimit(100)]
pub proof fn lemma_read_stream_partial(
    bytes: Seq<u8>,
    pos: int,
    gs: Seq<GroupView>,
    extra: int,
    accg: Seq<GroupView>,
    accc: Seq<ColorBlockView>,
    skipped: int,
    safe: bool,
)
    requires
        0 <= pos,
        gs.len() >= 1,
        extra >= 0,
        pos + spec_groups_bytes(gs).len() <= bytes.len(),
        bytes.subrange(pos, pos + spec_groups_bytes(gs).len()) == spec_groups_bytes(gs),
        forall|i: int| 0 <= i < gs.len() ==> group_wf(#[trigger] gs[i]),
        forall|i: int| 0 <= i < gs.len() ==> (#[trigger] gs[i]).blocks.len() > 0,
    ensures
        spec_read_blocks(
            bytes,
            pos,
            gs.len() + extra,
            GroupHoldView::Empty,
            accg,
            accc,
            skipped,
            safe,
        ) == spec_read_blocks(
            bytes,
            pos + spec_groups_bytes(gs).len(),
            extra,
            GroupHoldView::Empty,
            accg + gs,
            accc,
            0,
            true,
        ),
    decreases gs.len(),
{
    let glen = spec_groups_bytes(gs).len() as int;
    let sub = bytes.subrange(pos, pos + glen);
    let g0 = gs[0];
    let gb = spec_group_bytes(g0);
    let grest = spec_groups_bytes(gs.skip(1));
    lemma_group_body_len(g0);
    assert(spec_groups_bytes(gs) == gb + grest);
    assert(gb.len() == 8 + spec_group_len(g0));
    assert(bytes.subrange(pos, pos + gb.len()) =~= sub.subrange(0, gb.len() as int));
    assert(sub.subrange(0, gb.len() as int) =~= gb);
    lemma_read_group_step(bytes, pos, g0, gs.len() + extra, accg, accc, skipped, safe);
    let pos2 = pos + gb.len();
    if gs.len() == 1 {
        assert(grest =~= Seq::<u8>::empty());
        assert(accg.push(g0) =~= accg + gs);
    } else {
        assert(bytes.subrange(pos2, pos2 + grest.len()) =~= sub.subrange(
            gb.len() as int,
            glen,
        ));
        assert(sub.subrange(gb.len() as int, glen) =~= grest);
        assert forall|i: int| 0 <= i < gs.skip(1).len() implies group_wf(#[trigger] gs.skip(1)[i])
            && gs.skip(1)[i].blocks.len() > 0 by {
            assert(gs.skip(1)[i] == gs[i + 1]);
        }
        lemma_read_stream_partial(
            bytes,
            pos2,
            gs.skip(1),
            extra,
            accg.push(g0),
            accc,
            0,
            true,
        );
        assert(accg.push(g0) + gs.skip(1) =~= accg + gs);
    }
}

/// The bytes of an encoded file with one spurious zero word wedged in
/// right after the GroupEnd of the group at index `i`, the header count
/// not inflated by it.
pub open spec fn spec_padded_file_bytes(
    groups: Seq<GroupView>,
    colors: Seq<ColorBlockView>,
    i: int,
) -> Seq<u8> {
    seq![65u8, 83u8, 69u8, 70u8] + be32(0x00010000) + be32(
        (groups.len() + colors.len()) as u32,
    ) + spec_groups_bytes(groups.take(i + 1)) + seq![0u8, 0u8] + spec_groups_bytes(
        groups.skip(i + 1),
    ) + spec_blocks_bytes(colors)
}

/// Walking a stream of nonempty groups, one zero word, then more
/// decodable stream: the zero word is skipped and everything decodes.
#[verifier::rlimit(100)]
pub proof fn lemma_padding_walk(
    bytes: Seq<u8>,
    pos: int,
    pre: Seq<GroupView>,
    post: Seq<GroupView>,
    colors: Seq<ColorBlockView>,
)
    requires
        0 <= pos,
        pre.len() >= 1,
        pos + spec_groups_bytes(pre).len() + 2 + spec_groups_bytes(post).len()
            + spec_blocks_bytes(colors).len() <= bytes.len(),
        bytes.subrange(pos, pos + spec_groups_bytes(pre).len()) == spec_groups_bytes(pre),
        bytes[pos + spec_groups_bytes(pre).len()] == 0,
        bytes[pos + spec_groups_bytes(pre).len() + 1] == 0,
        bytes.subrange(
            pos + spec_groups_bytes(pre).len() + 2,
            pos + spec_groups_bytes(pre).len() + 2 + spec_groups_bytes(post).len()
                + spec_blocks_bytes(colors).len(),
        ) == spec_groups_bytes(post) + spec_blocks_bytes(colors),
        forall|i: int| 0 <= i < pre.len() ==> group_wf(#[trigger] pre[i]),
        forall|i: int| 0 <= i < pre.len() ==> (#[trigger] pre[i]).blocks.len() > 0,
        forall|i: int| 0 <= i < post.len() ==> group_wf(#[trigger] post[i]),
        forall|i: int| 0 <= i < colors.len() ==> block_wf(#[trigger] colors[i]),
        stream_decodable(post, colors),
    ensures
        spec_read_blocks(
            bytes,
            pos,
            pre.len() + post.len() + colors.len() as int,
            GroupHoldView::Empty,
            Seq::<GroupView>::empty(),
            Seq::<ColorBlockView>::empty(),
            0,
            false,
        ) == Ok::<_, ASEError>((pre + post, colors)),
{
    let prelen = spec_groups_bytes(pre).len() as int;
    let extra = post.len() + colors.len();
    lemma_read_stream_partial(
        bytes,
        pos,
        pre,
        extra as int,
        Seq::<GroupView>::empty(),
        Seq::<ColorBlockView>::empty(),
        0,
        false,
    );
    let pos2 = pos + prelen;
    if extra == 0 {
        assert(post.len() == 0 && colors.len() == 0);
        assert(Seq::<GroupView>::empty() + pre =~= pre + post);
        assert(Seq::<ColorBlockView>::empty() =~= colors);
    } else {
        lemma_read_stream(
            bytes,
            pos2 + 2,
            post,
            colors,
            Seq::<GroupView>::empty() + pre,
            Seq::<ColorBlockView>::empty(),
            1,
            true,
        );
        assert((Seq::<GroupView>::empty() + pre) + post =~= pre + post);
        assert(Seq::<ColorBlockView>::empty() + colors =~= colors);
    }
}

/// One extra zero-valued 2-byte word immediately after a GroupEnd tag,
/// with the block count not inflated, still decodes successfully and
/// produces the same result as the unpadded file.
#[verifier::rlimit(100)]
pub proof fn lemma_zero_padding_skipped(
    groups: Seq<GroupView>,
    colors: Seq<ColorBlockView>,
    i: int,
)
    requires
        file_wf(groups, colors),
        stream_decodable(groups, colors),
        0 <= i < groups.len(),
        groups[i].blocks.len() > 0,
    ensures
        spec_read_ase(spec_padded_file_bytes(groups, colors, i)) == Ok::<_, ASEError>(
            (groups, colors),
        ),
        spec_read_ase(spec_padded_file_bytes(groups, colors, i)) == spec_read_ase(
            spec_file_bytes(groups, colors),
        ),
{
    let bytes = spec_padded_file_bytes(groups, colors, i);
    let pre = groups.take(i + 1);
    let post = groups.skip(i + 1);
    let prelen = spec_groups_bytes(pre).len() as int;
    let postlen = spec_groups_bytes(post).len() as int;
    let clen = spec_blocks_bytes(colors).len() as int;
    let count = (groups.len() + colors.len()) as u32;
    assert(bytes.len() == 12 + prelen + 2 + postlen + clen);
    assert(bytes.subrange(0, 4) =~= seq![65u8, 83u8, 69u8, 70u8]);
    assert(bytes.subrange(4, 8) =~= be32(0x00010000));
    lemma_be32_round_trip(count);
    assert(u32_at(bytes, 8) == count) by {
        assert(bytes[8] == be32(count)[0]);
        assert(bytes[9] == be32(count)[1]);
        assert(bytes[10] == be32(count)[2]);
        assert(bytes[11] == be32(count)[3]);
    }
    assert(bytes.subrange(12, 12 + prelen) =~= spec_groups_bytes(pre));
    assert(bytes[12 + prelen] == 0 && bytes[12 + prelen + 1] == 0);
    assert(bytes.subrange(12 + prelen + 2, 12 + prelen + 2 + postlen + clen)
        =~= spec_groups_bytes(post) + spec_blocks_bytes(colors));
    assert forall|k: int| 0 <= k < pre.len() implies group_wf(#[trigger] pre[k]) && pre[k]
        .blocks.len() > 0 by {
        assert(pre[k] == groups[k]);
        if pre[k].blocks.len() == 0 {
            assert(k == groups.len() - 1 && colors.len() == 0);
        }
    }
    assert forall|k: int| 0 <= k < post.len() implies group_wf(#[trigger] post[k]) by {
        assert(post[k] == groups[k + i + 1]);
    }
    assert(stream_decodable(post, colors)) by {
        assert forall|k: int|
            0 <= k < post.len() && (#[trigger] post[k]).blocks.len() == 0 implies k == post.len()
            - 1 && colors.len() == 0 by {
            assert(post[k] == groups[k + i + 1]);
        }
    }
    lemma_padding_walk(bytes, 12, pre, post, colors);
    assert(pre + post =~= groups);
    crate::roundtrip::lemma_ase_round_trip(groups, colors);
}

} // verus!
