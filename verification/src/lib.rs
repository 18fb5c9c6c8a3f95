//! Codec for the Adobe Swatch Exchange (ASE) binary palette format.
//!
//! An ASE file is a big-endian container of named colors, optionally
//! grouped: a 12-byte header (`"ASEF"`, version 1.0, a block count)
//! followed by a stream of tagged blocks.  `create_ase` serializes
//! groups and top-level colors into that layout; `read_ase` parses it
//! back, tolerating the block-stream quirks that real-world writers
//! produce (name-only group sizes, spurious zero padding after group
//! terminators).

mod block_type;
mod buffer;
mod color_block;
mod color_type;
mod color_value;
mod endian;
mod error;
mod group;
mod laws;
mod names;
mod roundtrip;
mod utf16;

pub use buffer::Buffer;
pub use color_block::ColorBlock;
pub use color_type::ColorType;
pub use color_value::ColorValue;
pub use error::{ASEError, ConformationError};
pub use group::Group;

use vstd::prelude::*;

use block_type::BlockType;
use color_block::{block_wf, spec_parse_color_block, ColorBlockView};
use endian::{be32, read_u32_be, u16_at, u32_at};
use group::{
    group_wf, hold_view, spec_blocks_bytes, spec_group_bytes, spec_parse_group, GroupHold,
    GroupHoldView, GroupView,
};

verus! {

/// The bytes a sequence of groups is stored as: each group's full wire
/// form, in order.
pub open spec fn spec_groups_bytes(gs: Seq<GroupView>) -> Seq<u8>
    decreases gs.len(),
{
    if gs.len() == 0 {
        Seq::empty()
    } else {
        spec_group_bytes(gs[0]) + spec_groups_bytes(gs.skip(1))
    }
}

/// Groups and top-level colors fit the wire format: every group and
/// color does, and their combined count fits the 32-bit block count
/// field.
pub open spec fn file_wf(groups: Seq<GroupView>, colors: Seq<ColorBlockView>) -> bool {
    &&& forall|i: int| 0 <= i < groups.len() ==> group_wf(#[trigger] groups[i])
    &&& forall|i: int| 0 <= i < colors.len() ==> block_wf(#[trigger] colors[i])
    &&& groups.len() + colors.len() <= u32::MAX
}

/// A block stream the decoder can follow to its end: an empty group may
/// only stand last, with no top-level colors after it.  The decoder
/// charges a group's start against one header count and, for a group
/// that arrived with colors inside, earns the count for its GroupEnd
/// back; an empty group's GroupEnd has no count of its own, so a stream
/// continuing past it falls out of step.  The lenient end-of-stream
/// rule still recovers an empty group standing at the very end.
pub open spec fn stream_decodable(groups: Seq<GroupView>, colors: Seq<ColorBlockView>) -> bool {
    forall|i: int|
        0 <= i < groups.len() && (#[trigger] groups[i]).blocks.len() == 0 ==> i == groups.len() - 1
            && colors.len() == 0
}

/// The full wire form of a file: the `"ASEF"` signature, version
/// 1.0, the count of top-level blocks, every group, then every
/// top-level color.
pub open spec fn spec_file_bytes(groups: Seq<GroupView>, colors: Seq<ColorBlockView>) -> Seq<
    u8,
> {
    seq![65u8, 83u8, 69u8, 70u8] + be32(0x00010000) + be32((groups.len() + colors.len()) as u32)
        + spec_groups_bytes(groups) + spec_blocks_bytes(colors)
}

/// One decoder state walking the block stream: position in the bytes,
/// blocks still owed by the header count, the group being assembled (if
/// any), what has been produced so far, and the padding-skip state.
/// Mirrors the tolerant decoding that `read_ase` promises:
/// - a zero word is silently skipped when the previous block was a
///   GroupEnd and fewer than two such words were skipped since;
/// - a GroupStart holding only its name starts collecting the color
///   entries that follow; one arriving fully populated may only be
///   closed by a GroupEnd;
/// - when the count runs out, a group still collecting is emitted as it
///   stands, but an unclosed pre-built group is an error.
pub open spec fn spec_read_blocks(
    bytes: Seq<u8>,
    pos: int,
    remaining: int,
    hold: GroupHoldView,
    groups: Seq<GroupView>,
    colors: Seq<ColorBlockView>,
    skipped: int,
    safe: bool,
) -> Result<(Seq<GroupView>, Seq<ColorBlockView>), ASEError>
    decreases bytes.len() - pos,
{
    if remaining <= 0 {
        match hold {
            GroupHoldView::Building(g) => Ok((groups.push(g), colors)),
            GroupHoldView::Built(_) => Err(ASEError::Invalid(ConformationError::GroupEnd)),
            GroupHoldView::Empty => Ok((groups, colors)),
        }
    } else if pos + 2 > bytes.len() {
        Err(ASEError::Io)
    } else if bytes[pos] == 0 && bytes[pos + 1] == 0 && skipped < 2 && safe {
        spec_read_blocks(bytes, pos + 2, remaining, hold, groups, colors, skipped + 1, safe)
    } else {
        let tag = u16_at(bytes, pos);
        if tag != 0x0001 && tag != 0xc001 && tag != 0xc002 {
            Err(ASEError::BlockTypeError)
        } else if tag != 0xc002 && hold is Built {
            Err(ASEError::Invalid(ConformationError::GroupEnd))
        } else if tag == 0xc002 {
            match hold {
                GroupHoldView::Building(g) => spec_read_blocks(
                    bytes,
                    pos + 2,
                    remaining - 1,
                    GroupHoldView::Empty,
                    groups.push(g),
                    colors,
                    0,
                    true,
                ),
                GroupHoldView::Built(g) => spec_read_blocks(
                    bytes,
                    pos + 2,
                    remaining - 1,
                    GroupHoldView::Empty,
                    groups.push(g),
                    colors,
                    0,
                    true,
                ),
                GroupHoldView::Empty => Err(ASEError::Invalid(ConformationError::GroupEnd)),
            }
        } else if pos + 6 > bytes.len() {
            Err(ASEError::Io)
        } else {
            let bl = u32_at(bytes, pos + 2) as int;
            if pos + 6 + bl > bytes.len() {
                Err(ASEError::Io)
            } else {
                let payload = bytes.subrange(pos + 6, pos + 6 + bl);
                if tag == 0xc001 {
                    match spec_parse_group(payload) {
                        Err(e) => Err(e),
                        Ok(g) => {
                            if !(hold is Empty) {
                                Err(ASEError::Invalid(ConformationError::GroupEnd))
                            } else if g.blocks.len() == 0 {
                                spec_read_blocks(
                                    bytes,
                                    pos + 6 + bl,
                                    remaining - 1,
                                    GroupHoldView::Building(g),
                                    groups,
                                    colors,
                                    skipped,
                                    false,
                                )
                            } else {
                                spec_read_blocks(
                                    bytes,
                                    pos + 6 + bl,
                                    remaining,
                                    GroupHoldView::Built(g),
                                    groups,
                                    colors,
                                    skipped,
                                    false,
                                )
                            }
                        },
                    }
                } else {
                    match spec_parse_color_block(payload) {
                        Err(e) => Err(e),
                        Ok(b) => match hold {
                            GroupHoldView::Building(g) => spec_read_blocks(
                                bytes,
                                pos + 6 + bl,
                                remaining - 1,
                                GroupHoldView::Building(
                                    GroupView { name: g.name, blocks: g.blocks.push(b) },
                                ),
                                groups,
                                colors,
                                skipped,
                                false,
                            ),
                            GroupHoldView::Empty => spec_read_blocks(
                                bytes,
                                pos + 6 + bl,
                                remaining - 1,
                                GroupHoldView::Empty,
                                groups,
                                colors.push(b),
                                skipped,
                                false,
                            ),
                            GroupHoldView::Built(_) => Err(
                                ASEError::Invalid(ConformationError::GroupEnd),
                            ),
                        },
                    }
                }
            }
        }
    }
}

/// The decode of a whole byte source: header validation, then the
/// block-stream walk.  A source too short for a header field is an
/// `Io` error, as a reader pulling from a stream would report it.
pub open spec fn spec_read_ase(bytes: Seq<u8>) -> Result<
    (Seq<GroupView>, Seq<ColorBlockView>),
    ASEError,
> {
    if bytes.len() < 4 {
        Err(ASEError::Io)
    } else if bytes.subrange(0, 4) != seq![65u8, 83u8, 69u8, 70u8] {
        Err(ASEError::Invalid(ConformationError::FileSignature))
    } else if bytes.len() < 8 {
        Err(ASEError::Io)
    } else if bytes.subrange(4, 8) != be32(0x00010000) {
        Err(ASEError::Invalid(ConformationError::FileVersion))
    } else if bytes.len() < 12 {
        Err(ASEError::Io)
    } else {
        spec_read_blocks(
            bytes,
            12,
            u32_at(bytes, 8) as int,
            GroupHoldView::Empty,
            Seq::empty(),
            Seq::empty(),
            0,
            false,
        )
    }
}

/// Writing one more group appends its bytes.
proof fn lemma_groups_bytes_take_step(gs: Seq<GroupView>, i: int)
    requires
        0 <= i < gs.len(),
    ensures
        spec_groups_bytes(gs.take(i + 1)) == spec_groups_bytes(gs.take(i)) + spec_group_bytes(
            gs[i],
        ),
    decreases i,
{
    if i == 0 {
        assert(gs.take(1).skip(1) =~= Seq::<GroupView>::empty());
        assert(gs.take(0) =~= Seq::<GroupView>::empty());
        assert(gs.take(1)[0] == gs[0]);
        assert(spec_groups_bytes(Seq::<GroupView>::empty()) =~= Seq::<u8>::empty());
        assert(spec_groups_bytes(gs.take(1)) =~= spec_group_bytes(gs[0]));
        assert(spec_groups_bytes(gs.take(0)) + spec_group_bytes(gs[0]) =~= spec_group_bytes(
            gs[0],
        ));
    } else {
        lemma_groups_bytes_take_step(gs.skip(1), i - 1);
        assert(gs.take(i + 1).skip(1) =~= gs.skip(1).take(i));
        assert(gs.take(i).skip(1) =~= gs.skip(1).take(i - 1));
        assert(gs.take(i + 1)[0] == gs[0]);
        assert(gs.take(i)[0] == gs[0]);
        assert(gs.skip(1)[i - 1] == gs[i]);
        assert(spec_groups_bytes(gs.take(i + 1)) =~= spec_groups_bytes(gs.take(i))
            + spec_group_bytes(gs[i]));
    }
}

/// Appending one more color block appends its bytes.
proof fn lemma_color_blocks_bytes_take_step(bs: Seq<ColorBlockView>, i: int)
    requires
        0 <= i < bs.len(),
    ensures
        spec_blocks_bytes(bs.take(i + 1)) == spec_blocks_bytes(bs.take(i)) + crate
            ::color_block::spec_block_bytes(bs[i]),
{
    assert(bs.take(i + 1) =~= bs.take(i).push(bs[i]));
    group::lemma_blocks_bytes_push(bs.take(i), bs[i]);
}

/// Creates an Adobe Swatch Exchange (ASE) file.
///
/// The result is the header — signature, version, count of top-level
/// blocks — followed by every group and every top-level color, in the
/// order given.
#[verifier::rlimit(50)]
pub fn create_ase(groups: Vec<Group>, colors: Vec<ColorBlock>) -> (r: Vec<u8>)
    requires
        file_wf(groups.deep_view(), colors.deep_view()),
    ensures
        r@ == spec_file_bytes(groups.deep_view(), colors.deep_view()),
{
    let ghost gall = groups.deep_view();
    let ghost call = colors.deep_view();

    // we slightly over-estimate the required amount of space here, to
    // avoid a costly resizing
    let mut group_size: u128 = 0;
    let mut gi: usize = 0;
    while gi < groups.len()
        invariant
            gi <= groups.len(),
            gall == groups.deep_view(),
            file_wf(gall, call),
            group_size <= 0x1_0000_0000u128 * gi as u128,
        decreases groups.len() - gi,
    {
        let ghost pre = group_size;
        proof {
            assert(groups@[gi as int].deep_view() == gall[gi as int]);
        }
        let gl = groups[gi].calculate_length();
        group_size = group_size + gl as u128;
        proof {
            assert(group_size <= 0x1_0000_0000u128 * (gi + 1) as u128) by (nonlinear_arith)
                requires
                    pre <= 0x1_0000_0000u128 * gi as u128,
                    group_size <= pre + 0x1_0000_0000u128,
            ;
        }
        gi += 1;
    }
    let mut color_size: u128 = 0;
    let mut ci: usize = 0;
    while ci < colors.len()
        invariant
            ci <= colors.len(),
            call == colors.deep_view(),
            file_wf(gall, call),
            color_size <= 0x1_0000_0000u128 * ci as u128,
        decreases colors.len() - ci,
    {
        let ghost pre = color_size;
        proof {
            assert(colors@[ci as int].deep_view() == call[ci as int]);
        }
        let cl = colors[ci].calculate_length();
        color_size = color_size + cl as u128;
        proof {
            assert(color_size <= 0x1_0000_0000u128 * (ci + 1) as u128) by (nonlinear_arith)
                requires
                    pre <= 0x1_0000_0000u128 * ci as u128,
                    color_size <= pre + 0x1_0000_0000u128,
            ;
        }
        ci += 1;
    }
    proof {
        assert(group_size <= 0x1_0000_0000u128 * 0xffff_ffffu128) by (nonlinear_arith)
            requires
                group_size <= 0x1_0000_0000u128 * (groups.deep_view().len() as u128),
                groups.deep_view().len() <= 0xffff_ffff,
        ;
        assert(color_size <= 0x1_0000_0000u128 * 0xffff_ffffu128) by (nonlinear_arith)
            requires
                color_size <= 0x1_0000_0000u128 * (colors.deep_view().len() as u128),
                colors.deep_view().len() <= 0xffff_ffff,
        ;
    }
    let wanted: u128 = 8 + group_size * 2 + color_size;
    let capacity: usize = if wanted <= usize::MAX as u128 {
        wanted as usize
    } else {
        0
    };
    let mut buf = Buffer::with_capacity(capacity);

    // file metadata
    let signature = vec![65u8, 83u8, 69u8, 70u8];
    buf.write_slice(signature.as_slice());
    buf.write_u32(0x00010000);
    // number of blocks
    buf.write_u32((groups.len() + colors.len()) as u32);
    proof {
        assert(signature@ =~= seq![65u8, 83u8, 69u8, 70u8]);
    }
    let ghost after_header = buf@;

    // write groups
    let mut groups = groups;
    let ghost mut i: int = 0;
    while groups.len() > 0
        invariant
            groups.deep_view() == gall.skip(i),
            0 <= i <= gall.len(),
            forall|k: int| 0 <= k < gall.len() ==> group_wf(#[trigger] gall[k]),
            buf@ == after_header + spec_groups_bytes(gall.take(i)),
        decreases groups.len(),
    {
        let ghost prev = groups@;
        let g = groups.remove(0);
        proof {
            assert(groups@ == prev.remove(0));
            assert(gall.skip(i).len() == prev.len());
            assert(0 <= i < gall.len());
            assert(g.deep_view() == gall.skip(i)[0]);
            assert(gall.skip(i)[0] == gall[i]);
            assert(groups.deep_view() =~= gall.skip(i + 1)) by {
                assert forall|k: int| 0 <= k < groups@.len() implies groups@[k].deep_view()
                    == gall[i + 1 + k] by {
                    assert(groups@[k] == prev[k + 1]);
                    assert(prev[k + 1].deep_view() == gall.skip(i)[k + 1]);
                }
            }
            lemma_groups_bytes_take_step(gall, i);
        }
        g.write(&mut buf);
        proof {
            i = i + 1;
        }
    }
    proof {
        assert(i == gall.len());
        assert(gall.take(gall.len() as int) =~= gall);
    }
    let ghost after_groups = buf@;

    // write single colors
    let mut colors = colors;
    let ghost mut j: int = 0;
    while colors.len() > 0
        invariant
            colors.deep_view() == call.skip(j),
            0 <= j <= call.len(),
            forall|k: int| 0 <= k < call.len() ==> block_wf(#[trigger] call[k]),
            buf@ == after_groups + spec_blocks_bytes(call.take(j)),
        decreases colors.len(),
    {
        let ghost prev = colors@;
        let b = colors.remove(0);
        proof {
            assert(colors@ == prev.remove(0));
            assert(call.skip(j).len() == prev.len());
            assert(0 <= j < call.len());
            assert(b.deep_view() == call.skip(j)[0]);
            assert(call.skip(j)[0] == call[j]);
            assert(colors.deep_view() =~= call.skip(j + 1)) by {
                assert forall|k: int| 0 <= k < colors@.len() implies colors@[k].deep_view()
                    == call[j + 1 + k] by {
                    assert(colors@[k] == prev[k + 1]);
                    assert(prev[k + 1].deep_view() == call.skip(j)[k + 1]);
                }
            }
            lemma_color_blocks_bytes_take_step(call, j);
        }
        b.write(&mut buf);
        proof {
            j = j + 1;
        }
    }
    proof {
        assert(j == call.len());
        assert(call.take(call.len() as int) =~= call);
        assert(after_groups + spec_blocks_bytes(call) =~= spec_file_bytes(gall, call));
    }
    buf.into_vec()
}

/// Read groups and single colors from the bytes of an `.ase` file.
///
/// The header is validated — a wrong signature or version is an
/// `Invalid` error, a source too short for a field is `Io` — and the
/// declared number of blocks is then decoded with the tolerance that
/// `spec_read_blocks` spells out: name-only group layouts collect the
/// color entries that follow them, and up to two spurious zero words
/// after a GroupEnd are skipped.
///
/// # Errors
///
/// This function will return an error if the source runs out of bytes,
/// or the ASE data is invalid.
#[verifier::rlimit(100)]
pub fn read_ase(ase: &[u8]) -> (r: Result<(Vec<Group>, Vec<ColorBlock>), ASEError>)
    ensures
        match r {
            Ok(v) => spec_read_ase(ase@) == Ok::<_, ASEError>((v.0.deep_view(), v.1.deep_view())),
            Err(e) => spec_read_ase(ase@) == Err::<(Seq<GroupView>, Seq<ColorBlockView>), _>(e),
        },
{
    let n = ase.len();

    // read magic bytes
    if n < 4 {
        return Err(ASEError::Io);
    }
    let s0 = *vstd::slice::slice_index_get(ase, 0);
    let s1 = *vstd::slice::slice_index_get(ase, 1);
    let s2 = *vstd::slice::slice_index_get(ase, 2);
    let s3 = *vstd::slice::slice_index_get(ase, 3);
    proof {
        assert(ase@.subrange(0, 4) =~= seq![s0, s1, s2, s3]);
    }
    if !(s0 == 65 && s1 == 83 && s2 == 69 && s3 == 70) {
        return Err(ASEError::Invalid(ConformationError::FileSignature));
    }

    // read version, should be 1.0
    if n < 8 {
        return Err(ASEError::Io);
    }
    let v0 = *vstd::slice::slice_index_get(ase, 4);
    let v1 = *vstd::slice::slice_index_get(ase, 5);
    let v2 = *vstd::slice::slice_index_get(ase, 6);
    let v3 = *vstd::slice::slice_index_get(ase, 7);
    proof {
        assert(ase@.subrange(4, 8) =~= seq![v0, v1, v2, v3]);
        assert(be32(0x00010000) =~= seq![0u8, 1u8, 0u8, 0u8]);
    }
    if !(v0 == 0 && v1 == 1 && v2 == 0 && v3 == 0) {
        return Err(ASEError::Invalid(ConformationError::FileVersion));
    }

    if n < 12 {
        return Err(ASEError::Io);
    }
    let number_of_blocks = read_u32_be(ase, 8);

    let mut groups: Vec<Group> = Vec::new();
    let mut color_blocks: Vec<ColorBlock> = Vec::new();

    // temporary group to handle nonconforming group blocks
    let mut group_hold = GroupHold::Empty;

    let mut blocks_to_read: u64 = number_of_blocks as u64;
    let mut pos: usize = 12;

    // allow skipping of empty blocks when a group-end block has a size
    // field
    let mut skipped: u8 = 0;
    let mut safe_to_skip = false;

    proof {
        assert(groups.deep_view() =~= Seq::<GroupView>::empty());
        assert(color_blocks.deep_view() =~= Seq::<ColorBlockView>::empty());
    }

    while blocks_to_read > 0
        invariant
            n == ase@.len(),
            12 <= pos <= n,
            blocks_to_read <= 0xffff_ffffu64,
            skipped <= 2,
            spec_read_ase(ase@) == spec_read_blocks(
                ase@,
                pos as int,
                blocks_to_read as int,
                hold_view(&group_hold),
                groups.deep_view(),
                color_blocks.deep_view(),
                skipped as int,
                safe_to_skip,
            ),
        decreases n - pos,
    {
        let ghost opos = pos as int;
        let ghost orem = blocks_to_read as int;
        let ghost ohold = hold_view(&group_hold);
        let ghost ogroups = groups.deep_view();
        let ghost ocolors = color_blocks.deep_view();
        let ghost oskip = skipped as int;
        let ghost osafe = safe_to_skip;

        if n - pos < 2 {
            return Err(ASEError::Io);
        }
        let b0 = *vstd::slice::slice_index_get(ase, pos);
        let b1 = *vstd::slice::slice_index_get(ase, pos + 1);

        // only skip if the next two bytes were zero and we haven't
        // skipped two already
        if b0 == 0 && b1 == 0 && skipped < 2 && safe_to_skip {
            skipped += 1;
            pos += 2;
            continue ;
        }

        let tag = (b0 as u16) * 256 + b1 as u16;
        proof {
            assert(tag == u16_at(ase@, opos));
        }
        let block_type = match BlockType::try_from(tag) {
            Ok(t) => t,
            Err(e) => {
                return Err(e);
            },
        };

        if !matches!(block_type, BlockType::GroupEnd) && matches!(
            group_hold,
            GroupHold::HoldingBuilt(_),
        ) {
            return Err(ASEError::Invalid(ConformationError::GroupEnd));
        }

        // block length for GroupEnd blocks should always be zero; the
        // `skipped` state above absorbs the case where a size is
        // nevertheless written out
        if matches!(block_type, BlockType::GroupEnd) {
            safe_to_skip = true;
            skipped = 0;
            group_hold = match group_hold {
                GroupHold::HoldingBuilding(g) => {
                    let ghost gv = g@;
                    groups.push(g);
                    proof {
                        assert(groups.deep_view() =~= ogroups.push(gv));
                    }
                    GroupHold::Empty
                },
                GroupHold::HoldingBuilt(g) => {
                    let ghost gv = g@;
                    groups.push(g);
                    proof {
                        assert(groups.deep_view() =~= ogroups.push(gv));
                    }
                    GroupHold::Empty
                },
                GroupHold::Empty => {
                    return Err(ASEError::Invalid(ConformationError::GroupEnd));
                },
            };
            pos += 2;
            blocks_to_read -= 1;
            continue ;
        }

        // parse the length field and the block payload it declares
        if n - pos < 6 {
            return Err(ASEError::Io);
        }
        let block_length = read_u32_be(ase, pos + 2) as usize;
        safe_to_skip = false;
        if block_length > n - (pos + 6) {
            return Err(ASEError::Io);
        }
        let payload = vstd::slice::slice_subrange(ase, pos + 6, pos + 6 + block_length);

        // parse block data and add it to the appropriate list
        if matches!(block_type, BlockType::GroupStart) {
            let block = match Group::parse(payload) {
                Ok(g) => g,
                Err(e) => {
                    return Err(e);
                },
            };
            if !matches!(group_hold, GroupHold::Empty) {
                return Err(ASEError::Invalid(ConformationError::GroupEnd));
            }
            // if the parsed block has any sub-blocks then it has
            // already been built and only a group-end block may follow
            // it; otherwise colors are added as they appear until a
            // group-end block is encountered
            if block.blocks.len() == 0 {
                group_hold = GroupHold::HoldingBuilding(block);
            } else {
                blocks_to_read += 1;
                group_hold = GroupHold::HoldingBuilt(block);
            }
        } else {
            let block = match ColorBlock::parse(payload) {
                Ok(b) => b,
                Err(e) => {
                    return Err(e);
                },
            };
            group_hold = match group_hold {
                GroupHold::HoldingBuilding(mut g) => {
                    let ghost gv = g@;
                    g.blocks.push(block);
                    proof {
                        assert(g@.blocks =~= gv.blocks.push(block@));
                    }
                    GroupHold::HoldingBuilding(g)
                },
                GroupHold::Empty => {
                    color_blocks.push(block);
                    proof {
                        assert(color_blocks.deep_view() =~= ocolors.push(block@));
                    }
                    GroupHold::Empty
                },
                GroupHold::HoldingBuilt(_) => {
                    return Err(ASEError::Invalid(ConformationError::GroupEnd));
                },
            };
        }

        blocks_to_read -= 1;
        pos = pos + 6 + block_length;
    }

    // if we haven't saved the last group, even if no end was found, go
    // ahead and add it; a pre-built group left unterminated is an error
    match group_hold {
        GroupHold::HoldingBuilding(g) => {
            let ghost gv = g@;
            let ghost ogroups = groups.deep_view();
            groups.push(g);
            proof {
                assert(groups.deep_view() =~= ogroups.push(gv));
            }
        },
        GroupHold::HoldingBuilt(_) => {
            return Err(ASEError::Invalid(ConformationError::GroupEnd));
        },
        GroupHold::Empty => {},
    }

    Ok((groups, color_blocks))
}

} // verus!

