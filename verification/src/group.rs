//! A named collection of color blocks and its wire form.

use vstd::prelude::*;

use crate::block_type::BlockType;
use crate::buffer::Buffer;
use crate::color_block::{
    block_wf, spec_block_bytes, spec_block_len, spec_parse_color_block, ColorBlock,
    ColorBlockView,
};
use crate::endian::{be16, be32, read_u16_be, read_u32_be, u16_at, u32_at};
use crate::error::ASEError;
use crate::names::{name_wf, parse_name, spec_name_field_bytes, spec_parse_name};
use crate::utf16::{utf16_unit_count, utf16_units};

verus! {

/// Represents a named collection of colors.
#[derive(Debug, Clone, PartialEq)]
pub struct Group {
    /// The name of the group.
    pub name: String,
    /// The colors in the group.
    pub blocks: Vec<ColorBlock>,
}

/// The mathematical content of a [`Group`].
pub ghost struct GroupView {
    pub name: Seq<char>,
    pub blocks: Seq<ColorBlockView>,
}

impl View for Group {
    type V = GroupView;

    open spec fn view(&self) -> GroupView {
        GroupView { name: self.name@, blocks: self.blocks.deep_view() }
    }
}

impl DeepView for Group {
    type V = GroupView;

    open spec fn deep_view(&self) -> GroupView {
        self.view()
    }
}

/// Decoder-only transient state: whether a group opened by a GroupStart
/// block is still accepting top-level color entries (a name-only,
/// non-conformant layout) or arrived fully populated (the conformant
/// layout) and may only be closed.
pub(crate) enum GroupHold {
    /// Colors are being collected into a found parent group.
    HoldingBuilding(Group),
    /// Colors were already collected when the group block was parsed.
    HoldingBuilt(Group),
    /// Colors are currently being collected in the global context.
    Empty,
}

/// The mathematical content of a `GroupHold`.
pub ghost enum GroupHoldView {
    Building(GroupView),
    Built(GroupView),
    Empty,
}

/// The mathematical content of a `GroupHold`.
pub(crate) open spec fn hold_view(h: &GroupHold) -> GroupHoldView {
    match h {
        GroupHold::HoldingBuilding(g) => GroupHoldView::Building(g@),
        GroupHold::HoldingBuilt(g) => GroupHoldView::Built(g@),
        GroupHold::Empty => GroupHoldView::Empty,
    }
}

/// The bytes a sequence of color blocks is stored as: each block's full
/// wire form, in order.
pub open spec fn spec_blocks_bytes(bs: Seq<ColorBlockView>) -> Seq<u8>
    decreases bs.len(),
{
    if bs.len() == 0 {
        Seq::empty()
    } else {
        spec_block_bytes(bs[0]) + spec_blocks_bytes(bs.skip(1))
    }
}

/// The bytes a sequence of color blocks occupies: each block's body
/// length plus its 2-byte tag and 4-byte length field.
pub open spec fn spec_blocks_len(bs: Seq<ColorBlockView>) -> int
    decreases bs.len(),
{
    if bs.len() == 0 {
        0
    } else {
        spec_block_len(bs[0]) + 6 + spec_blocks_len(bs.skip(1))
    }
}

/// The length a group's length field declares: the name field and the
/// contained blocks (the trailing GroupEnd tag is a block of its own).
pub open spec fn spec_group_len(g: GroupView) -> int {
    2 + 2 * utf16_units(g.name).len() + 2 + spec_blocks_len(g.blocks)
}

/// The body of a group: what its length field counts.
pub open spec fn spec_group_body(g: GroupView) -> Seq<u8> {
    spec_name_field_bytes(g.name) + spec_blocks_bytes(g.blocks)
}

/// The full wire form of a group: GroupStart tag, length field, body,
/// GroupEnd tag.
pub open spec fn spec_group_bytes(g: GroupView) -> Seq<u8> {
    be16(0xc001) + be32(spec_group_len(g) as u32) + spec_group_body(g) + be16(0xc002)
}

/// A group fits its wire form: its name and every block do, and its
/// declared length fits the 32-bit length field.
pub open spec fn group_wf(g: GroupView) -> bool {
    &&& name_wf(g.name)
    &&& forall|i: int| 0 <= i < g.blocks.len() ==> block_wf(#[trigger] g.blocks[i])
    &&& spec_group_len(g) <= u32::MAX
}

/// Blocks take a non-negative number of bytes.
pub proof fn lemma_blocks_len_nonneg(bs: Seq<ColorBlockView>)
    ensures
        spec_blocks_len(bs) >= 0,
    decreases bs.len(),
{
    if bs.len() > 0 {
        lemma_blocks_len_nonneg(bs.skip(1));
    }
}

/// Block byte counts add up over concatenation.
pub proof fn lemma_blocks_len_concat(a: Seq<ColorBlockView>, b: Seq<ColorBlockView>)
    ensures
        spec_blocks_len(a + b) == spec_blocks_len(a) + spec_blocks_len(b),
    decreases a.len(),
{
    if a.len() == 0 {
        assert(a + b =~= b);
    } else {
        assert((a + b).skip(1) =~= a.skip(1) + b);
        lemma_blocks_len_concat(a.skip(1), b);
    }
}

/// The bytes of a concatenation of block sequences.
pub proof fn lemma_blocks_bytes_concat(a: Seq<ColorBlockView>, b: Seq<ColorBlockView>)
    ensures
        spec_blocks_bytes(a + b) == spec_blocks_bytes(a) + spec_blocks_bytes(b),
    decreases a.len(),
{
    if a.len() == 0 {
        assert(a + b =~= b);
        assert(spec_blocks_bytes(a) + spec_blocks_bytes(b) =~= spec_blocks_bytes(b));
    } else {
        assert((a + b).skip(1) =~= a.skip(1) + b);
        lemma_blocks_bytes_concat(a.skip(1), b);
        assert(spec_blocks_bytes(a + b) =~= spec_blocks_bytes(a) + spec_blocks_bytes(b));
    }
}

/// The wire form of a single block, as a block sequence.
pub proof fn lemma_blocks_bytes_singleton(b: ColorBlockView)
    ensures
        spec_blocks_bytes(seq![b]) == spec_block_bytes(b),
        spec_blocks_len(seq![b]) == spec_block_len(b) + 6,
{
    assert(seq![b].skip(1) =~= Seq::<ColorBlockView>::empty());
    assert(seq![b][0] == b);
    assert(spec_blocks_bytes(Seq::<ColorBlockView>::empty()) =~= Seq::<u8>::empty());
    assert(spec_blocks_len(Seq::<ColorBlockView>::empty()) == 0);
    assert(spec_blocks_bytes(seq![b]) =~= spec_block_bytes(b));
}

/// Appending one block adds its bytes.
pub proof fn lemma_blocks_bytes_push(bs: Seq<ColorBlockView>, b: ColorBlockView)
    ensures
        spec_blocks_bytes(bs.push(b)) == spec_blocks_bytes(bs) + spec_block_bytes(b),
        spec_blocks_len(bs.push(b)) == spec_blocks_len(bs) + spec_block_len(b) + 6,
{
    assert(bs.push(b) =~= bs + seq![b]);
    lemma_blocks_bytes_concat(bs, seq![b]);
    lemma_blocks_len_concat(bs, seq![b]);
    lemma_blocks_bytes_singleton(b);
}

/// The bytes of a block sequence have the length its length field
/// arithmetic declares.
pub proof fn lemma_blocks_bytes_len(bs: Seq<ColorBlockView>)
    ensures
        spec_blocks_bytes(bs).len() == spec_blocks_len(bs),
    decreases bs.len(),
{
    if bs.len() > 0 {
        crate::color_block::lemma_block_body_len(bs[0]);
        lemma_blocks_bytes_len(bs.skip(1));
    }
}

/// One step of summing block lengths over a prefix: the next block adds
/// its bytes, and no prefix outgrows the whole.
pub proof fn lemma_blocks_len_take_step(bs: Seq<ColorBlockView>, i: int)
    requires
        0 <= i < bs.len(),
    ensures
        spec_blocks_len(bs.take(i + 1)) == spec_blocks_len(bs.take(i)) + spec_block_len(bs[i])
            + 6,
        spec_blocks_len(bs.take(i + 1)) <= spec_blocks_len(bs),
{
    assert(bs.take(i + 1) =~= bs.take(i).push(bs[i]));
    lemma_blocks_bytes_push(bs.take(i), bs[i]);
    assert(bs =~= bs.take(i + 1) + bs.skip(i + 1));
    lemma_blocks_len_concat(bs.take(i + 1), bs.skip(i + 1));
    lemma_blocks_len_nonneg(bs.skip(i + 1));
}

/// A group's length field counts exactly its body bytes.
pub proof fn lemma_group_body_len(g: GroupView)
    ensures
        spec_group_body(g).len() == spec_group_len(g),
{
    crate::utf16::lemma_units_bytes_len(utf16_units(g.name));
    lemma_blocks_bytes_len(g.blocks);
}

/// The color blocks read from `bytes` starting at `pointer`: color
/// entries are collected, each advanced over by its declared length,
/// until fewer than two bytes remain, the next tag is not a color
/// entry, or the next block fails to parse — all of which stop without
/// error.  An unknown tag, or a length field cut short, is an error.
pub open spec fn spec_group_blocks(bytes: Seq<u8>, pointer: int) -> Result<
    Seq<ColorBlockView>,
    ASEError,
>
    decreases bytes.len() - pointer,
{
    if pointer >= bytes.len() - 1 {
        Ok(Seq::empty())
    } else {
        let tag = u16_at(bytes, pointer);
        if tag != 0x0001 && tag != 0xc001 && tag != 0xc002 {
            Err(ASEError::BlockTypeError)
        } else if tag != 0x0001 {
            Ok(Seq::empty())
        } else if pointer + 6 > bytes.len() {
            Err(ASEError::InputDataParseError)
        } else {
            let bl = u32_at(bytes, pointer + 2) as int;
            match spec_parse_color_block(bytes.subrange(pointer + 6, bytes.len() as int)) {
                Err(_) => Ok(Seq::empty()),
                Ok(b) => {
                    if pointer + 6 + bl >= bytes.len() - 1 {
                        Ok(seq![b])
                    } else {
                        match spec_group_blocks(bytes, pointer + 6 + bl) {
                            Err(e) => Err(e),
                            Ok(rest) => Ok(seq![b] + rest),
                        }
                    }
                },
            }
        }
    }
}

/// The group read from `bytes`: a name field, then whatever color
/// entries `spec_group_blocks` collects.
pub open spec fn spec_parse_group(bytes: Seq<u8>) -> Result<GroupView, ASEError> {
    match spec_parse_name(bytes) {
        Err(e) => Err(e),
        Ok((name, pointer)) => match spec_group_blocks(bytes, pointer) {
            Err(e) => Err(e),
            Ok(blocks) => Ok(GroupView { name, blocks }),
        },
    }
}

/// Relates a finished prefix of parsed blocks to the whole parse: the
/// blocks still to come either extend the prefix or decide the error.
pub open spec fn blocks_continuation(
    full: Result<Seq<ColorBlockView>, ASEError>,
    done: Seq<ColorBlockView>,
    cur: Result<Seq<ColorBlockView>, ASEError>,
) -> bool {
    match cur {
        Ok(rest) => full == Ok::<_, ASEError>(done + rest),
        Err(e) => full == Err::<Seq<ColorBlockView>, _>(e),
    }
}

impl Group {
    /// Creates a new group of colors, grouped together with the
    /// specified name.
    pub fn new(name: String, blocks: Vec<ColorBlock>) -> (r: Self)
        ensures
            r@ == (GroupView { name: name@, blocks: blocks.deep_view() }),
    {
        Self { name, blocks }
    }

    /// Calculate the length of a group.
    ///
    /// The length counts the name length field, the name with its
    /// terminator, and for each contained block its tag, length field
    /// and body.
    #[verifier::rlimit(50)]
    pub fn calculate_length(&self) -> (r: u32)
        requires
            group_wf(self@),
        ensures
            r == spec_group_len(self@),
    {
        let units = utf16_unit_count(self.name.as_str());
        let mut acc: u32 = 2 + (units as u32) * 2 + 2;
        let ghost all = self@.blocks;
        let mut i: usize = 0;
        while i < self.blocks.len()
            invariant
                i <= self.blocks.len(),
                group_wf(self@),
                all == self@.blocks,
                acc == 2 + 2 * utf16_units(self@.name).len() + 2 + spec_blocks_len(
                    all.take(i as int),
                ),
            decreases self.blocks.len() - i,
        {
            proof {
                lemma_blocks_len_take_step(all, i as int);
                assert(self.blocks[i as int].deep_view() == all[i as int]);
            }
            let cl = self.blocks[i].calculate_length();
            acc = acc + cl + 6;
            i += 1;
        }
        proof {
            assert(all.take(self.blocks.len() as int) =~= all);
        }
        acc
    }

    /// Write the group to the given [`Buffer`].
    #[verifier::rlimit(50)]
    pub fn write(self, buf: &mut Buffer)
        requires
            group_wf(self@),
        ensures
            final(buf)@ == old(buf)@ + spec_group_bytes(self@),
    {
        let ghost gv = self@;
        buf.write_u16(BlockType::GroupStart.tag());
        buf.write_u32(self.calculate_length());

        // name length, +1 for null terminator
        let units = utf16_unit_count(self.name.as_str());
        buf.write_u16((units + 1) as u16);
        buf.write_null_terminated_utf_16_str(self.name.as_str());

        // write colors
        let mut blocks = self.blocks;
        let ghost all = gv.blocks;
        let ghost after_name = buf@;
        let ghost mut i: int = 0;
        while blocks.len() > 0
            invariant
                blocks.deep_view() == all.skip(i),
                0 <= i <= all.len(),
                forall|k: int| 0 <= k < all.len() ==> block_wf(#[trigger] all[k]),
                buf@ == after_name + spec_blocks_bytes(all.take(i)),
            decreases blocks.len(),
        {
            let ghost prev = blocks@;
            let b = blocks.remove(0);
            proof {
                assert(blocks@ == prev.remove(0));
                assert(all.skip(i).len() == prev.len());
                assert(0 <= i < all.len());
                assert(b.deep_view() == all.skip(i)[0]);
                assert(all.skip(i)[0] == all[i]);
                assert(blocks.deep_view() =~= all.skip(i + 1)) by {
                    assert forall|k: int| 0 <= k < blocks@.len() implies blocks@[k].deep_view()
                        == all[i + 1 + k] by {
                        assert(blocks@[k] == prev[k + 1]);
                        assert(prev[k + 1].deep_view() == all.skip(i)[k + 1]);
                    }
                }
                assert(all.take(i + 1) =~= all.take(i).push(all[i]));
                lemma_blocks_bytes_push(all.take(i), all[i]);
            }
            b.write(buf);
            proof {
                i = i + 1;
            }
        }
        proof {
            assert(i == all.len());
            assert(all.take(all.len() as int) =~= all);
        }
        buf.write_u16(BlockType::GroupEnd.tag());
        proof {
            assert(final(buf)@ =~= old(buf)@ + spec_group_bytes(gv));
        }
    }

    /// Parses a [`Group`] from `bytes`.
    ///
    /// This will extract the name and then try to parse the left-over
    /// bytes as color blocks.  It stops, without error, when the given
    /// bytes run out, when the next block is not a color entry, or when
    /// parsing the next block fails.
    ///
    /// # Errors
    /// This function will return an error if the name cannot be read,
    /// if a block tag is not a known value, or if a color entry's
    /// length field is cut short.
    #[verifier::rlimit(100)]
    pub fn parse(bytes: &[u8]) -> (r: Result<Self, ASEError>)
        ensures
            match r {
                Ok(g) => spec_parse_group(bytes@) == Ok::<_, ASEError>(g@),
                Err(e) => spec_parse_group(bytes@) == Err::<GroupView, _>(e),
            },
    {
        let n = bytes.len();
        let (name, p0) = match parse_name(bytes) {
            Ok(p) => p,
            Err(e) => {
                return Err(e);
            },
        };
        let ghost full = spec_group_blocks(bytes@, p0 as int);
        let mut blocks: Vec<ColorBlock> = Vec::new();
        let mut pointer: usize = p0;
        loop
            invariant_except_break
                n == bytes@.len(),
                n >= 2,
                pointer <= n + 2,
                spec_parse_name(bytes@) == Ok::<_, ASEError>((name@, p0 as int)),
                full == spec_group_blocks(bytes@, p0 as int),
                blocks_continuation(
                    full,
                    blocks.deep_view(),
                    spec_group_blocks(bytes@, pointer as int),
                ),
            ensures
                full == Ok::<Seq<ColorBlockView>, ASEError>(blocks.deep_view()),
            decreases n + 2 - pointer,
        {
            if pointer >= n - 1 {
                proof {
                    assert(blocks.deep_view() + Seq::<ColorBlockView>::empty()
                        =~= blocks.deep_view());
                }
                break ;
            }
            let tag = read_u16_be(bytes, pointer);
            let bt = match BlockType::try_from(tag) {
                Ok(b) => b,
                Err(e) => {
                    proof {
                        assert(spec_group_blocks(bytes@, pointer as int)
                            == Err::<Seq<ColorBlockView>, ASEError>(e));
                    }
                    return Err(e);
                },
            };
            if !matches!(bt, BlockType::ColorEntry) {
                proof {
                    assert(blocks.deep_view() + Seq::<ColorBlockView>::empty()
                        =~= blocks.deep_view());
                }
                break ;
            }
            if n - pointer < 6 {
                proof {
                    assert(spec_group_blocks(bytes@, pointer as int)
                        == Err::<Seq<ColorBlockView>, ASEError>(ASEError::InputDataParseError));
                }
                return Err(ASEError::InputDataParseError);
            }
            let bl = read_u32_be(bytes, pointer + 2);
            let rest = vstd::slice::slice_subrange(bytes, pointer + 6, n);
            let block = match ColorBlock::parse(rest) {
                Ok(b) => b,
                Err(_) => {
                    proof {
                        assert(blocks.deep_view() + Seq::<ColorBlockView>::empty()
                            =~= blocks.deep_view());
                    }
                    break ;
                },
            };
            let ghost done_before = blocks.deep_view();
            blocks.push(block);
            proof {
                assert(blocks.deep_view() =~= done_before.push(block@));
                assert(done_before.push(block@) =~= done_before + seq![block@]);
            }
            let next: u128 = pointer as u128 + 6 + bl as u128;
            if next >= n as u128 - 1 {
                proof {
                    assert(full == Ok::<Seq<ColorBlockView>, ASEError>(blocks.deep_view()));
                }
                break ;
            }
            proof {
                let rest_spec = spec_group_blocks(bytes@, next as int);
                if rest_spec is Ok {
                    assert(done_before + (seq![block@] + rest_spec.unwrap()) =~= done_before
                        + seq![block@] + rest_spec.unwrap());
                }
            }
            pointer = next as usize;
        }
        Ok(Self::new(name, blocks))
    }
}

} // verus!
