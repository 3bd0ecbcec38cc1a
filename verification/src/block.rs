//! Block state: the closed set of cell variants, the primitives they carry,
//! and the tagged-variant binary codec that turns one state into bytes and
//! bytes back into one state.

use vstd::prelude::*;

verus! {

use crate::utils::{ParseError, spec_bool_of_byte};

/// Direction: general purpose orientation flags.
///
/// Follows a left-handed rule:
///     +x is right, -x is left,
///     +y is up, -y is down,
///     +z is forward, -z is backwards
#[derive(Clone, Copy, Debug, PartialEq, Eq, Structural)]
pub enum Dir {
    Up,
    Down,
    Left,
    Right,
    Forward,
    Backward,
}

/// The single bit that stands for a direction in the wire format.
pub open spec fn dir_bit(d: Dir) -> u8 {
    match d {
        Dir::Up => 0b00000001u8,
        Dir::Down => 0b00000010u8,
        Dir::Left => 0b00000100u8,
        Dir::Right => 0b00001000u8,
        Dir::Forward => 0b00010000u8,
        Dir::Backward => 0b00100000u8,
    }
}

/// The partial inverse of `dir_bit`: only the six exact single-bit values
/// stand for a direction; zero and every combination of bits are rejected.
pub open spec fn spec_dir_of_byte(val: u8) -> Option<Dir> {
    if val == 0b00000001u8 {
        Some(Dir::Up)
    } else if val == 0b00000010u8 {
        Some(Dir::Down)
    } else if val == 0b00000100u8 {
        Some(Dir::Left)
    } else if val == 0b00001000u8 {
        Some(Dir::Right)
    } else if val == 0b00010000u8 {
        Some(Dir::Forward)
    } else if val == 0b00100000u8 {
        Some(Dir::Backward)
    } else {
        None
    }
}

/// Reading a byte always gives back the direction whose bit was written.
pub proof fn lemma_dir_bit_inverse(d: Dir)
    ensures
        spec_dir_of_byte(dir_bit(d)) == Some(d),
{
    match d {
        Dir::Up => {},
        Dir::Down => {},
        Dir::Left => {},
        Dir::Right => {},
        Dir::Forward => {},
        Dir::Backward => {},
    }
}

impl Dir {
    /// The direction's bit value, as written into the wire format.
    pub fn bit(self) -> (r: u8)
        ensures
            r == dir_bit(self),
    {
        match self {
            Dir::Up => 0b00000001u8,
            Dir::Down => 0b00000010u8,
            Dir::Left => 0b00000100u8,
            Dir::Right => 0b00001000u8,
            Dir::Forward => 0b00010000u8,
            Dir::Backward => 0b00100000u8,
        }
    }

    /// Reads a single direction from its byte; accepts exactly the six
    /// single-bit values.
    pub fn try_from(val: u8) -> (r: Result<Dir, ParseError>)
        ensures
            r == match spec_dir_of_byte(val) {
                Some(d) => Ok::<Dir, ParseError>(d),
                None => Err::<Dir, ParseError>(ParseError::InvalidDirection),
            },
    {
        match val {
            0b00000001u8 => Ok(Dir::Up),
            0b00000010u8 => Ok(Dir::Down),
            0b00000100u8 => Ok(Dir::Left),
            0b00001000u8 => Ok(Dir::Right),
            0b00010000u8 => Ok(Dir::Forward),
            0b00100000u8 => Ok(Dir::Backward),
            _ => Err(ParseError::InvalidDirection),
        }
    }
}

/// A combinable set of the six directions, held as one byte of flags.
///
/// Well-formed values keep every bit outside the six defined positions at
/// zero; `try_from` rejects ill-formed input bytes instead of masking them.
#[derive(Clone, Copy, Debug, PartialEq, Eq, Structural)]
pub struct DirSet {
    pub bits: u8,
}

impl DirSet {
    /// The validity invariant: no bits outside the six flag positions.
    pub open spec fn wf(self) -> bool {
        self.bits < 64
    }

    /// Membership of one direction in the set.
    pub open spec fn spec_contains(self, d: Dir) -> bool {
        self.bits & dir_bit(d) != 0
    }

    /// Reads a direction set from its byte; any subset of the six flags
    /// (including the empty one) is accepted, out-of-range bits are rejected.
    pub fn try_from(val: u8) -> (r: Result<DirSet, ParseError>)
        ensures
            r == if val < 64 {
                Ok::<DirSet, ParseError>(DirSet { bits: val })
            } else {
                Err::<DirSet, ParseError>(ParseError::InvalidDirectionSet)
            },
            r matches Ok(s) ==> s.wf(),
    {
        if val < 64 {
            Ok(DirSet { bits: val })
        } else {
            Err(ParseError::InvalidDirectionSet)
        }
    }

    /// The set's flag byte, as written into the wire format.
    pub fn bits(&self) -> (r: u8)
        ensures
            r == self.bits,
    {
        self.bits
    }

    /// Whether the set holds the given direction.
    pub fn contains(&self, d: Dir) -> (r: bool)
        ensures
            r == self.spec_contains(d),
    {
        self.bits & d.bit() != 0
    }
}

/// Redstone-poweredness of an opaque block.
#[derive(Clone, Copy, Debug, PartialEq, Eq, Structural)]
pub enum PowerState {
    Off,
    Weak,
    Strong,
}

/// The ordinal a power state is written as.
pub open spec fn power_ordinal(p: PowerState) -> u8 {
    match p {
        PowerState::Off => 0u8,
        PowerState::Weak => 1u8,
        PowerState::Strong => 2u8,
    }
}

/// The partial inverse of `power_ordinal`: only the ordinals 0..=2 stand
/// for a power state.
pub open spec fn spec_power_of_byte(val: u8) -> Option<PowerState> {
    if val == 0 {
        Some(PowerState::Off)
    } else if val == 1 {
        Some(PowerState::Weak)
    } else if val == 2 {
        Some(PowerState::Strong)
    } else {
        None
    }
}

/// Reading a byte always gives back the power state whose ordinal was
/// written.
pub proof fn lemma_power_ordinal_inverse(p: PowerState)
    ensures
        spec_power_of_byte(power_ordinal(p)) == Some(p),
{
    match p {
        PowerState::Off => {},
        PowerState::Weak => {},
        PowerState::Strong => {},
    }
}

impl PowerState {
    /// The power state's ordinal, as written into the wire format.
    pub fn ordinal(self) -> (r: u8)
        ensures
            r == power_ordinal(self),
    {
        match self {
            PowerState::Off => 0u8,
            PowerState::Weak => 1u8,
            PowerState::Strong => 2u8,
        }
    }

    /// Reads a power state from its byte; accepts exactly the ordinals
    /// 0..=2.
    pub fn try_from(val: u8) -> (r: Result<PowerState, ParseError>)
        ensures
            r == match spec_power_of_byte(val) {
                Some(p) => Ok::<PowerState, ParseError>(p),
                None => Err::<PowerState, ParseError>(ParseError::InvalidPowerState),
            },
    {
        match val {
            0u8 => Ok(PowerState::Off),
            1u8 => Ok(PowerState::Weak),
            2u8 => Ok(PowerState::Strong),
            _ => Err(ParseError::InvalidPowerState),
        }
    }
}

/// What a cell physically is, a closed tagged union of ten variants.
#[derive(Clone, Copy, Debug, PartialEq, Eq, Structural)]
pub enum BlockState {
    /// power level, connection directions
    Redstone(u8, DirSet),
    /// activated, position of base of torch (which block it's hanging off of)
    Torch(bool, Dir),
    /// delay length, activated?, locked?, forward pointing direction
    Repeater(u8, bool, bool, Dir),
    /// power level, compare/subtract, forward pointing direction
    Comparator(u8, bool, Dir),
    /// activated, head pointing direction
    PistonBase(bool, Dir),
    /// sticky?, direction pushing block
    PistonHead(bool, Dir),
    /// power state, color
    Opaque(PowerState, u8),
    /// power level (if pulled from comparator)
    BlockEntity(u8),
    /// doesn't really interact much
    Transparent,
    /// air or structure void (maybe)
    NonBlock,
}

/// The variant tag written as a record's first byte.
pub open spec fn tag_of(s: BlockState) -> u8 {
    match s {
        BlockState::Redstone(_, _) => 0u8,
        BlockState::Torch(_, _) => 1u8,
        BlockState::Repeater(_, _, _, _) => 2u8,
        BlockState::Comparator(_, _, _) => 3u8,
        BlockState::PistonBase(_, _) => 4u8,
        BlockState::PistonHead(_, _) => 5u8,
        BlockState::Opaque(_, _) => 6u8,
        BlockState::BlockEntity(_) => 7u8,
        BlockState::Transparent => 8u8,
        BlockState::NonBlock => 9u8,
    }
}

/// The byte a boolean field is written as.
pub open spec fn bool_byte(b: bool) -> u8 {
    if b {
        1u8
    } else {
        0u8
    }
}

/// The fixed length of a variant's record: tag byte plus payload bytes.
pub open spec fn encoded_len(s: BlockState) -> nat {
    match s {
        BlockState::Redstone(_, _) => 3,
        BlockState::Torch(_, _) => 3,
        BlockState::Repeater(_, _, _, _) => 5,
        BlockState::Comparator(_, _, _) => 4,
        BlockState::PistonBase(_, _) => 3,
        BlockState::PistonHead(_, _) => 3,
        BlockState::Opaque(_, _) => 3,
        BlockState::BlockEntity(_) => 2,
        BlockState::Transparent => 1,
        BlockState::NonBlock => 1,
    }
}

/// The record a block state is written as: the variant tag byte followed by
/// the variant's payload fields in their fixed order, with no padding.
pub open spec fn spec_encode(s: BlockState) -> Seq<u8> {
    match s {
        BlockState::Redstone(power, dirs) => seq![0u8, power, dirs.bits],
        BlockState::Torch(activated, dir) => seq![1u8, bool_byte(activated), dir_bit(dir)],
        BlockState::Repeater(delay, activated, locked, dir) => seq![
            2u8,
            delay,
            bool_byte(activated),
            bool_byte(locked),
            dir_bit(dir),
        ],
        BlockState::Comparator(power, mode, dir) => seq![
            3u8,
            power,
            bool_byte(mode),
            dir_bit(dir),
        ],
        BlockState::PistonBase(activated, dir) => seq![4u8, bool_byte(activated), dir_bit(dir)],
        BlockState::PistonHead(sticky, dir) => seq![5u8, bool_byte(sticky), dir_bit(dir)],
        BlockState::Opaque(power_state, color) => seq![6u8, power_ordinal(power_state), color],
        BlockState::BlockEntity(power) => seq![7u8, power],
        BlockState::Transparent => seq![8u8],
        BlockState::NonBlock => seq![9u8],
    }
}

/// The decoding relation of one record: which state a byte stream's head
/// stands for and how many bytes the record takes, or the exact failure.
///
/// The tag byte is mapped first (an unknown tag is rejected whatever
/// follows); then, if fewer bytes remain than the variant's record needs,
/// the stream is rejected as truncated; then each payload field is
/// validated in its fixed order.
pub open spec fn spec_decode(bytes: Seq<u8>) -> Result<(BlockState, nat), ParseError> {
    if bytes.len() < 1 {
        Err(ParseError::UnexpectedEndOfData)
    } else {
        let tag = bytes[0];
        if tag == 0 {
            if bytes.len() < 3 {
                Err(ParseError::UnexpectedEndOfData)
            } else if bytes[2] >= 64 {
                Err(ParseError::InvalidDirectionSet)
            } else {
                Ok((BlockState::Redstone(bytes[1], DirSet { bits: bytes[2] }), 3 as nat))
            }
        } else if tag == 1 {
            if bytes.len() < 3 {
                Err(ParseError::UnexpectedEndOfData)
            } else {
                match spec_bool_of_byte(bytes[1]) {
                    None => Err(ParseError::InvalidBoolean),
                    Some(activated) => match spec_dir_of_byte(bytes[2]) {
                        None => Err(ParseError::InvalidDirection),
                        Some(dir) => Ok((BlockState::Torch(activated, dir), 3 as nat)),
                    },
                }
            }
        } else if tag == 2 {
            if bytes.len() < 5 {
                Err(ParseError::UnexpectedEndOfData)
            } else {
                match spec_bool_of_byte(bytes[2]) {
                    None => Err(ParseError::InvalidBoolean),
                    Some(activated) => match spec_bool_of_byte(bytes[3]) {
                        None => Err(ParseError::InvalidBoolean),
                        Some(locked) => match spec_dir_of_byte(bytes[4]) {
                            None => Err(ParseError::InvalidDirection),
                            Some(dir) => Ok(
                                (BlockState::Repeater(bytes[1], activated, locked, dir), 5 as nat),
                            ),
                        },
                    },
                }
            }
        } else if tag == 3 {
            if bytes.len() < 4 {
                Err(ParseError::UnexpectedEndOfData)
            } else {
                match spec_bool_of_byte(bytes[2]) {
                    None => Err(ParseError::InvalidBoolean),
                    Some(mode) => match spec_dir_of_byte(bytes[3]) {
                        None => Err(ParseError::InvalidDirection),
                        Some(dir) => Ok((BlockState::Comparator(bytes[1], mode, dir), 4 as nat)),
                    },
                }
            }
        } else if tag == 4 {
            if bytes.len() < 3 {
                Err(ParseError::UnexpectedEndOfData)
            } else {
                match spec_bool_of_byte(bytes[1]) {
                    None => Err(ParseError::InvalidBoolean),
                    Some(activated) => match spec_dir_of_byte(bytes[2]) {
                        None => Err(ParseError::InvalidDirection),
                        Some(dir) => Ok((BlockState::PistonBase(activated, dir), 3 as nat)),
                    },
                }
            }
        } else if tag == 5 {
            if bytes.len() < 3 {
                Err(ParseError::UnexpectedEndOfData)
            } else {
                match spec_bool_of_byte(bytes[1]) {
                    None => Err(ParseError::InvalidBoolean),
                    Some(sticky) => match spec_dir_of_byte(bytes[2]) {
                        None => Err(ParseError::InvalidDirection),
                        Some(dir) => Ok((BlockState::PistonHead(sticky, dir), 3 as nat)),
                    },
                }
            }
        } else if tag == 6 {
            if bytes.len() < 3 {
                Err(ParseError::UnexpectedEndOfData)
            } else {
                match spec_power_of_byte(bytes[1]) {
                    None => Err(ParseError::InvalidPowerState),
                    Some(power_state) => Ok(
                        (BlockState::Opaque(power_state, bytes[2]), 3 as nat),
                    ),
                }
            }
        } else if tag == 7 {
            if bytes.len() < 2 {
                Err(ParseError::UnexpectedEndOfData)
            } else {
                Ok((BlockState::BlockEntity(bytes[1]), 2 as nat))
            }
        } else if tag == 8 {
            Ok((BlockState::Transparent, 1 as nat))
        } else if tag == 9 {
            Ok((BlockState::NonBlock, 1 as nat))
        } else {
            Err(ParseError::InvalidVariantTag)
        }
    }
}

impl BlockState {
    /// The validity invariant: every direction set a state carries is
    /// well-formed.
    pub open spec fn wf(self) -> bool {
        match self {
            BlockState::Redstone(_, dirs) => dirs.wf(),
            _ => true,
        }
    }
}

/// Every state a successful decode constructs is well-formed, its record
/// length is the variant's fixed one and never exceeds the input.
pub proof fn lemma_decode_ok(bytes: Seq<u8>)
    ensures
        spec_decode(bytes) matches Ok(p) ==> {
            &&& p.0.wf()
            &&& p.1 == encoded_len(p.0)
            &&& 1 <= p.1 <= bytes.len()
        },
{
}

/// Per-variant codec law: decoding a well-formed state's record gives the
/// state back and consumes exactly the variant's fixed record length,
/// whatever bytes follow the record.
pub proof fn lemma_state_round_trip(s: BlockState, rest: Seq<u8>)
    requires
        s.wf(),
    ensures
        spec_encode(s).len() == encoded_len(s),
        spec_decode(spec_encode(s) + rest) == Ok::<(BlockState, nat), ParseError>(
            (s, encoded_len(s)),
        ),
{
    let bytes = spec_encode(s) + rest;
    match s {
        BlockState::Redstone(power, dirs) => {
            assert(bytes[0] == 0u8 && bytes[1] == power && bytes[2] == dirs.bits);
            assert(DirSet { bits: dirs.bits } == dirs);
        },
        BlockState::Torch(activated, dir) => {
            assert(bytes[1] == bool_byte(activated) && bytes[2] == dir_bit(dir));
            lemma_dir_bit_inverse(dir);
        },
        BlockState::Repeater(delay, activated, locked, dir) => {
            assert(bytes[1] == delay && bytes[2] == bool_byte(activated) && bytes[3] == bool_byte(
                locked,
            ) && bytes[4] == dir_bit(dir));
            lemma_dir_bit_inverse(dir);
        },
        BlockState::Comparator(power, mode, dir) => {
            assert(bytes[1] == power && bytes[2] == bool_byte(mode) && bytes[3] == dir_bit(dir));
            lemma_dir_bit_inverse(dir);
        },
        BlockState::PistonBase(activated, dir) => {
            assert(bytes[1] == bool_byte(activated) && bytes[2] == dir_bit(dir));
            lemma_dir_bit_inverse(dir);
        },
        BlockState::PistonHead(sticky, dir) => {
            assert(bytes[1] == bool_byte(sticky) && bytes[2] == dir_bit(dir));
            lemma_dir_bit_inverse(dir);
        },
        BlockState::Opaque(power_state, color) => {
            assert(bytes[1] == power_ordinal(power_state) && bytes[2] == color);
            lemma_power_ordinal_inverse(power_state);
        },
        BlockState::BlockEntity(power) => {
            assert(bytes[0] == 7u8 && bytes[1] == power);
        },
        BlockState::Transparent => {
            assert(bytes[0] == 8u8);
        },
        BlockState::NonBlock => {
            assert(bytes[0] == 9u8);
        },
    }
}

/// Invalid tag rejection: a record whose tag byte is 10 or more is rejected
/// as an unknown variant, whatever follows it.
pub proof fn lemma_invalid_tag_rejected(bytes: Seq<u8>)
    requires
        bytes.len() >= 1,
        bytes[0] >= 10,
    ensures
        spec_decode(bytes) == Err::<(BlockState, nat), ParseError>(ParseError::InvalidVariantTag),
{
}

/// Truncation safety: a byte stream that ends inside a record (a strict
/// prefix of a state's encoding) is rejected as truncated, never read out
/// of bounds.
pub proof fn lemma_truncated_record_rejected(s: BlockState, n: int)
    requires
        0 <= n < encoded_len(s),
    ensures
        spec_decode(spec_encode(s).take(n)) == Err::<(BlockState, nat), ParseError>(
            ParseError::UnexpectedEndOfData,
        ),
{
    let bytes = spec_encode(s).take(n);
    if n > 0 {
        assert(bytes[0] == spec_encode(s)[0]);
        match s {
            BlockState::Redstone(_, _) => {},
            BlockState::Torch(_, _) => {},
            BlockState::Repeater(_, _, _, _) => {},
            BlockState::Comparator(_, _, _) => {},
            BlockState::PistonBase(_, _) => {},
            BlockState::PistonHead(_, _) => {},
            BlockState::Opaque(_, _) => {},
            BlockState::BlockEntity(_) => {},
            BlockState::Transparent => {},
            BlockState::NonBlock => {},
        }
    }
}

/// The tag of a block-state record, matching `tag_of` of the state it
/// decodes to.
#[derive(Clone, Copy, Debug, PartialEq, Eq, Structural)]
enum BlockStateID {
    Redstone,
    Torch,
    Repeater,
    Comparator,
    PistonBase,
    PistonHead,
    Opaque,
    BlockEntity,
    Transparent,
    NonBlock,
}

/// The variant a tag byte names, if any.
spec fn spec_id_of_tag(val: u8) -> Option<BlockStateID> {
    if val == 0 {
        Some(BlockStateID::Redstone)
    } else if val == 1 {
        Some(BlockStateID::Torch)
    } else if val == 2 {
        Some(BlockStateID::Repeater)
    } else if val == 3 {
        Some(BlockStateID::Comparator)
    } else if val == 4 {
        Some(BlockStateID::PistonBase)
    } else if val == 5 {
        Some(BlockStateID::PistonHead)
    } else if val == 6 {
        Some(BlockStateID::Opaque)
    } else if val == 7 {
        Some(BlockStateID::BlockEntity)
    } else if val == 8 {
        Some(BlockStateID::Transparent)
    } else if val == 9 {
        Some(BlockStateID::NonBlock)
    } else {
        None
    }
}

impl BlockStateID {
    /// Maps a tag byte to its variant; tags 10 and above are unknown.
    fn try_from(val: u8) -> (r: Result<BlockStateID, ParseError>)
        ensures
            r == match spec_id_of_tag(val) {
                Some(id) => Ok::<BlockStateID, ParseError>(id),
                None => Err::<BlockStateID, ParseError>(ParseError::InvalidVariantTag),
            },
    {
        match val {
            0u8 => Ok(BlockStateID::Redstone),
            1u8 => Ok(BlockStateID::Torch),
            2u8 => Ok(BlockStateID::Repeater),
            3u8 => Ok(BlockStateID::Comparator),
            4u8 => Ok(BlockStateID::PistonBase),
            5u8 => Ok(BlockStateID::PistonHead),
            6u8 => Ok(BlockStateID::Opaque),
            7u8 => Ok(BlockStateID::BlockEntity),
            8u8 => Ok(BlockStateID::Transparent),
            9u8 => Ok(BlockStateID::NonBlock),
            _ => Err(ParseError::InvalidVariantTag),
        }
    }
}

/// A single cell wrapping one block state; no identity beyond its value.
#[derive(Clone, Debug, PartialEq, Eq, Structural)]
pub struct Block {
    pub state: BlockState,
}

impl Block {
    pub fn new(state: BlockState) -> (r: Block)
        ensures
            r.state == state,
    {
        Block { state }
    }

    /// The state a fresh cell starts in.
    pub fn default() -> (r: Block)
        ensures
            r.state == BlockState::NonBlock,
    {
        Block { state: BlockState::NonBlock }
    }

    /// Dispatch point of the (not yet designed) simulation step; no variant
    /// carries behaviour yet, so every state is left as it is.
    pub fn update(&mut self)
        ensures
            *final(self) == *old(self),
    {
        match &self.state {
            BlockState::Redstone(..) => {},
            BlockState::Torch(..) => {},
            BlockState::Repeater(..) => {},
            BlockState::Comparator(..) => {},
            BlockState::PistonBase(..) => {},
            BlockState::PistonHead(..) => {},
            BlockState::Opaque(..) => {},
            BlockState::BlockEntity(..) => {},
            _ => {},
        }
    }

    /// Attempts to mutate a block into a certain block state given a slice
    /// of byte-encoded data, returning how many bytes the record consumed.
    ///
    /// The block is replaced wholesale on success and left untouched on any
    /// failure; the exact decoding relation is `spec_decode`.
    pub fn try_set(&mut self, slice: &[u8]) -> (r: Result<usize, ParseError>)
        ensures
            spec_decode(slice@) matches Ok(p) ==> {
                &&& r == Ok::<usize, ParseError>(p.1 as usize)
                &&& final(self).state == p.0
                &&& final(self).state.wf()
            },
            spec_decode(slice@) matches Err(e) ==> r == Err::<usize, ParseError>(e) && *final(self)
                == *old(self),
    {
        if slice.len() < 1 {
            return Err(ParseError::UnexpectedEndOfData);
        }
        let id = match BlockStateID::try_from(slice[0]) {
            Ok(val) => val,
            Err(e) => {
                return Err(e);
            },
        };

        let ret_offset: usize;
        let state: BlockState = match id {
            BlockStateID::Redstone => {
                if slice.len() < 3 {
                    return Err(ParseError::UnexpectedEndOfData);
                }
                let power = slice[1];
                let dirs = match DirSet::try_from(slice[2]) {
                    Ok(val) => val,
                    Err(e) => {
                        return Err(e);
                    },
                };

                ret_offset = 3;

                BlockState::Redstone(power, dirs)
            },
            BlockStateID::Torch => {
                if slice.len() < 3 {
                    return Err(ParseError::UnexpectedEndOfData);
                }
                let activated = match crate::utils::to_bool(slice[1] as u64) {
                    Ok(val) => val,
                    Err(e) => {
                        return Err(e);
                    },
                };
                let dir = match Dir::try_from(slice[2]) {
                    Ok(val) => val,
                    Err(e) => {
                        return Err(e);
                    },
                };

                ret_offset = 3;

                BlockState::Torch(activated, dir)
            },
            BlockStateID::Repeater => {
                if slice.len() < 5 {
                    return Err(ParseError::UnexpectedEndOfData);
                }
                let delay = slice[1];
                let activated = match crate::utils::to_bool(slice[2] as u64) {
                    Ok(val) => val,
                    Err(e) => {
                        return Err(e);
                    },
                };
                let locked = match crate::utils::to_bool(slice[3] as u64) {
                    Ok(val) => val,
                    Err(e) => {
                        return Err(e);
                    },
                };
                let dir = match Dir::try_from(slice[4]) {
                    Ok(val) => val,
                    Err(e) => {
                        return Err(e);
                    },
                };

                ret_offset = 5;

                BlockState::Repeater(delay, activated, locked, dir)
            },
            BlockStateID::Comparator => {
                if slice.len() < 4 {
                    return Err(ParseError::UnexpectedEndOfData);
                }
                let power = slice[1];
                let mode = match crate::utils::to_bool(slice[2] as u64) {
                    Ok(val) => val,
                    Err(e) => {
                        return Err(e);
                    },
                };
                let dir = match Dir::try_from(slice[3]) {
                    Ok(val) => val,
                    Err(e) => {
                        return Err(e);
                    },
                };

                ret_offset = 4;

                BlockState::Comparator(power, mode, dir)
            },
            BlockStateID::PistonBase => {
                if slice.len() < 3 {
                    return Err(ParseError::UnexpectedEndOfData);
                }
                let on = match crate::utils::to_bool(slice[1] as u64) {
                    Ok(val) => val,
                    Err(e) => {
                        return Err(e);
                    },
                };
                let dir = match Dir::try_from(slice[2]) {
                    Ok(val) => val,
                    Err(e) => {
                        return Err(e);
                    },
                };

                ret_offset = 3;

                BlockState::PistonBase(on, dir)
            },
            BlockStateID::PistonHead => {
                if slice.len() < 3 {
                    return Err(ParseError::UnexpectedEndOfData);
                }
                let sticky = match crate::utils::to_bool(slice[1] as u64) {
                    Ok(val) => val,
                    Err(e) => {
                        return Err(e);
                    },
                };
                let dir = match Dir::try_from(slice[2]) {
                    Ok(val) => val,
                    Err(e) => {
                        return Err(e);
                    },
                };

                ret_offset = 3;

                BlockState::PistonHead(sticky, dir)
            },
            BlockStateID::Opaque => {
                if slice.len() < 3 {
                    return Err(ParseError::UnexpectedEndOfData);
                }
                let power_state = match PowerState::try_from(slice[1]) {
                    Ok(val) => val,
                    Err(e) => {
                        return Err(e);
                    },
                };
                let color = slice[2];

                ret_offset = 3;

                BlockState::Opaque(power_state, color)
            },
            BlockStateID::BlockEntity => {
                if slice.len() < 2 {
                    return Err(ParseError::UnexpectedEndOfData);
                }
                let power = slice[1];

                ret_offset = 2;

                BlockState::BlockEntity(power)
            },
            BlockStateID::Transparent => {
                ret_offset = 1;

                BlockState::Transparent
            },
            BlockStateID::NonBlock => {
                ret_offset = 1;

                BlockState::NonBlock
            },
        };

        self.state = state;

        Ok(ret_offset)
    }

    /// Converts its block state into its byte-encoded record for
    /// serialization in the intermediate `.mcrs` filetype.
    pub fn get_byte_repr(&self) -> (r: Vec<u8>)
        ensures
            r@ == spec_encode(self.state),
    {
        let mut ret: Vec<u8> = Vec::new();
        match &self.state {
            BlockState::Redstone(power, dirs) => {
                ret.push(0u8);
                ret.push(*power);
                ret.push(dirs.bits());
            },
            BlockState::Torch(activated, dir) => {
                ret.push(1u8);
                ret.push(if *activated {
                    1u8
                } else {
                    0u8
                });
                ret.push(dir.bit());
            },
            BlockState::Repeater(delay, activated, locked, dir) => {
                ret.push(2u8);
                ret.push(*delay);
                ret.push(if *activated {
                    1u8
                } else {
                    0u8
                });
                ret.push(if *locked {
                    1u8
                } else {
                    0u8
                });
                ret.push(dir.bit());
            },
            BlockState::Comparator(power, mode, dir) => {
                ret.push(3u8);
                ret.push(*power);
                ret.push(if *mode {
                    1u8
                } else {
                    0u8
                });
                ret.push(dir.bit());
            },
            BlockState::PistonBase(on, dir) => {
                ret.push(4u8);
                ret.push(if *on {
                    1u8
                } else {
                    0u8
                });
                ret.push(dir.bit());
            },
            BlockState::PistonHead(sticky, dir) => {
                ret.push(5u8);
                ret.push(if *sticky {
                    1u8
                } else {
                    0u8
                });
                ret.push(dir.bit());
            },
            BlockState::Opaque(power_state, color) => {
                ret.push(6u8);
                ret.push(power_state.ordinal());
                ret.push(*color);
            },
            BlockState::BlockEntity(power) => {
                ret.push(7u8);
                ret.push(*power);
            },
            BlockState::Transparent => {
                ret.push(8u8);
            },
            BlockState::NonBlock => {
                ret.push(9u8);
            },
        }
        proof {
            assert(ret@ =~= spec_encode(self.state));
        }
        ret
    }
}

} // verus!
