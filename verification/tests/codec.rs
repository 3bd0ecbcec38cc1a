use mcrs::block::{Block, BlockState, Dir, DirSet, PowerState};
use mcrs::utils::{to_bool, ParseError};

const ALL_DIRS: [Dir; 6] = [
    Dir::Up,
    Dir::Down,
    Dir::Left,
    Dir::Right,
    Dir::Forward,
    Dir::Backward,
];

const ALL_POWER_STATES: [PowerState; 3] = [PowerState::Off, PowerState::Weak, PowerState::Strong];

/// Encodes `state`, decodes the bytes into a fresh block, and checks that
/// the state comes back identical with the variant's fixed length consumed.
fn roundtrip(state: BlockState, expected_len: usize) {
    let bytes = Block::new(state).get_byte_repr();
    assert_eq!(bytes.len(), expected_len);

    let mut block = Block::default();
    let consumed = block.try_set(&bytes).expect("decoding an encoded state must succeed");
    assert_eq!(consumed, expected_len);
    assert_eq!(block.state, state);
}

#[test]
fn roundtrip_redstone_all_dir_sets() {
    for bits in 0..64u8 {
        let dirs = DirSet::try_from(bits).unwrap();
        roundtrip(BlockState::Redstone(0, dirs), 3);
        roundtrip(BlockState::Redstone(255, dirs), 3);
    }
}

#[test]
fn roundtrip_torch_all_dirs() {
    for dir in ALL_DIRS {
        roundtrip(BlockState::Torch(false, dir), 3);
        roundtrip(BlockState::Torch(true, dir), 3);
    }
}

#[test]
fn roundtrip_repeater_all_dirs() {
    for dir in ALL_DIRS {
        roundtrip(BlockState::Repeater(0, false, false, dir), 5);
        roundtrip(BlockState::Repeater(255, true, true, dir), 5);
    }
}

#[test]
fn roundtrip_comparator_all_dirs() {
    for dir in ALL_DIRS {
        roundtrip(BlockState::Comparator(0, false, dir), 4);
        roundtrip(BlockState::Comparator(255, true, dir), 4);
    }
}

#[test]
fn roundtrip_piston_base_all_dirs() {
    for dir in ALL_DIRS {
        roundtrip(BlockState::PistonBase(false, dir), 3);
        roundtrip(BlockState::PistonBase(true, dir), 3);
    }
}

#[test]
fn roundtrip_piston_head_all_dirs() {
    for dir in ALL_DIRS {
        roundtrip(BlockState::PistonHead(false, dir), 3);
        roundtrip(BlockState::PistonHead(true, dir), 3);
    }
}

#[test]
fn roundtrip_opaque_all_power_states() {
    for power_state in ALL_POWER_STATES {
        roundtrip(BlockState::Opaque(power_state, 0), 3);
        roundtrip(BlockState::Opaque(power_state, 255), 3);
    }
}

#[test]
fn roundtrip_block_entity() {
    roundtrip(BlockState::BlockEntity(0), 2);
    roundtrip(BlockState::BlockEntity(42), 2);
    roundtrip(BlockState::BlockEntity(255), 2);
}

#[test]
fn roundtrip_tagless_variants() {
    roundtrip(BlockState::Transparent, 1);
    roundtrip(BlockState::NonBlock, 1);
}

#[test]
fn torch_encoding_is_exactly_three_bytes() {
    let bytes = Block::new(BlockState::Torch(true, Dir::Up)).get_byte_repr();
    assert_eq!(bytes, vec![1, 1, 0b00000001]);
}

#[test]
fn invalid_tag_rejected() {
    for tag in 10..=255u8 {
        let mut block = Block::default();
        assert_eq!(block.try_set(&[tag, 0, 0, 0, 0]), Err(ParseError::InvalidVariantTag));
    }
}

#[test]
fn invalid_direction_rejected() {
    let mut block = Block::default();
    // zero bits and two bits set are both invalid single directions
    assert_eq!(block.try_set(&[1, 1, 0b00000000]), Err(ParseError::InvalidDirection));
    assert_eq!(block.try_set(&[1, 1, 0b00000011]), Err(ParseError::InvalidDirection));
    assert_eq!(block.try_set(&[2, 7, 1, 0, 0b01000000]), Err(ParseError::InvalidDirection));
}

#[test]
fn invalid_direction_set_rejected() {
    let mut block = Block::default();
    assert_eq!(block.try_set(&[0, 5, 0b01000000]), Err(ParseError::InvalidDirectionSet));
    assert_eq!(block.try_set(&[0, 5, 255]), Err(ParseError::InvalidDirectionSet));
    // every subset of the six flags is fine, zero included
    assert!(block.try_set(&[0, 5, 0b00111111]).is_ok());
    assert!(block.try_set(&[0, 5, 0]).is_ok());
}

#[test]
fn invalid_boolean_rejected() {
    let mut block = Block::default();
    assert_eq!(block.try_set(&[1, 2, 1]), Err(ParseError::InvalidBoolean));
    assert_eq!(block.try_set(&[2, 0, 1, 2, 1]), Err(ParseError::InvalidBoolean));
    assert_eq!(block.try_set(&[4, 255, 1]), Err(ParseError::InvalidBoolean));
}

#[test]
fn invalid_power_state_rejected() {
    let mut block = Block::default();
    assert_eq!(block.try_set(&[6, 3, 0]), Err(ParseError::InvalidPowerState));
    assert_eq!(block.try_set(&[6, 255, 0]), Err(ParseError::InvalidPowerState));
}

#[test]
fn truncated_record_rejected() {
    let mut block = Block::default();
    assert_eq!(block.try_set(&[]), Err(ParseError::UnexpectedEndOfData));
    // a repeater record needs 5 bytes; 3 are not enough
    assert_eq!(block.try_set(&[2, 4, 1]), Err(ParseError::UnexpectedEndOfData));
    assert_eq!(block.try_set(&[7]), Err(ParseError::UnexpectedEndOfData));
    assert_eq!(block.try_set(&[0, 9]), Err(ParseError::UnexpectedEndOfData));
}

#[test]
fn failed_decode_leaves_block_unchanged() {
    let original = BlockState::Opaque(PowerState::Strong, 7);
    let mut block = Block::new(original);
    assert!(block.try_set(&[1, 1, 0]).is_err());
    assert_eq!(block.state, original);
}

#[test]
fn decode_ignores_bytes_after_the_record() {
    let mut block = Block::default();
    let consumed = block.try_set(&[8, 99, 98, 97]).unwrap();
    assert_eq!(consumed, 1);
    assert_eq!(block.state, BlockState::Transparent);
}

#[test]
fn dir_try_from_accepts_exactly_the_six_bits() {
    for dir in ALL_DIRS {
        let bit = Block::new(BlockState::Torch(true, dir)).get_byte_repr()[2];
        assert_eq!(Dir::try_from(bit), Ok(dir));
    }
    for val in 0..=255u8 {
        let is_single_bit = val.count_ones() == 1 && val < 64;
        if !is_single_bit {
            assert_eq!(Dir::try_from(val), Err(ParseError::InvalidDirection));
        }
    }
}

#[test]
fn dir_set_contains_matches_bits() {
    let dirs = DirSet::try_from(0b00100101).unwrap();
    assert!(dirs.contains(Dir::Up));
    assert!(!dirs.contains(Dir::Down));
    assert!(dirs.contains(Dir::Left));
    assert!(!dirs.contains(Dir::Right));
    assert!(!dirs.contains(Dir::Forward));
    assert!(dirs.contains(Dir::Backward));
    assert_eq!(dirs.bits(), 0b00100101);
}

#[test]
fn power_state_try_from_accepts_exactly_three_ordinals() {
    assert_eq!(PowerState::try_from(0), Ok(PowerState::Off));
    assert_eq!(PowerState::try_from(1), Ok(PowerState::Weak));
    assert_eq!(PowerState::try_from(2), Ok(PowerState::Strong));
    for val in 3..=255u8 {
        assert_eq!(PowerState::try_from(val), Err(ParseError::InvalidPowerState));
    }
}

#[test]
fn to_bool_accepts_exactly_zero_and_one() {
    assert_eq!(to_bool(0), Ok(false));
    assert_eq!(to_bool(1), Ok(true));
    assert_eq!(to_bool(2), Err(ParseError::InvalidBoolean));
    assert_eq!(to_bool(u64::MAX), Err(ParseError::InvalidBoolean));
}

#[test]
fn boxed_error_keeps_its_kind() {
    let boxed = ParseError::InvalidMagic.boxed();
    assert_eq!(*boxed, ParseError::InvalidMagic);
}

#[test]
fn update_leaves_state_alone() {
    let mut block = Block::new(BlockState::Redstone(9, DirSet::try_from(0b00000011).unwrap()));
    let before = block.state;
    block.update();
    assert_eq!(block.state, before);
}
