use mcrs::block::{Block, BlockState, Dir, DirSet, PowerState};
use mcrs::grid::Grid;
use mcrs::utils::ParseError;

/// A mix of every variant, with edge payload values.
fn sample_states() -> Vec<BlockState> {
    vec![
        BlockState::Redstone(0, DirSet::try_from(0).unwrap()),
        BlockState::Redstone(255, DirSet::try_from(0b00111111).unwrap()),
        BlockState::Torch(true, Dir::Up),
        BlockState::Repeater(3, true, false, Dir::Backward),
        BlockState::Comparator(14, false, Dir::Left),
        BlockState::PistonBase(false, Dir::Right),
        BlockState::PistonHead(true, Dir::Forward),
        BlockState::Opaque(PowerState::Strong, 255),
        BlockState::BlockEntity(200),
        BlockState::Transparent,
        BlockState::NonBlock,
        BlockState::Torch(false, Dir::Down),
    ]
}

/// Fills a freshly resized grid with the sample states, repeating them in
/// traversal order.
fn build_grid(x: u32, y: u32, z: u32) -> Grid {
    let states = sample_states();
    let mut grid = Grid::new();
    grid.resize(x, y, z);
    let mut next = 0usize;
    for iz in 0..z as usize {
        for iy in 0..y as usize {
            for ix in 0..x as usize {
                *grid.get_mut(ix as u32, iy as u32, iz as u32) =
                    Block::new(states[next % states.len()]);
                next += 1;
            }
        }
    }
    grid
}

#[test]
fn grid_round_trip_mixed_variants() {
    let grid = build_grid(3, 4, 2);
    let bytes = grid.write();

    let mut reread = Grid::new();
    reread.read(&bytes).expect("reading back a written grid must succeed");

    assert_eq!(reread.x_len, 3);
    assert_eq!(reread.y_len, 4);
    assert_eq!(reread.z_len, 2);
    for iz in 0..2usize {
        for iy in 0..4usize {
            for ix in 0..3usize {
                assert_eq!(
                    reread.blocks[iz][iy][ix].state,
                    grid.blocks[iz][iy][ix].state,
                    "cell ({ix}, {iy}, {iz}) must survive the round trip"
                );
            }
        }
    }
}

#[test]
fn transparent_1x1x1_serializes_to_seventeen_bytes() {
    let mut grid = Grid::new();
    grid.resize(1, 1, 1);
    *grid.get_mut(0, 0, 0) = Block::new(BlockState::Transparent);

    let bytes = grid.write();
    let expected = vec![
        b'm', b'c', b'r', b's', // magic
        1, 0, 0, 0, // x_len
        1, 0, 0, 0, // y_len
        1, 0, 0, 0, // z_len
        8, // the Transparent tag
    ];
    assert_eq!(bytes.len(), 17);
    assert_eq!(bytes, expected);

    let mut reread = Grid::new();
    reread.read(&bytes).unwrap();
    assert_eq!((reread.x_len, reread.y_len, reread.z_len), (1, 1, 1));
    assert_eq!(reread.blocks[0][0][0].state, BlockState::Transparent);
}

#[test]
fn bad_magic_rejected_without_touching_the_grid() {
    let mut grid = build_grid(2, 2, 2);
    let expected = build_grid(2, 2, 2);

    let mut bytes = grid.write();
    bytes[0] = b'x';
    assert_eq!(grid.read(&bytes), Err(ParseError::InvalidMagic));

    assert_eq!((grid.x_len, grid.y_len, grid.z_len), (2, 2, 2));
    for iz in 0..2usize {
        for iy in 0..2usize {
            for ix in 0..2usize {
                assert_eq!(grid.blocks[iz][iy][ix].state, expected.blocks[iz][iy][ix].state);
            }
        }
    }
}

#[test]
fn short_stream_rejected_as_bad_magic() {
    let mut grid = Grid::new();
    assert_eq!(grid.read(&[b'm', b'c']), Err(ParseError::InvalidMagic));
    assert_eq!(grid.read(&[]), Err(ParseError::InvalidMagic));
}

#[test]
fn truncated_header_rejected() {
    let mut grid = Grid::new();
    let bytes = [b'm', b'c', b'r', b's', 1, 0, 0, 0, 1, 0];
    assert_eq!(grid.read(&bytes), Err(ParseError::UnexpectedEndOfData));
}

#[test]
fn stream_ending_mid_record_rejected() {
    // a 1x1x1 grid whose only record is a repeater tag with 2 of its 4
    // payload bytes
    let bytes = [b'm', b'c', b'r', b's', 1, 0, 0, 0, 1, 0, 0, 0, 1, 0, 0, 0, 2, 4, 1];
    let mut grid = Grid::new();
    assert_eq!(grid.read(&bytes), Err(ParseError::UnexpectedEndOfData));
    assert_eq!((grid.x_len, grid.y_len, grid.z_len), (0, 0, 0));
}

#[test]
fn stream_with_too_few_records_rejected() {
    // header promises 2 cells, data holds only one record
    let bytes = [b'm', b'c', b'r', b's', 2, 0, 0, 0, 1, 0, 0, 0, 1, 0, 0, 0, 8];
    let mut grid = Grid::new();
    assert_eq!(grid.read(&bytes), Err(ParseError::UnexpectedEndOfData));
}

#[test]
fn trailing_bytes_after_the_last_cell_are_ignored() {
    let grid = build_grid(1, 2, 1);
    let mut bytes = grid.write();
    bytes.push(123);
    bytes.push(45);

    let mut reread = Grid::new();
    assert_eq!(reread.read(&bytes), Ok(()));
    assert_eq!((reread.x_len, reread.y_len, reread.z_len), (1, 2, 1));
}

#[test]
fn bad_record_inside_the_stream_reports_its_own_error() {
    let mut grid = Grid::new();
    // 1x1x1 grid whose record has an unknown tag
    let bytes = [b'm', b'c', b'r', b's', 1, 0, 0, 0, 1, 0, 0, 0, 1, 0, 0, 0, 13];
    assert_eq!(grid.read(&bytes), Err(ParseError::InvalidVariantTag));
    // same stream with a bad direction byte inside a torch record
    let bytes = [b'm', b'c', b'r', b's', 1, 0, 0, 0, 1, 0, 0, 0, 1, 0, 0, 0, 1, 1, 3];
    assert_eq!(grid.read(&bytes), Err(ParseError::InvalidDirection));
}

#[test]
fn records_with_different_lengths_keep_the_cursor_in_step() {
    let mut grid = Grid::new();
    grid.resize(2, 1, 1);
    *grid.get_mut(0, 0, 0) = Block::new(BlockState::Repeater(7, true, false, Dir::Up));
    *grid.get_mut(1, 0, 0) = Block::new(BlockState::Torch(false, Dir::Down));

    let bytes = grid.write();
    assert_eq!(
        bytes[16..],
        [2, 7, 1, 0, 0b00000001, 1, 0, 0b00000010],
        "a 5-byte repeater record then a 3-byte torch record"
    );

    let mut reread = Grid::new();
    reread.read(&bytes).unwrap();
    assert_eq!(reread.blocks[0][0][0].state, BlockState::Repeater(7, true, false, Dir::Up));
    assert_eq!(reread.blocks[0][0][1].state, BlockState::Torch(false, Dir::Down));
}

#[test]
fn new_grid_is_empty_and_writes_a_bare_header() {
    let grid = Grid::new();
    assert_eq!((grid.x_len, grid.y_len, grid.z_len), (0, 0, 0));

    let bytes = grid.write();
    assert_eq!(bytes, vec![b'm', b'c', b'r', b's', 0, 0, 0, 0, 0, 0, 0, 0, 0, 0, 0, 0]);

    let mut reread = Grid::new();
    assert_eq!(reread.read(&bytes), Ok(()));
    assert_eq!((reread.x_len, reread.y_len, reread.z_len), (0, 0, 0));
}

#[test]
fn resize_is_destructive_and_resets_to_nonblock() {
    let mut grid = build_grid(2, 2, 2);
    grid.resize(3, 1, 2);
    assert_eq!((grid.x_len, grid.y_len, grid.z_len), (3, 1, 2));
    for iz in 0..2usize {
        for ix in 0..3usize {
            assert_eq!(grid.blocks[iz][0][ix].state, BlockState::NonBlock);
        }
    }
}

#[test]
fn get_reads_the_addressed_cell() {
    let mut grid = Grid::new();
    grid.resize(2, 2, 2);
    *grid.get_mut(1, 0, 1) = Block::new(BlockState::BlockEntity(17));
    assert_eq!(grid.get(1, 0, 1).state, BlockState::BlockEntity(17));
    assert_eq!(grid.get(0, 0, 0).state, BlockState::NonBlock);
}

#[test]
fn get_mut_writes_only_the_addressed_cell() {
    let mut grid = Grid::new();
    grid.resize(2, 1, 1);
    *grid.get_mut(1, 0, 0) = Block::new(BlockState::Opaque(PowerState::Weak, 3));
    assert_eq!(grid.get(1, 0, 0).state, BlockState::Opaque(PowerState::Weak, 3));
    assert_eq!(grid.get(0, 0, 0).state, BlockState::NonBlock);
}

#[test]
fn dimension_bytes_are_little_endian() {
    let mut grid = Grid::new();
    grid.resize(258, 1, 0);
    let bytes = grid.write();
    assert_eq!(bytes[4..16], [2, 1, 0, 0, 1, 0, 0, 0, 0, 0, 0, 0]);
}
