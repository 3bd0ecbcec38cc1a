//! The dense 3-D grid of blocks and the `.mcrs` file framing: a 4-byte
//! magic, three little-endian dimensions, then every cell's record in the
//! fixed traversal order (z outer, y middle, x inner).

use vstd::prelude::*;

verus! {

use crate::block::{Block, BlockState, spec_encode, spec_decode, encoded_len};
use crate::utils::ParseError;
use vstd::slice::slice_subrange;

/// The 4-byte signature every `.mcrs` stream begins with: the ASCII codes
/// of `m`, `c`, `r`, `s`.
pub open spec fn magic_seq() -> Seq<u8> {
    seq![109u8, 99u8, 114u8, 115u8]
}

/// A dimension, written as four little-endian bytes.
pub open spec fn u32_le_bytes(v: u32) -> Seq<u8> {
    seq![
        (v % 256) as u8,
        ((v / 256) % 256) as u8,
        ((v / 65536) % 256) as u8,
        ((v / 16777216) % 256) as u8,
    ]
}

/// A dimension, read back from its four little-endian bytes.
pub open spec fn u32_of_le_bytes(b0: u8, b1: u8, b2: u8, b3: u8) -> u32 {
    ((b0 as int) + (b1 as int) * 256 + (b2 as int) * 65536 + (b3 as int) * 16777216) as u32
}

/// Reading four dimension bytes gives back the dimension they were
/// written from.
pub proof fn lemma_u32_le_round_trip(v: u32)
    ensures
        u32_of_le_bytes(
            u32_le_bytes(v)[0],
            u32_le_bytes(v)[1],
            u32_le_bytes(v)[2],
            u32_le_bytes(v)[3],
        ) == v,
{
    assert(v % 256 + (v / 256 % 256) * 256 + (v / 65536 % 256) * 65536 + (v / 16777216 % 256)
        * 16777216 == v) by (bit_vector);
}

/// Appends a dimension to the byte stream, little-endian.
fn push_u32_le(out: &mut Vec<u8>, v: u32)
    ensures
        final(out)@ == old(out)@ + u32_le_bytes(v),
{
    out.push((v % 256) as u8);
    out.push(((v / 256) % 256) as u8);
    out.push(((v / 65536) % 256) as u8);
    out.push(((v / 16777216) % 256) as u8);
    proof {
        assert(out@ =~= old(out)@ + u32_le_bytes(v));
    }
}

/// Reads the dimension stored at `pos`, little-endian.
fn read_u32_le(bytes: &[u8], pos: usize) -> (r: u32)
    requires
        pos + 4 <= bytes@.len(),
    ensures
        r == u32_of_le_bytes(
            bytes@[pos as int],
            bytes@[pos as int + 1],
            bytes@[pos as int + 2],
            bytes@[pos as int + 3],
        ),
{
    let b0 = bytes[pos];
    let b1 = bytes[pos + 1];
    let b2 = bytes[pos + 2];
    let b3 = bytes[pos + 3];
    (b0 as u32) + (b1 as u32) * 256 + (b2 as u32) * 65536 + (b3 as u32) * 16777216
}

/// The states of one row of cells, in x order.
pub open spec fn row_states(row: Seq<Block>) -> Seq<BlockState> {
    row.map_values(|b: Block| b.state)
}

/// The states of one layer of cells: its rows in y order, each in x order.
pub open spec fn layer_states(layer: Seq<Vec<Block>>) -> Seq<BlockState>
    decreases layer.len(),
{
    if layer.len() == 0 {
        Seq::empty()
    } else {
        layer_states(layer.drop_last()) + row_states(layer.last()@)
    }
}

/// The states of the whole space: its layers in z order.
pub open spec fn space_states(space: Seq<Vec<Vec<Block>>>) -> Seq<BlockState>
    decreases space.len(),
{
    if space.len() == 0 {
        Seq::empty()
    } else {
        space_states(space.drop_last()) + layer_states(space.last()@)
    }
}

/// A row has exactly `x` cells, every state well-formed.
pub open spec fn wf_row(row: Seq<Block>, x: u32) -> bool {
    &&& row.len() == x
    &&& forall|k: int| 0 <= k < row.len() ==> (#[trigger] row[k]).state.wf()
}

/// Every row of the layer is well-formed with `x` cells.
pub open spec fn rows_wf(layer: Seq<Vec<Block>>, x: u32) -> bool {
    forall|j: int| 0 <= j < layer.len() ==> wf_row((#[trigger] layer[j])@, x)
}

/// A layer has exactly `y` rows, each well-formed with `x` cells.
pub open spec fn wf_layer(layer: Seq<Vec<Block>>, x: u32, y: u32) -> bool {
    &&& layer.len() == y
    &&& rows_wf(layer, x)
}

/// Every layer of the space is well-formed with `y` rows of `x` cells.
pub open spec fn layers_wf(space: Seq<Vec<Vec<Block>>>, x: u32, y: u32) -> bool {
    forall|i: int| 0 <= i < space.len() ==> wf_layer((#[trigger] space[i])@, x, y)
}

/// A space has exactly `z` layers, each well-formed.
pub open spec fn wf_space(space: Seq<Vec<Vec<Block>>>, x: u32, y: u32, z: u32) -> bool {
    &&& space.len() == z
    &&& layers_wf(space, x, y)
}

/// The records of a run of states, concatenated with no delimiters.
pub open spec fn concat_encodings(ss: Seq<BlockState>) -> Seq<u8>
    decreases ss.len(),
{
    if ss.len() == 0 {
        Seq::empty()
    } else {
        concat_encodings(ss.drop_last()) + spec_encode(ss.last())
    }
}

/// Appending one state to a run appends exactly its record to the run's
/// bytes.
pub proof fn lemma_concat_push(ss: Seq<BlockState>, s: BlockState)
    ensures
        concat_encodings(ss.push(s)) == concat_encodings(ss) + spec_encode(s),
{
    assert(ss.push(s).drop_last() =~= ss);
    assert(ss.push(s).last() == s);
}

/// Appending one row to a layer appends exactly the row's states.
pub proof fn lemma_layer_states_push(layer: Seq<Vec<Block>>, row: Vec<Block>)
    ensures
        layer_states(layer.push(row)) == layer_states(layer) + row_states(row@),
{
    assert(layer.push(row).drop_last() =~= layer);
    assert(layer.push(row).last() == row);
}

/// Appending one layer to the space appends exactly the layer's states.
pub proof fn lemma_space_states_push(space: Seq<Vec<Vec<Block>>>, layer: Vec<Vec<Block>>)
    ensures
        space_states(space.push(layer)) == space_states(space) + layer_states(layer@),
{
    assert(space.push(layer).drop_last() =~= space);
    assert(space.push(layer).last() == layer);
}

/// The dense 3-D container owning all blocks, indexed as
/// `blocks[z][y][x]`.
#[derive(Debug)]
pub struct Grid {
    pub blocks: Vec<Vec<Vec<Block>>>,
    pub x_len: u32,
    pub y_len: u32,
    pub z_len: u32,
}

/// All of a grid's cell states in the serialization traversal order:
/// z outer, y middle, x inner.
pub open spec fn grid_states(g: Grid) -> Seq<BlockState> {
    space_states(g.blocks@)
}

/// The file header: magic signature, then the three dimensions.
pub open spec fn spec_header(g: Grid) -> Seq<u8> {
    magic_seq() + u32_le_bytes(g.x_len) + u32_le_bytes(g.y_len) + u32_le_bytes(g.z_len)
}

/// The whole byte image of a grid: header, then every cell's record in
/// traversal order.
pub open spec fn spec_grid_bytes(g: Grid) -> Seq<u8> {
    spec_header(g) + concat_encodings(grid_states(g))
}

/// The decoding relation of a run of `n` records: the states they stand
/// for and the total bytes consumed, or the first record's exact failure.
pub open spec fn spec_decode_records(bytes: Seq<u8>, n: nat) -> Result<
    (Seq<BlockState>, nat),
    ParseError,
>
    decreases n,
{
    if n == 0 {
        Ok((Seq::empty(), 0 as nat))
    } else {
        match spec_decode(bytes) {
            Err(e) => Err(e),
            Ok((s, k)) => match spec_decode_records(bytes.skip(k as int), (n - 1) as nat) {
                Err(e) => Err(e),
                Ok((rest, m)) => Ok((seq![s] + rest, (k + m) as nat)),
            },
        }
    }
}

/// The decoding relation of a whole `.mcrs` stream: the magic is checked
/// first, then the three dimensions are read, then one record per cell is
/// decoded; trailing bytes after the last cell are ignored.
pub open spec fn spec_read(bytes: Seq<u8>) -> Result<(u32, u32, u32, Seq<BlockState>), ParseError> {
    if bytes.len() < 4 || bytes.subrange(0, 4) != magic_seq() {
        Err(ParseError::InvalidMagic)
    } else if bytes.len() < 16 {
        Err(ParseError::UnexpectedEndOfData)
    } else {
        let x = u32_of_le_bytes(bytes[4], bytes[5], bytes[6], bytes[7]);
        let y = u32_of_le_bytes(bytes[8], bytes[9], bytes[10], bytes[11]);
        let z = u32_of_le_bytes(bytes[12], bytes[13], bytes[14], bytes[15]);
        match spec_decode_records(bytes.skip(16), (z as nat) * ((y as nat) * (x as nat))) {
            Err(e) => Err(e),
            Ok((states, _)) => Ok((x, y, z, states)),
        }
    }
}

/// Basic shape of a successful multi-record decode: one state per record,
/// never consuming more bytes than given.
pub proof fn lemma_decode_records_ok(bytes: Seq<u8>, n: nat)
    ensures
        spec_decode_records(bytes, n) matches Ok(p) ==> p.0.len() == n && p.1 <= bytes.len(),
    decreases n,
{
    if n > 0 {
        match spec_decode(bytes) {
            Err(_) => {},
            Ok((s, k)) => {
                crate::block::lemma_decode_ok(bytes);
                lemma_decode_records_ok(bytes.skip(k as int), (n - 1) as nat);
            },
        }
    }
}

/// Decoding one more record after a successful run appends its state and
/// adds its length to the bytes consumed.
pub proof fn lemma_decode_records_snoc(
    bytes: Seq<u8>,
    n: nat,
    ss: Seq<BlockState>,
    k: nat,
    s1: BlockState,
    k1: nat,
)
    requires
        spec_decode_records(bytes, n) == Ok::<(Seq<BlockState>, nat), ParseError>((ss, k)),
        spec_decode(bytes.skip(k as int)) == Ok::<(BlockState, nat), ParseError>((s1, k1)),
    ensures
        spec_decode_records(bytes, n + 1) == Ok::<(Seq<BlockState>, nat), ParseError>(
            (ss.push(s1), (k + k1) as nat),
        ),
    decreases n,
{
    if n == 0 {
        assert(ss == Seq::<BlockState>::empty());
        assert(k == 0);
        assert(bytes.skip(0) =~= bytes);
        assert(spec_decode(bytes) == Ok::<(BlockState, nat), ParseError>((s1, k1)));
        assert(spec_decode_records(bytes.skip(k1 as int), 0) == Ok::<
            (Seq<BlockState>, nat),
            ParseError,
        >((Seq::empty(), 0 as nat)));
        assert(spec_decode_records(bytes, 1) == Ok::<(Seq<BlockState>, nat), ParseError>(
            (seq![s1] + Seq::<BlockState>::empty(), (k1 + 0) as nat),
        ));
        assert(seq![s1] + Seq::<BlockState>::empty() =~= Seq::<BlockState>::empty().push(s1));
    } else {
        match spec_decode(bytes) {
            Err(_) => {},
            Ok((s0, k0)) => {
                crate::block::lemma_decode_ok(bytes);
                match spec_decode_records(bytes.skip(k0 as int), (n - 1) as nat) {
                    Err(_) => {},
                    Ok((rest, m)) => {
                        assert(ss == seq![s0] + rest);
                        assert(k == k0 + m);
                        lemma_decode_records_ok(bytes.skip(k0 as int), (n - 1) as nat);
                        assert(bytes.skip(k0 as int).skip(m as int) =~= bytes.skip(
                            (k0 + m) as int,
                        ));
                        lemma_decode_records_snoc(
                            bytes.skip(k0 as int),
                            (n - 1) as nat,
                            rest,
                            m,
                            s1,
                            k1,
                        );
                        assert(spec_decode_records(bytes.skip(k0 as int), n) == Ok::<
                            (Seq<BlockState>, nat),
                            ParseError,
                        >((rest.push(s1), (m + k1) as nat)));
                        assert(spec_decode_records(bytes, n + 1) == Ok::<
                            (Seq<BlockState>, nat),
                            ParseError,
                        >((seq![s0] + rest.push(s1), (k0 + (m + k1)) as nat)));
                        assert(seq![s0] + rest.push(s1) =~= (seq![s0] + rest).push(s1));
                    },
                }
            },
        }
    }
}

/// When the record after a successful run fails to decode, every longer
/// run fails the same way.
pub proof fn lemma_decode_records_err(
    bytes: Seq<u8>,
    n: nat,
    ss: Seq<BlockState>,
    k: nat,
    e: ParseError,
    m: nat,
)
    requires
        spec_decode_records(bytes, n) == Ok::<(Seq<BlockState>, nat), ParseError>((ss, k)),
        spec_decode(bytes.skip(k as int)) == Err::<(BlockState, nat), ParseError>(e),
        m > n,
    ensures
        spec_decode_records(bytes, m) == Err::<(Seq<BlockState>, nat), ParseError>(e),
    decreases n,
{
    if n == 0 {
        assert(bytes.skip(0) =~= bytes);
    } else {
        match spec_decode(bytes) {
            Err(_) => {},
            Ok((s0, k0)) => {
                crate::block::lemma_decode_ok(bytes);
                match spec_decode_records(bytes.skip(k0 as int), (n - 1) as nat) {
                    Err(_) => {},
                    Ok((rest, mm)) => {
                        lemma_decode_records_ok(bytes.skip(k0 as int), (n - 1) as nat);
                        assert(bytes.skip(k0 as int).skip(mm as int) =~= bytes.skip(
                            (k0 + mm) as int,
                        ));
                        lemma_decode_records_err(
                            bytes.skip(k0 as int),
                            (n - 1) as nat,
                            rest,
                            mm,
                            e,
                            (m - 1) as nat,
                        );
                    },
                }
            },
        }
    }
}

/// A run of well-formed states decodes back from its own bytes, whatever
/// follows them: the multi-record round-trip law.
pub proof fn lemma_records_round_trip(ss: Seq<BlockState>, rest: Seq<u8>)
    requires
        forall|i: int| 0 <= i < ss.len() ==> (#[trigger] ss[i]).wf(),
    ensures
        spec_decode_records(concat_encodings(ss) + rest, ss.len()) == Ok::<
            (Seq<BlockState>, nat),
            ParseError,
        >((ss, concat_encodings(ss).len())),
    decreases ss.len(),
{
    if ss.len() == 0 {
        assert(ss =~= Seq::<BlockState>::empty());
    } else {
        let s_last = ss.last();
        let prefix = ss.drop_last();
        assert(ss[ss.len() - 1].wf());
        lemma_records_round_trip(prefix, spec_encode(s_last) + rest);
        let bytes = concat_encodings(ss) + rest;
        assert(concat_encodings(prefix) + (spec_encode(s_last) + rest) =~= bytes);
        assert(bytes.skip(concat_encodings(prefix).len() as int) =~= spec_encode(s_last) + rest);
        crate::block::lemma_state_round_trip(s_last, rest);
        lemma_decode_records_snoc(
            bytes,
            prefix.len(),
            prefix,
            concat_encodings(prefix).len(),
            s_last,
            encoded_len(s_last),
        );
        assert(prefix.push(s_last) =~= ss);
    }
}

/// The number of states a layer contributes: one per cell of its rows.
pub proof fn lemma_layer_states_len(layer: Seq<Vec<Block>>, x: u32)
    requires
        rows_wf(layer, x),
    ensures
        layer_states(layer).len() == layer.len() * (x as int),
    decreases layer.len(),
{
    if layer.len() > 0 {
        lemma_layer_states_len(layer.drop_last(), x);
        let n = layer.len() as int;
        let xx = x as int;
        assert((n - 1) * xx + xx == n * xx) by (nonlinear_arith);
    }
}

/// The number of states the space contributes: one per cell of its layers.
pub proof fn lemma_space_states_len(space: Seq<Vec<Vec<Block>>>, x: u32, y: u32)
    requires
        layers_wf(space, x, y),
    ensures
        space_states(space).len() == space.len() * ((y as int) * (x as int)),
    decreases space.len(),
{
    if space.len() > 0 {
        lemma_space_states_len(space.drop_last(), x, y);
        lemma_layer_states_len(space.last()@, x);
        let n = space.len() as int;
        let yx = (y as int) * (x as int);
        assert((n - 1) * yx + yx == n * yx) by (nonlinear_arith);
    }
}

/// Every state of a well-formed layer run is well-formed.
pub proof fn lemma_layer_states_wf(layer: Seq<Vec<Block>>, x: u32)
    requires
        rows_wf(layer, x),
    ensures
        forall|n: int|
            0 <= n < layer_states(layer).len() ==> (#[trigger] layer_states(layer)[n]).wf(),
    decreases layer.len(),
{
    if layer.len() > 0 {
        lemma_layer_states_wf(layer.drop_last(), x);
        let left = layer_states(layer.drop_last());
        let row = layer.last()@;
        assert(wf_row(row, x));
        assert forall|n: int| 0 <= n < layer_states(layer).len() implies (#[trigger] layer_states(
            layer,
        )[n]).wf() by {
            if n < left.len() {
                assert(layer_states(layer)[n] == left[n]);
            } else {
                assert(layer_states(layer)[n] == row_states(row)[n - left.len()]);
                assert(row_states(row)[n - left.len()] == row[n - left.len()].state);
            }
        }
    }
}

/// Every state of a well-formed space is well-formed.
pub proof fn lemma_space_states_wf(space: Seq<Vec<Vec<Block>>>, x: u32, y: u32)
    requires
        layers_wf(space, x, y),
    ensures
        forall|n: int|
            0 <= n < space_states(space).len() ==> (#[trigger] space_states(space)[n]).wf(),
    decreases space.len(),
{
    if space.len() > 0 {
        lemma_space_states_wf(space.drop_last(), x, y);
        assert(wf_layer(space.last()@, x, y));
        lemma_layer_states_wf(space.last()@, x);
        let left = space_states(space.drop_last());
        let mid = layer_states(space.last()@);
        assert forall|n: int| 0 <= n < space_states(space).len() implies (#[trigger] space_states(
            space,
        )[n]).wf() by {
            if n < left.len() {
                assert(space_states(space)[n] == left[n]);
            } else {
                assert(space_states(space)[n] == mid[n - left.len()]);
            }
        }
    }
}

/// Where a cell of a layer stands in the layer's state run: its row's
/// offset plus its place in the row.
proof fn lemma_layer_states_index(layer: Seq<Vec<Block>>, x: u32, j: int, k: int)
    requires
        rows_wf(layer, x),
        0 <= j < layer.len(),
        0 <= k < x,
    ensures
        layer_states(layer)[j * (x as int) + k] == layer[j]@[k].state,
    decreases layer.len(),
{
    let xx = x as int;
    lemma_layer_states_len(layer.drop_last(), x);
    if j == layer.len() - 1 {
        assert(layer_states(layer)[j * xx + k] == row_states(layer.last()@)[k]);
    } else {
        lemma_layer_states_index(layer.drop_last(), x, j, k);
        assert(j * xx + k < (layer.len() - 1) * xx) by (nonlinear_arith)
            requires
                0 <= k < xx,
                0 <= j < layer.len() - 1,
        ;
        assert(layer_states(layer)[j * xx + k] == layer_states(layer.drop_last())[j * xx + k]);
    }
}

/// Where a cell of the space stands in the whole state run: its layer's
/// offset, then its row's, then its place in the row.
proof fn lemma_space_states_index(space: Seq<Vec<Vec<Block>>>, x: u32, y: u32, i: int, j: int, k: int)
    requires
        layers_wf(space, x, y),
        0 <= i < space.len(),
        0 <= j < y,
        0 <= k < x,
    ensures
        space_states(space)[i * ((y as int) * (x as int)) + j * (x as int) + k]
            == space[i]@[j]@[k].state,
    decreases space.len(),
{
    let xx = x as int;
    let yx = (y as int) * xx;
    lemma_space_states_len(space.drop_last(), x, y);
    if i == space.len() - 1 {
        assert(wf_layer(space.last()@, x, y));
        lemma_layer_states_len(space.last()@, x);
        lemma_layer_states_index(space.last()@, x, j, k);
        assert(0 <= j * xx + k < yx) by (nonlinear_arith)
            requires
                0 <= k < xx,
                0 <= j < (y as int),
                yx == (y as int) * xx,
        ;
        assert(space_states(space)[i * yx + (j * xx + k)] == layer_states(space.last()@)[j * xx
            + k]);
    } else {
        lemma_space_states_index(space.drop_last(), x, y, i, j, k);
        assert(0 <= i * yx + j * xx + k < (space.len() - 1) * yx) by (nonlinear_arith)
            requires
                0 <= k < xx,
                0 <= j < (y as int),
                0 <= i < space.len() - 1,
                yx == (y as int) * xx,
        ;
        assert(space_states(space)[i * yx + j * xx + k] == space_states(space.drop_last())[i * yx
            + j * xx + k]);
    }
}

/// Traversal-order law: the cell at `(x, y, z)` stands at position
/// `z * (y_len * x_len) + y * x_len + x` of the grid's state run.
pub proof fn lemma_grid_states_index(g: Grid, x: int, y: int, z: int)
    requires
        g.wf(),
        0 <= x < g.x_len,
        0 <= y < g.y_len,
        0 <= z < g.z_len,
    ensures
        grid_states(g)[z * ((g.y_len as int) * (g.x_len as int)) + y * (g.x_len as int) + x]
            == g.blocks@[z]@[y]@[x].state,
{
    lemma_space_states_index(g.blocks@, g.x_len, g.y_len, z, y, x);
}

/// How many cells come before the cell at `(iz, iy, ix)` in traversal
/// order: always fewer than the whole grid holds.
proof fn lemma_cell_count_lt(iz: u32, iy: u32, ix: u32, x: u32, y: u32, z: u32)
    by (nonlinear_arith)
    requires
        iz < z,
        iy < y,
        ix < x,
    ensures
        (iz as int) * ((y as int) * (x as int)) + (iy as int) * (x as int) + (ix as int) < (
        z as int) * ((y as int) * (x as int)),
{
}

/// Round-trip law of the whole format: reading back a written grid's byte
/// image, with any trailing bytes after the last record, yields the grid's
/// dimensions and every cell state in traversal order.
pub proof fn lemma_grid_round_trip(g: Grid, rest: Seq<u8>)
    requires
        g.wf(),
    ensures
        spec_read(spec_grid_bytes(g) + rest) == Ok::<(u32, u32, u32, Seq<BlockState>), ParseError>(
            (g.x_len, g.y_len, g.z_len, grid_states(g)),
        ),
{
    let enc = concat_encodings(grid_states(g));
    let bytes = spec_grid_bytes(g) + rest;
    assert(bytes.len() >= 16);
    assert(bytes.subrange(0, 4) =~= magic_seq());
    assert(bytes[4] == u32_le_bytes(g.x_len)[0]);
    assert(bytes[5] == u32_le_bytes(g.x_len)[1]);
    assert(bytes[6] == u32_le_bytes(g.x_len)[2]);
    assert(bytes[7] == u32_le_bytes(g.x_len)[3]);
    assert(bytes[8] == u32_le_bytes(g.y_len)[0]);
    assert(bytes[9] == u32_le_bytes(g.y_len)[1]);
    assert(bytes[10] == u32_le_bytes(g.y_len)[2]);
    assert(bytes[11] == u32_le_bytes(g.y_len)[3]);
    assert(bytes[12] == u32_le_bytes(g.z_len)[0]);
    assert(bytes[13] == u32_le_bytes(g.z_len)[1]);
    assert(bytes[14] == u32_le_bytes(g.z_len)[2]);
    assert(bytes[15] == u32_le_bytes(g.z_len)[3]);
    lemma_u32_le_round_trip(g.x_len);
    lemma_u32_le_round_trip(g.y_len);
    lemma_u32_le_round_trip(g.z_len);
    assert(bytes.skip(16) =~= enc + rest);
    lemma_space_states_wf(g.blocks@, g.x_len, g.y_len);
    lemma_records_round_trip(grid_states(g), rest);
    lemma_space_states_len(g.blocks@, g.x_len, g.y_len);
    assert(grid_states(g).len() == (g.z_len as nat) * ((g.y_len as nat) * (g.x_len as nat)));
}

impl Grid {
    /// The shape invariant: the array's physical shape equals the stored
    /// dimensions, and every cell's state is well-formed.
    pub open spec fn wf(self) -> bool {
        wf_space(self.blocks@, self.x_len, self.y_len, self.z_len)
    }

    /// A fresh grid is empty: zero-sized in every dimension, no cells.
    pub fn new() -> (r: Grid)
        ensures
            r.wf(),
            r.x_len == 0 && r.y_len == 0 && r.z_len == 0,
            r.blocks@.len() == 0,
    {
        Grid { blocks: Vec::new(), x_len: 0, y_len: 0, z_len: 0 }
    }

    /// Replaces the whole array with a fresh one of the given dimensions,
    /// every cell reset to `NonBlock`, and updates the dimension fields
    /// together; old contents are discarded.
    #[verifier::loop_isolation(false)]
    pub fn resize(&mut self, x_len: u32, y_len: u32, z_len: u32)
        ensures
            final(self).wf(),
            final(self).x_len == x_len,
            final(self).y_len == y_len,
            final(self).z_len == z_len,
            forall|i: int|
                0 <= i < final(self).blocks@.len() ==> forall|j: int|
                    0 <= j < (#[trigger] final(self).blocks@[i])@.len() ==> forall|k: int|
                        0 <= k < (#[trigger] final(self).blocks@[i]@[j])@.len()
                            ==> (#[trigger] final(self).blocks@[i]@[j]@[k]).state == BlockState::NonBlock,
    {
        let mut space: Vec<Vec<Vec<Block>>> = Vec::new();
        let mut iz: u32 = 0;
        while iz < z_len
            invariant
                iz <= z_len,
                space@.len() == iz as int,
                layers_wf(space@, x_len, y_len),
                forall|i: int|
                    0 <= i < space@.len() ==> forall|j: int|
                        0 <= j < (#[trigger] space@[i])@.len() ==> forall|k: int|
                            0 <= k < (#[trigger] space@[i]@[j])@.len() ==> (#[trigger] space@[i]@[j]@[k]).state
                                == BlockState::NonBlock,
            decreases z_len - iz,
        {
            let mut layer: Vec<Vec<Block>> = Vec::new();
            let mut iy: u32 = 0;
            while iy < y_len
                invariant
                    iy <= y_len,
                    layer@.len() == iy as int,
                    rows_wf(layer@, x_len),
                    forall|j: int|
                        0 <= j < layer@.len() ==> forall|k: int|
                            0 <= k < (#[trigger] layer@[j])@.len() ==> (#[trigger] layer@[j]@[k]).state
                                == BlockState::NonBlock,
                decreases y_len - iy,
            {
                let mut row: Vec<Block> = Vec::new();
                let mut ix: u32 = 0;
                while ix < x_len
                    invariant
                        ix <= x_len,
                        row@.len() == ix as int,
                        forall|k: int|
                            0 <= k < row@.len() ==> (#[trigger] row@[k]).state
                                == BlockState::NonBlock,
                    decreases x_len - ix,
                {
                    row.push(Block::new(BlockState::NonBlock));
                    ix = ix + 1;
                }
                layer.push(row);
                iy = iy + 1;
            }
            space.push(layer);
            iz = iz + 1;
        }
        self.blocks = space;
        self.x_len = x_len;
        self.y_len = y_len;
        self.z_len = z_len;
    }

    /// Serializes the whole grid to its `.mcrs` byte image: the header,
    /// then every cell's record in traversal order (z outer, y middle,
    /// x inner).  Encoding cannot fail.
    #[verifier::loop_isolation(false)]
    pub fn write(&self) -> (r: Vec<u8>)
        requires
            self.wf(),
        ensures
            r@ == spec_grid_bytes(*self),
    {
        let mut out: Vec<u8> = Vec::new();
        out.push(109);  // 'm'
        out.push(99);  // 'c'
        out.push(114);  // 'r'
        out.push(115);  // 's'
        proof {
            assert(out@ =~= magic_seq());
        }
        push_u32_le(&mut out, self.x_len);
        push_u32_le(&mut out, self.y_len);
        push_u32_le(&mut out, self.z_len);
        let mut iz: usize = 0;
        proof {
            assert(self.blocks@.take(0) =~= Seq::<Vec<Vec<Block>>>::empty());
            assert(out@ =~= spec_header(*self) + concat_encodings(
                space_states(self.blocks@.take(0)),
            ));
        }
        while iz < self.blocks.len()
            invariant
                iz <= self.blocks@.len(),
                out@ == spec_header(*self) + concat_encodings(
                    space_states(self.blocks@.take(iz as int)),
                ),
            decreases self.blocks@.len() - iz,
        {
            let layer: &Vec<Vec<Block>> = &self.blocks[iz];
            let mut iy: usize = 0;
            proof {
                assert(wf_layer(layer@, self.x_len, self.y_len));
                assert(layer@.take(0) =~= Seq::<Vec<Block>>::empty());
                assert(space_states(self.blocks@.take(iz as int)) + layer_states(layer@.take(0))
                    =~= space_states(self.blocks@.take(iz as int)));
            }
            while iy < layer.len()
                invariant
                    iy <= layer@.len(),
                    out@ == spec_header(*self) + concat_encodings(
                        space_states(self.blocks@.take(iz as int)) + layer_states(
                            layer@.take(iy as int),
                        ),
                    ),
                decreases layer@.len() - iy,
            {
                let row: &Vec<Block> = &layer[iy];
                let mut ix: usize = 0;
                proof {
                    assert(wf_row(row@, self.x_len));
                    assert(row@.take(0) =~= Seq::<Block>::empty());
                    assert(row_states(row@.take(0)) =~= Seq::<BlockState>::empty());
                    assert(space_states(self.blocks@.take(iz as int)) + layer_states(
                        layer@.take(iy as int),
                    ) + row_states(row@.take(0)) =~= space_states(self.blocks@.take(iz as int))
                        + layer_states(layer@.take(iy as int)));
                }
                while ix < row.len()
                    invariant
                        ix <= row@.len(),
                        out@ == spec_header(*self) + concat_encodings(
                            space_states(self.blocks@.take(iz as int)) + layer_states(
                                layer@.take(iy as int),
                            ) + row_states(row@.take(ix as int)),
                        ),
                    decreases row@.len() - ix,
                {
                    let mut bytes = row[ix].get_byte_repr();
                    proof {
                        let sofar = space_states(self.blocks@.take(iz as int)) + layer_states(
                            layer@.take(iy as int),
                        ) + row_states(row@.take(ix as int));
                        lemma_concat_push(sofar, row@[ix as int].state);
                        assert(row_states(row@.take(ix as int + 1)) =~= row_states(
                            row@.take(ix as int),
                        ).push(row@[ix as int].state));
                        assert(space_states(self.blocks@.take(iz as int)) + layer_states(
                            layer@.take(iy as int),
                        ) + row_states(row@.take(ix as int + 1)) =~= sofar.push(
                            row@[ix as int].state,
                        ));
                    }
                    out.append(&mut bytes);
                    ix = ix + 1;
                }
                proof {
                    assert(row@.take(row@.len() as int) =~= row@);
                    lemma_layer_states_push(layer@.take(iy as int), layer@[iy as int]);
                    assert(layer@.take(iy as int + 1) =~= layer@.take(iy as int).push(
                        layer@[iy as int],
                    ));
                    assert(space_states(self.blocks@.take(iz as int)) + layer_states(
                        layer@.take(iy as int),
                    ) + row_states(row@) =~= space_states(self.blocks@.take(iz as int))
                        + layer_states(layer@.take(iy as int + 1)));
                }
                iy = iy + 1;
            }
            proof {
                assert(layer@.take(layer@.len() as int) =~= layer@);
                lemma_space_states_push(self.blocks@.take(iz as int), self.blocks@[iz as int]);
                assert(self.blocks@.take(iz as int + 1) =~= self.blocks@.take(iz as int).push(
                    self.blocks@[iz as int],
                ));
                assert(space_states(self.blocks@.take(iz as int)) + layer_states(layer@)
                    =~= space_states(self.blocks@.take(iz as int + 1)));
            }
            iz = iz + 1;
        }
        proof {
            assert(self.blocks@.take(self.blocks@.len() as int) =~= self.blocks@);
        }
        out
    }

    /// Restores the grid from a `.mcrs` byte stream: validates the magic,
    /// reads the three dimensions, then decodes one record per cell in
    /// traversal order, walking a single cursor.  Trailing bytes after the
    /// last cell are ignored.  On any failure the error is returned and
    /// the grid is left exactly as it was.
    #[verifier::loop_isolation(false)]
    pub fn read(&mut self, bytes: &[u8]) -> (r: Result<(), ParseError>)
        ensures
            spec_read(bytes@) matches Ok(p) ==> {
                &&& r == Ok::<(), ParseError>(())
                &&& final(self).wf()
                &&& final(self).x_len == p.0
                &&& final(self).y_len == p.1
                &&& final(self).z_len == p.2
                &&& grid_states(*final(self)) == p.3
            },
            spec_read(bytes@) matches Err(e) ==> r == Err::<(), ParseError>(e) && *final(self)
                == *old(self),
    {
        if bytes.len() < 4 {
            return Err(ParseError::InvalidMagic);
        }
        if !(bytes[0] == 109 && bytes[1] == 99 && bytes[2] == 114 && bytes[3] == 115) {
            proof {
                assert(bytes@.subrange(0, 4) != magic_seq()) by {
                    if bytes@.subrange(0, 4) == magic_seq() {
                        assert(bytes@.subrange(0, 4)[0] == bytes@[0]);
                        assert(bytes@.subrange(0, 4)[1] == bytes@[1]);
                        assert(bytes@.subrange(0, 4)[2] == bytes@[2]);
                        assert(bytes@.subrange(0, 4)[3] == bytes@[3]);
                    }
                }
            }
            return Err(ParseError::InvalidMagic);
        }
        proof {
            assert(bytes@.subrange(0, 4) =~= magic_seq());
        }
        if bytes.len() < 16 {
            return Err(ParseError::UnexpectedEndOfData);
        }
        let x = read_u32_le(bytes, 4);
        let y = read_u32_le(bytes, 8);
        let z = read_u32_le(bytes, 12);
        let ghost tail = bytes@.skip(16);
        let ghost total: nat = (z as nat) * ((y as nat) * (x as nat));
        let mut pos: usize = 16;
        let mut space: Vec<Vec<Vec<Block>>> = Vec::new();
        let mut iz: u32 = 0;
        proof {
            assert(space_states(space@) =~= Seq::<BlockState>::empty());
        }
        while iz < z
            invariant
                iz <= z,
                space@.len() == iz as int,
                layers_wf(space@, x, y),
                16 <= pos <= bytes@.len(),
                spec_decode_records(tail, space_states(space@).len()) == Ok::<
                    (Seq<BlockState>, nat),
                    ParseError,
                >((space_states(space@), (pos - 16) as nat)),
            decreases z - iz,
        {
            let mut layer: Vec<Vec<Block>> = Vec::new();
            let mut iy: u32 = 0;
            proof {
                assert(layer_states(layer@) =~= Seq::<BlockState>::empty());
                assert(space_states(space@) + layer_states(layer@) =~= space_states(space@));
            }
            while iy < y
                invariant
                    iy <= y,
                    layer@.len() == iy as int,
                    rows_wf(layer@, x),
                    16 <= pos <= bytes@.len(),
                    spec_decode_records(tail, (space_states(space@) + layer_states(layer@)).len())
                        == Ok::<(Seq<BlockState>, nat), ParseError>(
                        (space_states(space@) + layer_states(layer@), (pos - 16) as nat),
                    ),
                decreases y - iy,
            {
                let mut row: Vec<Block> = Vec::new();
                let mut ix: u32 = 0;
                proof {
                    assert(row_states(row@) =~= Seq::<BlockState>::empty());
                    assert(space_states(space@) + layer_states(layer@) + row_states(row@)
                        =~= space_states(space@) + layer_states(layer@));
                }
                while ix < x
                    invariant
                        ix <= x,
                        row@.len() == ix as int,
                        forall|k: int|
                            0 <= k < row@.len() ==> (#[trigger] row@[k]).state.wf(),
                        16 <= pos <= bytes@.len(),
                        spec_decode_records(
                            tail,
                            (space_states(space@) + layer_states(layer@) + row_states(row@)).len(),
                        ) == Ok::<(Seq<BlockState>, nat), ParseError>(
                            (
                                space_states(space@) + layer_states(layer@) + row_states(row@),
                                (pos - 16) as nat,
                            ),
                        ),
                    decreases x - ix,
                {
                    let ghost sofar = space_states(space@) + layer_states(layer@) + row_states(
                        row@,
                    );
                    let rest = slice_subrange(bytes, pos, bytes.len());
                    proof {
                        assert(tail.skip((pos - 16) as int) =~= rest@);
                    }
                    let mut blk = Block::default();
                    match blk.try_set(rest) {
                        Ok(consumed) => {
                            proof {
                                if spec_decode(rest@) is Err {
                                    assert(false);
                                }
                                let p = spec_decode(rest@)->Ok_0;
                                crate::block::lemma_decode_ok(rest@);
                                assert(p.1 == consumed as nat);
                                lemma_decode_records_snoc(
                                    tail,
                                    sofar.len(),
                                    sofar,
                                    (pos - 16) as nat,
                                    blk.state,
                                    consumed as nat,
                                );
                                assert(row_states(row@.push(blk)) =~= row_states(row@).push(
                                    blk.state,
                                ));
                                assert(space_states(space@) + layer_states(layer@) + row_states(
                                    row@.push(blk),
                                ) =~= sofar.push(blk.state));
                            }
                            row.push(blk);
                            pos = pos + consumed;
                        },
                        Err(e) => {
                            proof {
                                if spec_decode(rest@) is Ok {
                                    assert(false);
                                }
                                lemma_space_states_len(space@, x, y);
                                lemma_layer_states_len(layer@, x);
                                lemma_cell_count_lt(iz, iy, ix, x, y, z);
                                lemma_decode_records_err(
                                    tail,
                                    sofar.len(),
                                    sofar,
                                    (pos - 16) as nat,
                                    e,
                                    total,
                                );
                            }
                            return Err(e);
                        },
                    }
                    ix = ix + 1;
                }
                proof {
                    assert(wf_row(row@, x));
                    lemma_layer_states_push(layer@, row);
                    assert(space_states(space@) + layer_states(layer@.push(row)) =~= space_states(
                        space@,
                    ) + layer_states(layer@) + row_states(row@));
                }
                layer.push(row);
                iy = iy + 1;
            }
            proof {
                assert(wf_layer(layer@, x, y));
                lemma_space_states_push(space@, layer);
                assert(space_states(space@.push(layer)) =~= space_states(space@) + layer_states(
                    layer@,
                ));
            }
            space.push(layer);
            iz = iz + 1;
        }
        proof {
            assert(wf_space(space@, x, y, z));
            lemma_space_states_len(space@, x, y);
            assert(space_states(space@).len() == total);
        }
        let ghost sv = space@;
        self.blocks = space;
        self.x_len = x;
        self.y_len = y;
        self.z_len = z;
        proof {
            assert(self.blocks@ == sv);
            assert(grid_states(*self) == space_states(sv));
        }
        Ok(())
    }

    /// Bounds-checked access to one cell; out-of-range coordinates are a
    /// contract violation, not undefined behaviour.
    pub fn get(&self, x: u32, y: u32, z: u32) -> (r: &Block)
        requires
            self.wf(),
            x < self.x_len,
            y < self.y_len,
            z < self.z_len,
        ensures
            *r == self.blocks@[z as int]@[y as int]@[x as int],
    {
        proof {
            assert(wf_layer(self.blocks@[z as int]@, self.x_len, self.y_len));
            assert(wf_row(self.blocks@[z as int]@[y as int]@, self.x_len));
        }
        &self.blocks[z as usize][y as usize][x as usize]
    }

    /// Bounds-checked mutable access to one cell: every other cell, and
    /// the dimensions, stay as they were.
    pub fn get_mut(&mut self, x: u32, y: u32, z: u32) -> (r: &mut Block)
        requires
            old(self).wf(),
            x < old(self).x_len,
            y < old(self).y_len,
            z < old(self).z_len,
        ensures
            *r == old(self).blocks@[z as int]@[y as int]@[x as int],
            final(self).x_len == old(self).x_len,
            final(self).y_len == old(self).y_len,
            final(self).z_len == old(self).z_len,
            final(self).blocks@.len() == old(self).blocks@.len(),
            forall|i: int|
                0 <= i < old(self).blocks@.len() ==> (#[trigger] final(self).blocks@[i])@.len()
                    == old(self).blocks@[i]@.len(),
            forall|i: int, j: int|
                0 <= i < old(self).blocks@.len() && 0 <= j < old(self).blocks@[i]@.len()
                    ==> (#[trigger] final(self).blocks@[i]@[j])@.len()
                    == old(self).blocks@[i]@[j]@.len(),
            forall|i: int, j: int, k: int|
                0 <= i < old(self).blocks@.len() && 0 <= j < old(self).blocks@[i]@.len() && 0 <= k
                    < old(self).blocks@[i]@[j]@.len()
                    ==> (#[trigger] final(self).blocks@[i]@[j]@[k]) == if i == z && j == y && k == x {
                    *final(r)
                } else {
                    old(self).blocks@[i]@[j]@[k]
                },
    {
        proof {
            assert(wf_layer(self.blocks@[z as int]@, self.x_len, self.y_len));
            assert(wf_row(self.blocks@[z as int]@[y as int]@, self.x_len));
        }
        &mut self.blocks[z as usize][y as usize][x as usize]
    }
}

} // verus!
