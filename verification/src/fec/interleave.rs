//! A block interleaver across codewords.
//!
//! A codeword is repaired as long as it holds no more errors than its check symbols allow. A wide
//! acoustic burst, a click or a creaking chair, spoils more symbols than that in a row. So words
//! are laid out as rows and sent by columns: neighbours on the air belong to different words, and
//! a burst hits each word no more often than its length over the number of words, rounded up.

use vstd::prelude::*;
use crate::fec::gf;
use crate::fec::poly;
use crate::fec::words;

verus! {

/// The words that a vector of vectors holds.
pub open spec fn rows_of(blocks: Seq<Vec<u8>>) -> Seq<Seq<u8>> {
    Seq::new(blocks.len(), |q: int| blocks[q]@)
}

/// All words have `cols` symbols.
pub open spec fn rectangular(blocks: Seq<Seq<u8>>, cols: nat) -> bool {
    forall|q: int| 0 <= q < blocks.len() ==> (#[trigger] blocks[q]).len() == cols
}

/// The words read by columns.
pub open spec fn interleaved(blocks: Seq<Seq<u8>>, cols: nat) -> Seq<u8> {
    Seq::new(
        cols * blocks.len(),
        |i: int| blocks[i % (blocks.len() as int)][i / (blocks.len() as int)],
    )
}

/// The words that a stream of columns holds.
pub open spec fn deinterleaved(flat: Seq<u8>, rows: nat, cols: nat) -> Seq<Seq<u8>> {
    Seq::new(rows, |q: int| Seq::new(cols, |c: int| flat[c * rows + q]))
}

proof fn lemma_index(c: int, q: int, rows: int, cols: int)
    requires
        0 <= q < rows,
        0 <= c < cols,
    ensures
        0 <= c * rows + q < cols * rows,
        (c * rows + q) / rows == c,
        (c * rows + q) % rows == q,
{
    assert(0 <= c * rows + q < cols * rows) by (nonlinear_arith)
        requires
            0 <= q < rows,
            0 <= c < cols,
    ;
    vstd::arithmetic::div_mod::lemma_fundamental_div_mod_converse(c * rows + q, rows, c, q);
}

proof fn lemma_split(i: int, rows: int, cols: int)
    requires
        0 < rows,
        0 <= i < cols * rows,
    ensures
        0 <= i / rows < cols,
        0 <= i % rows < rows,
        i == (i / rows) * rows + i % rows,
{
    vstd::arithmetic::div_mod::lemma_fundamental_div_mod(i, rows);
    assert(0 <= i / rows < cols) by (nonlinear_arith)
        requires
            0 < rows,
            0 <= i < cols * rows,
            i == rows * (i / rows) + i % rows,
            0 <= i % rows < rows,
    ;
    vstd::arithmetic::mul::lemma_mul_is_commutative(rows, i / rows);
}

/// Reading words by columns and laying the columns out again gives the words back.
pub proof fn law_deinterleave_interleave(blocks: Seq<Seq<u8>>, cols: nat)
    requires
        rectangular(blocks, cols),
    ensures
        deinterleaved(interleaved(blocks, cols), blocks.len(), cols) == blocks,
{
    let flat = interleaved(blocks, cols);
    let back = deinterleaved(flat, blocks.len(), cols);
    let rows = blocks.len() as int;
    assert forall|q: int| 0 <= q < rows implies back[q] == blocks[q] by {
        assert(blocks[q].len() == cols);
        assert forall|c: int| 0 <= c < cols implies back[q][c] == blocks[q][c] by {
            lemma_index(c, q, rows, cols as int);
        }
        assert(back[q] =~= blocks[q]);
    }
    assert(back =~= blocks);
}

/// Laying columns out as words and reading them by columns gives the stream back.
pub proof fn law_interleave_deinterleave(flat: Seq<u8>, rows: nat, cols: nat)
    requires
        rows > 0,
        flat.len() == cols * rows,
    ensures
        interleaved(deinterleaved(flat, rows, cols), cols) == flat,
{
    let blocks = deinterleaved(flat, rows, cols);
    let back = interleaved(blocks, cols);
    assert forall|i: int| 0 <= i < flat.len() implies back[i] == flat[i] by {
        lemma_split(i, rows as int, cols as int);
    }
    assert(back =~= flat);
}

/// The streams agree outside the `len` symbols from `start` on.
pub open spec fn burst(sent: Seq<u8>, got: Seq<u8>, start: int, len: nat) -> bool {
    &&& sent.len() == got.len()
    &&& forall|i: int|
        0 <= i < sent.len() && !(start <= i < start + len) ==> #[trigger] got[i] == sent[i]
}

/// A burst hits each word no more often than its length over the number of words, rounded up.
pub proof fn law_burst_is_spread(
    sent: Seq<u8>,
    got: Seq<u8>,
    start: int,
    len: nat,
    rows: nat,
    cols: nat,
    q: int,
)
    requires
        rows > 0,
        sent.len() == cols * rows,
        burst(sent, got, start, len),
        0 <= q < rows,
    ensures
        words::distance(
            deinterleaved(sent, rows, cols)[q],
            deinterleaved(got, rows, cols)[q],
        ) <= (len + rows - 1) / (rows as int),
{
    let a = deinterleaved(sent, rows, cols)[q];
    let b = deinterleaved(got, rows, cols)[q];
    let w = poly::xor_seq(a, b);
    let r = rows as int;
    let m = ((len + rows - 1) / r) as nat;
    // the first column whose symbol of this word is not before the burst
    let first = (start - q + r - 1) / r;
    let pos = Seq::new(m, |i: int| first + i);
    vstd::arithmetic::div_mod::lemma_fundamental_div_mod(start - q + r - 1, r);
    vstd::arithmetic::div_mod::lemma_fundamental_div_mod(len + rows - 1, r);
    assert((len + rows - 1) / r >= 0) by (nonlinear_arith)
        requires
            r > 0,
            len + rows - 1 >= 0,
    ;
    assert forall|c: int| 0 <= c < w.len() && #[trigger] w[c] != 0 implies pos.contains(c) by {
        let i = c * rows + q;
        lemma_index(c, q, r, cols as int);
        gf::lemma_xor(a[c], b[c], 0);
        assert(got[i] != sent[i]);
        assert(start <= c * r + q < start + len);
        let u = (start - q + r - 1) % r;
        let v = (len + rows - 1) % r;
        assert(first <= c < first + m) by (nonlinear_arith)
            requires
                r > 0,
                start <= c * r + q < start + len,
                start - q + r - 1 == r * first + u,
                0 <= u < r,
                len + r - 1 == r * m + v,
                0 <= v < r,
        ;
        assert(pos[c - first] == c);
    }
    words::lemma_support_covered(w, pos);
}

/// Reads words, all of one length, by columns.
pub fn interleave(blocks: &[Vec<u8>]) -> (r: Vec<u8>)
    requires
        blocks@.len() > 0 ==> rectangular(rows_of(blocks@), blocks@[0]@.len())
            && blocks@.len() * blocks@[0]@.len() <= usize::MAX,
    ensures
        blocks@.len() == 0 ==> r@.len() == 0,
        blocks@.len() > 0 ==> r@ == interleaved(rows_of(blocks@), blocks@[0]@.len()),
{
    if blocks.len() == 0 {
        return Vec::new();
    }
    let rows: usize = blocks.len();
    let cols: usize = blocks[0].len();
    let mut out: Vec<u8> = Vec::with_capacity(rows * cols);
    let mut col: usize = 0;
    let ghost want = interleaved(rows_of(blocks@), cols as nat);
    proof {
        vstd::arithmetic::mul::lemma_mul_is_commutative(cols as int, rows as int);
        assert(0 * rows == 0);
    }
    while col < cols
        invariant
            col <= cols,
            rows == blocks@.len(),
            rows > 0,
            rectangular(rows_of(blocks@), cols as nat),
            want == interleaved(rows_of(blocks@), cols as nat),
            out@.len() == col * rows,
            out@.len() <= want.len(),
            forall|i: int| 0 <= i < out@.len() ==> out@[i] == want[i],
        decreases cols - col,
    {
        let mut row: usize = 0;
        proof {
            assert((col + 1) * rows == col * rows + rows) by (nonlinear_arith);
            assert((col + 1) * rows <= cols * rows) by (nonlinear_arith)
                requires
                    col < cols,
            ;
        }
        while row < rows
            invariant
                row <= rows,
                col < cols,
                rows == blocks@.len(),
                rectangular(rows_of(blocks@), cols as nat),
                want == interleaved(rows_of(blocks@), cols as nat),
                out@.len() == col * rows + row,
                want.len() == cols * rows,
                forall|i: int| 0 <= i < out@.len() ==> out@[i] == want[i],
            decreases rows - row,
        {
            proof {
                lemma_index(col as int, row as int, rows as int, cols as int);
                assert(rows_of(blocks@)[row as int].len() == cols);
            }
            out.push(blocks[row][col]);
            row += 1;
        }
        col += 1;
    }
    assert(out@ =~= want);
    out
}

/// Lays a stream of columns out as `num_blocks` words of `block_len` symbols.
pub fn deinterleave(flat: &[u8], num_blocks: usize, block_len: usize) -> (r: Vec<Vec<u8>>)
    requires
        flat@.len() == num_blocks * block_len,
    ensures
        rows_of(r@) == deinterleaved(flat@, num_blocks as nat, block_len as nat),
{
    let mut blocks: Vec<Vec<u8>> = Vec::new();
    let ghost want = deinterleaved(flat@, num_blocks as nat, block_len as nat);
    let mut row: usize = 0;
    while row < num_blocks
        invariant
            row <= num_blocks,
            flat@.len() == num_blocks * block_len,
            want == deinterleaved(flat@, num_blocks as nat, block_len as nat),
            blocks@.len() == row,
            forall|q: int| 0 <= q < row ==> (#[trigger] blocks@[q])@ == want[q],
        decreases num_blocks - row,
    {
        let mut block: Vec<u8> = Vec::with_capacity(block_len);
        let mut col: usize = 0;
        while col < block_len
            invariant
                col <= block_len,
                row < num_blocks,
                flat@.len() == num_blocks * block_len,
                want == deinterleaved(flat@, num_blocks as nat, block_len as nat),
                block@ == want[row as int].take(col as int),
            decreases block_len - col,
        {
            proof {
                lemma_index(col as int, row as int, num_blocks as int, block_len as int);
                vstd::arithmetic::mul::lemma_mul_is_commutative(
                    num_blocks as int,
                    block_len as int,
                );
                assert(col * num_blocks + row < flat.len());
                assert(col * num_blocks >= 0) by (nonlinear_arith);
            }
            block.push(flat[col * num_blocks + row]);
            col += 1;
            assert(block@ =~= want[row as int].take(col as int));
        }
        assert(block@ =~= want[row as int]);
        blocks.push(block);
        row += 1;
    }
    assert(rows_of(blocks@) =~= want);
    blocks
}

/// On the air the words lie by columns: symbol `c` of word `q` is sent behind `c` symbols of every
/// word and symbol `c` of the words before it.
pub proof fn law_sent_by_columns(blocks: Seq<Seq<u8>>, cols: nat, q: int, c: int)
    requires
        0 <= q < blocks.len(),
        0 <= c < cols,
    ensures
        interleaved(blocks, cols).len() == cols * blocks.len(),
        0 <= c * blocks.len() + q < cols * blocks.len(),
        interleaved(blocks, cols)[c * blocks.len() + q] == blocks[q][c],
{
    lemma_index(c, q, blocks.len() as int, cols as int);
}

} // verus!
