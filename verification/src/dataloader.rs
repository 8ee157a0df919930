//! Batches of tokens out of a file.
//!
//! The file itself is read elsewhere: the loader says where the next batch begins, and takes the
//! bytes that were found there.

use vstd::arithmetic::div_mod::{
    lemma_fundamental_div_mod, lemma_fundamental_div_mod_converse,
};
use vstd::prelude::*;
use vstd::slice::{slice_subrange, slice_to_vec};

use crate::buffer::{put, window};
use crate::bytes::{bytes_mut, ordered, stored_as};

verus! {

/// The number of bytes of a token in the file.
pub const TOKEN_BYTES: usize = 4;

/// Why there is no loader for a file.
#[derive(Clone, Copy, PartialEq, Eq, Structural, Debug)]
pub enum DataError {
    /// The file does not hold one batch.
    FileTooSmall,
}

impl DataError {
    /// What to tell a user.
    pub fn message(&self) -> (text: &'static str)
        ensures
            text@ == "File too small"@,
    {
        "File too small"
    }
}

/// Batches of `b` sequences of `t` tokens.
pub struct DataLoader {
    /// The number of sequences in a batch.
    pub b: usize,
    /// The number of tokens in a sequence.
    pub t: usize,
    /// The number of bytes of the file.
    pub file_size: u64,
    /// Where in the file the next batch begins.
    pub current_position: u64,
    /// The tokens of the batch, and one more.
    pub batch: Vec<i32>,
    /// The tokens of the batch.
    pub inputs: Vec<i32>,
    /// The tokens that follow those of the batch.
    pub targets: Vec<i32>,
    /// The number of batches in the file.
    pub num_batches: usize,
}

/// The number of bytes that are read for one batch.
pub open spec fn batch_bytes(b: usize, t: usize) -> int {
    (b * t + 1) * 4
}

/// Where a batch begins that would begin at `position`: there, or at the start of the file where
/// the file ends before the batch does.
pub open spec fn batch_start(position: u64, file_size: u64, b: usize, t: usize) -> int {
    if position + batch_bytes(b, t) > file_size {
        0
    } else {
        position as int
    }
}

impl DataLoader {
    /// The file holds at least one batch, and there is room for one.
    pub open spec fn wf(&self) -> bool {
        &&& batch_bytes(self.b, self.t) <= usize::MAX
        &&& batch_bytes(self.b, self.t) <= self.file_size
        &&& self.batch@.len() == self.b * self.t + 1
    }

    /// The inputs are the tokens of the batch, and the targets those that follow them.
    pub open spec fn sliced(&self) -> bool {
        &&& self.inputs@ == window(self.batch@, 0, self.b * self.t)
        &&& self.targets@ == window(self.batch@, 1, self.b * self.t)
    }

    /// A loader for a file of `file_size` bytes.
    pub fn new(file_size: u64, b: usize, t: usize) -> (r: Result<DataLoader, DataError>)
        requires
            batch_bytes(b, t) <= usize::MAX,
            b * t > 0 || file_size < 4,
        ensures
            match r {
                Ok(loader) => {
                    &&& batch_bytes(b, t) <= file_size
                    &&& loader.b == b
                    &&& loader.t == t
                    &&& loader.file_size == file_size
                    &&& loader.current_position == 0
                    &&& loader.batch@ == Seq::new((b * t + 1) as nat, |i: int| 0i32)
                    &&& loader.num_batches == (file_size as int / ((b * t) * 4)) as usize
                    &&& file_size <= usize::MAX ==> loader.num_batches * ((b * t) * 4) <= file_size
                        < (loader.num_batches + 1) * ((b * t) * 4)
                    &&& loader.wf()
                    &&& loader.sliced()
                },
                Err(e) => batch_bytes(b, t) > file_size && e == DataError::FileTooSmall,
            },
    {
        assert(0 <= b * t) by (nonlinear_arith);
        let n: usize = b * t;
        if file_size < ((n + 1) * TOKEN_BYTES) as u64 {
            return Err(DataError::FileTooSmall);
        }
        proof {
            let w = n * 4;
            let q = file_size as int / w;
            lemma_fundamental_div_mod(file_size as int, w);
            assert(q <= file_size) by (nonlinear_arith)
                requires
                    q == file_size as int / w,
                    0 < w,
            ;
            assert(q * w <= file_size < (q + 1) * w) by (nonlinear_arith)
                requires
                    file_size == w * q + file_size as int % w,
                    0 <= file_size as int % w < w,
            ;
        }
        let batch: Vec<i32> = vec![0i32; n + 1];
        assert(batch@ =~= Seq::new((n + 1) as nat, |i: int| 0i32));
        let mut loader = DataLoader {
            b,
            t,
            file_size,
            current_position: 0,
            batch,
            inputs: Vec::new(),
            targets: Vec::new(),
            num_batches: (file_size / (n * TOKEN_BYTES) as u64) as usize,
        };
        loader.update_slices();
        Ok(loader)
    }

    /// Goes back to the start of the file.
    pub fn reset(&mut self)
        ensures
            *final(self) == (DataLoader { current_position: 0, ..*old(self) }),
    {
        self.current_position = 0;
    }

    /// Says where in the file the next batch begins.
    pub fn seek_batch(&mut self) -> (start: u64)
        requires
            old(self).wf(),
        ensures
            start == batch_start(
                old(self).current_position,
                old(self).file_size,
                old(self).b,
                old(self).t,
            ),
            start + batch_bytes(old(self).b, old(self).t) <= old(self).file_size,
            *final(self) == (DataLoader { current_position: start, ..*old(self) }),
    {
        assert(0 <= self.b * self.t) by (nonlinear_arith);
        let needed: u64 = ((self.b * self.t + 1) * TOKEN_BYTES) as u64;
        if self.current_position > self.file_size - needed {
            self.current_position = 0;
        }
        self.current_position
    }

    /// Takes the bytes of the batch that begins at the current position, and goes on to the next
    /// one.
    pub fn next_batch(&mut self, bytes: &[u8])
        requires
            old(self).wf(),
            bytes@.len() == batch_bytes(old(self).b, old(self).t),
            old(self).current_position + batch_bytes(old(self).b, old(self).t)
                <= old(self).file_size,
        ensures
            exists|big: bool| #[trigger] stored_as(big, final(self).batch@, bytes@),
            final(self).sliced(),
            final(self).wf(),
            *final(self) == (DataLoader {
                current_position: (old(self).current_position + (old(self).b * old(self).t)
                    * 4) as u64,
                batch: final(self).batch,
                inputs: final(self).inputs,
                targets: final(self).targets,
                ..*old(self)
            }),
    {
        assert(0 <= self.b * self.t) by (nonlinear_arith);
        let stored = bytes_mut(self.batch.as_mut_slice());
        put(stored, 0, bytes);
        assert(stored@ =~= bytes@);
        self.current_position = self.current_position + ((self.b * self.t) * TOKEN_BYTES) as u64;
        self.update_slices();
    }

    /// Sets the inputs and the targets to those of the batch.
    pub fn update_slices(&mut self)
        requires
            old(self).wf(),
        ensures
            final(self).sliced(),
            *final(self) == (DataLoader {
                inputs: final(self).inputs,
                targets: final(self).targets,
                ..*old(self)
            }),
    {
        assert(0 <= self.b * self.t) by (nonlinear_arith);
        let n: usize = self.b * self.t;
        self.inputs = slice_to_vec(slice_subrange(self.batch.as_slice(), 0, n));
        self.targets = slice_to_vec(slice_subrange(self.batch.as_slice(), 1, n + 1));
    }
}

/// Each target is the input that comes next.
pub proof fn lemma_targets_follow_inputs(loader: DataLoader, i: int)
    requires
        loader.wf(),
        loader.sliced(),
        0 <= i < loader.b * loader.t - 1,
    ensures
        loader.targets@.len() == loader.inputs@.len() == loader.b * loader.t,
        loader.targets@[i] == loader.inputs@[i + 1],
{
}

/// The first token of a batch that follows another without a break is the last target of the one
/// before: a batch begins where the inputs of the one before ended, and what was read ahead for
/// the last target is read again.
pub proof fn lemma_batches_overlap(
    file: Seq<u8>,
    position: int,
    n: int,
    big: bool,
    first: Seq<i32>,
    second: Seq<i32>,
)
    requires
        0 <= position,
        0 < n,
        position + (2 * n + 1) * 4 <= file.len(),
        stored_as(big, first, window(file, position, (n + 1) * 4)),
        stored_as(big, second, window(file, position + n * 4, (n + 1) * 4)),
    ensures
        second[0] == first[n],
{
    let one = window(file, position, (n + 1) * 4);
    let two = window(file, position + n * 4, (n + 1) * 4);
    assert(window(one, 4 * n, 4) =~= window(two, 0, 4));
    assert(first[n] == ordered(big, window(one, 4 * n, 4)));
    assert(second[0] == ordered(big, window(two, 0, 4)));
}

/// The number with a sign that four bytes stand for, `b0` being the lowest.
pub open spec fn signed_number(b0: u8, b1: u8, b2: u8, b3: u8) -> int {
    if b3 < 128 {
        b0 + 256 * b1 + 65536 * b2 + 16777216 * b3
    } else {
        b0 + 256 * b1 + 65536 * b2 + 16777216 * b3 - 4294967296
    }
}

/// Token `i` of a file, four bytes each, the highest first if `big` says so, and else the lowest.
pub open spec fn token_of_file(big: bool, file: Seq<u8>, i: int) -> int {
    if big {
        signed_number(file[4 * i + 3], file[4 * i + 2], file[4 * i + 1], file[4 * i])
    } else {
        signed_number(file[4 * i], file[4 * i + 1], file[4 * i + 2], file[4 * i + 3])
    }
}

/// A batch that begins at token `first` of a file holds the tokens from there on, and its targets
/// are those that begin one token later.
pub proof fn lemma_batch_holds_tokens(
    loader: DataLoader,
    file: Seq<u8>,
    big: bool,
    first: int,
    i: int,
)
    requires
        loader.wf(),
        loader.sliced(),
        0 <= first,
        4 * (first + loader.b * loader.t + 1) <= file.len(),
        stored_as(
            big,
            loader.batch@,
            file.subrange(4 * first, 4 * (first + loader.b * loader.t + 1)),
        ),
        0 <= i < loader.b * loader.t,
    ensures
        loader.inputs@.len() == loader.b * loader.t,
        loader.targets@.len() == loader.b * loader.t,
        loader.inputs@[i] == token_of_file(big, file, first + i),
        loader.targets@[i] == token_of_file(big, file, first + i + 1),
{
    let bytes = file.subrange(4 * first, 4 * (first + loader.b * loader.t + 1));
    lemma_token_at(bytes, file, big, first, loader.batch@, i);
    lemma_token_at(bytes, file, big, first, loader.batch@, i + 1);
}

proof fn lemma_token_at(
    bytes: Seq<u8>,
    file: Seq<u8>,
    big: bool,
    first: int,
    batch: Seq<i32>,
    i: int,
)
    requires
        0 <= first,
        0 <= i < batch.len(),
        4 * (first + batch.len()) <= file.len(),
        bytes == file.subrange(4 * first, 4 * (first + batch.len())),
        stored_as(big, batch, bytes),
    ensures
        batch[i] == token_of_file(big, file, first + i),
{
    let four = window(bytes, 4 * i, 4);
    assert(four[0] == file[4 * (first + i)]);
    assert(four[1] == file[4 * (first + i) + 1]);
    assert(four[2] == file[4 * (first + i) + 2]);
    assert(four[3] == file[4 * (first + i) + 3]);
    assert(batch[i] == ordered(big, four));
}

/// The batches of a file follow each other and start over: where the file holds `m` batches of `n`
/// tokens and one token more, but not another batch, batch `k` from the start begins at token `k`
/// modulo `m` times `n`. `positions` are where the loader stands before each batch, and `starts`
/// where the batches begin.
pub proof fn lemma_batches_in_turn(
    file_size: u64,
    b: usize,
    t: usize,
    m: int,
    positions: Seq<u64>,
    starts: Seq<u64>,
    k: int,
)
    requires
        0 < b * t,
        0 < m,
        4 * (m * (b * t) + 1) <= file_size < 4 * ((m + 1) * (b * t) + 1),
        0 <= k < starts.len(),
        starts.len() <= positions.len(),
        positions[0] == 0,
        forall|i: int|
            0 <= i < starts.len() ==> #[trigger] starts[i] == batch_start(
                positions[i],
                file_size,
                b,
                t,
            ),
        forall|i: int|
            0 < i < starts.len() ==> #[trigger] positions[i] == starts[i - 1] + 4 * (b * t),
    ensures
        starts[k] == 4 * ((k % m) * (b * t)),
    decreases k,
{
    let n = b * t;
    assert(starts[k] == batch_start(positions[k], file_size, b, t));
    assert((m + 1) * n == m * n + n) by (nonlinear_arith);
    if k == 0 {
        assert(0int % m == 0) by (nonlinear_arith)
            requires
                0 < m,
        ;
        assert(n <= m * n) by (nonlinear_arith)
            requires
                0 < m,
                0 < n,
        ;
    } else {
        lemma_batches_in_turn(file_size, b, t, m, positions, starts, k - 1);
        assert(positions[k] == starts[k - 1] + 4 * n);
        let j = (k - 1) % m;
        assert(0 <= j < m);
        assert(positions[k] == 4 * ((j + 1) * n)) by (nonlinear_arith)
            requires
                positions[k] == 4 * (j * n) + 4 * n,
        ;
        assert((j + 2) * n == (j + 1) * n + n) by (nonlinear_arith);
        if j + 1 < m {
            assert(k % m == j + 1) by {
                lemma_next_in_turn(k, m);
            }
            assert((j + 2) * n <= m * n) by (nonlinear_arith)
                requires
                    j + 2 <= m,
                    0 < n,
            ;
        } else {
            assert(k % m == 0) by {
                lemma_next_in_turn(k, m);
            }
        }
    }
}

proof fn lemma_next_in_turn(k: int, m: int)
    requires
        0 < k,
        0 < m,
    ensures
        k % m == (if (k - 1) % m + 1 < m {
            (k - 1) % m + 1
        } else {
            0
        }),
{
    let q = (k - 1) / m;
    let j = (k - 1) % m;
    lemma_fundamental_div_mod(k - 1, m);
    if j + 1 < m {
        assert(k == q * m + (j + 1)) by (nonlinear_arith)
            requires
                k - 1 == m * q + j,
        ;
        lemma_fundamental_div_mod_converse(k, m, q, j + 1);
    } else {
        assert(k == (q + 1) * m + 0) by (nonlinear_arith)
            requires
                k - 1 == m * q + j,
                j + 1 == m,
        ;
        lemma_fundamental_div_mod_converse(k, m, q + 1, 0);
    }
}

} // verus!
