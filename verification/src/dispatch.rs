//! Cutting a stream of lines into batches of a fixed size.

use crate::aggregate::texts;
use vstd::prelude::*;

verus! {

/// The size of batch that a dispatcher works with: the size asked for, or
/// one line where none was asked for.
pub open spec fn effective_size(batch_size: usize) -> nat {
    if batch_size == 0 {
        1
    } else {
        batch_size as nat
    }
}

/// The number of batches that `length` lines are cut into.
pub open spec fn batch_count(length: nat, size: nat) -> nat {
    ((length + size - 1) / (size as int)) as nat
}

/// The batches that a sequence of lines is cut into: each holds the next
/// `size` lines, the last one what is left.
pub open spec fn batches_of(lines: Seq<Seq<u8>>, size: nat) -> Seq<Seq<Seq<u8>>> {
    Seq::new(
        batch_count(lines.len(), size),
        |j: int|
            lines.subrange(
                j * size,
                if (j + 1) * size <= lines.len() {
                    (j + 1) * size
                } else {
                    lines.len() as int
                },
            ),
    )
}

/// The lines of each batch of a collection as byte sequences.
pub open spec fn batch_texts(batches: Seq<Vec<Vec<u8>>>) -> Seq<Seq<Seq<u8>>> {
    Seq::new(batches.len(), |j: int| texts(batches[j]@))
}

/// Where the batches begin: batch `j` exists exactly if its first line does.
proof fn lemma_batch_start(length: nat, size: nat, j: int)
    requires
        size >= 1,
        0 <= j,
    ensures
        j < batch_count(length, size) <==> j * size < length,
        (j + 1) * size == j * size + size,
        j * size >= 0,
{
    let count = (length + size - 1) / (size as int);
    let rest = (length + size - 1) % (size as int);
    vstd::arithmetic::div_mod::lemma_fundamental_div_mod(length + size - 1, size as int);
    assert(0 <= rest < size);
    assert((j + 1) * size == j * size + size) by (nonlinear_arith);
    assert(j * size >= 0) by (nonlinear_arith)
        requires
            j >= 0,
            size >= 1,
    ;
    if j < count {
        assert((j + 1) * size <= count * size) by (nonlinear_arith)
            requires
                j + 1 <= count,
                size >= 1,
        ;
        assert(size * count == count * size) by (nonlinear_arith);
    } else {
        assert(j * size >= count * size) by (nonlinear_arith)
            requires
                j >= count,
                size >= 1,
        ;
        assert(size * count == count * size) by (nonlinear_arith);
    }
}

/// The first `m` batches hold, end to end, the lines up to the start of
/// batch `m`.
proof fn lemma_batches_cover(lines: Seq<Seq<u8>>, size: nat, m: int)
    requires
        size >= 1,
        0 <= m <= batch_count(lines.len(), size),
    ensures
        batches_of(lines, size).take(m).flatten() == lines.take(
            if m * size <= lines.len() {
                m * size
            } else {
                lines.len() as int
            },
        ),
    decreases m,
{
    let batches = batches_of(lines, size);
    if m == 0 {
        assert(batches.take(0) =~= Seq::<Seq<Seq<u8>>>::empty());
        assert(0 * size == 0) by (nonlinear_arith);
        assert(lines.take(0) =~= Seq::<Seq<u8>>::empty());
    } else {
        lemma_batches_cover(lines, size, m - 1);
        lemma_batch_start(lines.len(), size, m - 1);
        let front = batches.take(m - 1);
        assert(batches.take(m) =~= front.push(batches[m - 1]));
        front.lemma_flatten_push(batches[m - 1]);
        let start = (m - 1) * size;
        let end = if m * size <= lines.len() {
            m * size
        } else {
            lines.len() as int
        };
        assert(lines.take(start) + lines.subrange(start, end) =~= lines.take(end));
    }
}

/// Every line stands in exactly one batch, and the batches keep the order of
/// the lines: laid end to end they are the lines again.
pub proof fn lemma_batches_hold_every_line(lines: Seq<Seq<u8>>, size: nat)
    requires
        size >= 1,
    ensures
        batches_of(lines, size).flatten() == lines,
{
    let count = batch_count(lines.len(), size) as int;
    let batches = batches_of(lines, size);
    lemma_batches_cover(lines, size, count);
    lemma_batch_start(lines.len(), size, count);
    assert(batches.take(count) =~= batches);
    assert(lines.take(lines.len() as int) =~= lines);
}

/// Every batch but the last holds exactly `size` lines; the last one holds
/// at least one and at most `size`.
pub proof fn lemma_batch_sizes(lines: Seq<Seq<u8>>, size: nat, j: int)
    requires
        size >= 1,
        0 <= j < batch_count(lines.len(), size),
    ensures
        1 <= batches_of(lines, size)[j].len() <= size,
        j + 1 < batch_count(lines.len(), size) ==> batches_of(lines, size)[j].len() == size,
{
    lemma_batch_start(lines.len(), size, j);
    lemma_batch_start(lines.len(), size, j + 1);
}

/// The buffer in which lines are gathered until they make up a batch.
///
/// Only the dispatcher writes to the buffer. A full batch leaves it whole,
/// and the buffer starts again empty.
#[derive(Debug)]
pub struct Dispatcher {
    buffer: Vec<Vec<u8>>,
    batch_size: usize,
}

impl Dispatcher {
    /// The lines gathered and not yet handed out.
    pub closed spec fn pending(&self) -> Seq<Seq<u8>> {
        texts(self.buffer@)
    }

    /// The batch size that the dispatcher was made with.
    pub closed spec fn limit(&self) -> usize {
        self.batch_size
    }

    /// Whether the buffer holds less than a batch.
    pub open spec fn wf(&self) -> bool {
        self.pending().len() < effective_size(self.limit())
    }

    /// A dispatcher with an empty buffer.
    pub fn new(batch_size: usize) -> (dispatcher: Dispatcher)
        ensures
            dispatcher.wf(),
            dispatcher.limit() == batch_size,
            dispatcher.pending() == Seq::<Seq<u8>>::empty(),
    {
        let dispatcher = Dispatcher { buffer: Vec::new(), batch_size };
        assert(dispatcher.pending() =~= Seq::<Seq<u8>>::empty());
        dispatcher
    }

    /// Takes one line. When the line fills the batch, the batch is handed
    /// out and the buffer is empty again.
    pub fn push(&mut self, line: Vec<u8>) -> (batch: Option<Vec<Vec<u8>>>)
        requires
            old(self).wf(),
        ensures
            final(self).wf(),
            final(self).limit() == old(self).limit(),
            old(self).pending().len() + 1 >= effective_size(old(self).limit()) ==> {
                &&& batch matches Some(full)
                &&& texts(full@) == old(self).pending().push(line@)
                &&& final(self).pending() == Seq::<Seq<u8>>::empty()
            },
            old(self).pending().len() + 1 < effective_size(old(self).limit()) ==> {
                &&& batch is None
                &&& final(self).pending() == old(self).pending().push(line@)
            },
    {
        let ghost before = self.pending();
        self.buffer.push(line);
        assert(self.pending() =~= before.push(line@));
        if self.buffer.len() >= self.batch_size {
            let mut full: Vec<Vec<u8>> = Vec::new();
            std::mem::swap(&mut self.buffer, &mut full);
            assert(self.pending() =~= Seq::<Seq<u8>>::empty());
            Some(full)
        } else {
            None
        }
    }

    /// Ends the stream: hands out what the buffer still holds, if anything.
    pub fn finish(self) -> (batch: Option<Vec<Vec<u8>>>)
        ensures
            self.pending().len() > 0 ==> {
                &&& batch matches Some(rest)
                &&& texts(rest@) == self.pending()
            },
            self.pending().len() == 0 ==> batch is None,
    {
        if self.buffer.len() > 0 {
            Some(self.buffer)
        } else {
            None
        }
    }
}

/// Cuts a sequence of lines into batches of `batch_size` lines, the last one
/// holding what is left. A batch size of 0 is taken as 1.
pub fn split_batches(lines: Vec<Vec<u8>>, batch_size: usize) -> (batches: Vec<Vec<Vec<u8>>>)
    ensures
        batch_texts(batches@) == batches_of(texts(lines@), effective_size(batch_size)),
{
    let ghost all = texts(lines@);
    let ghost given = lines@;
    let ghost size = effective_size(batch_size);
    let mut dispatcher = Dispatcher::new(batch_size);
    let mut batches: Vec<Vec<Vec<u8>>> = Vec::new();
    proof {
        assert(0 * size == 0) by (nonlinear_arith);
        assert(all.subrange(0, 0) =~= Seq::<Seq<u8>>::empty());
    }
    for line in it: lines
        invariant
            it.seq() == given,
            all == texts(given),
            size == effective_size(batch_size),
            dispatcher.wf(),
            dispatcher.limit() == batch_size,
            batches@.len() * size <= it.index(),
            dispatcher.pending() == all.subrange((batches@.len() * size) as int, it.index()),
            forall|j: int|
                0 <= j < batches@.len() ==> texts(#[trigger] batches@[j]@) == all.subrange(
                    j * size,
                    (j + 1) * size,
                ),
    {
        let ghost at = it.index();
        let ghost done = batches@.len() as int;
        assert(line == given[at]);
        proof {
            lemma_batch_start(all.len(), size, done);
            assert(all.subrange(done * size, at).push(line@) =~= all.subrange(done * size, at + 1));
        }
        match dispatcher.push(line) {
            Some(full) => {
                batches.push(full);
                proof {
                    assert(all.subrange((done + 1) * size, at + 1) =~= Seq::<Seq<u8>>::empty());
                }
            },
            None => {},
        }
    }
    let ghost done = batches@.len() as int;
    let ghost pending = dispatcher.pending();
    match dispatcher.finish() {
        Some(rest) => {
            batches.push(rest);
        },
        None => {},
    }
    proof {
        let expected = batches_of(all, size);
        lemma_batch_start(all.len(), size, done);
        lemma_batch_start(all.len(), size, done + 1);
        if done >= 1 {
            lemma_batch_start(all.len(), size, done - 1);
        }
        assert(pending.len() == all.len() - done * size);
        assert(batch_texts(batches@).len() == expected.len());
        assert forall|j: int| 0 <= j < expected.len() implies batch_texts(batches@)[j]
            == expected[j] by {
            lemma_batch_start(all.len(), size, j);
            lemma_batch_start(all.len(), size, j + 1);
            if j < done {
                assert((j + 1) * size <= done * size) by (nonlinear_arith)
                    requires
                        j + 1 <= done,
                        size >= 1,
                ;
            }
        }
        assert(batch_texts(batches@) =~= expected);
    }
    batches
}

} // verus!
