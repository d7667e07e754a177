//! A queue of values kept in blocks of a fixed size.
//!
//! The blocks form a list: from the block that values are read from, by way of
//! full ones, to the block that values are written to, and on to blocks that
//! are kept for later. A block that has been read to its end is put behind the
//! one that is written to.
use vstd::prelude::*;

verus! {

/// The number of values in a block.
pub const BLOCK_CAP: usize = 32;

/// A block of values, which are written from the first place on and read in the
/// same order.
pub struct Block<T> {
    /// The next block in the list.
    next: Option<usize>,
    /// The values; there is one in each place that has been written and not
    /// been read.
    values: Vec<Option<T>>,
    /// The first place that has not been read.
    begin: usize,
    /// The first place that has not been written.
    end: usize,
}

impl<T> Block<T> {
    /// What holds of a block at all times.
    pub closed spec fn wf(&self) -> bool {
        &&& self.values@.len() == BLOCK_CAP
        &&& self.begin <= self.end <= BLOCK_CAP
        &&& forall|i: int|
            0 <= i < BLOCK_CAP ==> ((#[trigger] self.values@[i]) is Some <==> self.begin <= i
                < self.end)
    }

    /// The values that have been written and not been read.
    pub closed spec fn view(&self) -> Seq<T> {
        Seq::new((self.end - self.begin) as nat, |i: int| self.values@[self.begin + i]->0)
    }

    /// How many places have been read.
    pub closed spec fn read_to(&self) -> nat {
        self.begin as nat
    }

    /// How many places have been written.
    pub closed spec fn written_to(&self) -> nat {
        self.end as nat
    }

    /// The next block in the list.
    pub closed spec fn successor(&self) -> Option<usize> {
        self.next
    }

    /// An empty block.
    pub fn new() -> (block: Self)
        ensures
            block.wf(),
            block@ == Seq::<T>::empty(),
            block.read_to() == 0,
            block.written_to() == 0,
            block.successor() is None,
    {
        let mut values: Vec<Option<T>> = Vec::with_capacity(BLOCK_CAP);
        while values.len() < BLOCK_CAP
            invariant
                values@.len() <= BLOCK_CAP,
                forall|i: int| 0 <= i < values@.len() ==> (#[trigger] values@[i]) is None,
            decreases BLOCK_CAP - values@.len(),
        {
            values.push(None);
        }
        let block = Block { next: None, values, begin: 0, end: 0 };
        assert(block@ == Seq::<T>::empty());
        block
    }

    /// The number of values.
    pub fn len(&self) -> (n: usize)
        requires
            self.wf(),
        ensures
            n == self@.len(),
    {
        self.end - self.begin
    }

    /// Whether there is no value to read.
    pub fn is_empty(&self) -> (empty: bool)
        requires
            self.wf(),
        ensures
            empty <==> self@.len() == 0,
    {
        self.end == self.begin
    }

    /// Whether there is a place to write to.
    pub fn can_write(&self) -> (yes: bool)
        ensures
            yes <==> self.written_to() < BLOCK_CAP,
    {
        self.end < BLOCK_CAP
    }

    /// Puts a block that has been read to its end back to its beginning.
    pub fn reset(&mut self)
        requires
            old(self).wf(),
            old(self)@.len() == 0,
        ensures
            final(self).wf(),
            final(self)@ == Seq::<T>::empty(),
            final(self).read_to() == 0,
            final(self).written_to() == 0,
            final(self).successor() is None,
    {
        self.next = None;
        self.begin = 0;
        self.end = 0;
        assert(self@ == Seq::<T>::empty());
    }

    /// Writes a value to the next place.
    fn write(&mut self, value: T)
        requires
            old(self).wf(),
            old(self).written_to() < BLOCK_CAP,
        ensures
            final(self).wf(),
            final(self)@ == old(self)@.push(value),
            final(self).read_to() == old(self).read_to(),
            final(self).written_to() == old(self).written_to() + 1,
            final(self).successor() == old(self).successor(),
    {
        let offset = self.end;
        self.end = self.end + 1;
        self.values[offset] = Some(value);
        assert(self@ == old(self)@.push(value));
    }

    /// Reads the value in the next place.
    fn read(&mut self) -> (value: T)
        requires
            old(self).wf(),
            old(self)@.len() > 0,
        ensures
            final(self).wf(),
            value == old(self)@[0],
            final(self)@ == old(self)@.skip(1),
            final(self).read_to() == old(self).read_to() + 1,
            final(self).written_to() == old(self).written_to(),
            final(self).successor() == old(self).successor(),
    {
        let offset = self.begin;
        self.begin = self.begin + 1;
        let value = self.values[offset].take();
        assert(self@ == old(self)@.skip(1));
        value.unwrap()
    }
}

/// A queue of values.
pub struct Queue<T> {
    /// The blocks; they refer to each other by their places here.
    blocks: Vec<Block<T>>,
    /// The block to read from.
    head: usize,
    /// The block to write to. There is a place in it.
    tail: usize,
    /// The number of values.
    len: usize,
    /// The blocks in the order of the list, from `head` on.
    chain: Ghost<Seq<int>>,
}

impl<T> Queue<T> {
    /// The block at place `k` of the list.
    spec fn nth(&self, k: int) -> Block<T> {
        self.blocks@[self.chain@[k]]
    }

    /// How many places of the first block have been read.
    spec fn skipped(&self) -> int {
        self.nth(0).read_to() as int
    }

    /// Where in the list the block to write to is. Places are counted in blocks of
    /// [`BLOCK_CAP`], which is 32.
    spec fn tail_place(&self) -> int {
        (self.skipped() + self.len) / 32
    }

    /// Value number `i`, found by its block and its place in it.
    spec fn value(&self, i: int) -> T {
        let at = self.skipped() + i;
        let block = self.nth(at / 32);
        block@[at % 32 - block.read_to()]
    }

    /// The values, the first to come out first.
    pub closed spec fn view(&self) -> Seq<T> {
        Seq::new(self.len as nat, |i: int| self.value(i))
    }

    /// The blocks form one list, without a circle, that holds each of them.
    spec fn linked(&self) -> bool {
        &&& self.chain@.len() == self.blocks@.len() > 0
        &&& forall|k: int|
            0 <= k < self.chain@.len() ==> 0 <= #[trigger] self.chain@[k] < self.blocks@.len()
        &&& forall|j: int, k: int|
            0 <= j < k < self.chain@.len() ==> #[trigger] self.chain@[j] != #[trigger] self.chain@[k]
        &&& forall|k: int|
            0 <= k < self.chain@.len() ==> (#[trigger] self.nth(k)).successor() == (if k + 1
                < self.chain@.len() {
                Some(self.chain@[k + 1] as usize)
            } else {
                None
            })
    }

    /// What holds of a queue at all times: the blocks before the one to write to
    /// are full, those behind it are empty, and only the first has been read
    /// from.
    pub closed spec fn wf(&self) -> bool {
        &&& self.linked()
        &&& self.head == self.chain@[0]
        &&& self.skipped() < 32
        &&& self.tail_place() < self.chain@.len()
        &&& self.tail == self.chain@[self.tail_place()]
        &&& forall|k: int|
            0 <= k < self.chain@.len() ==> {
                let block = #[trigger] self.nth(k);
                &&& block.wf()
                &&& block.read_to() == (if k == 0 {
                    self.skipped()
                } else {
                    0
                })
                &&& block.written_to() == (if k < self.tail_place() {
                    32
                } else if k == self.tail_place() {
                    (self.skipped() + self.len) % 32
                } else {
                    0
                })
            }
    }

    /// An empty queue.
    pub fn new() -> (queue: Self)
        ensures
            queue.wf(),
            queue@ == Seq::<T>::empty(),
    {
        let mut blocks: Vec<Block<T>> = Vec::new();
        blocks.push(Block::new());
        let queue = Queue { blocks, head: 0, tail: 0, len: 0, chain: Ghost(Seq::empty().push(0int)) };
        assert(queue.nth(0) == blocks@[0]);
        assert(queue@ == Seq::<T>::empty());
        queue
    }

    /// The number of values.
    pub fn len(&self) -> (n: usize)
        ensures
            n == self@.len(),
    {
        self.len
    }

    /// Whether there is no value.
    pub fn is_empty(&self) -> (empty: bool)
        ensures
            empty <==> self@.len() == 0,
    {
        self.len == 0
    }

    /// Puts a value at the end of the queue.
    pub fn push_unchecked(&mut self, value: T)
        requires
            old(self).wf(),
            old(self)@.len() < usize::MAX,
        ensures
            final(self).wf(),
            final(self)@ == old(self)@.push(value),
    {
        let ghost place = self.tail_place();
        let ghost skipped = self.skipped();
        // Write the value to the block at the end
        let t = self.tail;
        assert(self.nth(place) == self.blocks@[t as int]);
        self.blocks[t].write(value);

        // Update the length, and make sure that there is a place in the tail
        self.len = self.len + 1;
        if !self.blocks[t].can_write() {
            match self.blocks[t].next {
                Some(next) => {
                    // just move the tail
                    assert(old(self).nth(place).successor() == Some(next));
                    assert(0 <= self.chain@[place + 1] < self.blocks.len());
                    self.tail = next;
                },
                None => {
                    // add a new block, and move the tail
                    let next = self.blocks.len();
                    self.blocks.push(Block::new());
                    self.blocks[t].next = Some(next);
                    self.tail = next;
                    proof {
                        self.chain@ = self.chain@.push(next as int);
                    }
                },
            }
        }
        proof {
            let before = *old(self);
            assert(forall|k: int|
                0 <= k < before.chain@.len() && k != place ==> #[trigger] self.nth(k)
                    == before.nth(k));
            assert(self.skipped() == skipped);
            assert(self.linked());
            let at = skipped + before.len;
            assert(before.nth(place).written_to() == at % 32);
            assert(self.tail_place() == (if at % 32 == 31 {
                place + 1
            } else {
                place
            }));
            assert(self.nth(place).written_to() == at % 32 + 1);
            assert(self.tail_place() < self.chain@.len());
            assert(self.tail == self.chain@[self.tail_place()]);
            assert forall|k: int| 0 <= k < self.chain@.len() implies {
                let block = #[trigger] self.nth(k);
                &&& block.wf()
                &&& block.read_to() == (if k == 0 {
                    self.skipped()
                } else {
                    0
                })
                &&& block.written_to() == (if k < self.tail_place() {
                    32
                } else if k == self.tail_place() {
                    (self.skipped() + self.len) % 32
                } else {
                    0
                })
            } by {
                if k < before.chain@.len() {
                    let old_block = before.nth(k);
                    assert(old_block.wf());
                }
            }
            assert(self.wf());
            assert forall|i: int| 0 <= i < before.len implies self.value(i) == before.value(i) by {
                let at = skipped + i;
                assert(self.nth(at / 32)@[at % 32 - self.nth(at / 32).read_to()] == before.nth(
                    at / 32,
                )@[at % 32 - before.nth(at / 32).read_to()]);
            }
            assert(self@ == before@.push(value));
        }
    }

    /// Reading a value that is not the last of its block keeps the queue in
    /// order.
    proof fn lemma_read(before: Self, after: Self)
        requires
            before.wf(),
            before.len > 0,
            before.skipped() < 31,
            after.chain == before.chain,
            after.head == before.head,
            after.tail == before.tail,
            after.len == before.len - 1,
            after.blocks@.len() == before.blocks@.len(),
            forall|j: int|
                0 <= j < before.blocks@.len() && j != before.head ==> #[trigger] after.blocks@[j]
                    == before.blocks@[j],
            after.nth(0).wf(),
            after.nth(0)@ == before.nth(0)@.skip(1),
            after.nth(0).read_to() == before.nth(0).read_to() + 1,
            after.nth(0).written_to() == before.nth(0).written_to(),
            after.nth(0).successor() == before.nth(0).successor(),
        ensures
            after.wf(),
            after@ == before@.skip(1),
    {
        assert forall|k: int| 0 < k < after.chain@.len() implies #[trigger] after.nth(k)
            == before.nth(k) by {
            assert(before.chain@[0] != before.chain@[k]);
        }
        assert forall|k: int| 0 <= k < after.chain@.len() implies (#[trigger] after.nth(
            k,
        )).successor() == before.nth(k).successor() by {}
        assert(after.linked());
        assert(after.tail_place() == before.tail_place());
        assert forall|i: int| 0 <= i < after.len implies after.value(i) == before.value(i + 1) by {
            let k = (after.skipped() + i) / 32;
            assert(after.skipped() + i == before.skipped() + (i + 1));
            if k == 0 {
                assert(before.nth(0).wf());
            }
        }
        assert(after@ == before@.skip(1));
    }

    /// Putting the first block behind the tail, once it has been read to its
    /// end, keeps the queue in order.
    proof fn lemma_recycled(before: Self, after: Self)
        requires
            before.wf(),
            before.len > 0,
            before.skipped() == 31,
            after.chain@ == before.chain@.remove(0).insert(before.tail_place(), before.chain@[0]),
            after.head == before.chain@[1],
            after.tail == before.tail,
            after.len == before.len - 1,
            after.blocks@.len() == before.blocks@.len(),
            forall|j: int|
                0 <= j < before.blocks@.len() && j != before.head && j != before.tail
                    ==> #[trigger] after.blocks@[j] == before.blocks@[j],
            ({
                let first = after.blocks@[before.head as int];
                &&& first.wf()
                &&& first@ == Seq::<T>::empty()
                &&& first.read_to() == 0
                &&& first.written_to() == 0
                &&& first.successor() == before.blocks@[before.tail as int].successor()
            }),
            ({
                let last = after.blocks@[before.tail as int];
                let old_last = before.blocks@[before.tail as int];
                &&& last.wf()
                &&& last@ == old_last@
                &&& last.read_to() == old_last.read_to()
                &&& last.written_to() == old_last.written_to()
                &&& last.successor() == Some(before.head)
            }),
        ensures
            after.wf(),
            after@ == before@.skip(1),
    {
        let place = before.tail_place();
        assert(0 < place < before.chain@.len());
        assert forall|k: int| 0 <= k < place implies after.chain@[k] == before.chain@[k + 1] by {}
        assert(after.chain@[place] == before.head);
        assert forall|k: int| place < k < before.chain@.len() implies after.chain@[k]
            == before.chain@[k] by {}
        assert forall|k: int| 0 <= k < place - 1 implies #[trigger] after.nth(k) == before.nth(
            k + 1,
        ) by {
            assert(before.chain@[0] != before.chain@[k + 1]);
            assert(before.chain@[k + 1] != before.chain@[place]);
        }
        assert forall|k: int| place < k < before.chain@.len() implies #[trigger] after.nth(k)
            == before.nth(k) by {
            assert(before.chain@[0] != before.chain@[k]);
            assert(before.chain@[place] != before.chain@[k]);
        }
        assert(before.nth(place) == before.blocks@[before.tail as int]);
        assert(after.nth(place - 1) == after.blocks@[before.tail as int]);
        assert(after.nth(place) == after.blocks@[before.head as int]);
        assert forall|k: int| 0 <= k < after.chain@.len() implies (#[trigger] after.nth(
            k,
        )).successor() == (if k + 1 < after.chain@.len() {
            Some(after.chain@[k + 1] as usize)
        } else {
            None
        }) by {
            if k < place - 1 {
                assert(after.nth(k) == before.nth(k + 1));
            } else if k == place {
                assert(before.nth(place).successor() == after.nth(k).successor());
            } else if k > place {
                assert(after.nth(k) == before.nth(k));
            }
        }
        assert(after.linked());
        assert(after.skipped() == 0) by {
            if place > 1 {
                assert(after.nth(0) == before.nth(1));
            }
        }
        assert(after.tail_place() == place - 1);
        assert forall|k: int| 0 <= k < after.chain@.len() implies {
            let block = #[trigger] after.nth(k);
            &&& block.wf()
            &&& block.read_to() == 0
            &&& block.written_to() == (if k < after.tail_place() {
                32
            } else if k == after.tail_place() {
                after.len as int % 32
            } else {
                0
            })
        } by {
            if k < place - 1 {
                assert(after.nth(k) == before.nth(k + 1));
            } else if k > place {
                assert(after.nth(k) == before.nth(k));
            }
        }
        assert forall|i: int| 0 <= i < after.len implies after.value(i) == before.value(i + 1) by {
            let k = i / 32;
            assert((before.skipped() + (i + 1)) / 32 == k + 1);
            if k < place - 1 {
                assert(after.nth(k) == before.nth(k + 1));
            }
        }
        assert(after@ == before@.skip(1));
    }

    /// Takes the first value out of the queue.
    pub fn pop_unchecked(&mut self) -> (value: T)
        requires
            old(self).wf(),
            old(self)@.len() > 0,
        ensures
            final(self).wf(),
            value == old(self)@[0],
            final(self)@ == old(self)@.skip(1),
    {
        let ghost place = self.tail_place();
        let ghost skipped = self.skipped();
        // Read the value from the first block
        let h = self.head;
        assert(self.nth(0) == self.blocks@[h as int]);
        assert(self.nth(0)@.len() > 0);
        assert(old(self)@[0] == old(self).value(0));
        let value = self.blocks[h].read();

        // Update the length, and put the first block behind the tail if it has
        // been read to its end
        self.len = self.len - 1;
        if self.blocks[h].begin == BLOCK_CAP {
            assert(place > 0);
            assert(old(self).nth(0).successor() == Some(self.chain@[1] as usize));
            assert(0 <= self.chain@[1] < self.blocks.len());
            let t = self.tail;
            assert(old(self).nth(place) == self.blocks@[t as int]);
            self.head = self.blocks[h].next.unwrap();
            let free_blocks = self.blocks[t].next;
            self.blocks[h].reset();
            self.blocks[h].next = free_blocks;
            self.blocks[t].next = Some(h);
            proof {
                let chain = self.chain@;
                self.chain@ = chain.remove(0).insert(place, chain[0]);
                assert(forall|k: int| 0 <= k < place ==> self.chain@[k] == chain[k + 1]);
                assert(self.chain@[place] == h);
                assert(forall|k: int| place < k < chain.len() ==> self.chain@[k] == chain[k]);
            }
        }
        proof {
            if skipped < 31 {
                Self::lemma_read(*old(self), *self);
            } else {
                Self::lemma_recycled(*old(self), *self);
            }
        }
        value
    }
}

} // verus!
