//! A queue of fixed capacity that wraps around in its storage.

use vstd::prelude::*;

verus! {

/// A first-in, first-out queue that holds up to `CAP` items.
pub struct RingBuffer<T: Copy, const CAP: usize> {
    buffer: Vec<T>,
    first: usize,
    last: usize,
    empty: bool,
}

impl<T: Copy, const CAP: usize> RingBuffer<T, CAP> {
    /// The number of items held.
    pub closed spec fn count(&self) -> nat {
        if self.empty {
            0
        } else if self.first < self.last {
            (self.last - self.first) as nat
        } else {
            (self.last + CAP - self.first) as nat
        }
    }

    /// The place in the storage of the item `i` places behind the oldest.
    pub closed spec fn slot(&self, i: int) -> int {
        if self.first + i < CAP {
            self.first + i
        } else {
            self.first + i - CAP
        }
    }

    /// The storage has `CAP` places, and the two ends lie inside it.
    pub closed spec fn wf(&self) -> bool {
        &&& self.buffer@.len() == CAP
        &&& CAP > 0 ==> self.first < CAP && self.last < CAP
        &&& CAP == 0 ==> self.first == 0 && self.last == 0 && self.empty
        &&& self.empty ==> self.first == self.last
    }
}

impl<T: Copy, const CAP: usize> View for RingBuffer<T, CAP> {
    type V = Seq<T>;

    /// The items held, oldest first.
    closed spec fn view(&self) -> Seq<T> {
        Seq::new(self.count(), |i: int| self.buffer@[self.slot(i)])
    }
}

impl<T: Copy + Default, const CAP: usize> RingBuffer<T, CAP> {
    /// An empty queue whose storage is filled with the default item.
    pub fn new() -> (r: Self)
        ensures
            r.wf(),
            r@ == Seq::<T>::empty(),
    {
        Self::new_with(T::default())
    }
}

impl<T: Copy, const CAP: usize> RingBuffer<T, CAP> {
    /// An empty queue whose storage is filled with `initial`.
    pub fn new_with(initial: T) -> (r: Self)
        ensures
            r.wf(),
            r@ == Seq::<T>::empty(),
    {
        let mut buffer: Vec<T> = Vec::new();
        let mut i: usize = 0;
        while i < CAP
            invariant
                i <= CAP,
                buffer@.len() == i,
            decreases CAP - i,
        {
            buffer.push(initial);
            i += 1;
        }
        let r = Self { buffer, first: 0, last: 0, empty: true };
        assert(r@ =~= Seq::<T>::empty());
        r
    }

    /// The number of items held.
    pub fn len(&self) -> (r: usize)
        requires
            self.wf(),
        ensures
            r == self@.len(),
            r <= CAP,
    {
        if self.empty {
            0
        } else if self.first < self.last {
            self.last - self.first
        } else {
            self.buffer.len() - self.first + self.last
        }
    }

    /// The number of items that the queue can hold.
    pub fn capacity(&self) -> (r: usize)
        requires
            self.wf(),
        ensures
            r == CAP,
    {
        self.buffer.len()
    }

    /// The place in the storage of the item at `index`, if there is one.
    fn wrap_index(&self, index: usize) -> (r: Option<usize>)
        requires
            self.wf(),
        ensures
            match r {
                Some(x) => index < self@.len() && x == self.slot(index as int) && x < CAP,
                None => index >= self@.len(),
            },
    {
        if index >= self.len() {
            None
        } else {
            let room = self.buffer.len() - self.first;
            if index < room {
                Some(self.first + index)
            } else {
                Some(index - room)
            }
        }
    }

    /// The item at `index`, counted from the oldest, if there is one.
    pub fn get(&self, index: usize) -> (r: Option<&T>)
        requires
            self.wf(),
        ensures
            match r {
                Some(x) => index < self@.len() && *x == self@[index as int],
                None => index >= self@.len(),
            },
    {
        match self.wrap_index(index) {
            Some(x) => Some(&self.buffer[x]),
            None => None,
        }
    }

    /// The item at `index`, counted from the oldest, for writing, if there
    /// is one.
    pub fn get_mut(&mut self, index: usize) -> (r: Option<&mut T>)
        requires
            old(self).wf(),
        ensures
            final(self).wf(),
            match r {
                Some(x) => {
                    &&& index < old(self)@.len()
                    &&& *x == old(self)@[index as int]
                    &&& final(self)@ == old(self)@.update(index as int, *final(x))
                },
                None => index >= old(self)@.len() && final(self)@ == old(self)@,
            },
    {
        match self.wrap_index(index) {
            Some(x) => Some(&mut self.buffer[x]),
            None => None,
        }
    }

    /// The oldest item, if there is one.
    pub fn try_peek(&self) -> (r: Option<T>)
        requires
            self.wf(),
        ensures
            match r {
                Some(x) => self@.len() > 0 && x == self@[0],
                None => self@.len() == 0,
            },
    {
        if !self.empty {
            Some(self.buffer[self.first])
        } else {
            None
        }
    }

    /// The oldest item of a queue that is not empty.
    pub fn peek(&self) -> (r: T)
        requires
            self.wf(),
            self@.len() > 0,
        ensures
            r == self@[0],
    {
        self.buffer[self.first]
    }

    /// Appends `data` unless the queue is full.
    pub fn try_push(&mut self, data: T) -> (r: Option<()>)
        requires
            old(self).wf(),
            CAP > 0,
        ensures
            final(self).wf(),
            match r {
                Some(_) => old(self)@.len() < CAP && final(self)@ == old(self)@.push(data),
                None => old(self)@.len() == CAP && final(self)@ == old(self)@,
            },
    {
        if self.empty || self.first != self.last {
            let ghost before = *self;
            self.buffer[self.last] = data;
            self.last += 1;
            if self.last >= self.buffer.len() {
                self.last = 0;
            }
            self.empty = false;
            proof {
                assert(self@.len() == before@.len() + 1);
                assert forall|i: int| 0 <= i < self@.len() implies self@[i] == before@.push(data)[i] by {
                    if i < before@.len() {
                        assert(self.slot(i) == before.slot(i));
                        assert(before.slot(i) != before.last);
                    }
                }
                assert(self@ =~= before@.push(data));
            }
            Some(())
        } else {
            None
        }
    }

    /// Appends `data` to a queue that is not full.
    pub fn push(&mut self, data: T)
        requires
            old(self).wf(),
            old(self)@.len() < CAP,
        ensures
            final(self).wf(),
            final(self)@ == old(self)@.push(data),
    {
        let _ = self.try_push(data);
    }

    /// Appends `data`; a full queue drops its oldest item to make room.
    /// Returns whether an item was dropped.
    pub fn push_force(&mut self, data: T) -> (forced: bool)
        requires
            old(self).wf(),
            CAP > 0,
        ensures
            final(self).wf(),
            forced == (old(self)@.len() == CAP),
            final(self)@ == if forced {
                old(self)@.drop_first().push(data)
            } else {
                old(self)@.push(data)
            },
    {
        let ghost before = *self;
        let mut forced = false;
        self.buffer[self.last] = data;
        if !self.empty && self.first == self.last {
            forced = true;
            self.first += 1;
            if self.first >= self.buffer.len() {
                self.first = 0;
            }
        }
        self.last += 1;
        if self.last >= self.buffer.len() {
            self.last = 0;
        }
        self.empty = false;
        proof {
            if forced {
                let want = before@.drop_first().push(data);
                assert(self@.len() == want.len());
                assert forall|i: int| 0 <= i < self@.len() implies self@[i] == want[i] by {
                    if i < CAP - 1 {
                        assert(self.slot(i) == before.slot(i + 1));
                    }
                }
                assert(self@ =~= want);
            } else {
                let want = before@.push(data);
                assert(self@.len() == want.len());
                assert forall|i: int| 0 <= i < self@.len() implies self@[i] == want[i] by {
                    if i < before@.len() {
                        assert(self.slot(i) == before.slot(i));
                    }
                }
                assert(self@ =~= want);
            }
        }
        forced
    }

    /// Replaces the item at `index`, counted from the oldest.
    pub fn set(&mut self, index: usize, value: T)
        requires
            old(self).wf(),
            index < old(self)@.len(),
        ensures
            final(self).wf(),
            final(self)@ == old(self)@.update(index as int, value),
    {
        let ghost before = *self;
        let room = self.buffer.len() - self.first;
        let x = if index < room {
            self.first + index
        } else {
            index - room
        };
        self.buffer[x] = value;
        proof {
            assert forall|i: int| 0 <= i < self@.len() implies self@[i] == before@.update(
                index as int,
                value,
            )[i] by {
                assert(self.slot(i) == before.slot(i));
            }
            assert(self@ =~= before@.update(index as int, value));
        }
    }

    /// Inserts `data` before the item at `pos`. A full queue drops its oldest
    /// item to make room, and `data` then comes to stand at `pos`, or at the
    /// end where `pos` is the length. Returns whether an item was dropped.
    pub fn insert_force(&mut self, pos: usize, data: T) -> (forced: bool)
        requires
            old(self).wf(),
            CAP > 0,
            pos <= old(self)@.len(),
        ensures
            final(self).wf(),
            forced == (old(self)@.len() == CAP),
            final(self)@ == if !forced {
                old(self)@.insert(pos as int, data)
            } else if pos == old(self)@.len() {
                old(self)@.drop_first().push(data)
            } else {
                old(self)@.drop_first().insert(pos as int, data)
            },
    {
        let ghost v = self@;
        let len = self.len();
        if self.empty || pos == len {
            let forced = self.push_force(data);
            proof {
                if !forced {
                    assert(v.push(data) =~= v.insert(pos as int, data));
                }
            }
            forced
        } else if self.first != self.last {
            self.push(data);
            let mut j: usize = len;
            while j > pos
                invariant
                    pos <= j <= len,
                    len == v.len(),
                    len < CAP,
                    self.wf(),
                    self@.len() == len + 1,
                    forall|k: int| 0 <= k < j ==> self@[k] == v[k],
                    forall|k: int| j < k <= len ==> self@[k] == v[k - 1],
                decreases j,
            {
                j -= 1;
                let item = self.peek_at(j);
                self.set(j + 1, item);
            }
            self.set(pos, data);
            proof {
                assert(self@ =~= v.insert(pos as int, data));
            }
            false
        } else {
            let mut i: usize = 0;
            while i < pos
                invariant
                    i <= pos < len,
                    len == v.len(),
                    len == CAP,
                    self.wf(),
                    self@.len() == len,
                    forall|k: int| 0 <= k < i ==> self@[k] == v[k + 1],
                    forall|k: int| i <= k < len ==> self@[k] == v[k],
                decreases pos - i,
            {
                let item = self.peek_at(i + 1);
                self.set(i, item);
                i += 1;
            }
            self.set(pos, data);
            proof {
                assert(self@ =~= v.drop_first().insert(pos as int, data));
            }
            true
        }
    }

    /// The item at `index`, counted from the oldest, of a queue that has one
    /// there.
    pub fn peek_at(&self, index: usize) -> (r: T)
        requires
            self.wf(),
            index < self@.len(),
        ensures
            r == self@[index as int],
    {
        let room = self.buffer.len() - self.first;
        if index < room {
            self.buffer[self.first + index]
        } else {
            self.buffer[index - room]
        }
    }

    /// Takes the oldest item out, if there is one.
    pub fn try_pop(&mut self) -> (r: Option<T>)
        requires
            old(self).wf(),
        ensures
            final(self).wf(),
            match r {
                Some(x) => {
                    &&& old(self)@.len() > 0
                    &&& x == old(self)@[0]
                    &&& final(self)@ == old(self)@.drop_first()
                },
                None => old(self)@.len() == 0 && final(self)@ == old(self)@,
            },
    {
        if !self.empty {
            let ghost before = *self;
            let value = self.buffer[self.first];
            self.first += 1;
            if self.first >= self.buffer.len() {
                self.first = 0;
            }
            if self.first == self.last {
                self.empty = true;
            }
            proof {
                let want = before@.drop_first();
                assert(self@.len() == want.len());
                assert forall|i: int| 0 <= i < self@.len() implies self@[i] == want[i] by {
                    assert(self.slot(i) == before.slot(i + 1));
                }
                assert(self@ =~= want);
            }
            Some(value)
        } else {
            None
        }
    }

    /// Takes the oldest item out of a queue that is not empty.
    pub fn pop(&mut self) -> (r: T)
        requires
            old(self).wf(),
            old(self)@.len() > 0,
        ensures
            final(self).wf(),
            r == old(self)@[0],
            final(self)@ == old(self)@.drop_first(),
    {
        let value = self.buffer[self.first];
        let _ = self.try_pop();
        value
    }
}

} // verus!
