//! Buffers of a user, in as many pieces as the pages they lie on.

use vstd::prelude::*;

verus! {

/// The bytes of all pieces, one after the other.
pub open spec fn flat(s: Seq<Vec<u8>>) -> Seq<u8>
    decreases s.len(),
{
    if s.len() == 0 {
        Seq::empty()
    } else {
        flat(s.drop_last()) + s.last()@
    }
}

/// The pieces have the same lengths.
pub open spec fn same_shape(s: Seq<Vec<u8>>, t: Seq<Vec<u8>>) -> bool {
    s.len() == t.len() && forall|i: int| 0 <= i < s.len() ==> #[trigger] s[i]@.len() == t[i]@.len()
}

/// `to` with its first bytes from `from`, as many as both have.
pub open spec fn overlaid(from: Seq<u8>, to: Seq<u8>) -> Seq<u8> {
    Seq::new(
        to.len(),
        |i: int|
            if i < from.len() {
                from[i]
            } else {
                to[i]
            },
    )
}

/// The bytes of the pieces that stand before the first empty one.
pub open spec fn leading(s: Seq<Vec<u8>>) -> nat
    decreases s.len(),
{
    if s.len() == 0 || s[0]@.len() == 0 {
        0
    } else {
        s[0]@.len() + leading(s.skip(1))
    }
}

/// The smaller of two lengths.
pub open spec fn least(a: nat, b: nat) -> nat {
    if a <= b {
        a
    } else {
        b
    }
}

/// The bytes before piece `i`.
pub open spec fn before(s: Seq<Vec<u8>>, i: int) -> nat {
    flat(s.take(i)).len()
}

proof fn lemma_before(s: Seq<Vec<u8>>, i: int)
    requires
        0 <= i < s.len(),
    ensures
        before(s, i + 1) == before(s, i) + s[i]@.len(),
{
    assert(s.take(i + 1).drop_last() =~= s.take(i));
}

proof fn lemma_before_le(s: Seq<Vec<u8>>, i: int, j: int)
    requires
        0 <= i <= j <= s.len(),
    ensures
        before(s, i) <= before(s, j),
    decreases j - i,
{
    if i < j {
        lemma_before_le(s, i, j - 1);
        lemma_before(s, j - 1);
    }
}

proof fn lemma_before_all(s: Seq<Vec<u8>>)
    ensures
        before(s, 0) == 0,
        before(s, s.len() as int) == flat(s).len(),
{
    assert(s.take(0) =~= Seq::<Vec<u8>>::empty());
    assert(s.take(s.len() as int) =~= s);
}

/// Byte `k` of piece `i` stands behind the bytes of the pieces before.
proof fn lemma_flat_index(s: Seq<Vec<u8>>, i: int, k: int)
    requires
        0 <= i < s.len(),
        0 <= k < s[i]@.len(),
    ensures
        before(s, i) + k < flat(s).len(),
        flat(s)[before(s, i) + k] == s[i]@[k],
    decreases s.len(),
{
    let front = s.drop_last();
    if i < front.len() {
        lemma_flat_index(front, i, k);
        assert(front.take(i) =~= s.take(i));
        assert(front[i] == s[i]);
    } else {
        assert(s.take(i) =~= front);
    }
}

/// A byte written in a piece is written in the whole.
proof fn lemma_flat_update(s: Seq<Vec<u8>>, t: Seq<Vec<u8>>, i: int, k: int, b: u8)
    requires
        0 <= i < s.len(),
        0 <= k < s[i]@.len(),
        t.len() == s.len(),
        forall|j: int| 0 <= j < s.len() && j != i ==> #[trigger] t[j]@ == s[j]@,
        t[i]@ == s[i]@.update(k, b),
    ensures
        flat(t) == flat(s).update(before(s, i) + k, b),
    decreases s.len(),
{
    let front = s.drop_last();
    let front_t = t.drop_last();
    if i < front.len() {
        assert forall|j: int| 0 <= j < front.len() && j != i implies #[trigger] front_t[j]@
            == front[j]@ by {
            assert(t[j]@ == s[j]@);
        }
        lemma_flat_update(front, front_t, i, k, b);
        assert(front.take(i) =~= s.take(i));
        lemma_flat_index(front, i, k);
        assert(t[s.len() - 1]@ == s[s.len() - 1]@);
        assert(flat(t) =~= flat(s).update(before(s, i) + k, b));
    } else {
        lemma_flat_same(front, front_t);
        assert(s.take(i) =~= front);
        assert(flat(t) =~= flat(s).update(before(s, i) + k, b));
    }
}

proof fn lemma_flat_same(s: Seq<Vec<u8>>, t: Seq<Vec<u8>>)
    requires
        t.len() == s.len(),
        forall|j: int| 0 <= j < s.len() ==> #[trigger] t[j]@ == s[j]@,
    ensures
        flat(t) == flat(s),
    decreases s.len(),
{
    if s.len() > 0 {
        assert forall|j: int| 0 <= j < s.len() - 1 implies #[trigger] t.drop_last()[j]@
            == s.drop_last()[j]@ by {
            assert(t[j]@ == s[j]@);
        }
        lemma_flat_same(s.drop_last(), t.drop_last());
        assert(t[s.len() - 1]@ == s[s.len() - 1]@);
    }
}

proof fn lemma_shape_before(s: Seq<Vec<u8>>, t: Seq<Vec<u8>>, i: int)
    requires
        same_shape(s, t),
        0 <= i <= s.len(),
    ensures
        before(s, i) == before(t, i),
    decreases i,
{
    if i > 0 {
        lemma_shape_before(s, t, i - 1);
        lemma_before(s, i - 1);
        lemma_before(t, i - 1);
        assert(s[i - 1]@.len() == t[i - 1]@.len());
    } else {
        lemma_before_all(s);
        lemma_before_all(t);
    }
}

/// Writes one byte of a piece.
fn put(pieces: &mut Vec<Vec<u8>>, i: usize, k: usize, b: u8)
    requires
        i < old(pieces)@.len(),
        k < old(pieces)@[i as int]@.len(),
    ensures
        same_shape(old(pieces)@, final(pieces)@),
        flat(final(pieces)@) == flat(old(pieces)@).update(before(old(pieces)@, i as int) + k, b),
{
    let ghost s = pieces@;
    pieces[i][k] = b;
    proof {
        lemma_flat_update(s, pieces@, i as int, k as int, b);
    }
}

/// Copies the bytes of `source` over those of `destination`; returns how many.
pub fn copy_segments(source: &Vec<Vec<u8>>, destination: &mut Vec<Vec<u8>>) -> (copied: usize)
    requires
        flat(source@).len() <= usize::MAX,
    ensures
        copied == least(flat(source@).len(), flat(old(destination)@).len()),
        same_shape(old(destination)@, final(destination)@),
        flat(final(destination)@) == overlaid(flat(source@), flat(old(destination)@)),
{
    let ghost d = destination@;
    let mut si: usize = 0;
    let mut so: usize = 0;
    let mut di: usize = 0;
    let mut dk: usize = 0;
    let mut copied: usize = 0;
    proof {
        lemma_before_all(source@);
        lemma_before_all(d);
        assert(flat(destination@) =~= overlaid(flat(source@).take(0), flat(d)));
    }
    while si < source.len() && di < destination.len()
        invariant
            flat(source@).len() <= usize::MAX,
            si <= source@.len(),
            di <= d.len(),
            same_shape(d, destination@),
            si < source@.len() ==> so <= source@[si as int]@.len(),
            si == source@.len() ==> so == 0,
            di < d.len() ==> dk <= d[di as int]@.len(),
            di == d.len() ==> dk == 0,
            copied == before(source@, si as int) + so,
            copied == before(d, di as int) + dk,
            flat(destination@) == overlaid(flat(source@).take(copied as int), flat(d)),
        decreases source@.len() - si + d.len() - di, flat(source@).len() - copied,
    {
        proof {
            lemma_before(source@, si as int);
            lemma_before(d, di as int);
            lemma_before_le(source@, si + 1, source@.len() as int);
            lemma_before_all(source@);
            assert(d[di as int]@.len() == destination@[di as int]@.len());
        }
        if so == source[si].len() {
            si = si + 1;
            so = 0;
        } else if dk == destination[di].len() {
            di = di + 1;
            dk = 0;
        } else {
            let b: u8 = source[si][so];
            proof {
                lemma_flat_index(source@, si as int, so as int);
                lemma_shape_before(d, destination@, di as int);
                lemma_flat_index(destination@, di as int, dk as int);
            }
            let ghost mid = destination@;
            put(destination, di, dk, b);
            proof {
                assert forall|i: int| 0 <= i < d.len() implies #[trigger] d[i]@.len()
                    == destination@[i]@.len() by {
                    assert(d[i]@.len() == mid[i]@.len());
                    assert(mid[i]@.len() == destination@[i]@.len());
                }
                assert(flat(destination@) =~= overlaid(
                    flat(source@).take(copied + 1),
                    flat(d),
                ));
            }
            so = so + 1;
            dk = dk + 1;
            copied = copied + 1;
        }
    }
    proof {
        lemma_before_all(source@);
        lemma_before_all(d);
        lemma_before_le(source@, si as int, source@.len() as int);
        lemma_before_le(d, di as int, d.len() as int);
        if si < source@.len() {
            lemma_before(source@, si as int);
            lemma_before_le(source@, si + 1, source@.len() as int);
        }
        if di < d.len() {
            lemma_before(d, di as int);
            lemma_before_le(d, di + 1, d.len() as int);
        }
        assert(flat(destination@) =~= overlaid(flat(source@), flat(d)));
    }
    copied
}

/// A buffer of a user.
pub struct UserBuffer {
    pub buffers: Vec<Vec<u8>>,
}

impl UserBuffer {
    /// The bytes of the buffer.
    pub open spec fn bytes(&self) -> Seq<u8> {
        flat(self.buffers@)
    }

    /// Makes a buffer of pieces.
    pub fn new(buffers: Vec<Vec<u8>>) -> (buffer: Self)
        ensures
            buffer.buffers == buffers,
    {
        UserBuffer { buffers }
    }

    /// Returns the number of bytes.
    pub fn len(&self) -> (len: usize)
        requires
            self.bytes().len() <= usize::MAX,
        ensures
            len == self.bytes().len(),
    {
        let mut n: usize = 0;
        let mut i: usize = 0;
        proof {
            lemma_before_all(self.buffers@);
        }
        while i < self.buffers.len()
            invariant
                i <= self.buffers@.len(),
                n == before(self.buffers@, i as int),
                before(self.buffers@, self.buffers@.len() as int) == self.bytes().len(),
                self.bytes().len() <= usize::MAX,
            decreases self.buffers@.len() - i,
        {
            proof {
                lemma_before(self.buffers@, i as int);
                lemma_before_le(self.buffers@, i + 1, self.buffers@.len() as int);
            }
            n = n + self.buffers[i].len();
            i = i + 1;
        }
        n
    }

    /// Writes data over the first bytes of the buffer.
    pub fn write(&mut self, data: &Vec<u8>)
        ensures
            same_shape(old(self).buffers@, final(self).buffers@),
            final(self).bytes() == overlaid(data@, old(self).bytes()),
    {
        let mut source: Vec<Vec<u8>> = Vec::new();
        let copy = data.clone();
        assert(copy@ =~= data@);
        source.push(copy);
        proof {
            assert(source@.drop_last() =~= Seq::<Vec<u8>>::empty());
            assert(flat(source@.drop_last()) =~= Seq::<u8>::empty());
            assert(flat(source@) =~= data@);
            assert(data@.len() <= usize::MAX);
        }
        copy_segments(&source, &mut self.buffers);
    }

    /// Returns how many bytes the pieces before the first empty one have.
    fn leading_len(&self) -> (len: usize)
        requires
            self.bytes().len() <= usize::MAX,
        ensures
            len == leading(self.buffers@),
            len <= self.bytes().len(),
    {
        let mut n: usize = 0;
        let mut i: usize = 0;
        proof {
            lemma_before_all(self.buffers@);
            assert(self.buffers@.skip(0) =~= self.buffers@);
        }
        while i < self.buffers.len() && self.buffers[i].len() > 0
            invariant
                i <= self.buffers@.len(),
                n == before(self.buffers@, i as int),
                leading(self.buffers@) == n + leading(self.buffers@.skip(i as int)),
                n <= self.bytes().len(),
                before(self.buffers@, self.buffers@.len() as int) == self.bytes().len(),
                self.bytes().len() <= usize::MAX,
            decreases self.buffers@.len() - i,
        {
            proof {
                lemma_before(self.buffers@, i as int);
                lemma_before_le(self.buffers@, i + 1, self.buffers@.len() as int);
                assert(self.buffers@.skip(i as int).skip(1) =~= self.buffers@.skip(i + 1));
            }
            n = n + self.buffers[i].len();
            i = i + 1;
        }
        n
    }

    /// Writes data over the pieces before the first empty one; returns how many bytes.
    pub fn write_leading(&mut self, data: &Vec<u8>) -> (len: usize)
        requires
            old(self).bytes().len() <= usize::MAX,
        ensures
            len == least(data@.len(), leading(old(self).buffers@)),
            len <= old(self).bytes().len(),
            same_shape(old(self).buffers@, final(self).buffers@),
            final(self).bytes() == overlaid(data@.take(len as int), old(self).bytes()),
    {
        let room = self.leading_len();
        let mut fitting = data.clone();
        assert(fitting@ =~= data@);
        if fitting.len() > room {
            fitting.truncate(room);
        }
        assert(fitting@ =~= data@.take(least(data@.len(), leading(self.buffers@)) as int));
        self.write(&fitting);
        fitting.len()
    }

    /// Reads the first bytes of the buffer over data.
    pub fn read(&self, data: &mut Vec<u8>)
        requires
            self.bytes().len() <= usize::MAX,
        ensures
            final(data)@ == overlaid(self.bytes(), old(data)@),
    {
        let mut target: Vec<Vec<u8>> = Vec::new();
        let copy = data.clone();
        assert(copy@ =~= data@);
        target.push(copy);
        proof {
            assert(target@.drop_last() =~= Seq::<Vec<u8>>::empty());
            assert(flat(target@.drop_last()) =~= Seq::<u8>::empty());
            assert(flat(target@) =~= data@);
        }
        copy_segments(&self.buffers, &mut target);
        proof {
            assert(target@.drop_last() =~= Seq::<Vec<u8>>::empty());
            assert(flat(target@.drop_last()) =~= Seq::<u8>::empty());
            assert(flat(target@) =~= target@[0]@);
        }
        if let Some(copy) = target.pop() {
            *data = copy;
        }
    }

    /// Copies the bytes over those of another buffer; returns how many.
    pub fn read_into_buffer(&self, data: &mut UserBuffer) -> (copied: usize)
        requires
            self.bytes().len() <= usize::MAX,
        ensures
            copied == least(self.bytes().len(), old(data).bytes().len()),
            final(data).bytes() == overlaid(self.bytes(), old(data).bytes()),
            same_shape(old(data).buffers@, final(data).buffers@),
    {
        copy_segments(&self.buffers, &mut data.buffers)
    }

    /// Copies the bytes of another buffer over those of this one; returns how many.
    pub fn write_from_buffer(&mut self, data: &UserBuffer) -> (copied: usize)
        requires
            data.bytes().len() <= usize::MAX,
        ensures
            copied == least(data.bytes().len(), old(self).bytes().len()),
            final(self).bytes() == overlaid(data.bytes(), old(self).bytes()),
            same_shape(old(self).buffers@, final(self).buffers@),
    {
        copy_segments(&data.buffers, &mut self.buffers)
    }
}

/// What was written to a buffer is what is read back from it.
pub proof fn law_read_what_was_written(data: Seq<u8>, buffer: Seq<u8>, target: Seq<u8>)
    requires
        data.len() <= buffer.len(),
        target.len() == data.len(),
    ensures
        overlaid(overlaid(data, buffer), target) == data,
{
    assert(overlaid(overlaid(data, buffer), target) =~= data);
}

/// Goes through the bytes of a buffer: the piece and the place in it.
///
/// No piece is empty.
pub struct UserBufferIterator {
    lengths: Vec<usize>,
    current_buffer: usize,
    current_idx: usize,
}

impl UserBufferIterator {
    /// The lengths of the pieces.
    pub closed spec fn lengths(&self) -> Seq<usize> {
        self.lengths@
    }

    /// The place of the next byte.
    pub closed spec fn place(&self) -> (usize, usize) {
        (self.current_buffer, self.current_idx)
    }

    /// The place is that of a byte, or behind the last piece.
    pub open spec fn wf(&self) -> bool {
        &&& forall|i: int| 0 <= i < self.lengths().len() ==> #[trigger] self.lengths()[i] > 0
        &&& self.place().0 <= self.lengths().len()
        &&& self.place().0 < self.lengths().len() ==> self.place().1
            < self.lengths()[self.place().0 as int]
    }

    /// Starts with the first byte.
    pub fn new(lengths: Vec<usize>) -> (places: Self)
        requires
            forall|i: int| 0 <= i < lengths@.len() ==> #[trigger] lengths@[i] > 0,
        ensures
            places.wf(),
            places.lengths() == lengths@,
            places.place() == (0usize, 0usize),
    {
        UserBufferIterator { lengths, current_buffer: 0, current_idx: 0 }
    }

    /// Returns the place of the next byte, if there is one, and goes on.
    pub fn next(&mut self) -> (place: Option<(usize, usize)>)
        requires
            old(self).wf(),
        ensures
            final(self).wf(),
            final(self).lengths() == old(self).lengths(),
            ({
                let (i, k) = old(self).place();
                if i >= old(self).lengths().len() {
                    place is None && final(self).place() == old(self).place()
                } else {
                    &&& place == Some((i, k))
                    &&& final(self).place() == if k + 1 == old(self).lengths()[i as int] {
                        ((i + 1) as usize, 0usize)
                    } else {
                        (i, (k + 1) as usize)
                    }
                }
            }),
    {
        if self.current_buffer >= self.lengths.len() {
            return None;
        }
        let place = (self.current_buffer, self.current_idx);
        self.current_idx = self.current_idx + 1;
        if self.current_idx == self.lengths[self.current_buffer] {
            self.current_idx = 0;
            self.current_buffer = self.current_buffer + 1;
        }
        Some(place)
    }
}

} // verus!
