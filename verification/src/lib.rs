//! Zip an arbitrary number of sequences in lockstep.
//!
//! [`manyzip`] builds a [`Manyzip`], a stateful adapter that owns one cursor
//! per input sequence and produces rows on demand: each row takes one element
//! from every cursor, in the order the inputs were given. Rows stop as soon as
//! any one input runs out.

use vstd::prelude::*;

verus! {

/// A cursor over one input sequence: each [`Cursor::next`] call hands out the
/// front of the remaining elements, or reports end-of-sequence.
#[derive(Debug)]
pub struct Cursor<T> {
    rest: Vec<T>,
}

impl<T> View for Cursor<T> {
    type V = Seq<T>;

    /// The elements this cursor has yet to produce, in order.
    closed spec fn view(&self) -> Seq<T> {
        self.rest@
    }
}

impl<T> Cursor<T> {
    /// Wraps a collection as a cursor positioned at its start; no element is
    /// consumed.
    pub fn new(items: Vec<T>) -> (cursor: Cursor<T>)
        ensures
            cursor@ == items@,
    {
        Cursor { rest: items }
    }

    /// Advances by exactly one position: hands out the front element, or
    /// `None` once no element is left (in which case nothing changes).
    pub fn next(&mut self) -> (item: Option<T>)
        ensures
            old(self)@.len() == 0 ==> item is None && final(self)@ == old(self)@,
            old(self)@.len() > 0 ==> item == Some(old(self)@[0]) && final(self)@
                == old(self)@.drop_first(),
    {
        if self.rest.len() == 0 {
            None
        } else {
            Some(self.rest.remove(0))
        }
    }
}

/// Length of the shortest sequence among `seqs`; zero when there is none.
pub open spec fn min_len<T>(seqs: Seq<Seq<T>>) -> nat
    decreases seqs.len(),
{
    if seqs.len() == 0 {
        0
    } else if seqs.len() == 1 {
        seqs[0].len()
    } else if seqs[0].len() <= min_len(seqs.drop_first()) {
        seqs[0].len()
    } else {
        min_len(seqs.drop_first())
    }
}

/// The rows that zipping `seqs` in lockstep yields: row `i` holds the `i`-th
/// element of every sequence, in the order given; there are as many rows as
/// the shortest sequence has elements, and none at all when `seqs` is empty.
pub open spec fn zip_rows<T>(seqs: Seq<Seq<T>>) -> Seq<Seq<T>> {
    Seq::new(min_len(seqs), |i: int| Seq::new(seqs.len(), |j: int| seqs[j][i]))
}

proof fn lemma_min_len_le<T>(seqs: Seq<Seq<T>>, j: int)
    requires
        0 <= j < seqs.len(),
    ensures
        min_len(seqs) <= seqs[j].len(),
    decreases seqs.len(),
{
    if seqs.len() > 1 && j > 0 {
        lemma_min_len_le(seqs.drop_first(), j - 1);
    }
}

proof fn lemma_min_len_ge<T>(seqs: Seq<Seq<T>>, bound: nat)
    requires
        seqs.len() > 0,
        forall|j: int| 0 <= j < seqs.len() ==> bound <= seqs[j].len(),
    ensures
        bound <= min_len(seqs),
    decreases seqs.len(),
{
    if seqs.len() > 1 {
        assert forall|j: int| 0 <= j < seqs.drop_first().len() implies bound <= seqs.drop_first()[j].len() by {
            assert(seqs.drop_first()[j] == seqs[j + 1]);
        }
        lemma_min_len_ge(seqs.drop_first(), bound);
    }
}

proof fn lemma_min_len_achieved<T>(seqs: Seq<Seq<T>>) -> (j: int)
    requires
        seqs.len() > 0,
    ensures
        0 <= j < seqs.len(),
        min_len(seqs) == seqs[j].len(),
    decreases seqs.len(),
{
    if seqs.len() == 1 {
        0
    } else if seqs[0].len() <= min_len(seqs.drop_first()) {
        0
    } else {
        let j = lemma_min_len_achieved(seqs.drop_first());
        j + 1
    }
}

/// The zip of `seqs` has exactly as many rows as the shortest input has
/// elements: no more than any input's length, and exactly the length of some
/// input; with no inputs at all there are no rows.
pub proof fn lemma_zip_rows_len<T>(seqs: Seq<Seq<T>>)
    ensures
        zip_rows(seqs).len() == min_len(seqs),
        forall|j: int| 0 <= j < seqs.len() ==> min_len(seqs) <= seqs[j].len(),
        seqs.len() > 0 ==> exists|j: int| 0 <= j < seqs.len() && min_len(seqs) == seqs[j].len(),
        seqs.len() == 0 ==> zip_rows(seqs).len() == 0,
{
    assert forall|j: int| 0 <= j < seqs.len() implies min_len(seqs) <= seqs[j].len() by {
        lemma_min_len_le(seqs, j);
    }
    if seqs.len() > 0 {
        let j = lemma_min_len_achieved(seqs);
        assert(0 <= j < seqs.len() && min_len(seqs) == seqs[j].len());
    }
}

/// Within the zip of `seqs`, every row is as long as there are inputs, and
/// row `i` holds at position `j` the `i`-th element of the `j`-th input.
pub proof fn lemma_zip_rows_index<T>(seqs: Seq<Seq<T>>, i: int, j: int)
    requires
        0 <= i < zip_rows(seqs).len(),
        0 <= j < seqs.len(),
    ensures
        zip_rows(seqs)[i].len() == seqs.len(),
        i < seqs[j].len(),
        zip_rows(seqs)[i][j] == seqs[j][i],
{
    lemma_min_len_le(seqs, j);
}

/// If any input is empty, the zip yields no row at all, whatever the lengths
/// of the other inputs.
pub proof fn lemma_zip_rows_empty_inner<T>(seqs: Seq<Seq<T>>, j: int)
    requires
        0 <= j < seqs.len(),
        seqs[j].len() == 0,
    ensures
        zip_rows(seqs).len() == 0,
{
    lemma_min_len_le(seqs, j);
}

/// True when one of `seqs` has no element left, so that no further row can be
/// assembled from their fronts.
pub open spec fn some_empty<T>(seqs: Seq<Seq<T>>) -> bool {
    exists|j: int| 0 <= j < seqs.len() && seqs[j].len() == 0
}

/// Every sequence of `seqs` with its front element taken; one that is already
/// empty stays empty.
pub open spec fn advanced_once<T>(seqs: Seq<Seq<T>>) -> Seq<Seq<T>> {
    Seq::new(
        seqs.len(),
        |j: int|
            if seqs[j].len() == 0 {
                seqs[j]
            } else {
                seqs[j].drop_first()
            },
    )
}

/// The row assembled from the front elements of `seqs`.
pub open spec fn front_row<T>(seqs: Seq<Seq<T>>) -> Seq<T> {
    Seq::new(seqs.len(), |j: int| seqs[j][0])
}

/// Adapter that zips an arbitrary number of cursors into rows; created by
/// [`manyzip`].
///
/// Its view is the sequence of the cursors' remaining elements. Once any
/// cursor reports end-of-sequence the adapter is permanently exhausted: it
/// keeps reporting exhaustion and never touches a cursor again.
#[derive(Debug)]
pub struct Manyzip<T> {
    cursors: Vec<Cursor<T>>,
    exhausted: bool,
}

impl<T> View for Manyzip<T> {
    type V = Seq<Seq<T>>;

    /// What each cursor has yet to produce, in cursor order.
    closed spec fn view(&self) -> Seq<Seq<T>> {
        Seq::new(self.cursors@.len() as nat, |j: int| self.cursors@[j]@)
    }
}

impl<T> Manyzip<T> {
    /// True once the adapter has reported exhaustion: that state is terminal.
    pub closed spec fn is_exhausted(&self) -> bool {
        self.exhausted
    }

    /// Produces the next row, or reports exhaustion.
    ///
    /// With no cursors at all, or once exhaustion has been reported, nothing
    /// is inspected or advanced and the call reports exhaustion again. On any
    /// other call every cursor is advanced exactly once, in cursor order, even
    /// past the first end-of-sequence signal of that call; the call yields a
    /// row exactly when every cursor still had an element, and otherwise
    /// leaves the adapter permanently exhausted.
    pub fn next(&mut self) -> (row: Option<Vec<T>>)
        ensures
            old(self).is_exhausted() || old(self)@.len() == 0 ==> row is None && *final(self)
                == *old(self),
            !old(self).is_exhausted() && old(self)@.len() > 0 ==> final(self)@ == advanced_once(
                old(self)@,
            ),
            final(self).is_exhausted() <==> old(self).is_exhausted() || (old(self)@.len() > 0
                && some_empty(old(self)@)),
            row is Some <==> !old(self).is_exhausted() && old(self)@.len() > 0 && !some_empty(
                old(self)@,
            ),
            row matches Some(r) ==> r@ == front_row(old(self)@),
    {
        if self.exhausted {
            return None;
        }
        let n = self.cursors.len();
        if n == 0 {
            return None;
        }
        let ghost init: Seq<Seq<T>> = self@;
        let mut advanced: Vec<Cursor<T>> = Vec::new();
        let mut row: Vec<T> = Vec::new();
        let mut ended: bool = false;
        let mut j: usize = 0;
        while j < n
            invariant
                n == init.len(),
                j <= n,
                !self.exhausted,
                self.cursors@.len() == n - j,
                forall|i: int| 0 <= i < n - j ==> self.cursors@[i]@ == init[j + i],
                advanced@.len() == j,
                forall|i: int|
                    0 <= i < j ==> advanced@[i]@ == (if init[i].len() == 0 {
                        init[i]
                    } else {
                        init[i].drop_first()
                    }),
                ended <==> exists|i: int| 0 <= i < j && init[i].len() == 0,
                !ended ==> row@.len() == j && (forall|i: int|
                    0 <= i < j ==> row@[i] == init[i][0]),
            decreases n - j,
        {
            let mut cursor = self.cursors.remove(0);
            match cursor.next() {
                Some(element) => {
                    row.push(element);
                },
                None => {
                    ended = true;
                },
            }
            advanced.push(cursor);
            j = j + 1;
        }
        self.cursors = advanced;
        assert(self@ =~= advanced_once(init));
        if ended {
            self.exhausted = true;
            None
        } else {
            assert(row@ =~= front_row(init));
            Some(row)
        }
    }

    /// Drains the adapter: calls [`Manyzip::next`] until it reports
    /// exhaustion and returns every row produced, in order. On an adapter
    /// that has not yet reported exhaustion that is the whole zip of what its
    /// cursors hold; on an exhausted one it is nothing.
    pub fn collect(self) -> (rows: Vec<Vec<T>>)
        ensures
            !self.is_exhausted() ==> rows@.map_values(|r: Vec<T>| r@) == zip_rows(self@),
            self.is_exhausted() ==> rows@.len() == 0,
    {
        let ghost init: Seq<Seq<T>> = self@;
        let ghost exh: bool = self.is_exhausted();
        let mut zipper = self;
        let mut rows: Vec<Vec<T>> = Vec::new();
        loop
            invariant_except_break
                exh ==> zipper.is_exhausted() && rows@.len() == 0,
                !exh ==> {
                    &&& !zipper.is_exhausted()
                    &&& zipper@.len() == init.len()
                    &&& rows@.len() <= min_len(init)
                    &&& forall|j: int|
                        0 <= j < init.len() ==> zipper@[j] == init[j].skip(rows@.len() as int)
                    &&& rows@.map_values(|r: Vec<T>| r@) == zip_rows(init).take(
                        rows@.len() as int,
                    )
                },
            ensures
                exh ==> rows@.len() == 0,
                !exh ==> rows@.map_values(|r: Vec<T>| r@) == zip_rows(init),
            decreases min_len(init) - rows@.len(),
        {
            let ghost pre: Seq<Seq<T>> = zipper@;
            let ghost k: int = rows@.len() as int;
            match zipper.next() {
                Some(row) => {
                    proof {
                        assert forall|j: int| 0 <= j < init.len() implies k + 1
                            <= init[j].len() by {
                            lemma_min_len_le(init, j);
                            assert(pre[j] == init[j].skip(k));
                            assert(!(0 <= j < pre.len() && pre[j].len() == 0));
                        }
                        lemma_min_len_ge(init, (k + 1) as nat);
                        assert forall|j: int| 0 <= j < init.len() implies advanced_once(pre)[j]
                            == init[j].skip(k + 1) by {
                            assert(init[j].skip(k).drop_first() =~= init[j].skip(k + 1));
                        }
                    }
                    rows.push(row);
                    proof {
                        assert(rows@.map_values(|r: Vec<T>| r@) =~~= zip_rows(init).take(k + 1));
                    }
                },
                None => {
                    proof {
                        if !exh {
                            if pre.len() == 0 {
                                assert(rows@.len() == 0);
                            } else {
                                let w = choose|j: int|
                                    0 <= j < pre.len() && pre[j].len() == 0;
                                lemma_min_len_le(init, w);
                                assert(init[w].len() == k);
                            }
                            assert(zip_rows(init).take(k) =~~= zip_rows(init));
                        }
                    }
                    break;
                },
            }
        }
        rows
    }
}

/// Returns a [`Manyzip`] over all the collections provided: one cursor per
/// collection, in the order given, none of them advanced yet. Construction
/// cannot fail; an empty outer collection yields an adapter with no cursors.
pub fn manyzip<T>(iterators: Vec<Vec<T>>) -> (zipper: Manyzip<T>)
    ensures
        zipper@.len() == iterators@.len(),
        forall|j: int| 0 <= j < iterators@.len() ==> zipper@[j] == iterators@[j]@,
        !zipper.is_exhausted(),
{
    let ghost outer: Seq<Vec<T>> = iterators@;
    let mut rest = iterators;
    let mut cursors: Vec<Cursor<T>> = Vec::new();
    while rest.len() > 0
        invariant
            cursors@.len() + rest@.len() == outer.len(),
            forall|j: int| 0 <= j < cursors@.len() ==> cursors@[j]@ == outer[j]@,
            forall|j: int| 0 <= j < rest@.len() ==> rest@[j] == outer[cursors@.len() + j],
        decreases rest@.len(),
    {
        let inner = rest.remove(0);
        cursors.push(Cursor::new(inner));
    }
    Manyzip { cursors, exhausted: false }
}

} // verus!
