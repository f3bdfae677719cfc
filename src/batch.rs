use vstd::prelude::*;

use crate::model::{Atom, AtomView};
use crate::sql::{insert_sql, insert_statement, views};

verus! {

/// Batch size of the writer.
pub const BATCH_SIZE: usize = 5000;

/// `s` cut, from the front, into batches of `b` items; the last may be shorter.
pub open spec fn chunks<A>(s: Seq<A>, b: nat) -> Seq<Seq<A>>
    recommends
        b >= 1,
    decreases s.len(),
{
    if s.len() == 0 || b == 0 {
        seq![]
    } else if s.len() <= b {
        seq![s]
    } else {
        seq![s.take(b as int)] + chunks(s.skip(b as int), b)
    }
}

/// Batch boundaries do not change the rows: for every batch size `b >= 1` the
/// batches hold between 1 and `b` items and, joined, give back `s`.
pub proof fn lemma_batches_rejoin<A>(s: Seq<A>, b: nat)
    requires
        b >= 1,
    ensures
        chunks(s, b).flatten() == s,
        forall|i: int|
            0 <= i < chunks(s, b).len() ==> 1 <= (#[trigger] chunks(s, b)[i]).len() <= b,
    decreases s.len(),
{
    let c = chunks(s, b);
    if s.len() == 0 {
        assert(c.flatten() =~= s);
    } else if s.len() <= b {
        c.lemma_flatten_one_element();
    } else {
        lemma_batches_rejoin(s.skip(b as int), b);
        assert(c.drop_first() =~= chunks(s.skip(b as int), b));
        assert(c.first() == s.take(b as int));
        assert(c.flatten() =~= s);
        assert forall|i: int| 0 <= i < c.len() implies 1 <= (#[trigger] c[i]).len() <= b by {
            if i > 0 {
                assert(c[i] == chunks(s.skip(b as int), b)[i - 1]);
            }
        }
    }
}

proof fn lemma_chunks_of_full<A>(f: Seq<Seq<A>>, t: Seq<A>, b: nat)
    requires
        b >= 1,
        forall|i: int| 0 <= i < f.len() ==> (#[trigger] f[i]).len() == b,
        t.len() <= b,
    ensures
        chunks(f.flatten() + t, b) == (if t.len() == 0 {
            f
        } else {
            f.push(t)
        }),
    decreases f.len(),
{
    if f.len() == 0 {
        assert(f.flatten() + t =~= t);
        if t.len() > 0 {
            assert(f.push(t) =~= seq![t]);
        }
    } else {
        let rest = f.drop_first();
        assert forall|i: int| 0 <= i < rest.len() implies (#[trigger] rest[i]).len() == b by {
            assert(rest[i] == f[i + 1]);
        }
        lemma_chunks_of_full(rest, t, b);
        let s = f.flatten() + t;
        assert(f.flatten() == f[0] + rest.flatten());
        assert(s =~= f[0] + (rest.flatten() + t));
        assert(s.take(b as int) =~= f[0]);
        assert(s.skip(b as int) =~= rest.flatten() + t);
        if rest.flatten().len() + t.len() == 0 {
            assert(rest.len() == 0) by {
                if rest.len() > 0 {
                    lemma_flatten_len_lower(rest);
                }
            }
            assert(s =~= f[0]);
            assert(f =~= seq![f[0]]);
        } else {
            assert(rest.flatten().len() + t.len() > 0);
            if t.len() == 0 {
                assert(seq![f[0]] + rest =~= f);
            } else {
                assert(seq![f[0]] + rest.push(t) =~= f.push(t));
            }
        }
    }
}

proof fn lemma_flatten_len_lower<A>(f: Seq<Seq<A>>)
    requires
        f.len() > 0,
        f[0].len() > 0,
    ensures
        f.flatten().len() > 0,
{
}

pub open spec fn flushed_ok(batches: Seq<Seq<AtomView>>, b: nat) -> bool {
    forall|i: int| 0 <= i < batches.len() ==> (#[trigger] batches[i]).len() == b
}

/// Gathers atoms into batches of a fixed size and hands out one INSERT
/// statement per full batch; `finish` hands out the last, partial one.
pub struct Batcher {
    capacity: usize,
    buffer: Vec<Atom>,
    flushed: Ghost<Seq<Seq<AtomView>>>,
}

impl Batcher {
    /// Batch size.
    pub closed spec fn capacity(&self) -> nat {
        self.capacity as nat
    }

    /// Batches handed out so far.
    pub closed spec fn batches(&self) -> Seq<Seq<AtomView>> {
        self.flushed@
    }

    /// Atoms held for the next batch.
    pub closed spec fn held(&self) -> Seq<AtomView> {
        views(self.buffer@)
    }

    /// Every atom pushed so far, in order.
    pub open spec fn pushed(&self) -> Seq<AtomView> {
        self.batches().flatten() + self.held()
    }

    pub closed spec fn wf(&self) -> bool {
        &&& self.capacity >= 1
        &&& self.buffer@.len() <= self.capacity
        &&& flushed_ok(self.flushed@, self.capacity as nat)
    }

    /// A well-formed batcher has a batch size of at least one and holds no
    /// more than one batch.
    pub proof fn lemma_wf_bounds(&self)
        requires
            self.wf(),
        ensures
            self.capacity() >= 1,
            self.held().len() <= self.capacity(),
    {
    }

    pub fn new(capacity: usize) -> (r: Batcher)
        requires
            capacity >= 1,
        ensures
            r.wf(),
            r.capacity() == capacity,
            r.capacity() >= 1,
            r.batches() == Seq::<Seq<AtomView>>::empty(),
            r.held() == Seq::<AtomView>::empty(),
    {
        let r = Batcher { capacity, buffer: Vec::new(), flushed: Ghost(Seq::empty()) };
        assert(r.held() =~= seq![]);
        r
    }

    /// Adds one atom. When a full batch is held, it is handed out first, as the
    /// statement that inserts it, and the atom starts the next batch.
    pub fn push(&mut self, atom: Atom) -> (r: Option<String>)
        requires
            old(self).wf(),
        ensures
            final(self).wf(),
            final(self).capacity() == old(self).capacity(),
            1 <= final(self).held().len() <= final(self).capacity(),
            final(self).pushed() == old(self).pushed().push(atom@),
            old(self).held().len() == old(self).capacity() ==> {
                &&& r matches Some(s) && s@ == insert_sql(old(self).held())
                &&& final(self).batches() == old(self).batches().push(old(self).held())
                &&& final(self).held() == seq![atom@]
            },
            old(self).held().len() < old(self).capacity() ==> {
                &&& r is None
                &&& final(self).batches() == old(self).batches()
                &&& final(self).held() == old(self).held().push(atom@)
            },
    {
        let ghost a = atom@;
        if self.buffer.len() == self.capacity {
            let stmt = insert_statement(self.buffer.as_slice());
            let ghost full = views(self.buffer@);
            self.flushed = Ghost(self.flushed@.push(full));
            self.buffer = Vec::new();
            self.buffer.push(atom);
            proof {
                assert(self.held() =~= seq![a]);
                assert(self.flushed@.flatten() =~= old(self).flushed@.flatten() + full) by {
                    old(self).flushed@.lemma_flatten_push(full);
                }
                assert(self.pushed() =~= old(self).pushed().push(a));
                assert(flushed_ok(self.flushed@, self.capacity as nat)) by {
                    assert forall|i: int| 0 <= i < self.flushed@.len() implies (#[trigger] self.flushed@[i]).len() == self.capacity by {
                        if i < old(self).flushed@.len() {
                            assert(self.flushed@[i] == old(self).flushed@[i]);
                        }
                    }
                }
            }
            stmt
        } else {
            self.buffer.push(atom);
            assert(self.held() =~= old(self).held().push(a));
            assert(self.pushed() =~= old(self).pushed().push(a));
            None
        }
    }

    /// Ends the input: the statement for the atoms still held, none if none
    /// are. The batches handed out, with this last one, are `pushed()` cut into
    /// batches of `capacity()`.
    pub fn finish(self) -> (r: Option<String>)
        requires
            self.wf(),
        ensures
            self.held().len() == 0 <==> r is None,
            r matches Some(s) ==> s@ == insert_sql(self.held()),
            chunks(self.pushed(), self.capacity()) == (if self.held().len() == 0 {
                self.batches()
            } else {
                self.batches().push(self.held())
            }),
    {
        proof {
            lemma_chunks_of_full(self.flushed@, self.held(), self.capacity as nat);
        }
        insert_statement(self.buffer.as_slice())
    }
}

} // verus!
