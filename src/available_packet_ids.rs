//! The pool of packet identifiers a client may lend out: every identifier in
//! `1..=receive_maximum` is either free or leased, never both. Released
//! identifiers are handed out again in the order they came back.
use std::collections::VecDeque;
use vstd::prelude::*;

verus! {

/// The identifiers a session with this receive maximum may use.
pub open spec fn id_range(receive_maximum: u16) -> Set<u16> {
    Set::new(|x: u16| 1 <= x && x <= receive_maximum)
}

/// A FIFO pool of packet identifiers.
#[derive(Debug)]
pub struct AvailablePacketIds {
    free: VecDeque<u16>,
    receive_maximum: u16,
}

impl AvailablePacketIds {
    /// The free identifiers, in the order they will be handed out.
    pub closed spec fn free(&self) -> Seq<u16> {
        self.free@
    }

    pub closed spec fn max(&self) -> u16 {
        self.receive_maximum
    }

    /// The identifiers currently lent out.
    pub open spec fn leased(&self) -> Set<u16> {
        id_range(self.max()).difference(self.free().to_set())
    }

    pub open spec fn wf(&self) -> bool {
        &&& self.max() >= 1
        &&& self.free().no_duplicates()
        &&& forall|i: int| 0 <= i < self.free().len() ==> 1 <= #[trigger] self.free()[i] <= self.max()
    }

    /// A pool with every identifier of `1..=receive_maximum` free, in
    /// increasing order.
    pub fn new(receive_maximum: u16) -> (r: Self)
        requires
            receive_maximum >= 1,
        ensures
            r.wf(),
            r.max() == receive_maximum,
            r.free() == Seq::new(receive_maximum as nat, |i: int| (i + 1) as u16),
            r.leased() == Set::<u16>::empty(),
    {
        let mut free: VecDeque<u16> = VecDeque::new();
        let mut i: u32 = 1;
        while i <= receive_maximum as u32
            invariant
                1 <= i <= receive_maximum as int + 1,
                free@ == Seq::new((i - 1) as nat, |j: int| (j + 1) as u16),
            decreases receive_maximum as int + 1 - i,
        {
            free.push_back(i as u16);
            proof {
                assert(free@ =~= Seq::new(i as nat, |j: int| (j + 1) as u16));
            }
            i = i + 1;
        }
        let r = AvailablePacketIds { free, receive_maximum };
        proof {
            assert(r.free().len() == receive_maximum);
            assert(r.leased() =~= Set::<u16>::empty()) by {
                assert forall|x: u16| id_range(receive_maximum).contains(x) implies r.free().to_set().contains(x) by {
                    assert(r.free()[x - 1] == x);
                }
            }
        }
        r
    }

    /// The receive maximum the pool was made with.
    pub fn receive_maximum(&self) -> (r: u16)
        ensures
            r == self.max(),
    {
        self.receive_maximum
    }

    /// The free identifiers, in the order they will be handed out.
    pub fn free_ids(&self) -> (r: Vec<u16>)
        ensures
            r@ == self.free(),
    {
        let mut r: Vec<u16> = Vec::new();
        let mut i: usize = 0;
        while i < self.free.len()
            invariant
                i <= self.free@.len(),
                r@ == self.free@.take(i as int),
            decreases self.free@.len() - i,
        {
            r.push(self.free[i]);
            i = i + 1;
            proof {
                assert(r@ =~= self.free@.take(i as int));
            }
        }
        proof {
            assert(self.free@.take(i as int) =~= self.free@);
        }
        r
    }

    /// How many identifiers are free.
    pub fn free_count(&self) -> (r: usize)
        ensures
            r == self.free().len(),
    {
        self.free.len()
    }

    /// Whether an identifier is free to be handed out now.
    pub fn has_free(&self) -> (r: bool)
        ensures
            r == (self.free().len() > 0),
    {
        self.free.len() > 0
    }

    /// Takes the identifier that has waited longest, or `None` when every
    /// identifier is leased.
    pub fn try_acquire(&mut self) -> (r: Option<u16>)
        requires
            old(self).wf(),
        ensures
            final(self).wf(),
            final(self).max() == old(self).max(),
            match r {
                Some(id) => {
                    &&& old(self).free().len() > 0
                    &&& id == old(self).free()[0]
                    &&& final(self).free() == old(self).free().drop_first()
                    &&& final(self).leased() == old(self).leased().insert(id)
                },
                None => old(self).free().len() == 0 && final(self).free() == old(self).free(),
            },
    {
        let r = self.free.pop_front();
        proof {
            if let Some(id) = r {
                let o = old(self).free();
                assert(self.free() =~= o.drop_first());
                lemma_drop_first_to_set(o);
                assert(self.leased() =~= old(self).leased().insert(id));
                assert forall|i: int| 0 <= i < self.free().len() implies 1 <= #[trigger] self.free()[i] <= self.max() by {
                    assert(self.free()[i] == o[i + 1]);
                }
            }
        }
        r
    }

    /// Gives a leased identifier back; it is handed out again after every
    /// identifier that is free now.
    pub fn release(&mut self, id: u16)
        requires
            old(self).wf(),
            old(self).leased().contains(id),
        ensures
            final(self).wf(),
            final(self).max() == old(self).max(),
            final(self).free() == old(self).free().push(id),
            final(self).leased() == old(self).leased().remove(id),
    {
        self.free.push_back(id);
        proof {
            let o = old(self).free();
            assert(self.free().to_set() =~= o.to_set().insert(id)) by {
                assert forall|x: u16| #[trigger] self.free().to_set().contains(x) implies o.to_set().contains(x) || x == id by {
                    let k = self.free().index_of(x);
                    if k < o.len() {
                        assert(o[k] == x);
                    }
                }
                assert forall|x: u16| #[trigger] o.to_set().contains(x) implies self.free().to_set().contains(x) by {
                    let k = o.index_of(x);
                    assert(self.free()[k] == x);
                }
                assert(self.free()[o.len() as int] == id);
            }
            assert(self.leased() =~= old(self).leased().remove(id));
        }
    }
}

/// Taking the first identifier off a list without repeats leaves the others.
pub proof fn lemma_drop_first_to_set(o: Seq<u16>)
    requires
        o.len() > 0,
        o.no_duplicates(),
    ensures
        o.drop_first().no_duplicates(),
        o.drop_first().to_set() == o.to_set().remove(o[0]),
{
    let d = o.drop_first();
    assert forall|i: int, j: int| 0 <= i < j < d.len() implies d[i] != d[j] by {
        assert(d[i] == o[i + 1] && d[j] == o[j + 1]);
    }
    assert(d.to_set() =~= o.to_set().remove(o[0])) by {
        assert forall|x: u16| #[trigger] o.to_set().contains(x) && x != o[0] implies d.to_set().contains(x) by {
            let k = o.index_of(x);
            assert(d[k - 1] == x);
        }
        assert forall|x: u16| #[trigger] d.to_set().contains(x) implies x != o[0] && o.to_set().contains(x) by {
            let k = d.index_of(x);
            assert(o[k + 1] == x);
        }
    }
}

/// Every identifier of the pool's range is either free or leased, and none
/// is both.
pub proof fn lemma_pool_partition(p: AvailablePacketIds)
    requires
        p.wf(),
    ensures
        p.leased().union(p.free().to_set()) == id_range(p.max()),
        p.leased().intersect(p.free().to_set()) == Set::<u16>::empty(),
{
    assert(p.leased().union(p.free().to_set()) =~= id_range(p.max())) by {
        assert forall|x: u16| #[trigger] p.free().to_set().contains(x) implies id_range(p.max()).contains(x) by {
            let k = p.free().index_of(x);
            assert(p.free()[k] == x);
        }
    }
    assert(p.leased().intersect(p.free().to_set()) =~= Set::<u16>::empty());
}

} // verus!
