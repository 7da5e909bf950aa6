//! Walks over qhull's containers, and the buffer that collects the Voronoi
//! vertices.
//!
//! qhull keeps its sets as arrays of element pointers that end at the first
//! null entry, and its facet and vertex lists as linked lists that end in a
//! sentinel node (the one whose `next` is null, which is never handed out).
//! Here a set is a `Vec<Option<T>>` (`None` is a null entry, and a null set
//! is `None` as a whole), and a list is a `Vec` of its nodes in link order,
//! the sentinel last.
use crate::voronoi::{FacetNode, VertexNode};
use vstd::prelude::*;

verus! {

/// The members of a null-terminated set: the entries before the first null.
pub open spec fn set_members<T>(entries: Seq<Option<T>>) -> Seq<T>
    decreases entries.len(),
{
    if entries.len() == 0 {
        Seq::empty()
    } else {
        match entries[0] {
            Some(x) => seq![x] + set_members(entries.drop_first()),
            None => Seq::empty(),
        }
    }
}

/// The members of a set that may itself be null.
pub open spec fn optional_set_members<T>(set: Option<Vec<Option<T>>>) -> Seq<T> {
    match set {
        Some(entries) => set_members(entries@),
        None => Seq::empty(),
    }
}

/// The members of a set that start at the first entry of `entries` are
/// that entry followed by the members from the next one on.
pub proof fn lemma_set_members_step<T>(entries: Seq<Option<T>>, pos: int)
    requires
        0 <= pos < entries.len(),
    ensures
        entries[pos] is Some ==> set_members(entries.skip(pos)) == seq![entries[pos]->0]
            + set_members(entries.skip(pos + 1)),
        entries[pos] is None ==> set_members(entries.skip(pos)) == Seq::<T>::empty(),
{
    assert(entries.skip(pos)[0] == entries[pos]);
    assert(entries.skip(pos).drop_first() =~= entries.skip(pos + 1));
}

/// A walk over a null-terminated qhull set.
pub struct SetIter<'a, T> {
    entries: Option<&'a Vec<Option<T>>>,
    pos: usize,
}

impl<'a, T> SetIter<'a, T> {
    #[verifier::type_invariant]
    spec fn inv(self) -> bool {
        match self.entries {
            Some(e) => self.pos <= e@.len(),
            None => self.pos == 0,
        }
    }

    /// What the walk has still to hand out.
    pub closed spec fn remaining(self) -> Seq<T> {
        match self.entries {
            Some(e) => set_members(e@.skip(self.pos as int)),
            None => Seq::empty(),
        }
    }
}

impl<'a, T> View for SetIter<'a, T> {
    type V = Seq<T>;

    open spec fn view(&self) -> Seq<T> {
        self.remaining()
    }
}

impl<'a, T: Copy> SetIter<'a, T> {
    /// A walk over `set`; a null set has no members.
    pub fn new(set: &'a Option<Vec<Option<T>>>) -> (it: SetIter<'a, T>)
        ensures
            it@ == optional_set_members(*set),
    {
        match set {
            None => SetIter { entries: None, pos: 0 },
            Some(entries) => {
                let it = SetIter { entries: Some(entries), pos: 0 };
                assert(entries@.skip(0) =~= entries@);
                it
            },
        }
    }

    /// The next member, or `None` once the first null entry (or the end)
    /// is reached; from then on it keeps answering `None`.
    pub fn next(&mut self) -> (item: Option<T>)
        ensures
            old(self)@.len() > 0 ==> item == Some(old(self)@[0]) && final(self)@
                == old(self)@.drop_first(),
            old(self)@.len() == 0 ==> item is None && final(self)@ == old(self)@,
    {
        proof {
            use_type_invariant(&*self);
        }
        match self.entries {
            None => None,
            Some(entries) => {
                if self.pos < entries.len() {
                    proof {
                        lemma_set_members_step(entries@, self.pos as int);
                    }
                    match entries[self.pos] {
                        Some(x) => {
                            self.pos = self.pos + 1;
                            Some(x)
                        },
                        None => None,
                    }
                } else {
                    assert(entries@.skip(self.pos as int).len() == 0);
                    None
                }
            },
        }
    }
}

/// The nodes of a qhull list that a walk hands out: all but the sentinel.
pub open spec fn list_nodes<N>(list: Seq<N>) -> Seq<N> {
    list.subrange(0, list.len() - 1)
}

/// A walk over qhull's vertex list.
pub struct VertexIter<'a> {
    list: &'a Vec<VertexNode>,
    pos: usize,
}

impl<'a> VertexIter<'a> {
    #[verifier::type_invariant]
    spec fn inv(self) -> bool {
        0 < self.list@.len() && self.pos < self.list@.len()
    }

    /// The vertices the walk has still to hand out.
    pub closed spec fn remaining(self) -> Seq<VertexNode> {
        self.list@.subrange(self.pos as int, self.list@.len() - 1)
    }

    /// A walk over the list `list`, which holds at least its sentinel (a
    /// null list head is refused with a panic, so it is left out here).
    pub fn new(list: &'a Vec<VertexNode>) -> (it: VertexIter<'a>)
        requires
            list@.len() > 0,
        ensures
            it.remaining() == list_nodes(list@),
    {
        VertexIter { list, pos: 0 }
    }

    /// The next vertex, or `None` at the sentinel.
    pub fn next(&mut self) -> (item: Option<&'a VertexNode>)
        ensures
            old(self).remaining().len() > 0 ==> item == Some(&old(self).remaining()[0])
                && final(self).remaining() == old(self).remaining().drop_first(),
            old(self).remaining().len() == 0 ==> item is None && final(self).remaining()
                == old(self).remaining(),
    {
        proof {
            use_type_invariant(&*self);
        }
        if self.pos < self.list.len() - 1 {
            let node = &self.list[self.pos];
            self.pos = self.pos + 1;
            Some(node)
        } else {
            None
        }
    }
}

/// A walk over qhull's facet list.
pub struct FacetIter<'a, T> {
    list: &'a Vec<FacetNode<T>>,
    pos: usize,
}

impl<'a, T> FacetIter<'a, T> {
    #[verifier::type_invariant]
    spec fn inv(self) -> bool {
        0 < self.list@.len() && self.pos < self.list@.len()
    }

    /// The facets the walk has still to hand out.
    pub closed spec fn remaining(self) -> Seq<FacetNode<T>> {
        self.list@.subrange(self.pos as int, self.list@.len() - 1)
    }

    /// A walk over the list `list`, which holds at least its sentinel (a
    /// null list head is refused with a panic, so it is left out here).
    pub fn new(list: &'a Vec<FacetNode<T>>) -> (it: FacetIter<'a, T>)
        requires
            list@.len() > 0,
        ensures
            it.remaining() == list_nodes(list@),
    {
        FacetIter { list, pos: 0 }
    }

    /// The next facet, or `None` at the sentinel.
    pub fn next(&mut self) -> (item: Option<&'a FacetNode<T>>)
        ensures
            old(self).remaining().len() > 0 ==> item == Some(&old(self).remaining()[0])
                && final(self).remaining() == old(self).remaining().drop_first(),
            old(self).remaining().len() == 0 ==> item is None && final(self).remaining()
                == old(self).remaining(),
    {
        proof {
            use_type_invariant(&*self);
        }
        if self.pos < self.list.len() - 1 {
            let node = &self.list[self.pos];
            self.pos = self.pos + 1;
            Some(node)
        } else {
            None
        }
    }
}

/// The buffer after `item` is written at the 1-based `place`: grown with
/// empty slots to hold at least `place` slots, then slot `place - 1` set.
pub open spec fn buffer_write<T>(slots: Seq<Option<T>>, item: T, place: nat) -> Seq<Option<T>> {
    let grown = if place > slots.len() {
        slots + Seq::new((place - slots.len()) as nat, |i: int| None::<T>)
    } else {
        slots
    };
    grown.update(place - 1, Some(item))
}

/// A growable buffer of items addressed by 1-based place, as qhull numbers
/// the Voronoi vertices. A slot that was never written reads as
/// `T::default()` in the end.
pub struct VecBuffer<T> {
    slots: Vec<Option<T>>,
}

impl<T> View for VecBuffer<T> {
    type V = Seq<Option<T>>;

    closed spec fn view(&self) -> Seq<Option<T>> {
        self.slots@
    }
}

impl<T: Copy + Default> VecBuffer<T> {
    /// An empty buffer with room for `cap` items before it grows.
    pub fn new(cap: usize) -> (b: VecBuffer<T>)
        ensures
            b@ == Seq::<Option<T>>::empty(),
    {
        VecBuffer { slots: Vec::with_capacity(cap) }
    }

    /// Writes `item` at the 1-based `place`. Place 0 has no slot (the
    /// 0-based index `place - 1` underflows), so it is left out.
    pub fn write(&mut self, item: T, place: u32)
        requires
            place >= 1,
        ensures
            final(self)@ == buffer_write(old(self)@, item, place as nat),
    {
        let ghost old_slots = self.slots@;
        let target: usize = place as usize;
        while self.slots.len() < target
            invariant
                target == place,
                old_slots.len() <= self.slots@.len(),
                self.slots@.len() <= target || self.slots@ == old_slots,
                self.slots@.subrange(0, old_slots.len() as int) == old_slots,
                forall|i: int|
                    old_slots.len() <= i < self.slots@.len() ==> #[trigger] self.slots@[i] is None,
            decreases target - self.slots@.len(),
        {
            self.slots.push(None);
        }
        let ghost grown = self.slots@;
        assert(grown =~= (if (place as nat) > old_slots.len() {
            old_slots + Seq::new((place as nat - old_slots.len()) as nat, |i: int| None::<T>)
        } else {
            old_slots
        }));
        self.slots.set(target - 1, Some(item));
    }

    /// The items, slot by slot; a slot never written holds `T::default()`.
    pub fn to_vec(self) -> (v: Vec<T>)
        ensures
            v@.len() == self@.len(),
            forall|i: int|
                0 <= i < v@.len() ==> (match #[trigger] self@[i] {
                    Some(x) => v@[i] == x,
                    None => call_ensures(T::default, (), v@[i]),
                }),
    {
        let mut v: Vec<T> = Vec::with_capacity(self.slots.len());
        let n = self.slots.len();
        for k in 0..n
            invariant
                n == self.slots@.len(),
                v@.len() == k,
                forall|i: int|
                    0 <= i < k ==> (match #[trigger] self.slots@[i] {
                        Some(x) => v@[i] == x,
                        None => call_ensures(T::default, (), v@[i]),
                    }),
        {
            match self.slots[k] {
                Some(x) => v.push(x),
                None => v.push(T::default()),
            }
        }
        v
    }
}

/// A write leaves `item` at slot `place - 1`, makes the buffer
/// `max(len, place)` slots long, keeps every other old slot, and leaves the
/// slots it added empty.
pub proof fn lemma_buffer_write<T>(slots: Seq<Option<T>>, item: T, place: nat)
    requires
        place >= 1,
    ensures
        buffer_write(slots, item, place).len() == if place > slots.len() {
            place as int
        } else {
            slots.len() as int
        },
        buffer_write(slots, item, place)[place - 1] == Some(item),
        forall|i: int|
            0 <= i < buffer_write(slots, item, place).len() && i != place - 1 ==> #[trigger] buffer_write(
                slots,
                item,
                place,
            )[i] == if i < slots.len() {
                slots[i]
            } else {
                None
            },
{
}

/// The members of a set are its entries up to the first null one (or up
/// to the end): each member is the entry at its position, and the entry
/// just after the last member, if any, is null.
pub proof fn lemma_set_members<T>(entries: Seq<Option<T>>)
    ensures
        set_members(entries).len() <= entries.len(),
        forall|i: int|
            0 <= i < set_members(entries).len() ==> entries[i] == Some(
                #[trigger] set_members(entries)[i],
            ),
        set_members(entries).len() < entries.len() ==> entries[set_members(entries).len() as int] is None,
    decreases entries.len(),
{
    if entries.len() > 0 {
        let rest = entries.drop_first();
        lemma_set_members(rest);
        if entries[0] is Some {
            let m = set_members(entries);
            assert forall|i: int| 0 <= i < m.len() implies entries[i] == Some(
                #[trigger] m[i],
            ) by {
                if i > 0 {
                    assert(rest[i - 1] == entries[i]);
                }
            }
            if m.len() < entries.len() {
                assert(rest[m.len() - 1] == entries[m.len() as int]);
            }
        }
    }
}

/// A walk over a qhull list hands out every node but the last (the
/// sentinel), in list order.
pub proof fn lemma_list_nodes<N>(list: Seq<N>)
    requires
        list.len() > 0,
    ensures
        list_nodes(list).len() == list.len() - 1,
        forall|k: int| 0 <= k < list.len() - 1 ==> #[trigger] list_nodes(list)[k] == list[k],
{
}

} // verus!
