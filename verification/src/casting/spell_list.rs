//! SpellList: functional lists of iotas.

use vstd::prelude::*;
use crate::iota::{Iota, IotaValue};

verus! {

/// A list of iotas: a cons cell, a view of a vector from an index on, or
/// the empty list.
#[derive(Debug, PartialEq)]
pub enum SpellList {
    Pair(Box<Iota>, Box<SpellList>),
    Array { idx: usize, data: Vec<Iota> },
    Nil,
}

/// The values of the iotas of `data` from position `idx` on; none when `idx`
/// lies past the end.
pub open spec fn values_from(data: Seq<Iota>, idx: int) -> Seq<IotaValue> {
    if idx <= data.len() {
        Seq::new((data.len() - idx) as nat, |k: int| data[idx + k].value())
    } else {
        Seq::empty()
    }
}

/// The values of a sequence of iotas.
pub open spec fn values_of(data: Seq<Iota>) -> Seq<IotaValue> {
    values_from(data, 0)
}

impl SpellList {
    /// The values of the iotas of the list, in order.
    pub open spec fn items(self) -> Seq<IotaValue>
        decreases self,
    {
        match self {
            SpellList::Pair(car, cdr) => seq![car.value()].add(cdr.items()),
            SpellList::Array { idx, data } => values_from(data@, idx as int),
            SpellList::Nil => Seq::empty(),
        }
    }

    /// Every array view in the list starts within its vector, so the list
    /// can be flattened.
    pub open spec fn wf(self) -> bool
        decreases self,
    {
        match self {
            SpellList::Pair(_, cdr) => cdr.wf(),
            SpellList::Array { idx, data } => idx <= data@.len(),
            SpellList::Nil => true,
        }
    }

    /// Whether `self` has the shape of `other` and holds iotas of the same
    /// values: cons cells with equal heads and like tails, array views at the
    /// same index of vectors of equal values, or both empty.
    pub open spec fn like(self, other: SpellList) -> bool
        decreases self,
    {
        match self {
            SpellList::Pair(a, c) => match other {
                SpellList::Pair(b, d) => a.value() == b.value() && c.like(*d),
                _ => false,
            },
            SpellList::Array { idx: i, data: x } => match other {
                SpellList::Array { idx: j, data: y } => i == j && values_of(x@) == values_of(y@),
                _ => false,
            },
            SpellList::Nil => other is Nil,
        }
    }

    /// Whether the index of every array view in the list can be stepped
    /// forward without overflow.
    pub open spec fn steppable(self) -> bool {
        match self {
            SpellList::Array { idx, data } => idx < usize::MAX,
            _ => true,
        }
    }

    pub fn car(&self) -> (r: Option<&Iota>)
        ensures
            r is Some <==> self.items().len() > 0,
            r matches Some(i) ==> i.value() == self.items()[0],
    {
        match self {
            SpellList::Pair(car, _) => Some(&**car),
            SpellList::Array { idx, data } => {
                if *idx < data.len() {
                    Some(&data[*idx])
                } else {
                    None
                }
            },
            SpellList::Nil => None,
        }
    }

    pub fn cdr(&self) -> (r: Option<SpellList>)
        requires
            self.steppable(),
        ensures
            r is None <==> self is Nil,
            r matches Some(l) ==> l.items() == (if self.items().len() == 0 {
                Seq::<IotaValue>::empty()
            } else {
                self.items().drop_first()
            }),
            r matches Some(l) ==> (self.wf() ==> l.wf()),
            r matches Some(l) ==> match *self {
                SpellList::Pair(_, c) => l.like(*c),
                SpellList::Array { idx, data } => if idx + 1 < data@.len() {
                    l.like(SpellList::Array { idx: (idx + 1) as usize, data })
                } else {
                    l is Nil
                },
                SpellList::Nil => false,
            },
    {
        match self {
            SpellList::Pair(_, cdr) => {
                let l = (**cdr).clone();
                assert(self.items().drop_first() =~= cdr.items());
                Some(l)
            },
            SpellList::Array { idx, data } => {
                if *idx + 1 < data.len() {
                    let l = SpellList::Array { idx: *idx + 1, data: copy_iotas(data) };
                    assert(l.items() =~= self.items().drop_first());
                    Some(l)
                } else {
                    let l = SpellList::Nil;
                    assert(l.items() =~= (if self.items().len() == 0 {
                        Seq::<IotaValue>::empty()
                    } else {
                        self.items().drop_first()
                    }));
                    Some(l)
                }
            },
            SpellList::Nil => None,
        }
    }

    pub fn is_empty(&self) -> (b: bool)
        ensures
            b == (self is Nil),
    {
        match self {
            SpellList::Nil => true,
            _ => false,
        }
    }

    pub fn len(&self) -> (n: usize)
        requires
            self.items().len() <= usize::MAX,
        ensures
            n == self.items().len(),
        decreases self,
    {
        match self {
            SpellList::Pair(_, cdr) => 1 + cdr.len(),
            SpellList::Array { idx, data } => {
                if *idx <= data.len() {
                    data.len() - *idx
                } else {
                    0
                }
            },
            SpellList::Nil => 0,
        }
    }

    pub fn from_vec(vec: Vec<Iota>) -> (l: Self)
        ensures
            l == (SpellList::Array { idx: 0, data: vec }),
            l.items() == values_of(vec@),
            l.wf(),
    {
        SpellList::Array { idx: 0, data: vec }
    }
}

impl SpellList {
    /// Push copies of the iotas of `list` onto `vec`.
    fn append_flattened(vec: &mut Vec<Iota>, list: &SpellList)
        requires
            list.wf(),
        ensures
            values_of(final(vec)@) == values_of(old(vec)@).add(list.items()),
        decreases list,
    {
        match list {
            SpellList::Nil => {
                assert(values_of(vec@) =~= values_of(vec@).add(list.items()));
            },
            SpellList::Pair(car, cdr) => {
                let ghost v0 = values_of(vec@);
                vec.push((**car).clone());
                assert(values_of(vec@) =~= v0.push(car.value()));
                SpellList::append_flattened(vec, cdr);
                assert(v0.push(car.value()).add(cdr.items()) =~= v0.add(list.items()));
            },
            SpellList::Array { idx, data } => {
                let ghost v0 = values_of(vec@);
                let mut i: usize = *idx;
                while i < data.len()
                    invariant
                        *idx <= i <= data@.len(),
                        values_of(vec@) == v0.add(values_from(data@, *idx as int).take(i - *idx)),
                    decreases data@.len() - i,
                {
                    let ghost before = vec@;
                    vec.push(data[i].clone());
                    assert(values_of(vec@) =~= values_of(before).push(data@[i as int].value()));
                    i = i + 1;
                    assert(values_from(data@, *idx as int).take(i - *idx) =~= values_from(
                        data@,
                        *idx as int,
                    ).take(i - 1 - *idx).push(data@[i - 1].value()));
                }
                assert(values_from(data@, *idx as int).take(i - *idx) =~= list.items());
            },
        }
    }

    /// The iotas of the list, copied into a vector.
    pub fn to_vec(&self) -> (r: Vec<Iota>)
        requires
            self.wf(),
        ensures
            values_of(r@) == self.items(),
    {
        let mut vec: Vec<Iota> = Vec::new();
        assert(values_of(vec@) =~= Seq::<IotaValue>::empty());
        SpellList::append_flattened(&mut vec, self);
        assert(Seq::<IotaValue>::empty().add(self.items()) =~= self.items());
        vec
    }

    /// A copy of the iota at position `start_idx`, if there is one.
    pub fn get_at(&self, start_idx: usize) -> (r: Option<Iota>)
        requires
            self.wf(),
        ensures
            r is Some <==> start_idx < self.items().len(),
            r matches Some(i) ==> i.value() == self.items()[start_idx as int],
    {
        let vec = self.to_vec();
        if start_idx < vec.len() {
            assert(values_of(vec@)[start_idx as int] == vec@[start_idx as int].value());
            Some(vec[start_idx].clone())
        } else {
            None
        }
    }

    /// Replace the iotas from position `start_idx` on by those of the list
    /// that `f` makes of the whole list. A position past the end leaves the
    /// iotas as they are. The result is a vector view from position 0.
    pub fn modify_at<F>(&self, start_idx: usize, f: F) -> (r: SpellList)
        where
            F: FnOnce(&SpellList) -> SpellList,
        requires
            self.wf(),
            forall|s: SpellList| #[trigger] call_requires(f, (&s,)),
            forall|s: SpellList, t: SpellList| #[trigger] call_ensures(f, (&s,), t) ==> t.wf(),
        ensures
            r.wf(),
            r is Array && r->idx == 0,
            start_idx >= self.items().len() ==> r.items() == self.items(),
            start_idx < self.items().len() ==> exists|s: SpellList, t: SpellList|
                {
                    &&& s.items() == self.items()
                    &&& call_ensures(f, (&s,), t)
                    &&& r.items() == self.items().take(start_idx as int).add(t.items())
                },
    {
        let mut vec = self.to_vec();
        if start_idx < vec.len() {
            let sub = SpellList::from_vec(copy_iotas(&vec));
            assert(sub.items() =~= self.items());
            let new_sub = f(&sub);
            let ghost v0 = values_of(vec@);
            vec.truncate(start_idx);
            assert(values_of(vec@) =~= v0.take(start_idx as int));
            SpellList::append_flattened(&mut vec, &new_sub);
            let r = SpellList::from_vec(vec);
            assert(r.items() =~= values_of(vec@));
            r
        } else {
            let r = SpellList::from_vec(vec);
            assert(r.items() =~= values_of(vec@));
            r
        }
    }

    /// An owning iterator over copies of the iotas of the list.
    pub fn iter(&self) -> (it: IntoIter)
        ensures
            it.remaining() == self.items(),
    {
        IntoIter { list: Some(self.clone()) }
    }

    /// An owning iterator over the iotas of the list.
    pub fn into_iter(self) -> (it: IntoIter)
        ensures
            it.remaining() == self.items(),
    {
        IntoIter { list: Some(self) }
    }
}

/// Owning iterator over a spell list.
pub struct IntoIter {
    list: Option<SpellList>,
}

impl IntoIter {
    /// The values that the iterator has yet to hand out.
    pub closed spec fn remaining(&self) -> Seq<IotaValue> {
        match self.list {
            Some(l) => l.items(),
            None => Seq::empty(),
        }
    }

    /// The next iota, if any; the iterator moves past it.
    pub fn next(&mut self) -> (r: Option<Iota>)
        ensures
            next_step(old(self).remaining(), value_of(r), final(self).remaining()),
            r is None <==> old(self).remaining().len() == 0,
            r is None ==> final(self).remaining().len() == 0,
            r matches Some(i) ==> i.value() == old(self).remaining()[0] && final(self).remaining()
                == old(self).remaining().drop_first(),
    {
        match self.list.take() {
            None => None,
            Some(SpellList::Nil) => None,
            Some(SpellList::Pair(car, cdr)) => {
                let ghost whole = SpellList::Pair(car, cdr);
                self.list = Some(*cdr);
                assert(whole.items().drop_first() =~= cdr.items());
                Some(*car)
            },
            Some(SpellList::Array { idx, data }) => {
                if idx < data.len() {
                    let item = data[idx].clone();
                    let ghost whole = SpellList::Array { idx, data };
                    let l = SpellList::Array { idx: idx + 1, data };
                    assert(l.items() =~= whole.items().drop_first());
                    self.list = Some(l);
                    Some(item)
                } else {
                    None
                }
            },
        }
    }
}

/// The value of an iota handed out, if one was.
pub open spec fn value_of(r: Option<Iota>) -> Option<IotaValue> {
    match r {
        Some(i) => Some(i.value()),
        None => None,
    }
}

/// One call of `next` on an iterator with `before` left to hand out: it
/// hands out the first value and leaves the rest, or, with nothing left,
/// hands out nothing and stays empty.
pub open spec fn next_step(before: Seq<IotaValue>, out: Option<IotaValue>, after: Seq<IotaValue>) -> bool {
    if before.len() == 0 {
        out is None && after.len() == 0
    } else {
        out == Some(before[0]) && after == before.drop_first()
    }
}

/// Iterating a list hands out its items in order and then nothing, on every
/// later call: for any run of `next` calls that starts with the list's items
/// left, call `k` hands out item `k` while there is one, and nothing after.
pub proof fn lemma_iteration_yields_items(
    items: Seq<IotaValue>,
    outs: Seq<Option<IotaValue>>,
    states: Seq<Seq<IotaValue>>,
)
    requires
        states.len() == outs.len() + 1,
        states[0] == items,
        forall|k: int| 0 <= k < outs.len() ==> next_step(#[trigger] states[k], outs[k], states[k + 1]),
    ensures
        forall|k: int|
            0 <= k < outs.len() ==> #[trigger] outs[k] == (if k < items.len() {
                Some(items[k])
            } else {
                None
            }),
    decreases outs.len(),
{
    if outs.len() > 0 {
        let n = outs.len() - 1;
        lemma_iteration_yields_items(items, outs.take(n), states.take(n + 1));
        lemma_iteration_state(items, outs, states, n);
        assert forall|k: int| 0 <= k < outs.len() implies #[trigger] outs[k] == (if k < items.len() {
            Some(items[k])
        } else {
            None
        }) by {
            if k < n {
                assert(outs.take(n)[k] == outs[k]);
            } else {
                assert(next_step(states[k], outs[k], states[k + 1]));
            }
        }
    }
}

/// After `k` calls, what is left is the items past the first `k`.
proof fn lemma_iteration_state(
    items: Seq<IotaValue>,
    outs: Seq<Option<IotaValue>>,
    states: Seq<Seq<IotaValue>>,
    k: int,
)
    requires
        states.len() == outs.len() + 1,
        states[0] == items,
        forall|j: int| 0 <= j < outs.len() ==> next_step(#[trigger] states[j], outs[j], states[j + 1]),
        0 <= k <= outs.len(),
    ensures
        states[k] == (if k <= items.len() {
            items.skip(k)
        } else {
            Seq::<IotaValue>::empty()
        }),
    decreases k,
{
    if k == 0 {
        assert(items.skip(0) =~= items);
    } else {
        lemma_iteration_state(items, outs, states, k - 1);
        assert(next_step(states[k - 1], outs[k - 1], states[k]));
        if k <= items.len() {
            assert(items.skip(k - 1).drop_first() =~= items.skip(k));
        }
    }
}

/// Copies of the iotas of `data`, with the same values.
fn copy_iotas(data: &Vec<Iota>) -> (r: Vec<Iota>)
    ensures
        values_of(r@) == values_of(data@),
        r@.len() == data@.len(),
        forall|k: int| 0 <= k < data@.len() ==> #[trigger] r@[k].value() == data@[k].value(),
{
    let mut out: Vec<Iota> = Vec::new();
    let mut i: usize = 0;
    while i < data.len()
        invariant
            i <= data@.len(),
            out@.len() == i,
            forall|k: int| 0 <= k < i ==> #[trigger] out@[k].value() == data@[k].value(),
        decreases data@.len() - i,
    {
        out.push(data[i].clone());
        i = i + 1;
    }
    assert(values_of(out@) =~= values_of(data@));
    out
}

impl Clone for SpellList {
    /// A deep copy of the list, with the same items.
    fn clone(&self) -> (r: Self)
        ensures
            r.items() == self.items(),
            r.like(*self),
            self.wf() ==> r.wf(),
        decreases self,
    {
        match self {
            SpellList::Pair(car, cdr) => {
                let c = (**car).clone();
                proof {
                    assert(decreases_to!(*self => self->Pair_1));
                }
                let d = (**cdr).clone();
                SpellList::Pair(Box::new(c), Box::new(d))
            },
            SpellList::Array { idx, data } => {
                let r = SpellList::Array { idx: *idx, data: copy_iotas(data) };
                assert(r.items() =~= self.items());
                r
            },
            SpellList::Nil => SpellList::Nil,
        }
    }
}

impl Default for SpellList {
    fn default() -> (l: Self)
        ensures
            l is Nil,
    {
        SpellList::Nil
    }
}

} // verus!
