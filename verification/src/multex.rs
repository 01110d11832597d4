//! Values that are shared by way of a lock over their parts.

use crate::lock::{
    adds, chosen, clashes, frees, gives, takes, turned, IndexError, Lock, Selection,
};
use vstd::prelude::*;

verus! {

/// A collection whose items are resources, known by their indices.
pub trait DynamicAt {
    type Item;

    /// The items.
    spec fn items(&self) -> Seq<Self::Item>;

    /// Whether there is an item at an index.
    fn reaches(&self, index: usize) -> (found: bool)
        ensures
            found == (index < self.items().len()),
    ;

    /// The item at an index.
    fn dynamic_at(&mut self, index: usize) -> (item: Option<&mut Self::Item>)
        ensures
            item is Some == (index < old(self).items().len()),
            match item {
                Some(item) => {
                    &&& *item == old(self).items()[index as int]
                    &&& final(self).items() == old(self).items().update(
                        index as int,
                        *final(item),
                    )
                },
                None => final(self).items() == old(self).items(),
            },
    ;
}

impl<T> DynamicAt for Vec<T> {
    type Item = T;

    open spec fn items(&self) -> Seq<T> {
        self@
    }

    fn reaches(&self, index: usize) -> (found: bool) {
        index < self.len()
    }

    fn dynamic_at(&mut self, index: usize) -> (item: Option<&mut T>) {
        if index < self.len() {
            Some(&mut self[index])
        } else {
            None
        }
    }
}

impl<T, const N: usize> DynamicAt for [T; N] {
    type Item = T;

    open spec fn items(&self) -> Seq<T> {
        self@
    }

    fn reaches(&self, index: usize) -> (found: bool) {
        index < N
    }

    fn dynamic_at(&mut self, index: usize) -> (item: Option<&mut T>) {
        if index < N {
            Some(&mut self[index])
        } else {
            None
        }
    }
}

impl<T> DynamicAt for [T] {
    type Item = T;

    open spec fn items(&self) -> Seq<T> {
        self@
    }

    fn reaches(&self, index: usize) -> (found: bool) {
        index < self.len()
    }

    fn dynamic_at(&mut self, index: usize) -> (item: Option<&mut T>) {
        if index < self.len() {
            Some(&mut self[index])
        } else {
            None
        }
    }
}

impl<T, const N: usize> DynamicAt for Box<[T; N]> {
    type Item = T;

    open spec fn items(&self) -> Seq<T> {
        (**self)@
    }

    fn reaches(&self, index: usize) -> (found: bool) {
        index < N
    }

    fn dynamic_at(&mut self, index: usize) -> (item: Option<&mut T>) {
        (&mut **self).dynamic_at(index)
    }
}

impl<T> DynamicAt for Box<[T]> {
    type Item = T;

    open spec fn items(&self) -> Seq<T> {
        (**self)@
    }

    fn reaches(&self, index: usize) -> (found: bool) {
        index < (**self).len()
    }

    fn dynamic_at(&mut self, index: usize) -> (item: Option<&mut T>) {
        (&mut **self).dynamic_at(index)
    }
}

impl<T: DynamicAt> DynamicAt for &mut T {
    type Item = T::Item;

    open spec fn items(&self) -> Seq<T::Item> {
        (**self).items()
    }

    fn reaches(&self, index: usize) -> (found: bool) {
        (**self).reaches(index)
    }

    fn dynamic_at(&mut self, index: usize) -> (item: Option<&mut T::Item>) {
        (**self).dynamic_at(index)
    }
}

impl DynamicAt for () {
    type Item = ();

    open spec fn items(&self) -> Seq<()> {
        Seq::new((usize::MAX + 1) as nat, |index: int| ())
    }

    fn reaches(&self, index: usize) -> (found: bool) {
        true
    }

    fn dynamic_at(&mut self, index: usize) -> (item: Option<&mut ()>) {
        Some(self)
    }
}

/// A tuple whose part `I` is a resource.
pub trait StaticAt<const I: usize>: Sized {
    type Item;

    /// The part.
    spec fn at(self) -> Self::Item;

    /// The tuple with another part in its place.
    spec fn with(self, item: Self::Item) -> Self;

    /// The part.
    fn static_at(&mut self) -> (item: &mut Self::Item)
        ensures
            *item == old(self).at(),
            *final(self) == old(self).with(*final(item)),
    ;
}

impl<T> StaticAt<0> for (T,) {
    type Item = T;

    open spec fn at(self) -> T {
        self.0
    }

    open spec fn with(self, item: T) -> Self {
        (item,)
    }

    fn static_at(&mut self) -> (item: &mut T) {
        &mut self.0
    }
}

impl<T1, T2> StaticAt<0> for (T1, T2) {
    type Item = T1;

    open spec fn at(self) -> T1 {
        self.0
    }

    open spec fn with(self, item: T1) -> Self {
        (item, self.1)
    }

    fn static_at(&mut self) -> (item: &mut T1) {
        &mut self.0
    }
}

impl<T1, T2> StaticAt<1> for (T1, T2) {
    type Item = T2;

    open spec fn at(self) -> T2 {
        self.1
    }

    open spec fn with(self, item: T2) -> Self {
        (self.0, item)
    }

    fn static_at(&mut self) -> (item: &mut T2) {
        &mut self.1
    }
}

/// A part of a tuple of one part.
pub enum One1<T> {
    _1(T),
}

/// One of the parts of a tuple of two parts.
pub enum One2<T1, T2> {
    _1(T1),
    _2(T2),
}

/// The part of a tuple at an index.
pub fn one_at<T>(items: &mut (T,), index: usize) -> (part: Option<One1<&mut T>>)
    ensures
        part is Some == (index < 1),
        match part {
            Some(One1::_1(part)) => {
                &&& *part == old(items).0
                &&& *final(items) == (*final(part),)
            },
            None => *final(items) == *old(items),
        },
{
    if index == 0 {
        Some(One1::_1(&mut items.0))
    } else {
        None
    }
}

/// The part of a tuple at an index.
pub fn either_at<T1, T2>(items: &mut (T1, T2), index: usize) -> (part: Option<
    One2<&mut T1, &mut T2>,
>)
    ensures
        part is Some == (index < 2),
        match part {
            Some(One2::_1(part)) => {
                &&& index == 0
                &&& *part == old(items).0
                &&& *final(items) == (*final(part), old(items).1)
            },
            Some(One2::_2(part)) => {
                &&& index == 1
                &&& *part == old(items).1
                &&& *final(items) == (old(items).0, *final(part))
            },
            None => *final(items) == *old(items),
        },
{
    if index == 0 {
        Some(One2::_1(&mut items.0))
    } else if index == 1 {
        Some(One2::_2(&mut items.1))
    } else {
        None
    }
}

/// Whether each of the first indices stands for a resource, and no two for the same.
pub open spec fn selectable<L: Selection>(indices: Seq<usize>, until: int) -> bool {
    &&& forall|at: int| 0 <= at < until ==> (#[trigger] L::place(indices[at])) is Some
    &&& forall|left: int, right: int|
        0 <= left < right < until ==> #[trigger] L::place(indices[left]) != #[trigger] L::place(
            indices[right],
        )
}

/// Whether a selection holds just the resources that the first indices stand for.
pub open spec fn selects<L: Selection>(mask: L, indices: Seq<usize>, until: int) -> bool {
    forall|index: int| #[trigger]
        L::marks(mask, index) == exists|at: int|
            0 <= at < until && #[trigger] L::place(indices[at]) == Some(index)
}

/// Whether an index is the first that cannot be selected, and the error says why.
pub open spec fn stops<L: Selection>(indices: Seq<usize>, at: int, error: IndexError) -> bool {
    &&& 0 <= at < indices.len()
    &&& selectable::<L>(indices, at)
    &&& match L::place(indices[at]) {
        None => error == IndexError::OutOfBounds(indices[at]),
        Some(place) => {
            &&& exists|earlier: int|
                0 <= earlier < at && #[trigger] L::place(indices[earlier]) == Some(place)
            &&& error == IndexError::Duplicate(L::named(indices[at]))
        },
    }
}

/// Whether indices were gathered into a selection, or the first that cannot be selected was
/// reported.
pub open spec fn gathers<L: Selection>(
    indices: Seq<usize>,
    outcome: Result<L, IndexError>,
) -> bool {
    match outcome {
        Ok(mask) => {
            &&& selectable::<L>(indices, indices.len() as int)
            &&& selects::<L>(mask, indices, indices.len() as int)
        },
        Err(error) => exists|at: int| #[trigger] stops::<L>(indices, at, error),
    }
}

fn gather<L: Lock, const N: usize>(indices: &[usize; N]) -> (outcome: Result<L, IndexError>)
    requires
        L::fits(),
    ensures
        gathers::<L>(indices@, outcome),
{
    let mut mask = L::zero();
    let mut at: usize = 0;
    while at < N
        invariant
            at <= N,
            L::fits(),
            selectable::<L>(indices@, at as int),
            selects::<L>(mask, indices@, at as int),
        decreases N - at,
    {
        let index: usize = indices[at];
        let ghost before = mask;
        match L::add(mask, index) {
            Ok(next) => {
                mask = next;
                proof {
                    let place = L::place(index)->0;
                    assert(!L::marks(before, place));
                    assert forall|left: int, right: int|
                        0 <= left < right < at + 1 implies #[trigger] L::place(indices@[left])
                        != #[trigger] L::place(indices@[right]) by {
                        if right == at && L::place(indices@[left]) == L::place(indices@[right]) {
                            assert(L::place(indices@[left]) == Some(place));
                        }
                    }
                    assert forall|bit: int| #[trigger]
                        L::marks(mask, bit) == exists|earlier: int|
                            0 <= earlier < at + 1 && #[trigger] L::place(indices@[earlier]) == Some(
                                bit,
                            ) by {
                        assert(adds::<L>(before, index, Ok(next)));
                        assert(L::marks(mask, bit) == (L::marks(before, bit) || bit == place));
                        if bit == place {
                            assert(L::place(indices@[at as int]) == Some(bit));
                        } else if L::marks(before, bit) {
                            let earlier = choose|earlier: int|
                                0 <= earlier < at && #[trigger] L::place(indices@[earlier]) == Some(
                                    bit,
                                );
                            assert(L::place(indices@[earlier]) == Some(bit));
                        }
                    }
                }
            },
            Err(error) => {
                proof {
                    if let Some(place) = L::place(index) {
                        let earlier = choose|earlier: int|
                            0 <= earlier < at && #[trigger] L::place(indices@[earlier]) == Some(
                                place,
                            );
                        assert(L::place(indices@[earlier]) == Some(place));
                    }
                    assert(stops::<L>(indices@, at as int, error));
                }
                return Err(error);
            },
        }
        at = at + 1;
    }
    Ok(mask)
}

/// What to lock, and what is handed out of it.
pub trait Key<T, L: Lock> {
    /// Where the resources are that were asked for, as far as they were locked.
    type Value;

    /// The resources to lock.
    spec fn selection(&self) -> L;

    /// Whether a value tells where the resources are that a selection holds.
    spec fn opens(&self, items: &T, mask: L, value: Self::Value) -> bool;

    /// The resources to lock.
    fn mask(&self) -> (mask: L)
        ensures
            mask == self.selection(),
    ;

    /// Where the resources are that a selection holds.
    fn value(&self, items: &T, mask: L) -> (value: Self::Value)
        requires
            L::fits(),
        ensures
            self.opens(items, mask, value),
    ;
}

/// Where an item is, if it was locked and there is one.
pub open spec fn found_at<T: DynamicAt, L: Lock>(
    items: &T,
    mask: L,
    index: usize,
) -> Option<usize> {
    if chosen::<L>(mask, index) && index < items.items().len() {
        Some(index)
    } else {
        None
    }
}

fn find_at<T: DynamicAt, L: Lock>(items: &T, mask: L, index: usize) -> (found: Option<usize>)
    requires
        L::fits(),
    ensures
        found == found_at(items, mask, index),
{
    if L::has(mask, index) && items.reaches(index) {
        Some(index)
    } else {
        None
    }
}

/// Where a part of a tuple is, if it was locked.
pub open spec fn part_at<L: Lock>(mask: L, index: usize) -> Option<usize> {
    if chosen::<L>(mask, index) {
        Some(index)
    } else {
        None
    }
}

/// A selection of items by their indices.
pub struct AtN<L: Lock, I> {
    mask: L,
    indices: I,
}

impl<L: Lock, I> AtN<L, I> {
    /// The resources to lock.
    pub closed spec fn chooses(self) -> L {
        self.mask
    }

    /// The indices that were asked for.
    pub closed spec fn order(self) -> I {
        self.indices
    }
}

impl<L: Lock, const N: usize> AtN<L, [usize; N]> {
    /// A selection of items.
    pub fn new(indices: [usize; N]) -> (key: Result<Self, IndexError>)
        requires
            L::fits(),
        ensures
            match key {
                Ok(key) => key.order() == indices && gathers::<L>(indices@, Ok(key.chooses())),
                Err(error) => gathers::<L>(indices@, Err(error)),
            },
    {
        match gather::<L, N>(&indices) {
            Ok(mask) => Ok(AtN { mask, indices }),
            Err(error) => Err(error),
        }
    }
}

impl<L: Lock> AtN<L, (usize,)> {
    /// A selection of one item.
    pub fn new(indices: (usize,)) -> (key: Result<Self, IndexError>)
        requires
            L::fits(),
        ensures
            match key {
                Ok(key) => key.order() == indices && gathers::<L>(
                    seq![indices.0],
                    Ok(key.chooses()),
                ),
                Err(error) => gathers::<L>(seq![indices.0], Err(error)),
            },
    {
        let row: [usize; 1] = [indices.0];
        assert(row@ =~= seq![indices.0]);
        match gather::<L, 1>(&row) {
            Ok(mask) => Ok(AtN { mask, indices }),
            Err(error) => Err(error),
        }
    }
}

impl<L: Lock> AtN<L, (usize, usize)> {
    /// A selection of two items.
    pub fn new(indices: (usize, usize)) -> (key: Result<Self, IndexError>)
        requires
            L::fits(),
        ensures
            match key {
                Ok(key) => key.order() == indices && gathers::<L>(
                    seq![indices.0, indices.1],
                    Ok(key.chooses()),
                ),
                Err(error) => gathers::<L>(seq![indices.0, indices.1], Err(error)),
            },
    {
        let row: [usize; 2] = [indices.0, indices.1];
        assert(row@ =~= seq![indices.0, indices.1]);
        match gather::<L, 2>(&row) {
            Ok(mask) => Ok(AtN { mask, indices }),
            Err(error) => Err(error),
        }
    }
}

impl<T: DynamicAt, L: Lock, const N: usize> Key<T, L> for AtN<L, [usize; N]> {
    type Value = [Option<usize>; N];

    open spec fn selection(&self) -> L {
        self.chooses()
    }

    open spec fn opens(&self, items: &T, mask: L, value: [Option<usize>; N]) -> bool {
        forall|at: int|
            0 <= at < N ==> #[trigger] value[at] == found_at(items, mask, self.order()[at])
    }

    fn mask(&self) -> (mask: L) {
        self.mask
    }

    fn value(&self, items: &T, mask: L) -> (value: [Option<usize>; N]) {
        let mut value: [Option<usize>; N] = [None;N];
        let mut at: usize = 0;
        while at < N
            invariant
                at <= N,
                L::fits(),
                forall|earlier: int|
                    0 <= earlier < at ==> #[trigger] value[earlier] == found_at(
                        items,
                        mask,
                        self.indices[earlier],
                    ),
            decreases N - at,
        {
            let found = find_at(items, mask, self.indices[at]);
            value.set(at, found);
            at = at + 1;
        }
        value
    }
}

impl<T: DynamicAt, L: Lock> Key<T, L> for AtN<L, (usize,)> {
    type Value = (Option<usize>,);

    open spec fn selection(&self) -> L {
        self.chooses()
    }

    open spec fn opens(&self, items: &T, mask: L, value: (Option<usize>,)) -> bool {
        value == (found_at(items, mask, self.order().0),)
    }

    fn mask(&self) -> (mask: L) {
        self.mask
    }

    fn value(&self, items: &T, mask: L) -> (value: (Option<usize>,)) {
        (find_at(items, mask, self.indices.0),)
    }
}

impl<T: DynamicAt, L: Lock> Key<T, L> for AtN<L, (usize, usize)> {
    type Value = (Option<usize>, Option<usize>);

    open spec fn selection(&self) -> L {
        self.chooses()
    }

    open spec fn opens(&self, items: &T, mask: L, value: (Option<usize>, Option<usize>)) -> bool {
        value == (
            found_at(items, mask, self.order().0),
            found_at(items, mask, self.order().1),
        )
    }

    fn mask(&self) -> (mask: L) {
        self.mask
    }

    fn value(&self, items: &T, mask: L) -> (value: (Option<usize>, Option<usize>)) {
        (find_at(items, mask, self.indices.0), find_at(items, mask, self.indices.1))
    }
}

/// A selection of part `I` of a tuple.
pub struct At1<L: Lock, const I: usize> {
    mask: L,
}

impl<L: Lock, const I: usize> At1<L, I> {
    /// The resources to lock.
    pub closed spec fn chooses(self) -> L {
        self.mask
    }

    /// A selection of one part.
    pub fn new() -> (key: Result<Self, IndexError>)
        requires
            L::fits(),
        ensures
            match key {
                Ok(key) => gathers::<L>(seq![I], Ok(key.chooses())),
                Err(error) => gathers::<L>(seq![I], Err(error)),
            },
    {
        let row: [usize; 1] = [I];
        assert(row@ =~= seq![I]);
        match gather::<L, 1>(&row) {
            Ok(mask) => Ok(At1 { mask }),
            Err(error) => Err(error),
        }
    }
}

/// A selection of the parts `I1` and `I2` of a tuple.
pub struct At2<L: Lock, const I1: usize, const I2: usize> {
    mask: L,
}

impl<L: Lock, const I1: usize, const I2: usize> At2<L, I1, I2> {
    /// The resources to lock.
    pub closed spec fn chooses(self) -> L {
        self.mask
    }

    /// A selection of two parts.
    pub fn new() -> (key: Result<Self, IndexError>)
        requires
            L::fits(),
        ensures
            match key {
                Ok(key) => gathers::<L>(seq![I1, I2], Ok(key.chooses())),
                Err(error) => gathers::<L>(seq![I1, I2], Err(error)),
            },
    {
        let row: [usize; 2] = [I1, I2];
        assert(row@ =~= seq![I1, I2]);
        match gather::<L, 2>(&row) {
            Ok(mask) => Ok(At2 { mask }),
            Err(error) => Err(error),
        }
    }
}

impl<T: StaticAt<I>, L: Lock, const I: usize> Key<T, L> for At1<L, I> {
    type Value = (Option<usize>,);

    open spec fn selection(&self) -> L {
        self.chooses()
    }

    open spec fn opens(&self, items: &T, mask: L, value: (Option<usize>,)) -> bool {
        value == (part_at(mask, I),)
    }

    fn mask(&self) -> (mask: L) {
        self.mask
    }

    fn value(&self, items: &T, mask: L) -> (value: (Option<usize>,)) {
        (if L::has(mask, I) {
            Some(I)
        } else {
            None
        },)
    }
}

impl<T: StaticAt<I1> + StaticAt<I2>, L: Lock, const I1: usize, const I2: usize> Key<T, L> for At2<
    L,
    I1,
    I2,
> {
    type Value = (Option<usize>, Option<usize>);

    open spec fn selection(&self) -> L {
        self.chooses()
    }

    open spec fn opens(&self, items: &T, mask: L, value: (Option<usize>, Option<usize>)) -> bool {
        value == (part_at(mask, I1), part_at(mask, I2))
    }

    fn mask(&self) -> (mask: L) {
        self.mask
    }

    fn value(&self, items: &T, mask: L) -> (value: (Option<usize>, Option<usize>)) {
        let one = if L::has(mask, I1) {
            Some(I1)
        } else {
            None
        };
        let two = if L::has(mask, I2) {
            Some(I2)
        } else {
            None
        };
        (one, two)
    }
}

/// What was locked, and what was handed out of it.
pub struct Guard<T, L: Lock> {
    pub value: T,
    pub held: L,
}

impl<T, L: Lock> Guard<T, L> {
    /// The guard with another value, made of its own.
    pub fn map<U, F: FnOnce(T) -> U>(guard: Self, map: F) -> (mapped: Guard<U, L>)
        requires
            map.requires((guard.value,)),
        ensures
            map.ensures((guard.value,), mapped.value),
            mapped.held == guard.held,
    {
        Guard { value: map(guard.value), held: guard.held }
    }

    /// The resources that were locked.
    pub fn mask(&self) -> (mask: L)
        ensures
            mask == self.held,
    {
        self.held
    }
}

/// A value of which any selection of parts is locked at once.
pub struct Multex<T, L: Lock> {
    state: L::State,
    value: T,
}

pub type MultexN<T, const N: usize> = Multex<T, [usize; N]>;

pub type Multex8<T> = Multex<T, u8>;

pub type Multex8N<T, const N: usize> = Multex<T, [u8; N]>;

pub type Multex16<T> = Multex<T, u16>;

pub type Multex16N<T, const N: usize> = Multex<T, [u16; N]>;

pub type Multex32<T> = Multex<T, u32>;

pub type Multex32N<T, const N: usize> = Multex<T, [u32; N]>;

pub type Multex64<T> = Multex<T, u64>;

pub type Multex64N<T, const N: usize> = Multex<T, [u64; N]>;

/// Whether a selection holds all resources.
pub open spec fn is_all<L: Selection>(mask: L) -> bool {
    forall|index: int| #[trigger] L::marks(mask, index) == (0 <= index < L::width())
}

/// Whether all that a selection holds is taken.
pub open spec fn covered<L: Selection>(state: L::State, mask: L) -> bool {
    forall|index: int| #[trigger] L::marks(mask, index) ==> L::held(state, index)
}

impl<T, L: Lock> Multex<T, L> {
    /// Which parts are taken.
    pub closed spec fn state(self) -> L::State {
        self.state
    }

    /// The value.
    pub closed spec fn value(self) -> T {
        self.value
    }

    /// A value of which nothing is locked.
    pub fn new(values: T) -> (multex: Self)
        ensures
            multex.value() == values,
            is_free::<L>(multex.state()),
            L::turn(multex.state()) == 0,
    {
        Multex { state: L::free(), value: values }
    }

    /// The value, whatever is locked of it.
    pub fn as_ptr(&self) -> (value: &T)
        ensures
            *value == self.value(),
    {
        &self.value
    }

    /// The value, whatever is locked of it.
    pub fn as_mut_ptr(&mut self) -> (value: &mut T)
        ensures
            *value == old(self).value(),
            final(self).value() == *final(value),
            final(self).state() == old(self).state(),
    {
        &mut self.value
    }

    /// Locks all of the value, where nothing of it is locked.
    pub fn try_lock(&mut self) -> (guard: Option<Guard<(), L>>)
        ensures
            final(self).value() == old(self).value(),
            guard is Some == is_free::<L>(old(self).state()),
            match guard {
                Some(guard) => {
                    &&& is_all(guard.held)
                    &&& is_all_held::<L>(final(self).state())
                    &&& L::turn(final(self).state()) == L::turn(old(self).state())
                },
                None => {
                    &&& forall|index: int| #[trigger]
                        L::held(final(self).state(), index) == L::held(old(self).state(), index)
                    &&& L::turn(final(self).state()) == if L::counts() {
                        turned(L::turn(old(self).state()))
                    } else {
                        L::turn(old(self).state())
                    }
                },
            },
    {
        let ghost before = self.state;
        let all = L::max();
        let taken = L::lock(&mut self.state, all, false);
        proof {
            L::lemma_width();
            if let Some(held) = taken {
                assert(frees::<L>(before, all, held));
                assert forall|index: int| !#[trigger] L::held(before, index) by {
                    if L::held(before, index) {
                        assert(L::marks(all, index));
                        assert(clashes::<L>(before, all));
                    }
                }
                assert(is_free::<L>(before));
            } else {
                let index = choose|index: int| #[trigger]
                    L::marks(all, index) && L::held(before, index);
                assert(L::held(before, index));
                assert(!is_free::<L>(before));
            }
        }
        match taken {
            Some(held) => Some(Guard { value: (), held }),
            None => None,
        }
    }

    /// Locks all of the value. Nothing of it may be locked.
    pub fn lock(&mut self) -> (guard: Guard<(), L>)
        requires
            is_free::<L>(old(self).state()),
        ensures
            final(self).value() == old(self).value(),
            is_all(guard.held),
            is_all_held::<L>(final(self).state()),
            L::turn(final(self).state()) == L::turn(old(self).state()),
    {
        self.try_lock().unwrap()
    }

    /// Locks what a key selects: as a whole where all of it is free, or in part as far as it is
    /// free.
    pub fn try_lock_with<K: Key<T, L>>(&mut self, key: &K, partial: bool) -> (guard: Option<
        Guard<K::Value, L>,
    >)
        requires
            L::fits(),
        ensures
            final(self).value() == old(self).value(),
            takes::<L>(
                old(self).state(),
                final(self).state(),
                key.selection(),
                partial,
                match guard {
                    Some(guard) => Some(guard.held),
                    None => None,
                },
            ),
            guard matches Some(guard) ==> key.opens(&old(self).value(), guard.held, guard.value),
    {
        let mask = key.mask();
        match L::lock(&mut self.state, mask, partial) {
            Some(held) => Some(Guard { value: key.value(&self.value, held), held }),
            None => None,
        }
    }

    /// Locks what a key selects. Where it is locked as a whole, all of it must be free.
    pub fn lock_with<K: Key<T, L>>(&mut self, key: &K, partial: bool) -> (guard: Guard<K::Value, L>)
        requires
            L::fits(),
            partial || !clashes::<L>(old(self).state(), key.selection()),
        ensures
            final(self).value() == old(self).value(),
            takes::<L>(
                old(self).state(),
                final(self).state(),
                key.selection(),
                partial,
                Some(guard.held),
            ),
            key.opens(&old(self).value(), guard.held, guard.value),
    {
        self.try_lock_with(key, partial).unwrap()
    }

    /// Frees all of the value, and tells whether waiting threads are to be woken.
    pub fn unlock(&mut self) -> (woken: bool)
        ensures
            final(self).value() == old(self).value(),
            is_free::<L>(final(self).state()),
            L::turn(final(self).state()) == if L::counts() {
                turned(L::turn(old(self).state()))
            } else {
                L::turn(old(self).state())
            },
            woken == (L::counts() || L::width() > 0),
    {
        let all = L::max();
        let woken = L::unlock(&mut self.state, all, true);
        proof {
            L::lemma_width();
            if L::width() > 0 {
                assert(L::marks(all, 0));
            }
        }
        woken
    }

    /// Frees a selection of the value, and tells whether waiting threads are to be woken.
    pub fn unlock_with(&mut self, mask: L) -> (woken: bool)
        ensures
            final(self).value() == old(self).value(),
            gives::<L>(old(self).state(), final(self).state(), mask, true, woken),
    {
        L::unlock(&mut self.state, mask, true)
    }

    /// Frees what a guard holds, and tells whether waiting threads are to be woken.
    pub fn release<U>(&mut self, guard: Guard<U, L>) -> (woken: bool)
        ensures
            final(self).value() == old(self).value(),
            gives::<L>(old(self).state(), final(self).state(), guard.held, true, woken),
    {
        L::unlock(&mut self.state, guard.held, true)
    }

    /// Whether the value is locked, in part or as a whole.
    pub fn is_locked(&self, partial: bool) -> (locked: bool)
        ensures
            locked == L::locked(self.state(), L::whole(), partial),
    {
        let all = L::max();
        L::is_locked(&self.state, all, partial)
    }

    /// Whether what a key selects is locked, in part or as a whole.
    pub fn is_locked_with<K: Key<T, L>>(&self, key: &K, partial: bool) -> (locked: bool)
        ensures
            locked == L::locked(self.state(), key.selection(), partial),
    {
        L::is_locked(&self.state, key.mask(), partial)
    }

    /// Where the resources are that a key selects, whatever is locked of them.
    pub fn get_mut<K: Key<T, L>>(&mut self, key: &K) -> (value: K::Value)
        requires
            L::fits(),
        ensures
            *final(self) == *old(self),
            key.opens(&old(self).value(), key.selection(), value),
    {
        key.value(&self.value, key.mask())
    }

    /// The value.
    pub fn into_inner(self) -> (value: T)
        ensures
            value == self.value(),
    {
        self.value
    }

    /// The value that a guard holds all of.
    pub fn open(&mut self, guard: &Guard<(), L>) -> (value: &mut T)
        requires
            is_all(guard.held),
            covered::<L>(old(self).state(), guard.held),
        ensures
            *value == old(self).value(),
            final(self).value() == *final(value),
            final(self).state() == old(self).state(),
    {
        &mut self.value
    }
}

/// Whether no resource is taken.
pub open spec fn is_free<L: Selection>(state: L::State) -> bool {
    forall|index: int| !#[trigger] L::held(state, index)
}

/// Whether all resources are taken.
pub open spec fn is_all_held<L: Selection>(state: L::State) -> bool {
    forall|index: int| #[trigger] L::held(state, index) == (0 <= index < L::width())
}

impl<T: DynamicAt, L: Lock> Multex<T, L> {
    /// An item that a guard holds.
    pub fn item<U>(&mut self, guard: &Guard<U, L>, index: usize) -> (item: Option<&mut T::Item>)
        requires
            L::fits(),
            covered::<L>(old(self).state(), guard.held),
        ensures
            final(self).state() == old(self).state(),
            item is Some == (found_at(&old(self).value(), guard.held, index) is Some),
            match item {
                Some(item) => {
                    &&& *item == old(self).value().items()[index as int]
                    &&& final(self).value().items() == old(self).value().items().update(
                        index as int,
                        *final(item),
                    )
                },
                None => final(self).value().items() == old(self).value().items(),
            },
    {
        if L::has(guard.held, index) {
            self.value.dynamic_at(index)
        } else {
            None
        }
    }
}

/// Whether what each of the guards holds is taken, and no two guards hold the same resource.
pub open spec fn guarded<L: Selection>(state: L::State, guards: Seq<L>) -> bool {
    &&& forall|guard: int, index: int|
        0 <= guard < guards.len() && #[trigger] L::marks(guards[guard], index) ==> L::held(
            state,
            index,
        )
    &&& forall|left: int, right: int, index: int|
        0 <= left < guards.len() && 0 <= right < guards.len() && #[trigger] L::marks(
            guards[left],
            index,
        ) && #[trigger] L::marks(guards[right], index) ==> left == right
}

/// A resource is never held by two guards: what is newly locked is held by no other.
pub proof fn locking_keeps_guards_apart<L: Selection>(
    before: L::State,
    after: L::State,
    mask: L,
    partial: bool,
    taken: Option<L>,
    guards: Seq<L>,
)
    requires
        guarded::<L>(before, guards),
        takes::<L>(before, after, mask, partial, taken),
    ensures
        guarded::<L>(
            after,
            match taken {
                Some(taken) => guards.push(taken),
                None => guards,
            },
        ),
{
    if let Some(held) = taken {
        assert(frees::<L>(before, mask, held));
        let more = guards.push(held);
        assert forall|guard: int, index: int|
            0 <= guard < more.len() && #[trigger] L::marks(more[guard], index) implies L::held(
            after,
            index,
        ) by {
            if guard < guards.len() {
                assert(L::marks(guards[guard], index));
            }
        }
        assert forall|left: int, right: int, index: int|
            0 <= left < more.len() && 0 <= right < more.len() && #[trigger] L::marks(
                more[left],
                index,
            ) && #[trigger] L::marks(more[right], index) implies left == right by {
            if left < guards.len() {
                assert(L::marks(guards[left], index));
            }
            if right < guards.len() {
                assert(L::marks(guards[right], index));
            }
        }
    }
}

/// Freeing what one guard holds takes nothing from the others.
pub proof fn unlocking_keeps_guards_apart<L: Selection>(
    before: L::State,
    after: L::State,
    guards: Seq<L>,
    freed: int,
    wake: bool,
    woken: bool,
)
    requires
        guarded::<L>(before, guards),
        0 <= freed < guards.len(),
        gives::<L>(before, after, guards[freed], wake, woken),
    ensures
        guarded::<L>(after, guards.remove(freed)),
{
    let left_over = guards.remove(freed);
    let place = |guard: int|
        if guard < freed {
            guard
        } else {
            guard + 1
        };
    assert forall|guard: int, index: int|
        0 <= guard < left_over.len() && #[trigger] L::marks(left_over[guard], index) implies L::held(
        after,
        index,
    ) by {
        assert(left_over[guard] == guards[place(guard)]);
        assert(L::marks(guards[place(guard)], index));
        if L::marks(guards[freed], index) {
            assert(place(guard) == freed);
        }
    }
    assert forall|left: int, right: int, index: int|
        0 <= left < left_over.len() && 0 <= right < left_over.len() && #[trigger] L::marks(
            left_over[left],
            index,
        ) && #[trigger] L::marks(left_over[right], index) implies left == right by {
        assert(left_over[left] == guards[place(left)] && left_over[right] == guards[place(right)]);
        assert(L::marks(guards[place(left)], index) && L::marks(guards[place(right)], index));
    }
}

/// Freeing what was locked leaves the lock as it was before.
pub proof fn unlocking_undoes_locking<L: Selection>(
    before: L::State,
    middle: L::State,
    after: L::State,
    mask: L,
    partial: bool,
    taken: L,
    wake: bool,
    woken: bool,
)
    requires
        takes::<L>(before, middle, mask, partial, Some(taken)),
        gives::<L>(middle, after, taken, wake, woken),
    ensures
        forall|index: int| #[trigger] L::held(after, index) == L::held(before, index),
{
    assert(frees::<L>(before, mask, taken));
    assert forall|index: int| #[trigger] L::held(after, index) == L::held(before, index) by {
        assert(L::held(middle, index) == (L::held(before, index) || L::marks(mask, index)));
        assert(L::marks(taken, index) == (L::marks(mask, index) && !L::held(before, index)));
    }
}

} // verus!
