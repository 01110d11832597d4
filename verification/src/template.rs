//! Templates of rows: which columns a row may have.

use crate::depend::type_id_of;
use crate::store::Meta;
use vstd::prelude::*;

verus! {

/// Lists of columns that are being declared. Each list is one choice of columns that a row may
/// have.
pub struct Declare<'a> {
    pub lists: &'a mut Vec<Vec<Meta>>,
}

/// The choices of columns.
pub open spec fn choices(lists: Seq<Vec<Meta>>) -> Seq<Seq<Meta>> {
    Seq::new(lists.len(), |at: int| lists[at]@)
}

impl<'a> Declare<'a> {
    /// The same lists, for a part of the template.
    pub fn own(&mut self) -> (part: Declare<'_>)
        ensures
            *part.lists == *old(self).lists,
            *final(self).lists == *final(part.lists),
            *final(final(self).lists) == *final(old(self).lists),
    {
        Declare { lists: &mut *self.lists }
    }
}

/// What a row is made of.
pub trait Template {
    /// Whether choices of columns are those of before, once the columns of the template were added
    /// to each.
    spec fn declares(before: Seq<Seq<Meta>>, after: Seq<Seq<Meta>>) -> bool;

    /// Adds the columns of the template to each choice.
    fn declare(context: Declare)
        ensures
            Self::declares(choices(old(context.lists)@), choices(final(context.lists)@)),
    ;
}

impl Template for () {
    open spec fn declares(before: Seq<Seq<Meta>>, after: Seq<Seq<Meta>>) -> bool {
        after == before
    }

    fn declare(context: Declare) {
    }
}

impl<T: Template> Template for (T,) {
    open spec fn declares(before: Seq<Seq<Meta>>, after: Seq<Seq<Meta>>) -> bool {
        T::declares(before, after)
    }

    fn declare(context: Declare) {
        T::declare(context);
    }
}

impl<T0: Template, T1: Template> Template for (T0, T1) {
    open spec fn declares(before: Seq<Seq<Meta>>, after: Seq<Seq<Meta>>) -> bool {
        exists|first: Seq<Seq<Meta>>| #[trigger]
            T0::declares(before, first) && T1::declares(first, after)
    }

    fn declare(context: Declare) {
        let mut context = context;
        T0::declare(context.own());
        T1::declare(context.own());
    }
}

impl<T0: Template, T1: Template, T2: Template> Template for (T0, T1, T2) {
    open spec fn declares(before: Seq<Seq<Meta>>, after: Seq<Seq<Meta>>) -> bool {
        exists|first: Seq<Seq<Meta>>, second: Seq<Seq<Meta>>| #[trigger]
            T0::declares(before, first) && #[trigger] T1::declares(first, second) && T2::declares(
                second,
                after,
            )
    }

    fn declare(context: Declare) {
        let mut context = context;
        T0::declare(context.own());
        T1::declare(context.own());
        T2::declare(context.own());
    }
}

impl<T0: Template, T1: Template, T2: Template, T3: Template> Template for (T0, T1, T2, T3) {
    open spec fn declares(before: Seq<Seq<Meta>>, after: Seq<Seq<Meta>>) -> bool {
        exists|first: Seq<Seq<Meta>>, second: Seq<Seq<Meta>>, third: Seq<Seq<Meta>>| #[trigger]
            T0::declares(before, first) && #[trigger] T1::declares(first, second)
                && #[trigger] T2::declares(second, third) && T3::declares(third, after)
    }

    fn declare(context: Declare) {
        let mut context = context;
        T0::declare(context.own());
        T1::declare(context.own());
        T2::declare(context.own());
        T3::declare(context.own());
    }
}

/// Choices of columns that each hold one more.
pub open spec fn widened(lists: Seq<Seq<Meta>>, meta: Meta) -> Seq<Seq<Meta>> {
    Seq::new(lists.len(), |at: int| lists[at].push(meta))
}

/// Adds a column to each choice.
pub fn declare_column(context: Declare, meta: Meta)
    ensures
        choices(final(context.lists)@) == widened(choices(old(context.lists)@), meta),
{
    let lists = context.lists;
    let count: usize = lists.len();
    let ghost before = lists@;
    let mut index: usize = 0;
    while index < count
        invariant
            index <= count == before.len(),
            lists@.len() == count,
            forall|at: int| 0 <= at < index ==> #[trigger] lists@[at]@ == before[at]@.push(meta),
            forall|at: int| index <= at < count ==> #[trigger] lists@[at] == before[at],
        decreases count - index,
    {
        lists[index].push(meta);
        index = index + 1;
    }
    assert(choices(lists@) =~= widened(choices(before), meta));
}

/// A value of a column.
pub struct Column<T> {
    pub value: T,
}

/// What identifies a row to other rows.
pub struct Key;

impl<T: 'static> Column<T> {
    /// A value of a column.
    pub fn new(value: T) -> (column: Self)
        ensures
            column.value == value,
    {
        Column { value }
    }
}

impl<T: 'static> Template for Column<T> {
    /// Each choice holds one more column, which is for the type of the value.
    open spec fn declares(before: Seq<Seq<Meta>>, after: Seq<Seq<Meta>>) -> bool {
        exists|meta: Meta|
            {
                &&& meta.identifier == type_id_of::<T>()
                &&& meta.size == vstd::layout::size_of::<T>()
                &&& meta.align == vstd::layout::align_of::<T>()
                &&& after == #[trigger] widened(before, meta)
            }
    }

    fn declare(context: Declare) {
        let meta: Meta = Meta::new::<T>();
        declare_column(context, meta);
    }
}

/// Choices of columns, each followed by the given ones.
pub open spec fn extended(lists: Seq<Seq<Meta>>, more: Seq<Meta>) -> Seq<Seq<Meta>> {
    Seq::new(lists.len(), |at: int| lists[at] + more)
}

/// Choices of columns, once the first of the given choices were offered beside them, one after
/// another.
pub open spec fn offered(
    lists: Seq<Seq<Meta>>,
    some: Seq<Seq<Meta>>,
    count: int,
) -> Seq<Seq<Meta>>
    decreases count,
{
    if count <= 0 {
        lists
    } else {
        let before = offered(lists, some, count - 1);
        before + extended(before, some[count - 1])
    }
}

/// Offers choices beside those that there are.
pub fn declare_choices(context: Declare, some: &Vec<Vec<Meta>>)
    ensures
        choices(final(context.lists)@) == offered(
            choices(old(context.lists)@),
            choices(some@),
            some@.len() as int,
        ),
{
    let lists = context.lists;
    let ghost start = choices(lists@);
    let mut index: usize = 0;
    while index < some.len()
        invariant
            index <= some@.len(),
            choices(lists@) == offered(start, choices(some@), index as int),
        decreases some@.len() - index,
    {
        let count: usize = lists.len();
        let ghost before = lists@;
        let ghost more = some@[index as int]@;
        let mut place: usize = 0;
        assert(choices(before) + extended(choices(before), more).take(0) =~= choices(before));
        while place < count
            invariant
                place <= count == before.len(),
                index < some@.len(),
                more == some@[index as int]@,
                lists@.len() == count + place,
                forall|at: int| 0 <= at < count ==> #[trigger] lists@[at] == before[at],
                choices(lists@) == choices(before) + extended(choices(before), more).take(
                    place as int,
                ),
            decreases count - place,
        {
            let ghost earlier = lists@;
            let list: Vec<Meta> = joined(&lists[place], &some[index]);
            lists.push(list);
            place = place + 1;
            proof {
                assert(extended(choices(before), more)[place - 1] == list@);
                assert(choices(lists@) =~= choices(earlier).push(list@));
                assert(extended(choices(before), more).take(place as int) =~= extended(
                    choices(before),
                    more,
                ).take(place - 1).push(list@));
            }
        }
        assert(extended(choices(before), more).take(count as int) =~= extended(
            choices(before),
            more,
        ));
        index = index + 1;
    }
}

fn joined(left: &Vec<Meta>, right: &Vec<Meta>) -> (list: Vec<Meta>)
    ensures
        list@ == left@ + right@,
{
    let mut list: Vec<Meta> = Vec::new();
    let mut index: usize = 0;
    while index < left.len()
        invariant
            index <= left@.len(),
            list@ == left@.take(index as int),
        decreases left@.len() - index,
    {
        list.push(left[index]);
        index = index + 1;
        assert(left@.take(index as int) =~= left@.take(index - 1).push(left@[index - 1]));
    }
    assert(left@.take(left@.len() as int) =~= left@);
    index = 0;
    assert(left@ + right@.take(0) =~= left@);
    while index < right.len()
        invariant
            index <= right@.len(),
            list@ == left@ + right@.take(index as int),
        decreases right@.len() - index,
    {
        list.push(right[index]);
        index = index + 1;
        assert(list@ =~= left@ + right@.take(index as int));
    }
    assert(right@.take(right@.len() as int) =~= right@);
    list
}

impl<T: Template> Template for Option<T> {
    /// Each choice is offered without the columns of the template and with them.
    open spec fn declares(before: Seq<Seq<Meta>>, after: Seq<Seq<Meta>>) -> bool {
        exists|some: Seq<Seq<Meta>>| #[trigger]
            T::declares(seq![Seq::<Meta>::empty()], some) && after == offered(
                before,
                some,
                some.len() as int,
            )
    }

    fn declare(context: Declare) {
        let mut some: Vec<Vec<Meta>> = Vec::new();
        some.push(Vec::new());
        assert(choices(some@) =~= seq![Seq::<Meta>::empty()]);
        T::declare(Declare { lists: &mut some });
        declare_choices(context, &some);
    }
}

/// What is offered first are the choices as they were.
pub proof fn offers_keep_choices(lists: Seq<Seq<Meta>>, some: Seq<Seq<Meta>>, count: int)
    requires
        0 <= count,
    ensures
        offered(lists, some, count).len() >= lists.len(),
        offered(lists, some, count).take(lists.len() as int) == lists,
    decreases count,
{
    if count > 0 {
        offers_keep_choices(lists, some, count - 1);
        let before = offered(lists, some, count - 1);
        assert(offered(lists, some, count).take(lists.len() as int) =~= before.take(
            lists.len() as int,
        ));
    } else {
        assert(lists.take(lists.len() as int) =~= lists);
    }
}

/// Whether what is known of a column is what the language tells of a type.
pub open spec fn is_for<T: 'static>(meta: Meta) -> bool {
    &&& meta.identifier == type_id_of::<T>()
    &&& meta.size == vstd::layout::size_of::<T>()
    &&& meta.align == vstd::layout::align_of::<T>()
}

/// A column adds what is known of its type to the end of each choice, and columns that stand beside
/// one another do so in turn.
pub proof fn columns_are_added_in_turn<A: 'static, B: 'static, C: 'static, D: 'static>(
    before: Seq<Seq<Meta>>,
    none: Seq<Seq<Meta>>,
    one: Seq<Seq<Meta>>,
    two: Seq<Seq<Meta>>,
    three: Seq<Seq<Meta>>,
    four: Seq<Seq<Meta>>,
    at: int,
)
    requires
        <() as Template>::declares(before, none),
        <(Column<A>,) as Template>::declares(before, one),
        <(Column<A>, Column<B>) as Template>::declares(before, two),
        <(Column<A>, Column<B>, Column<C>) as Template>::declares(before, three),
        <(Column<A>, Column<B>, Column<C>, Column<D>) as Template>::declares(before, four),
        0 <= at < before.len(),
    ensures
        none == before,
        one.len() == before.len(),
        exists|a: Meta| #[trigger] is_for::<A>(a) && one[at] == before[at].push(a),
        two.len() == before.len(),
        exists|a: Meta, b: Meta| #[trigger]
            is_for::<A>(a) && #[trigger] is_for::<B>(b) && two[at] == before[at].push(a).push(b),
        three.len() == before.len(),
        exists|a: Meta, b: Meta, c: Meta| #[trigger]
            is_for::<A>(a) && #[trigger] is_for::<B>(b) && #[trigger] is_for::<C>(c) && three[at]
                == before[at].push(a).push(b).push(c),
        four.len() == before.len(),
        exists|a: Meta, b: Meta, c: Meta, d: Meta| #[trigger]
            is_for::<A>(a) && #[trigger] is_for::<B>(b) && #[trigger] is_for::<C>(c)
                && #[trigger] is_for::<D>(d) && four[at] == before[at].push(a).push(b).push(c).push(
                d,
            ),
{
    let a = lemma_column_adds::<A>(before, one, at);
    assert(is_for::<A>(a));
    {
        let first = choose|first: Seq<Seq<Meta>>| #[trigger]
            Column::<A>::declares(before, first) && Column::<B>::declares(first, two);
        let a = lemma_column_adds::<A>(before, first, at);
        let b = lemma_column_adds::<B>(first, two, at);
        assert(is_for::<A>(a) && is_for::<B>(b));
    }
    {
        let (first, second) = choose|first: Seq<Seq<Meta>>, second: Seq<Seq<Meta>>| #[trigger]
            Column::<A>::declares(before, first) && #[trigger] Column::<B>::declares(first, second)
                && Column::<C>::declares(second, three);
        let a = lemma_column_adds::<A>(before, first, at);
        let b = lemma_column_adds::<B>(first, second, at);
        let c = lemma_column_adds::<C>(second, three, at);
        assert(is_for::<A>(a) && is_for::<B>(b) && is_for::<C>(c));
    }
    {
        let (first, second, third) = choose|
            first: Seq<Seq<Meta>>,
            second: Seq<Seq<Meta>>,
            third: Seq<Seq<Meta>>,
        | #[trigger]
            Column::<A>::declares(before, first) && #[trigger] Column::<B>::declares(first, second)
                && #[trigger] Column::<C>::declares(second, third) && Column::<D>::declares(
                third,
                four,
            );
        let a = lemma_column_adds::<A>(before, first, at);
        let b = lemma_column_adds::<B>(first, second, at);
        let c = lemma_column_adds::<C>(second, third, at);
        let d = lemma_column_adds::<D>(third, four, at);
        assert(is_for::<A>(a) && is_for::<B>(b) && is_for::<C>(c) && is_for::<D>(d));
    }
}

proof fn lemma_column_adds<T: 'static>(
    before: Seq<Seq<Meta>>,
    after: Seq<Seq<Meta>>,
    at: int,
) -> (meta: Meta)
    requires
        <Column<T> as Template>::declares(before, after),
        0 <= at < before.len(),
    ensures
        after.len() == before.len(),
        is_for::<T>(meta),
        after[at] == before[at].push(meta),
{
    choose|meta: Meta|
        {
            &&& meta.identifier == type_id_of::<T>()
            &&& meta.size == vstd::layout::size_of::<T>()
            &&& meta.align == vstd::layout::align_of::<T>()
            &&& after == #[trigger] widened(before, meta)
        }
}

/// A column that may be missing doubles the choices: each is there without the column, and behind all
/// of these each is there with it.
pub proof fn optional_columns_double_the_choices<T: 'static>(
    before: Seq<Seq<Meta>>,
    after: Seq<Seq<Meta>>,
    at: int,
)
    requires
        <Option<Column<T>> as Template>::declares(before, after),
        0 <= at < before.len(),
    ensures
        after.len() == 2 * before.len(),
        after[at] == before[at],
        exists|meta: Meta| #[trigger]
            is_for::<T>(meta) && after[before.len() + at] == before[at].push(meta),
{
    let nothing = seq![Seq::<Meta>::empty()];
    let some = choose|some: Seq<Seq<Meta>>| #[trigger]
        Column::<T>::declares(nothing, some) && after == offered(before, some, some.len() as int);
    let meta = lemma_column_adds::<T>(nothing, some, 0);
    assert(is_for::<T>(meta));
    reveal_with_fuel(offered, 2);
    assert(after == before + extended(before, some[0]));
    assert(before[at] + some[0] =~= before[at].push(meta));
}

/// What may be missing is offered with each choice: whatever choice there was is still there, and for
/// each that is offered there is one that ends with it.
pub proof fn each_choice_is_offered(
    lists: Seq<Seq<Meta>>,
    some: Seq<Seq<Meta>>,
    count: int,
    at: int,
    more: int,
)
    requires
        0 <= more < count <= some.len(),
        0 <= at < lists.len(),
    ensures
        offered(lists, some, count).contains(lists[at]),
        offered(lists, some, count).contains(lists[at] + some[more]),
        offered(lists, some, count).len() == 2 * offered(lists, some, count - 1).len(),
    decreases count,
{
    let before = offered(lists, some, count - 1);
    let after = offered(lists, some, count);
    offers_keep_choices(lists, some, count - 1);
    assert(before.take(lists.len() as int)[at] == lists[at]);
    assert(before[at] == lists[at]);
    assert(after[at] == lists[at]);
    if more == count - 1 {
        assert(after[before.len() + at] == lists[at] + some[more]);
    } else {
        each_choice_is_offered(lists, some, count - 1, at, more);
        let place = choose|place: int|
            0 <= place < before.len() && before[place] == lists[at] + some[more];
        assert(after[place] == lists[at] + some[more]);
    }
}

} // verus!
