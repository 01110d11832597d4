//! What two jobs share, and how that relates them.

use crate::depend::{
    lemma_inner_errors_are_leaves, lemma_outer_errors_are_leaves, text_before, type_rank, views, ConflictView, Dependency, DependencyView, Key, KeyView, Order,
    Scope,
};
use crate::job::Job;
use crate::error::{pieces, Error, ErrorView};
use crate::normalize::{
    clash_error, clashes, consistent, first_clash, has_unknown, inner_detection_finds_every_clash,
    normal_forms_are_related_as_jobs, normalize_dependencies, relation, relation_of, some_pair,
    rejected_with, strict, touched, written, Access, NormalView, NormalizedDeps, Relation,
};
use crate::plan::{all_consistent, jobs_rejected_with};
use crate::work::{worker_rejects, Worker};
use vstd::prelude::*;

verus! {

/// The key that a dependency accesses, whether it does so strictly, and whether it writes.
pub open spec fn access_of(dependency: DependencyView) -> Option<(KeyView, bool, bool)> {
    match dependency {
        DependencyView::Unknown => None,
        DependencyView::Read(key, Order::Strict) => Some((key, true, false)),
        DependencyView::Read(key, Order::Relax) => Some((key, false, false)),
        DependencyView::Write(key, Order::Strict) => Some((key, true, true)),
        DependencyView::Write(key, Order::Relax) => Some((key, false, true)),
    }
}

/// Whether two dependencies access the same key, and one of them writes.
pub open spec fn collide(left: DependencyView, right: DependencyView) -> bool {
    match (access_of(left), access_of(right)) {
        (Some((l, _, left_writes)), Some((r, _, right_writes))) => l == r && (left_writes
            || right_writes),
        _ => false,
    }
}

/// Whether one of two dependencies is strict.
pub open spec fn one_is_strict(left: DependencyView, right: DependencyView) -> bool {
    match (access_of(left), access_of(right)) {
        (Some((_, l, _)), Some((_, r, _))) => l || r,
        _ => true,
    }
}

/// Whether a dependency of one job collides with one of another, under a strict order or not.
pub open spec fn some_collision(
    left: Seq<DependencyView>,
    right: Seq<DependencyView>,
    strictly: bool,
) -> bool {
    exists|l: int, r: int|
        0 <= l < left.len() && 0 <= r < right.len() && #[trigger] collide(left[l], right[r])
            && one_is_strict(left[l], right[r]) == strictly
}

/// Two jobs are strictly related exactly where one of them depends on everything, or both access a
/// key that one of them writes, one of them strictly. They are related in a relaxed way exactly where
/// they are not strictly related, and both access a key that one of them writes.
pub proof fn jobs_are_related_by_what_they_share(
    left: Seq<DependencyView>,
    right: Seq<DependencyView>,
)
    ensures
        (relation_of(left, right) == Relation::Strict) == (left.contains(DependencyView::Unknown)
            || right.contains(DependencyView::Unknown) || some_collision(left, right, true)),
        (relation_of(left, right) == Relation::Relaxed) == (!left.contains(
            DependencyView::Unknown,
        ) && !right.contains(DependencyView::Unknown) && !some_collision(left, right, true)
            && some_collision(left, right, false)),
        relation_of(left, right) == relation_of(right, left),
{
    lemma_related(left, right);
    lemma_related(right, left);
    assert forall|strictly: bool| #[trigger]
        some_collision(left, right, strictly) == some_collision(right, left, strictly) by {
        if some_collision(left, right, strictly) {
            let (l, r) = choose|l: int, r: int|
                0 <= l < left.len() && 0 <= r < right.len() && #[trigger] collide(left[l], right[r])
                    && one_is_strict(left[l], right[r]) == strictly;
            assert(collide(right[r], left[l]));
        }
        if some_collision(right, left, strictly) {
            let (r, l) = choose|r: int, l: int|
                0 <= r < right.len() && 0 <= l < left.len() && #[trigger] collide(right[r], left[l])
                    && one_is_strict(right[r], left[l]) == strictly;
            assert(collide(left[l], right[r]));
        }
    }
    assert(some_collision(left, right, true) == some_collision(right, left, true));
    assert(some_collision(left, right, false) == some_collision(right, left, false));
}

proof fn lemma_related(left: Seq<DependencyView>, right: Seq<DependencyView>)
    ensures
        has_unknown(left) == left.contains(DependencyView::Unknown),
        has_unknown(right) == right.contains(DependencyView::Unknown),
        !has_unknown(left) && !has_unknown(right) ==> some_pair(left, right, Relation::Strict)
            == some_collision(left, right, true),
        !has_unknown(left) && !has_unknown(right) ==> some_pair(left, right, Relation::Relaxed)
            == some_collision(left, right, false),
{
    if !has_unknown(left) && !has_unknown(right) {
        assert forall|l: int, r: int| 0 <= l < left.len() && 0 <= r < right.len() implies (
        (#[trigger] left[l]).relation(#[trigger] right[r]) == Relation::Strict) == (collide(
            left[l],
            right[r],
        ) && one_is_strict(left[l], right[r])) && (left[l].relation(right[r]) == Relation::Relaxed)
            == (collide(left[l], right[r]) && !one_is_strict(left[l], right[r])) by {
            assert(!(left[l] is Unknown));
            assert(!(right[r] is Unknown));
        }
        if some_collision(left, right, true) {
            let (l, r) = choose|l: int, r: int|
                0 <= l < left.len() && 0 <= r < right.len() && #[trigger] collide(left[l], right[r])
                    && one_is_strict(left[l], right[r]) == true;
            assert(left[l].relation(right[r]) == Relation::Strict);
        }
        if some_collision(left, right, false) {
            let (l, r) = choose|l: int, r: int|
                0 <= l < left.len() && 0 <= r < right.len() && #[trigger] collide(left[l], right[r])
                    && one_is_strict(left[l], right[r]) == false;
            assert(left[l].relation(right[r]) == Relation::Relaxed);
        }
    }
}

/// What is found between the normal forms of the dependencies of two jobs is what they share: nothing
/// where no key is accessed by both and written by one, and a strict order where one of the accesses
/// is strict, or one of the jobs depends on everything.
pub proof fn normal_forms_tell_what_jobs_share(
    left: Vec<Dependency>,
    right: Vec<Dependency>,
    left_normal: NormalizedDeps,
    right_normal: NormalizedDeps,
    found: Relation,
)
    requires
        call_ensures(normalize_dependencies, (left,), Ok(left_normal)),
        call_ensures(normalize_dependencies, (right,), Ok(right_normal)),
        call_ensures(relation, (&left_normal, &right_normal), found),
    ensures
        ({
            let l = views(left@);
            let r = views(right@);
            let unknown = l.contains(DependencyView::Unknown) || r.contains(DependencyView::Unknown);
            &&& (found == Relation::Strict) == (unknown || some_collision(l, r, true))
            &&& (found == Relation::Relaxed) == (!unknown && !some_collision(l, r, true)
                && some_collision(l, r, false))
        }),
{
    let l = views(left@);
    let r = views(right@);
    normal_forms_are_related_as_jobs(l, r, left_normal@, right_normal@);
    jobs_are_related_by_what_they_share(l, r);
}

/// A job is refused a normal form exactly where two of its dependencies access the same key and one
/// of them writes.
pub proof fn jobs_that_collide_with_themselves_are_refused(
    dependencies: Vec<Dependency>,
    result: Result<NormalizedDeps, Error>,
)
    requires
        call_ensures(normalize_dependencies, (dependencies,), result),
    ensures
        (result is Err) == (exists|first: int, second: int|
            0 <= first < second < dependencies@.len() && #[trigger] collide(
                views(dependencies@)[first],
                views(dependencies@)[second],
            )),
{
    lemma_consistent(views(dependencies@));
    let list = views(dependencies@);
    if let Err(error) = result {
        let (key, at) = choose|key: KeyView, at: int|
            {
                &&& #[trigger] first_clash(list, key, at)
                &&& error@ == clash_error(list, key, at)
                &&& forall|other: KeyView, there: int| #[trigger]
                    clashes(list, other, there) ==> !other.before(key)
            };
        assert(clashes(list, key, at));
    }
}

proof fn lemma_consistent(list: Seq<DependencyView>)
    ensures
        consistent(list) == !(exists|first: int, second: int|
            0 <= first < second < list.len() && #[trigger] collide(list[first], list[second])),
{
    assert forall|key: KeyView, at: int| #[trigger] clashes(list, key, at) implies exists|
        first: int,
        second: int,
    |
        0 <= first < second < list.len() && #[trigger] collide(list[first], list[second]) by {
        let first = if list[at].writes() {
            choose|index: int| 0 <= index < at && (#[trigger] list[index]).touches(key)
        } else {
            choose|index: int|
                0 <= index < at && (#[trigger] list[index]).touches(key) && list[index].writes()
        };
        assert(collide(list[first], list[at]));
    }
    assert forall|first: int, second: int|
        0 <= first < second < list.len() && #[trigger] collide(
            list[first],
            list[second],
        ) implies exists|key: KeyView| #[trigger] clashes(list, key, second) by {
        let key = access_of(list[first])->Some_0.0;
        assert(list[first].touches(key));
        assert(list[second].touches(key));
        assert(clashes(list, key, second));
    }
}

/// A job that is refused is refused for the smallest key on which two of its dependencies collide,
/// and for the first of them that collides with an earlier one. The error tells two writes from a read
/// and a write, and holds the stricter of the orders of the accesses up to there.
pub proof fn refusals_name_the_smallest_key(dependencies: Vec<Dependency>, error: Error)
    requires
        call_ensures(normalize_dependencies, (dependencies,), Err(error)),
    ensures
        ({
            let list = views(dependencies@);
            exists|first: int, second: int|
                {
                    let key = access_of(list[first])->Some_0.0;
                    let strictly = some_strict(list, key, second + 1);
                    let order = if strictly {
                        Order::Strict
                    } else {
                        Order::Relax
                    };
                    &&& 0 <= first < second < list.len()
                    &&& #[trigger] collide(list[first], list[second])
                    &&& forall|a: int, b: int|
                        0 <= a < b < second && #[trigger] collide(list[a], list[b]) ==> access_of(
                            list[a],
                        )->Some_0.0 != key
                    &&& forall|a: int, b: int|
                        0 <= a < b < list.len() && #[trigger] collide(list[a], list[b])
                            ==> !access_of(list[a])->Some_0.0.before(key)
                    &&& error@ == if list[first] is Write && list[second] is Write {
                        ErrorView::WriteWriteConflict(key, Scope::Inner, order)
                    } else {
                        ErrorView::ReadWriteConflict(key, Scope::Inner, order)
                    }
                }
        }),
{
    let list = views(dependencies@);
    let (key, at) = choose|key: KeyView, at: int|
        {
            &&& #[trigger] first_clash(list, key, at)
            &&& error@ == clash_error(list, key, at)
            &&& forall|other: KeyView, there: int| #[trigger]
                clashes(list, other, there) ==> !other.before(key)
        };
    assert(clashes(list, key, at));
    let first = if list[at].writes() && written(list, key, at) {
        choose|index: int|
            0 <= index < at && (#[trigger] list[index]).touches(key) && list[index].writes()
    } else if list[at].writes() {
        choose|index: int| 0 <= index < at && (#[trigger] list[index]).touches(key)
    } else {
        choose|index: int|
            0 <= index < at && (#[trigger] list[index]).touches(key) && list[index].writes()
    };
    assert(list[first].touches(key));
    assert(collide(list[first], list[at]));
    lemma_some_strict(list, key, at + 1);
    assert forall|a: int, b: int|
        0 <= a < b < list.len() && #[trigger] collide(list[a], list[b]) implies clashes(
        list,
        access_of(list[a])->Some_0.0,
        b,
    ) by {
        assert(list[a].touches(access_of(list[a])->Some_0.0));
    }
    if list[at].writes() && !written(list, key, at) {
        assert(!list[first].writes());
    }
}

/// Whether one of the first `until` dependencies accesses `key` strictly.
pub open spec fn some_strict(list: Seq<DependencyView>, key: KeyView, until: int) -> bool {
    exists|index: int|
        0 <= index < until && ((#[trigger] list[index]) == DependencyView::Read(key, Order::Strict)
                || list[index] == DependencyView::Write(key, Order::Strict))
}

/// Whether one of the first `until` dependencies writes `key`.
pub open spec fn some_write(list: Seq<DependencyView>, key: KeyView, until: int) -> bool {
    exists|index: int|
        0 <= index < until && ((#[trigger] list[index]) == DependencyView::Write(key, Order::Relax)
                || list[index] == DependencyView::Write(key, Order::Strict))
}

proof fn lemma_some_strict(list: Seq<DependencyView>, key: KeyView, until: int)
    requires
        until <= list.len(),
    ensures
        strict(list, key, until) == some_strict(list, key, until),
        written(list, key, until) == some_write(list, key, until),
{
    if strict(list, key, until) {
        let index = choose|index: int|
            0 <= index < until && (#[trigger] list[index]).touches(key) && list[index].is_strict();
        assert(access_of(list[index]) is Some);
    }
    if written(list, key, until) {
        let index = choose|index: int|
            0 <= index < until && (#[trigger] list[index]).touches(key) && list[index].writes();
        assert(access_of(list[index]) is Some);
    }
    if some_strict(list, key, until) {
        let index = choose|index: int|
            0 <= index < until && ((#[trigger] list[index]) == DependencyView::Read(key, Order::Strict)
                || list[index] == DependencyView::Write(key, Order::Strict));
        assert(list[index].touches(key));
    }
    if some_write(list, key, until) {
        let index = choose|index: int|
            0 <= index < until && ((#[trigger] list[index]) == DependencyView::Write(key, Order::Relax)
                || list[index] == DependencyView::Write(key, Order::Strict));
        assert(list[index].touches(key));
    }
}

/// The normal form of a job's dependencies holds each key that is accessed once, in order, with a
/// strict order exactly where one of the accesses is strict, and as written exactly where one of them
/// writes.
pub proof fn normal_forms_hold_each_key_once(
    dependencies: Vec<Dependency>,
    accesses: Vec<Access>,
    at: int,
    key: KeyView,
)
    requires
        call_ensures(
            normalize_dependencies,
            (dependencies,),
            Ok(NormalizedDeps::Known(accesses)),
        ),
        0 <= at < accesses@.len(),
    ensures
        ({
            let list = views(dependencies@);
            let own = accesses@[at].key@;
            &&& !list.contains(DependencyView::Unknown)
            &&& exists|index: int|
                0 <= index < list.len() && access_of(#[trigger] list[index]) is Some && access_of(
                    list[index],
                )->Some_0.0 == own
            &&& (accesses@[at].order == Order::Strict) == some_strict(list, own, list.len() as int)
            &&& accesses@[at].write == some_write(list, own, list.len() as int)
            &&& forall|after: int|
                at < after < accesses@.len() ==> own.before((#[trigger] accesses@[after]).key@)
        }),
        forall|index: int|
            0 <= index < dependencies@.len() ==> exists|place: int|
                0 <= place < accesses@.len() && (#[trigger] accesses@[place]).key@ == access_of(
                    #[trigger] views(dependencies@)[index],
                )->Some_0.0,
{
    let list = views(dependencies@);
    let normal = NormalizedDeps::Known(accesses)@;
    let shown = accesses@.map_values(|access: Access| access@);
    assert(normal == NormalView::Known(shown));
    assert(shown[at] == accesses@[at]@);
    assert(!has_unknown(list));
    lemma_some_strict(list, accesses@[at].key@, list.len() as int);
    assert(touched(list, shown[at].key, list.len() as int));
    let index = choose|index: int|
        0 <= index < list.len() && (#[trigger] list[index]).touches(shown[at].key);
    assert(access_of(list[index]) is Some);
    assert forall|after: int| at < after < accesses@.len() implies accesses@[at].key@.before(
        (#[trigger] accesses@[after]).key@,
    ) by {
        assert(shown[after] == accesses@[after]@);
    }
    assert forall|index: int| 0 <= index < dependencies@.len() implies exists|place: int|
        0 <= place < accesses@.len() && (#[trigger] accesses@[place]).key@ == access_of(
            #[trigger] views(dependencies@)[index],
        )->Some_0.0 by {
        assert(!(list[index] is Unknown));
        let own = access_of(list[index])->Some_0.0;
        assert(list[index].touches(own));
        assert(touched(list, own, list.len() as int));
        let place = choose|place: int| 0 <= place < shown.len() && (#[trigger] shown[place]).key == own;
        assert(accesses@[place]@ == shown[place]);
    }
}

/// A dependency on which an order is put keeps its key and whether it writes, and has that order; one
/// on everything stays as it is.
pub proof fn orders_are_put_on_dependencies(
    dependency: Dependency,
    order: Order,
    ordered: Dependency,
    relaxed: Dependency,
    strict: Dependency,
)
    requires
        call_ensures(Dependency::order, (dependency, order), ordered),
        call_ensures(Dependency::relax, (dependency,), relaxed),
        call_ensures(Dependency::strict, (dependency,), strict),
    ensures
        match dependency {
            Dependency::Unknown => ordered@ is Unknown && relaxed@ is Unknown && strict@ is Unknown,
            Dependency::Read(key, _) => {
                &&& ordered@ == DependencyView::Read(key@, order)
                &&& relaxed@ == DependencyView::Read(key@, Order::Relax)
                &&& strict@ == DependencyView::Read(key@, Order::Strict)
            },
            Dependency::Write(key, _) => {
                &&& ordered@ == DependencyView::Write(key@, order)
                &&& relaxed@ == DependencyView::Write(key@, Order::Relax)
                &&& strict@ == DependencyView::Write(key@, Order::Strict)
            },
        },
{
}

/// The stricter of two orders is one of them, and strict where one of them is.
pub proof fn the_stricter_order_is_kept(left: Order, right: Order, order: Order)
    requires
        call_ensures(Order::max, (left, right), order),
    ensures
        (order == Order::Strict) == (left == Order::Strict || right == Order::Strict),
{
}

/// Of two texts that first differ at a place, the one that ends there or has the smaller character
/// there comes first.
pub proof fn texts_are_ordered_by_where_they_differ(left: Seq<char>, right: Seq<char>, at: int)
    requires
        0 <= at <= left.len(),
        at <= right.len(),
        left.take(at) == right.take(at),
        at < left.len() && at < right.len() ==> left[at] != right[at],
    ensures
        text_before(left, right) == (at < right.len() && (at == left.len() || left[at]
            < right[at])),
    decreases at,
{
    if at > 0 {
        assert(left.take(at)[0] == left[0] && right.take(at)[0] == right[0]);
        let l = left.drop_first();
        let r = right.drop_first();
        assert(l.take(at - 1) =~= left.take(at).drop_first());
        assert(r.take(at - 1) =~= right.take(at).drop_first());
        texts_are_ordered_by_where_they_differ(l, r, at - 1);
    }
}

/// Keys are ordered by what they are, identifiers before addresses, these before types, and types
/// before paths; two of a kind are ordered by their numbers, or by their texts.
pub proof fn keys_are_ordered_by_kind(left: Key, right: Key, precedes: bool)
    requires
        call_ensures(Key::precedes, (&left, &right), precedes),
    ensures
        match (left, right) {
            (Key::Identifier(l), Key::Identifier(r)) => precedes == (l < r),
            (Key::Address(l), Key::Address(r)) => precedes == (l < r),
            (Key::Type(l), Key::Type(r)) => precedes == (type_rank(l) < type_rank(r)),
            (Key::Path(l), Key::Path(r)) => precedes == text_before(l@, r@),
            (Key::Identifier(_), _) => precedes,
            (_, Key::Identifier(_)) => !precedes,
            (Key::Address(_), _) => precedes,
            (_, Key::Address(_)) => !precedes,
            (Key::Type(_), _) => precedes,
            (_, Key::Type(_)) => !precedes,
        },
{
}

/// What stands against a dependency of one job beside another job: that it is one on everything, or
/// that it collides strictly with a dependency of the other job.
pub open spec fn objection(dependency: DependencyView, other: Seq<DependencyView>) -> Option<
    ErrorView,
> {
    match dependency {
        DependencyView::Unknown => Some(ErrorView::UnknownConflict(Scope::Outer)),
        DependencyView::Read(key, _) => if some_collision(seq![dependency], other, true) {
            Some(ErrorView::ReadWriteConflict(key, Scope::Outer, Order::Strict))
        } else {
            None
        },
        DependencyView::Write(key, _) => if !some_collision(seq![dependency], other, true) {
            None
        } else if some_write(other, key, other.len() as int) {
            Some(ErrorView::WriteWriteConflict(key, Scope::Outer, Order::Strict))
        } else {
            Some(ErrorView::ReadWriteConflict(key, Scope::Outer, Order::Strict))
        },
    }
}

/// The errors that are in the outcome of a detection.
pub open spec fn reported(outcome: Result<Order, ErrorView>) -> Seq<ErrorView> {
    match outcome {
        Ok(_) => Seq::empty(),
        Err(error) => pieces(Some(error)),
    }
}

/// The dependencies of a job are judged one by one against those of another: each that is objected to
/// adds one error, and the others none. Where not all errors are asked for, the first one is
/// reported. A job that depends on everything is objected to first.
pub proof fn each_objection_is_reported(
    left: Seq<DependencyView>,
    next: DependencyView,
    right: Seq<DependencyView>,
    fill: bool,
)
    requires
        forall|first: int, second: int|
            0 <= first < second < right.len() ==> !#[trigger] collide(right[first], right[second]),
    ensures
        ({
            let state = ConflictView::inner(right, fill).0;
            let before = reported(state.outer(left, true));
            let after = reported(state.outer(left.push(next), true));
            &&& match objection(next, right) {
                None => after == before,
                Some(error) => after == before.push(error),
            }
            &&& reported(state.outer(Seq::empty(), true)) == if right.contains(
                DependencyView::Unknown,
            ) {
                seq![ErrorView::UnknownConflict(Scope::Outer)]
            } else {
                Seq::empty()
            }
            &&& reported(state.outer(left, false)) == if before.len() == 0 {
                before
            } else {
                seq![before[0]]
            }
        }),
{
    let state = ConflictView::inner(right, fill).0;
    let end = right.len() as int;
    lemma_consistent(right);
    inner_detection_finds_every_clash(right, fill);
    lemma_reported(state, left);
    lemma_reported(state, left.push(next));
    lemma_reported(state, Seq::empty());
    lemma_related(left, right);
    assert(left.push(next).drop_last() =~= left);
    match next {
        DependencyView::Unknown => {},
        DependencyView::Read(key, order) | DependencyView::Write(key, order) => {
            lemma_some_strict(right, key, end);
            let single = seq![next];
            assert(state.orders.contains_key(key) == touched(right, key, end));
            assert(state.writes.contains(key) == written(right, key, end));
            assert(state.reads.contains(key) == (touched(right, key, end) && !written(
                right,
                key,
                end,
            )));
            assert forall|r: int| 0 <= r < end implies #[trigger] collide(next, right[r]) == (
            right[r].touches(key) && (next is Write || right[r].writes())) by {}
            if some_collision(single, right, true) {
                let (l, r) = choose|l: int, r: int|
                    0 <= l < single.len() && 0 <= r < right.len() && #[trigger] collide(
                        single[l],
                        right[r],
                    ) && one_is_strict(single[l], right[r]) == true;
                assert(single[l] == next);
                assert(collide(next, right[r]));
                assert(right[r].touches(key));
                assert(touched(right, key, end));
                if right[r].is_strict() {
                    assert(strict(right, key, end));
                }
                if right[r].writes() {
                    assert(written(right, key, end));
                }
            } else {
                assert forall|r: int| 0 <= r < end && #[trigger] collide(
                    next,
                    right[r],
                ) implies order == Order::Relax && !right[r].is_strict() by {
                    assert(collide(single[0], right[r]));
                }
                if next is Write && touched(right, key, end) {
                    let r = choose|index: int|
                        0 <= index < end && (#[trigger] right[index]).touches(key);
                    assert(collide(next, right[r]));
                    if strict(right, key, end) {
                        let s = choose|index: int|
                            0 <= index < end && (#[trigger] right[index]).touches(key)
                                && right[index].is_strict();
                        assert(collide(next, right[s]));
                    }
                }
                if next is Read && written(right, key, end) {
                    let r = choose|index: int|
                        0 <= index < end && (#[trigger] right[index]).touches(key)
                            && right[index].writes();
                    assert(collide(next, right[r]));
                    if strict(right, key, end) {
                        let s = choose|index: int|
                            0 <= index < end && (#[trigger] right[index]).touches(key)
                                && right[index].is_strict();
                        if s < r {
                            assert(collide(right[s], right[r]));
                        } else if r < s {
                            assert(collide(right[r], right[s]));
                        }
                    }
                }
            }
            if touched(right, key, end) || written(right, key, end) {
                assert(state.writes.contains(key) ==> touched(right, key, end)) by {
                    if written(right, key, end) {
                        let r = choose|index: int|
                            0 <= index < end && (#[trigger] right[index]).touches(key)
                                && right[index].writes();
                        assert(right[r].touches(key));
                    }
                }
            }
        },
    }
}

proof fn lemma_reported(state: ConflictView, list: Seq<DependencyView>)
    ensures
        reported(state.outer(list, true)) == state.outer_errors(list),
        reported(state.outer(list, false)) == if state.outer_errors(list).len() == 0 {
            Seq::empty()
        } else {
            seq![state.outer_errors(list)[0]]
        },
{
    let errors = state.outer_errors(list);
    lemma_outer_errors_are_leaves(state, list);
    if errors.len() == 0 {
        assert(errors =~= Seq::<ErrorView>::empty());
    } else {
        assert(errors[0].is_leaf());
        if errors.len() == 1 {
            assert(errors =~= seq![errors[0]]);
        }
    }
}

/// While the dependencies of a job do not collide with one another, one more that collides with none
/// of them gives no error. One that does gives one error: for its key, for two writes where both are
/// writes, and under a strict order where it or an access to the key before it is strict.
pub proof fn the_first_collision_within_a_job_is_reported(
    list: Seq<DependencyView>,
    next: DependencyView,
    all: bool,
)
    requires
        forall|first: int, second: int|
            0 <= first < second < list.len() ==> !#[trigger] collide(list[first], list[second]),
    ensures
        ({
            let errors = ConflictView::inner(list.push(next), all).1;
            let order = |key: KeyView|
                if some_strict(list.push(next), key, list.len() as int + 1) {
                    Order::Strict
                } else {
                    Order::Relax
                };
            let collides = exists|at: int| 0 <= at < list.len() && #[trigger] collide(list[at], next);
            &&& !collides ==> errors.len() == 0
            &&& collides ==> errors.len() == 1 && match next {
                DependencyView::Unknown => false,
                DependencyView::Read(key, _) => errors[0] == ErrorView::ReadWriteConflict(
                    key,
                    Scope::Inner,
                    order(key),
                ),
                DependencyView::Write(key, _) => errors[0] == if some_write(
                    list,
                    key,
                    list.len() as int,
                ) {
                    ErrorView::WriteWriteConflict(key, Scope::Inner, order(key))
                } else {
                    ErrorView::ReadWriteConflict(key, Scope::Inner, order(key))
                },
            }
        }),
{
    let end = list.len() as int;
    let longer = list.push(next);
    let (state, errors) = ConflictView::inner(list, all);
    lemma_consistent(list);
    inner_detection_finds_every_clash(list, all);
    assert(longer.drop_last() =~= list);
    assert(longer.last() == next);
    match next {
        DependencyView::Unknown => {},
        DependencyView::Read(key, order) | DependencyView::Write(key, order) => {
            lemma_some_strict(list, key, end);
            lemma_some_strict(longer, key, end + 1);
            assert(state.orders.contains_key(key) == touched(list, key, end));
            assert(state.writes.contains(key) == written(list, key, end));
            assert(state.reads.contains(key) == (touched(list, key, end) && !written(
                list,
                key,
                end,
            )));
            if touched(list, key, end) {
                let r = choose|index: int| 0 <= index < end && (#[trigger] list[index]).touches(key);
                if next is Write {
                    assert(collide(list[r], next));
                }
            }
            if written(list, key, end) {
                let r = choose|index: int|
                    0 <= index < end && (#[trigger] list[index]).touches(key)
                        && list[index].writes();
                assert(list[r].touches(key));
                assert(touched(list, key, end));
                assert(collide(list[r], next));
            }
            if exists|at: int| 0 <= at < list.len() && #[trigger] collide(list[at], next) {
                let at = choose|at: int| 0 <= at < list.len() && #[trigger] collide(list[at], next);
                assert(list[at].touches(key));
                assert(touched(list, key, end));
                if list[at].writes() {
                    assert(written(list, key, end));
                }
            }
            assert(longer[end] == next);
            if some_strict(longer, key, end + 1) && order != Order::Strict {
                let at = choose|index: int|
                    0 <= index < end + 1 && ((#[trigger] longer[index]) == DependencyView::Read(
                        key,
                        Order::Strict,
                    ) || longer[index] == DependencyView::Write(key, Order::Strict));
                assert(at < end);
                assert(list[at] == longer[at]);
                assert(strict(list, key, end));
                assert(list[at].touches(key));
                assert(touched(list, key, end));
            }
            if strict(list, key, end) {
                let at = choose|index: int|
                    0 <= index < end && (#[trigger] list[index]).touches(key)
                        && list[index].is_strict();
                assert(longer[at] == list[at]);
                assert(longer[at].touches(key));
                assert(strict(longer, key, end + 1));
            }
            if order == Order::Strict {
                assert(longer[end].touches(key) && longer[end].is_strict());
                assert(strict(longer, key, end + 1));
            }
        },
    }
}

/// A barrier is strictly related to every job. A job that does nothing is related to those only that
/// depend on everything.
pub proof fn barriers_are_related_to_every_job(
    barrier: Job<()>,
    nothing: Job<()>,
    other: Seq<DependencyView>,
)
    requires
        call_ensures(Job::<()>::barrier, (), barrier),
        call_ensures(Job::<()>::ok, (), nothing),
    ensures
        relation_of(barrier.declared(), other) == Relation::Strict,
        relation_of(other, barrier.declared()) == Relation::Strict,
        relation_of(nothing.declared(), other) == if other.contains(DependencyView::Unknown) {
            Relation::Strict
        } else {
            Relation::Free
        },
{
    assert(barrier.declared()[0] == DependencyView::Unknown);
    jobs_are_related_by_what_they_share(barrier.declared(), other);
    jobs_are_related_by_what_they_share(nothing.declared(), other);
}

/// Whether two dependencies of a job collide.
pub open spec fn collides_with_itself(list: Seq<DependencyView>) -> bool {
    exists|first: int, second: int|
        0 <= first < second < list.len() && #[trigger] collide(list[first], list[second])
}

/// Jobs are accepted exactly where none of them has dependencies that collide with one another.
pub proof fn jobs_are_accepted_where_none_collides_with_itself(
    declared: Seq<Seq<DependencyView>>,
)
    ensures
        all_consistent(declared) == (forall|job: int|
            0 <= job < declared.len() ==> !collides_with_itself(#[trigger] declared[job])),
{
    assert forall|job: int| 0 <= job < declared.len() implies consistent(#[trigger] declared[job])
        == !collides_with_itself(declared[job]) by {
        lemma_consistent(declared[job]);
    }
}

/// Jobs are refused for the first of them that collides with itself: with an error for the smallest
/// key on which it does where they are compiled, and with all its errors where a worker is updated.
pub proof fn the_first_job_that_collides_is_refused(
    declared: Seq<Seq<DependencyView>>,
    error: ErrorView,
)
    requires
        jobs_rejected_with(declared, error) || worker_rejects(declared, error),
    ensures
        exists|job: int|
            0 <= job < declared.len() && collides_with_itself(#[trigger] declared[job]) && (forall|
                earlier: int,
            |
                0 <= earlier < job ==> !collides_with_itself(#[trigger] declared[earlier])) && (
            rejected_with(declared[job], error) || pieces(Some(error)) == ConflictView::inner(
                declared[job],
                true,
            ).1),
{
    if jobs_rejected_with(declared, error) {
        let job = choose|job: int|
            {
                &&& 0 <= job < declared.len()
                &&& rejected_with(#[trigger] declared[job], error)
                &&& all_consistent(declared.take(job))
            };
        lemma_consistent(declared[job]);
        let (key, at) = choose|key: KeyView, at: int|
            {
                &&& #[trigger] first_clash(declared[job], key, at)
                &&& error == clash_error(declared[job], key, at)
                &&& forall|other: KeyView, there: int| #[trigger]
                    clashes(declared[job], other, there) ==> !other.before(key)
            };
        assert(clashes(declared[job], key, at));
        assert forall|earlier: int| 0 <= earlier < job implies !collides_with_itself(
            #[trigger] declared[earlier],
        ) by {
            assert(declared.take(job)[earlier] == declared[earlier]);
            assert(consistent(declared.take(job)[earlier]));
            lemma_consistent(declared[earlier]);
        }
        assert(collides_with_itself(declared[job]));
    } else {
        let job = choose|job: int|
            {
                &&& 0 <= job < declared.len()
                &&& !consistent(#[trigger] declared[job])
                &&& forall|earlier: int|
                    0 <= earlier < job ==> consistent(#[trigger] declared[earlier])
                &&& ErrorView::gathered(ConflictView::inner(declared[job], true).1) == Some(error)
            };
        lemma_consistent(declared[job]);
        lemma_inner_errors_are_leaves(declared[job], true);
        assert forall|earlier: int| 0 <= earlier < job implies !collides_with_itself(
            #[trigger] declared[earlier],
        ) by {
            lemma_consistent(declared[earlier]);
        }
        let errors = ConflictView::inner(declared[job], true).1;
        if errors.len() == 1 {
            assert(errors[0].is_leaf());
            assert(errors =~= seq![errors[0]]);
        }
        assert(collides_with_itself(declared[job]));
    }
}

/// Updating a worker whose jobs have changed fails exactly where one of them collides with itself, and
/// leaves the jobs as they are.
pub proof fn workers_refuse_jobs_that_collide<R>(worker: &mut Worker<R>, result: Result<(), Error>)
    requires
        old(worker).sound(),
        old(worker).is_pending(),
        call_ensures(Worker::<R>::update, (worker,), result),
    ensures
        result is Err == (exists|job: int|
            0 <= job < old(worker).declarations().len() && collides_with_itself(
                #[trigger] old(worker).declarations()[job],
            )),
        final(worker).is_pending() == (result is Err),
        final(worker).declarations() == old(worker).declarations(),
        final(worker).payloads() == old(worker).payloads(),
{
    let declared = old(worker).declarations();
    jobs_are_accepted_where_none_collides_with_itself(declared);
    if let Err(error) = result {
        the_first_job_that_collides_is_refused(declared, error@);
    }
}

} // verus!
