//! The normal form of a job's dependencies, and the relation between the dependencies of two jobs.

use crate::depend::{views, ConflictView, Dependency, DependencyView, Key, KeyView, Order, Scope};
use crate::error::{Error, ErrorView};
use vstd::prelude::*;

verus! {

/// All that a job does with one key.
#[derive(Debug, PartialEq, Eq)]
pub struct Access {
    pub key: Key,
    pub order: Order,
    pub write: bool,
}

/// The dependencies of a job, with one access for each key, ordered by key.
#[derive(Debug, PartialEq, Eq)]
pub enum NormalizedDeps {
    Unknown,
    Known(Vec<Access>),
}

/// How two jobs constrain each other.
#[derive(Debug, Copy, Clone, PartialEq, Eq, Structural)]
pub enum Relation {
    /// The jobs may overlap.
    Free,
    /// The jobs may not overlap, but may run in any order.
    Relaxed,
    /// The jobs run in the order of their declaration.
    Strict,
}

/// The abstract value of an [`Access`].
pub struct AccessView {
    pub key: KeyView,
    pub order: Order,
    pub write: bool,
}

impl View for Access {
    type V = AccessView;

    open spec fn view(&self) -> AccessView {
        AccessView { key: self.key@, order: self.order, write: self.write }
    }
}

/// The abstract value of [`NormalizedDeps`].
#[verifier::ext_equal]
pub enum NormalView {
    Unknown,
    Known(Seq<AccessView>),
}

impl View for NormalizedDeps {
    type V = NormalView;

    open spec fn view(&self) -> NormalView {
        match self {
            NormalizedDeps::Unknown => NormalView::Unknown,
            NormalizedDeps::Known(accesses) => NormalView::Known(
                accesses@.map_values(|access: Access| access@),
            ),
        }
    }
}

/// The relation between an access under `left` and one under `right` to the same key, where `write`
/// says whether one of them writes.
pub open spec fn shared_key_relation(left: Order, right: Order, write: bool) -> Relation {
    if !write {
        Relation::Free
    } else if left.stricter(right) == Order::Strict {
        Relation::Strict
    } else {
        Relation::Relaxed
    }
}

impl DependencyView {
    pub open spec fn writes(self) -> bool {
        self is Write
    }

    pub open spec fn is_strict(self) -> bool {
        match self {
            DependencyView::Unknown => true,
            DependencyView::Read(_, order) => order == Order::Strict,
            DependencyView::Write(_, order) => order == Order::Strict,
        }
    }

    /// The relation that two dependencies of two jobs give rise to.
    pub open spec fn relation(self, other: DependencyView) -> Relation {
        match (self, other) {
            (DependencyView::Unknown, _) => Relation::Strict,
            (_, DependencyView::Unknown) => Relation::Strict,
            (DependencyView::Read(_, _), DependencyView::Read(_, _)) => Relation::Free,
            (DependencyView::Read(l, left), DependencyView::Write(r, right)) => if l == r {
                shared_key_relation(left, right, true)
            } else {
                Relation::Free
            },
            (DependencyView::Write(l, left), DependencyView::Read(r, right)) => if l == r {
                shared_key_relation(left, right, true)
            } else {
                Relation::Free
            },
            (DependencyView::Write(l, left), DependencyView::Write(r, right)) => if l == r {
                shared_key_relation(left, right, true)
            } else {
                Relation::Free
            },
        }
    }
}

/// Whether a job depends on everything.
pub open spec fn has_unknown(dependencies: Seq<DependencyView>) -> bool {
    exists|index: int|
        0 <= index < dependencies.len() && #[trigger] dependencies[index] is Unknown
}

/// Whether some pair of dependencies of two jobs gives rise to `relation`.
pub open spec fn some_pair(
    left: Seq<DependencyView>,
    right: Seq<DependencyView>,
    relation: Relation,
) -> bool {
    exists|l: int, r: int|
        0 <= l < left.len() && 0 <= r < right.len() && (#[trigger] left[l]).relation(
            #[trigger] right[r],
        ) == relation
}

/// The relation between two jobs: the strongest that some pair of their dependencies gives rise to,
/// where a dependency on everything is a strict barrier whatever the other job depends on.
pub open spec fn relation_of(left: Seq<DependencyView>, right: Seq<DependencyView>) -> Relation {
    if has_unknown(left) || has_unknown(right) {
        Relation::Strict
    } else if some_pair(left, right, Relation::Strict) {
        Relation::Strict
    } else if some_pair(left, right, Relation::Relaxed) {
        Relation::Relaxed
    } else {
        Relation::Free
    }
}

/// Whether one of the first `until` dependencies writes `key`.
pub open spec fn written(dependencies: Seq<DependencyView>, key: KeyView, until: int) -> bool {
    exists|index: int|
        0 <= index < until && (#[trigger] dependencies[index]).touches(key)
            && dependencies[index].writes()
}

/// Whether one of the first `until` dependencies accesses `key` under a strict order.
pub open spec fn strict(dependencies: Seq<DependencyView>, key: KeyView, until: int) -> bool {
    exists|index: int|
        0 <= index < until && (#[trigger] dependencies[index]).touches(key)
            && dependencies[index].is_strict()
}

/// Whether one of the first `until` dependencies accesses `key`.
pub open spec fn touched(dependencies: Seq<DependencyView>, key: KeyView, until: int) -> bool {
    exists|index: int| 0 <= index < until && (#[trigger] dependencies[index]).touches(key)
}

/// Whether the dependency at `at` accesses `key` after another one that it cannot stand beside: one
/// of the two writes.
pub open spec fn clashes(dependencies: Seq<DependencyView>, key: KeyView, at: int) -> bool {
    &&& 0 <= at < dependencies.len()
    &&& dependencies[at].touches(key)
    &&& if dependencies[at].writes() {
        touched(dependencies, key, at)
    } else {
        written(dependencies, key, at)
    }
}

/// Whether `at` is the first place where the accesses to `key` clash.
pub open spec fn first_clash(dependencies: Seq<DependencyView>, key: KeyView, at: int) -> bool {
    clashes(dependencies, key, at) && forall|before: int|
        0 <= before < at ==> !#[trigger] clashes(dependencies, key, before)
}

/// The stricter of the orders of the first `until` accesses to `key`.
pub open spec fn joint_order(dependencies: Seq<DependencyView>, key: KeyView, until: int) -> Order {
    if strict(dependencies, key, until) {
        Order::Strict
    } else {
        Order::Relax
    }
}

/// The error for a clash on `key` at `at`.
pub open spec fn clash_error(
    dependencies: Seq<DependencyView>,
    key: KeyView,
    at: int,
) -> ErrorView {
    let order = joint_order(dependencies, key, at + 1);
    if dependencies[at].writes() && written(dependencies, key, at) {
        ErrorView::WriteWriteConflict(key, Scope::Inner, order)
    } else {
        ErrorView::ReadWriteConflict(key, Scope::Inner, order)
    }
}

/// Whether no two dependencies of a job clash.
pub open spec fn consistent(dependencies: Seq<DependencyView>) -> bool {
    forall|key: KeyView, at: int| !#[trigger] clashes(dependencies, key, at)
}

/// Whether `error` is what a job with these dependencies is rejected with: it is for the first
/// clash on the smallest key that has one.
pub open spec fn rejected_with(dependencies: Seq<DependencyView>, error: ErrorView) -> bool {
    exists|key: KeyView, at: int|
        {
            &&& #[trigger] first_clash(dependencies, key, at)
            &&& error == clash_error(dependencies, key, at)
            &&& forall|other: KeyView, there: int| #[trigger]
                clashes(dependencies, other, there) ==> !other.before(key)
        }
}

/// The access that stands for all the dependencies of a job on `key`.
pub open spec fn joint_access(dependencies: Seq<DependencyView>, key: KeyView) -> AccessView {
    let until = dependencies.len() as int;
    AccessView {
        key,
        order: joint_order(dependencies, key, until),
        write: written(dependencies, key, until),
    }
}

/// Whether accesses are ordered by key, with one access for each key.
pub open spec fn sorted_accesses(accesses: Seq<AccessView>) -> bool {
    forall|left: int, right: int|
        0 <= left < right < accesses.len() ==> (#[trigger] accesses[left]).key.before(
            (#[trigger] accesses[right]).key,
        )
}

/// Whether `accesses` holds, in order, the joint access of each key that is accessed.
pub open spec fn accesses_of(
    dependencies: Seq<DependencyView>,
    accesses: Seq<AccessView>,
) -> bool {
    &&& sorted_accesses(accesses)
    &&& forall|index: int|
        0 <= index < accesses.len() ==> {
            &&& touched(
                dependencies,
                (#[trigger] accesses[index]).key,
                dependencies.len() as int,
            )
            &&& accesses[index] == joint_access(dependencies, accesses[index].key)
        }
    &&& forall|key: KeyView| #[trigger]
        touched(dependencies, key, dependencies.len() as int) ==> exists|index: int|
            0 <= index < accesses.len() && (#[trigger] accesses[index]).key == key
}

/// Whether `normal` is the normal form of the dependencies.
pub open spec fn normalizes(dependencies: Seq<DependencyView>, normal: NormalView) -> bool {
    match normal {
        NormalView::Unknown => has_unknown(dependencies),
        NormalView::Known(accesses) => !has_unknown(dependencies) && accesses_of(
            dependencies,
            accesses,
        ),
    }
}

/// Whether some key is accessed by both jobs in a way that gives rise to `relation`.
pub open spec fn some_shared_key(
    left: Seq<AccessView>,
    right: Seq<AccessView>,
    relation: Relation,
) -> bool {
    exists|l: int, r: int|
        0 <= l < left.len() && 0 <= r < right.len() && (#[trigger] left[l]).key == (
        #[trigger] right[r]).key && shared_key_relation(
            left[l].order,
            right[r].order,
            left[l].write || right[r].write,
        ) == relation
}

/// The relation between two jobs, by their normal forms.
pub open spec fn normal_relation(left: NormalView, right: NormalView) -> Relation {
    match (left, right) {
        (NormalView::Known(left), NormalView::Known(right)) => {
            if some_shared_key(left, right, Relation::Strict) {
                Relation::Strict
            } else if some_shared_key(left, right, Relation::Relaxed) {
                Relation::Relaxed
            } else {
                Relation::Free
            }
        },
        _ => Relation::Strict,
    }
}

proof fn lemma_untouched(dependencies: Seq<DependencyView>, key: KeyView, until: int)
    requires
        0 <= until < dependencies.len(),
        !dependencies[until].touches(key),
    ensures
        written(dependencies, key, until + 1) == written(dependencies, key, until),
        strict(dependencies, key, until + 1) == strict(dependencies, key, until),
        touched(dependencies, key, until + 1) == touched(dependencies, key, until),
        !clashes(dependencies, key, until),
{
    if written(dependencies, key, until) {
        let index = choose|index: int|
            0 <= index < until && (#[trigger] dependencies[index]).touches(key)
                && dependencies[index].writes();
        assert(dependencies[index].touches(key));
    }
    if strict(dependencies, key, until) {
        let index = choose|index: int|
            0 <= index < until && (#[trigger] dependencies[index]).touches(key)
                && dependencies[index].is_strict();
        assert(dependencies[index].touches(key));
    }
    if touched(dependencies, key, until) {
        let index = choose|index: int|
            0 <= index < until && (#[trigger] dependencies[index]).touches(key);
        assert(dependencies[index].touches(key));
    }
}

proof fn lemma_touched(dependencies: Seq<DependencyView>, key: KeyView, until: int)
    requires
        0 <= until < dependencies.len(),
        dependencies[until].touches(key),
    ensures
        written(dependencies, key, until + 1) == (written(dependencies, key, until)
            || dependencies[until].writes()),
        strict(dependencies, key, until + 1) == (strict(dependencies, key, until)
            || dependencies[until].is_strict()),
        touched(dependencies, key, until + 1),
{
    if written(dependencies, key, until) {
        let index = choose|index: int|
            0 <= index < until && (#[trigger] dependencies[index]).touches(key)
                && dependencies[index].writes();
        assert(dependencies[index].touches(key));
    }
    if strict(dependencies, key, until) {
        let index = choose|index: int|
            0 <= index < until && (#[trigger] dependencies[index]).touches(key)
                && dependencies[index].is_strict();
        assert(dependencies[index].touches(key));
    }
}

/// The accesses to one key that have been seen, until they clash.
struct Entry {
    access: Access,
    clash: Option<Error>,
}

/// Whether `entry` tells what the first `until` dependencies do with its key.
spec fn entry_tells(dependencies: Seq<DependencyView>, entry: Entry, until: int) -> bool {
    let key = entry.access.key@;
    &&& touched(dependencies, key, until)
    &&& match entry.clash {
        None => {
            &&& forall|at: int| at < until ==> !#[trigger] clashes(dependencies, key, at)
            &&& entry.access.order == joint_order(dependencies, key, until)
            &&& entry.access.write == written(dependencies, key, until)
        },
        Some(error) => exists|at: int|
            at < until && #[trigger] first_clash(dependencies, key, at) && error@ == clash_error(
                dependencies,
                key,
                at,
            ),
    }
}

/// Whether `entries` tell, ordered by key, what the first `until` dependencies do.
spec fn entries_tell(
    dependencies: Seq<DependencyView>,
    entries: Seq<Entry>,
    until: int,
) -> bool {
    &&& forall|left: int, right: int|
        0 <= left < right < entries.len() ==> (#[trigger] entries[left]).access.key@.before(
            (#[trigger] entries[right]).access.key@,
        )
    &&& forall|index: int|
        0 <= index < entries.len() ==> entry_tells(dependencies, #[trigger] entries[index], until)
    &&& forall|key: KeyView| #[trigger]
        touched(dependencies, key, until) ==> exists|index: int|
            0 <= index < entries.len() && (#[trigger] entries[index]).access.key@ == key
}

proof fn lemma_entry_stays(dependencies: Seq<DependencyView>, entry: Entry, until: int)
    requires
        0 <= until < dependencies.len(),
        !dependencies[until].touches(entry.access.key@),
        entry_tells(dependencies, entry, until),
    ensures
        entry_tells(dependencies, entry, until + 1),
{
    let key = entry.access.key@;
    lemma_untouched(dependencies, key, until);
    if entry.clash is None {
        assert forall|at: int| at < until + 1 implies !#[trigger] clashes(
            dependencies,
            key,
            at,
        ) by {}
    } else {
        let at = choose|at: int|
            at < until && #[trigger] first_clash(dependencies, key, at) && entry.clash->0@
                == clash_error(dependencies, key, at);
        assert(first_clash(dependencies, key, at));
    }
}

/// Records the dependency at `until`, an access to `key`, in the entries.
fn record(
    Ghost(dependencies): Ghost<Seq<DependencyView>>,
    Ghost(until): Ghost<int>,
    entries: &mut Vec<Entry>,
    access: Access,
)
    requires
        0 <= until < dependencies.len(),
        entries_tell(dependencies, old(entries)@, until),
        dependencies[until] == (if access.write {
            DependencyView::Write(access.key@, access.order)
        } else {
            DependencyView::Read(access.key@, access.order)
        }),
    ensures
        entries_tell(dependencies, final(entries)@, until + 1),
{
    let ghost before = entries@;
    let ghost key = access.key@;
    proof {
        lemma_touched(dependencies, key, until);
    }
    let mut index: usize = 0;
    while index < entries.len() && entries[index].access.key.precedes(&access.key)
        invariant
            index <= entries.len(),
            entries@ == before,
            access.key@ == key,
            forall|at: int|
                0 <= at < index ==> (#[trigger] before[at]).access.key@.before(key),
        decreases entries.len() - index,
    {
        index += 1;
    }
    proof {
        assert forall|other: KeyView| other != key implies touched(dependencies, other, until + 1)
            == #[trigger] touched(dependencies, other, until) by {
            lemma_untouched(dependencies, other, until);
        }
        assert forall|at: int| 0 <= at < before.len() && before[at].access.key@ != key implies
            entry_tells(dependencies, #[trigger] before[at], until + 1) by {
            lemma_entry_stays(dependencies, before[at], until);
        }
        assert forall|at: int| 0 <= at < index implies (#[trigger] before[at]).access.key@
            != key by {
            key.before_is_irreflexive();
        }
    }
    if index < entries.len() && entries[index].access.key == access.key {
        let ghost at = index as int;
        let ghost entry = before[at];
        assert(entry_tells(dependencies, entry, until));
        assert forall|there: int| 0 <= there < before.len() && there != at implies (
        #[trigger] before[there]).access.key@ != key by {
            key.before_is_irreflexive();
            if there < at {
                assert(before[there].access.key@.before(before[at].access.key@));
            } else {
                assert(before[at].access.key@.before(before[there].access.key@));
            }
        }
        if entries[index].clash.is_none() {
            let order = entries[index].access.order.max(access.order);
            let mut entry = Entry {
                access: Access {
                    key: access.key.clone(),
                    order,
                    write: entries[index].access.write || access.write,
                },
                clash: None,
            };
            if entries[index].access.write && access.write {
                entry.clash = Some(Error::WriteWriteConflict(access.key, Scope::Inner, order));
            } else if entries[index].access.write || access.write {
                entry.clash = Some(Error::ReadWriteConflict(access.key, Scope::Inner, order));
            }
            entries.set(index, entry);
            proof {
                if entry.clash is None {
                    assert(!clashes(dependencies, key, until));
                } else {
                    assert(clashes(dependencies, key, until));
                    assert(first_clash(dependencies, key, until));
                    assert(entry.clash->0@ == clash_error(dependencies, key, until));
                }
                assert(entry_tells(dependencies, entry, until + 1));
            }
        } else {
            proof {
                let first = choose|first: int|
                    first < until && #[trigger] first_clash(dependencies, key, first)
                        && entry.clash->0@ == clash_error(dependencies, key, first);
                assert(first_clash(dependencies, key, first));
                assert(entry_tells(dependencies, entry, until + 1));
            }
        }
        proof {
            assert forall|other: KeyView| #[trigger]
                touched(dependencies, other, until + 1) implies exists|there: int|
                0 <= there < entries.len() && (#[trigger] entries[there]).access.key@ == other by {
                if other == key {
                    assert(entries[at].access.key@ == key);
                } else {
                    assert(touched(dependencies, other, until));
                    let there = choose|there: int|
                        0 <= there < before.len() && (#[trigger] before[there]).access.key@
                            == other;
                    assert(entries[there].access.key@ == other);
                }
            }
        }
    } else {
        proof {
            // The key is not among the entries: those from `index` on come after it.
            assert forall|at: int| index <= at < before.len() implies key.before(
                (#[trigger] before[at]).access.key@,
            ) by {
                key.before_is_total(before[index as int].access.key@);
                if at > index {
                    assert(before[index as int].access.key@.before(before[at].access.key@));
                    key.before_is_transitive(
                        before[index as int].access.key@,
                        before[at].access.key@,
                    );
                }
            }
            if touched(dependencies, key, until) {
                let at = choose|at: int|
                    0 <= at < before.len() && (#[trigger] before[at]).access.key@ == key;
                key.before_is_irreflexive();
            }
            assert(!touched(dependencies, key, until));
            if written(dependencies, key, until) {
                let at = choose|at: int|
                    0 <= at < until && (#[trigger] dependencies[at]).touches(key)
                        && dependencies[at].writes();
                assert(dependencies[at].touches(key));
            }
            if strict(dependencies, key, until) {
                let at = choose|at: int|
                    0 <= at < until && (#[trigger] dependencies[at]).touches(key)
                        && dependencies[at].is_strict();
                assert(dependencies[at].touches(key));
            }
        }
        let entry = Entry { access, clash: None };
        entries.insert(index, entry);
        proof {
            assert forall|at: int| at < until + 1 implies !#[trigger] clashes(
                dependencies,
                key,
                at,
            ) by {
                if clashes(dependencies, key, at) && at < until {
                    assert(dependencies[at].touches(key));
                }
            }
            assert(entry_tells(dependencies, entry, until + 1));
            assert forall|at: int| 0 <= at < entries.len() implies entry_tells(
                dependencies,
                #[trigger] entries[at],
                until + 1,
            ) by {
                if at < index {
                    assert(entries[at] == before[at]);
                } else if at > index {
                    assert(entries[at] == before[at - 1]);
                    key.before_is_irreflexive();
                }
            }
            assert forall|left: int, right: int| 0 <= left < right < entries.len() implies (
            #[trigger] entries[left]).access.key@.before(
                (#[trigger] entries[right]).access.key@,
            ) by {
                let l = if left < index {
                    left
                } else {
                    left - 1
                };
                let r = if right < index {
                    right
                } else {
                    right - 1
                };
                if left != index {
                    assert(entries[left] == before[l]);
                }
                if right != index {
                    assert(entries[right] == before[r]);
                }
            }
            assert forall|other: KeyView| #[trigger]
                touched(dependencies, other, until + 1) implies exists|there: int|
                0 <= there < entries.len() && (#[trigger] entries[there]).access.key@ == other by {
                if other == key {
                    assert(entries[index as int].access.key@ == key);
                } else {
                    assert(touched(dependencies, other, until));
                    let there = choose|there: int|
                        0 <= there < before.len() && (#[trigger] before[there]).access.key@
                            == other;
                    if there < index {
                        assert(entries[there].access.key@ == other);
                    } else {
                        assert(entries[there + 1].access.key@ == other);
                    }
                }
            }
        }
    }
}

/// Brings the dependencies of a job into normal form. A job that writes a key may not access it in
/// any other way.
pub fn normalize_dependencies(dependencies: Vec<Dependency>) -> (result: Result<
    NormalizedDeps,
    Error,
>)
    ensures
        match result {
            Ok(normal) => consistent(views(dependencies@)) && normalizes(
                views(dependencies@),
                normal@,
            ),
            Err(error) => rejected_with(views(dependencies@), error@),
        },
{
    let ghost whole = views(dependencies@);
    let ghost count = dependencies@.len() as int;
    let mut unknown = false;
    let mut entries: Vec<Entry> = Vec::new();

    for dependency in iterator: dependencies
        invariant
            iterator.seq() == dependencies@,
            whole == views(dependencies@),
            entries_tell(whole, entries@, iterator.index()),
            unknown == exists|index: int|
                0 <= index < iterator.index() && #[trigger] whole[index] is Unknown,
    {
        let ghost index = iterator.index();
        let ghost before = unknown;
        assert(whole[index] == dependency@);
        match dependency {
            Dependency::Unknown => {
                unknown = true;
                proof {
                    assert forall|key: KeyView| touched(whole, key, index + 1)
                        == #[trigger] touched(whole, key, index) by {
                        lemma_untouched(whole, key, index);
                    }
                    assert forall|key: KeyView| #[trigger]
                        touched(whole, key, index + 1) implies exists|there: int|
                        0 <= there < entries.len() && (#[trigger] entries[there]).access.key@
                            == key by {
                        assert(touched(whole, key, index));
                    }
                    assert forall|at: int| 0 <= at < entries.len() implies entry_tells(
                        whole,
                        #[trigger] entries[at],
                        index + 1,
                    ) by {
                        lemma_entry_stays(whole, entries[at], index);
                    }
                }
            },
            Dependency::Read(key, order) => {
                record(
                    Ghost(whole),
                    Ghost(index),
                    &mut entries,
                    Access { key, order, write: false },
                );
            },
            Dependency::Write(key, order) => {
                record(
                    Ghost(whole),
                    Ghost(index),
                    &mut entries,
                    Access { key, order, write: true },
                );
            },
        }
        proof {
            if before {
                let at = choose|at: int| 0 <= at < index && #[trigger] whole[at] is Unknown;
                assert(whole[at] is Unknown);
            }
        }
    }
    assert(unknown == has_unknown(whole));

    let ghost told = entries@;
    let mut accesses: Vec<Access> = Vec::new();
    for entry in iterator: entries
        invariant
            iterator.seq() == told,
            whole == views(dependencies@),
            count == whole.len(),
            entries_tell(whole, told, count),
            accesses.len() == iterator.index(),
            forall|at: int|
                0 <= at < iterator.index() ==> (#[trigger] told[at]).clash is None
                    && accesses@[at] == told[at].access,
    {
        let ghost index = iterator.index();
        assert(entry == told[index]);
        assert(entry_tells(whole, told[index], count));
        match entry.clash {
            None => accesses.push(entry.access),
            Some(error) => {
                proof {
                    let key = told[index].access.key@;
                    let at = choose|at: int|
                        at < count && #[trigger] first_clash(whole, key, at) && error@
                            == clash_error(whole, key, at);
                    assert(first_clash(whole, key, at));
                    assert forall|other: KeyView, there: int| #[trigger]
                        clashes(whole, other, there) implies !other.before(key) by {
                        assert(whole[there].touches(other));
                        assert(touched(whole, other, count));
                        let place = choose|place: int|
                            0 <= place < told.len() && (#[trigger] told[place]).access.key@
                                == other;
                        assert(entry_tells(whole, told[place], count));
                        if place < index {
                            assert(told[place].clash is None);
                            assert(false);
                        } else if place > index {
                            assert(key.before(other));
                            if other.before(key) {
                                key.before_is_transitive(other, key);
                                key.before_is_irreflexive();
                            }
                        } else {
                            key.before_is_irreflexive();
                        }
                    }
                    assert(rejected_with(whole, error@));
                }
                return Err(error);
            },
        }
    }

    proof {
        assert forall|key: KeyView, at: int| !#[trigger] clashes(whole, key, at) by {
            if clashes(whole, key, at) {
                assert(whole[at].touches(key));
                assert(touched(whole, key, count));
                let place = choose|place: int|
                    0 <= place < told.len() && (#[trigger] told[place]).access.key@ == key;
                assert(entry_tells(whole, told[place], count));
                assert(told[place].clash is None);
            }
        }
    }
    if unknown {
        return Ok(NormalizedDeps::Unknown);
    }
    let normal = NormalizedDeps::Known(accesses);
    proof {
        let views = normal@->Known_0;
        assert forall|index: int| 0 <= index < views.len() implies touched(
            whole,
            (#[trigger] views[index]).key,
            count,
        ) && views[index] == joint_access(whole, views[index].key) by {
            assert(told[index].clash is None);
            assert(entry_tells(whole, told[index], count));
        }
        assert forall|left: int, right: int| 0 <= left < right < views.len() implies (
        #[trigger] views[left]).key.before((#[trigger] views[right]).key) by {
            assert(told[left].clash is None && told[right].clash is None);
        }
        assert forall|key: KeyView| #[trigger] touched(whole, key, count) implies exists|
            index: int,
        |
            0 <= index < views.len() && (#[trigger] views[index]).key == key by {
            let place = choose|place: int|
                0 <= place < told.len() && (#[trigger] told[place]).access.key@ == key;
            assert(told[place].clash is None);
            assert(views[place].key == key);
        }
    }
    Ok(normal)
}

/// The relation between two jobs, by their normal forms.
pub fn relation(left: &NormalizedDeps, right: &NormalizedDeps) -> (relation: Relation)
    requires
        left@ matches NormalView::Known(accesses) ==> sorted_accesses(accesses),
        right@ matches NormalView::Known(accesses) ==> sorted_accesses(accesses),
    ensures
        relation == normal_relation(left@, right@),
{
    match (left, right) {
        (NormalizedDeps::Known(lefts), NormalizedDeps::Known(rights)) => {
            let ghost ls = lefts@.map_values(|access: Access| access@);
            let ghost rs = rights@.map_values(|access: Access| access@);
            let mut relation = Relation::Free;
            let mut l: usize = 0;
            let mut r: usize = 0;
            while l < lefts.len() && r < rights.len()
                invariant
                    l <= lefts.len(),
                    left@ == NormalView::Known(ls),
                    right@ == NormalView::Known(rs),
                    r <= rights.len(),
                    ls == lefts@.map_values(|access: Access| access@),
                    rs == rights@.map_values(|access: Access| access@),
                    sorted_accesses(ls),
                    sorted_accesses(rs),
                    forall|before: int, after: int|
                        0 <= before < l && r <= after < rs.len() ==> (
                        #[trigger] ls[before]).key.before((#[trigger] rs[after]).key),
                    forall|before: int, after: int|
                        0 <= before < r && l <= after < ls.len() ==> (
                        #[trigger] rs[before]).key.before((#[trigger] ls[after]).key),
                    forall|left: int, right: int|
                        0 <= left < l && 0 <= right < r && (#[trigger] ls[left]).key == (
                        #[trigger] rs[right]).key ==> shared_key_relation(
                            ls[left].order,
                            rs[right].order,
                            ls[left].write || rs[right].write,
                        ) != Relation::Strict,
                    relation == Relation::Free || relation == Relation::Relaxed,
                    (relation == Relation::Relaxed) == exists|left: int, right: int|
                        0 <= left < l && 0 <= right < r && (#[trigger] ls[left]).key == (
                        #[trigger] rs[right]).key && shared_key_relation(
                            ls[left].order,
                            rs[right].order,
                            ls[left].write || rs[right].write,
                        ) == Relation::Relaxed,
                decreases lefts.len() - l + rights.len() - r,
            {
                let ghost li = l as int;
                let ghost ri = r as int;
                assert(ls[li] == lefts@[li]@ && rs[ri] == rights@[ri]@);
                proof {
                    ls[li].key.before_is_total(rs[ri].key);
                    ls[li].key.before_is_irreflexive();
                    assert forall|other: KeyView, last: KeyView|
                        ls[li].key.before(other) && other.before(last) implies #[trigger]
                        ls[li].key.before(last) || !#[trigger] other.before(last) by {
                        ls[li].key.before_is_transitive(other, last);
                    }
                    assert forall|other: KeyView, last: KeyView|
                        rs[ri].key.before(other) && other.before(last) implies #[trigger]
                        rs[ri].key.before(last) || !#[trigger] other.before(last) by {
                        rs[ri].key.before_is_transitive(other, last);
                    }
                    assert forall|key: KeyView| !#[trigger] key.before(key) by {
                        key.before_is_irreflexive();
                    }
                }
                if lefts[l].key.precedes(&rights[r].key) {
                    l += 1;
                    assert forall|after: int| ri <= after < rs.len() implies ls[li].key.before(
                        (#[trigger] rs[after]).key,
                    ) by {
                        if after > ri {
                            assert(rs[ri].key.before(rs[after].key));
                        }
                    }
                } else if rights[r].key.precedes(&lefts[l].key) {
                    r += 1;
                    assert forall|after: int| li <= after < ls.len() implies rs[ri].key.before(
                        (#[trigger] ls[after]).key,
                    ) by {
                        if after > li {
                            assert(ls[li].key.before(ls[after].key));
                        }
                    }
                } else {
                    let ghost before = relation;
                    let ghost pair = shared_key_relation(
                        ls[li].order,
                        rs[ri].order,
                        ls[li].write || rs[ri].write,
                    );
                    if lefts[l].write || rights[r].write {
                        match lefts[l].order.max(rights[r].order) {
                            Order::Strict => {
                                assert(pair == Relation::Strict);
                                assert(some_shared_key(ls, rs, Relation::Strict));
                                return Relation::Strict;
                            },
                            Order::Relax => {
                                assert(pair == Relation::Relaxed);
                                relation = Relation::Relaxed;
                            },
                        }
                    }
                    l += 1;
                    r += 1;
                    proof {
                        if before == Relation::Relaxed {
                            let (x, y) = choose|left: int, right: int|
                                0 <= left < li && 0 <= right < ri && (#[trigger] ls[left]).key == (
                                #[trigger] rs[right]).key && shared_key_relation(
                                    ls[left].order,
                                    rs[right].order,
                                    ls[left].write || rs[right].write,
                                ) == Relation::Relaxed;
                            assert(ls[x].key == rs[y].key);
                        }
                    }
                }
            }
            proof {
                assert forall|key: KeyView| !#[trigger] key.before(key) by {
                    key.before_is_irreflexive();
                }
                assert forall|x: int, y: int|
                    0 <= x < ls.len() && 0 <= y < rs.len() && (#[trigger] ls[x]).key == (
                    #[trigger] rs[y]).key implies x < l && y < r by {}
            }
            relation
        },
        _ => Relation::Strict,
    }
}

proof fn lemma_joint(dependencies: Seq<DependencyView>, key: KeyView, index: int)
    requires
        0 <= index < dependencies.len(),
        dependencies[index].touches(key),
    ensures
        touched(dependencies, key, dependencies.len() as int),
        dependencies[index].writes() ==> joint_access(dependencies, key).write,
        dependencies[index].is_strict() ==> joint_access(dependencies, key).order == Order::Strict,
{
}

/// The normal forms of two consistent jobs are related as the jobs are.
pub proof fn normal_forms_are_related_as_jobs(
    left: Seq<DependencyView>,
    right: Seq<DependencyView>,
    left_normal: NormalView,
    right_normal: NormalView,
)
    requires
        consistent(left),
        consistent(right),
        normalizes(left, left_normal),
        normalizes(right, right_normal),
    ensures
        normal_relation(left_normal, right_normal) == relation_of(left, right),
{
    if let (NormalView::Known(ls), NormalView::Known(rs)) = (left_normal, right_normal) {
        let llen = left.len() as int;
        let rlen = right.len() as int;
        assert forall|l: int, r: int|
            0 <= l < llen && 0 <= r < rlen && (#[trigger] left[l]).relation(#[trigger] right[r])
                != Relation::Free implies some_shared_key(ls, rs, Relation::Strict) || (
        some_shared_key(ls, rs, Relation::Relaxed) && left[l].relation(right[r])
            != Relation::Strict) by {
            let key = match left[l] {
                DependencyView::Read(key, _) => key,
                DependencyView::Write(key, _) => key,
                _ => arbitrary(),
            };
            assert(!(left[l] is Unknown) && !(right[r] is Unknown));
            assert(left[l].touches(key) && right[r].touches(key));
            lemma_joint(left, key, l);
            lemma_joint(right, key, r);
            let x = choose|x: int| 0 <= x < ls.len() && (#[trigger] ls[x]).key == key;
            let y = choose|y: int| 0 <= y < rs.len() && (#[trigger] rs[y]).key == key;
            assert(ls[x].key == rs[y].key);
            assert(ls[x] == joint_access(left, key));
            assert(rs[y] == joint_access(right, key));
        }
        assert forall|x: int, y: int|
            0 <= x < ls.len() && 0 <= y < rs.len() && (#[trigger] ls[x]).key == (
            #[trigger] rs[y]).key && (ls[x].write || rs[y].write) implies some_pair(
            left,
            right,
            shared_key_relation(ls[x].order, rs[y].order, true),
        ) by {
            let key = ls[x].key;
            assert(ls[x] == joint_access(left, key));
            assert(rs[y] == joint_access(right, key));
            // An access of the strictest order of its side, and a written side has that access only.
            let l = if strict(left, key, llen) {
                choose|index: int|
                    0 <= index < llen && (#[trigger] left[index]).touches(key)
                        && left[index].is_strict()
            } else {
                choose|index: int| 0 <= index < llen && (#[trigger] left[index]).touches(key)
            };
            let r = if strict(right, key, rlen) {
                choose|index: int|
                    0 <= index < rlen && (#[trigger] right[index]).touches(key)
                        && right[index].is_strict()
            } else {
                choose|index: int| 0 <= index < rlen && (#[trigger] right[index]).touches(key)
            };
            assert(left[l].touches(key) && right[r].touches(key));
            lemma_joint(left, key, l);
            lemma_joint(right, key, r);
            if ls[x].write {
                lemma_only_access(left, key, l);
            }
            if rs[y].write {
                lemma_only_access(right, key, r);
            }
            assert(left[l].is_strict() == (ls[x].order == Order::Strict));
            assert(right[r].is_strict() == (rs[y].order == Order::Strict));
            assert(left[l].relation(right[r]) == shared_key_relation(
                ls[x].order,
                rs[y].order,
                true,
            ));
        }
    }
}

/// In a consistent job a written key is accessed once.
proof fn lemma_only_access(dependencies: Seq<DependencyView>, key: KeyView, index: int)
    requires
        consistent(dependencies),
        written(dependencies, key, dependencies.len() as int),
        0 <= index < dependencies.len(),
        dependencies[index].touches(key),
    ensures
        dependencies[index].writes(),
        forall|other: int|
            0 <= other < dependencies.len() && (#[trigger] dependencies[other]).touches(key)
                ==> other == index,
{
    let at = choose|at: int|
        0 <= at < dependencies.len() && (#[trigger] dependencies[at]).touches(key)
            && dependencies[at].writes();
    assert forall|other: int|
        0 <= other < dependencies.len() && (#[trigger] dependencies[other]).touches(
            key,
        ) implies other == at by {
        if other < at {
            assert(touched(dependencies, key, at));
            assert(clashes(dependencies, key, at));
        } else if at < other {
            assert(written(dependencies, key, other) && touched(dependencies, key, other));
            assert(clashes(dependencies, key, other));
        }
    }
    assert(index == at);
}

/// Whether `state` tells all that consistent `dependencies` do.
pub open spec fn recorded(dependencies: Seq<DependencyView>, state: ConflictView) -> bool {
    let until = dependencies.len() as int;
    &&& state.unknown == has_unknown(dependencies)
    &&& forall|key: KeyView| #[trigger]
        state.orders.contains_key(key) == touched(dependencies, key, until)
    &&& forall|key: KeyView| #[trigger]
        state.orders.contains_key(key) ==> state.orders[key] == joint_order(
            dependencies,
            key,
            until,
        )
    &&& forall|key: KeyView| #[trigger]
        state.reads.contains(key) == (touched(dependencies, key, until) && !written(
            dependencies,
            key,
            until,
        ))
    &&& forall|key: KeyView| #[trigger]
        state.writes.contains(key) == written(dependencies, key, until)
}

proof fn lemma_prefix(dependencies: Seq<DependencyView>, key: KeyView, until: int)
    requires
        0 <= until < dependencies.len(),
    ensures
        ({
            let shorter = dependencies.drop_last();
            &&& written(shorter, key, until) == written(dependencies, key, until)
            &&& strict(shorter, key, until) == strict(dependencies, key, until)
            &&& touched(shorter, key, until) == touched(dependencies, key, until)
        }),
{
    let shorter = dependencies.drop_last();
    assert forall|index: int| 0 <= index < until implies #[trigger] shorter[index]
        == dependencies[index] by {}
    if written(dependencies, key, until) {
        let index = choose|index: int|
            0 <= index < until && (#[trigger] dependencies[index]).touches(key)
                && dependencies[index].writes();
        assert(shorter[index].touches(key));
    }
    if strict(dependencies, key, until) {
        let index = choose|index: int|
            0 <= index < until && (#[trigger] dependencies[index]).touches(key)
                && dependencies[index].is_strict();
        assert(shorter[index].touches(key));
    }
    if touched(dependencies, key, until) {
        let index = choose|index: int|
            0 <= index < until && (#[trigger] dependencies[index]).touches(key);
        assert(shorter[index].touches(key));
    }
}

/// Recording the dependencies of a job finds a clash exactly where they are not consistent, and
/// otherwise records all that they do.
pub proof fn inner_detection_finds_every_clash(dependencies: Seq<DependencyView>, all: bool)
    ensures
        (ConflictView::inner(dependencies, all).1.len() == 0) == consistent(dependencies),
        consistent(dependencies) ==> recorded(
            dependencies,
            ConflictView::inner(dependencies, all).0,
        ),
    decreases dependencies.len(),
{
    let (after, errors) = ConflictView::inner(dependencies, all);
    if dependencies.len() == 0 {
        assert(recorded(dependencies, after));
    } else {
        let shorter = dependencies.drop_last();
        let last = dependencies.last();
        let end = shorter.len() as int;
        let (state, _) = ConflictView::inner(shorter, all);
        inner_detection_finds_every_clash(shorter, all);
        assert forall|key: KeyView, at: int| at < end implies #[trigger] clashes(
            dependencies,
            key,
            at,
        ) == clashes(shorter, key, at) by {
            if 0 <= at {
                lemma_prefix(dependencies, key, at);
                assert(shorter[at] == dependencies[at]);
            }
        }
        if consistent(dependencies) {
            assert forall|key: KeyView, at: int| !#[trigger] clashes(shorter, key, at) by {
                if at < end {
                    assert(!clashes(dependencies, key, at));
                }
            }
        }
        if consistent(shorter) {
            assert forall|key: KeyView, at: int| #[trigger]
                clashes(dependencies, key, at) implies at == end by {
                if at < end {
                    assert(!clashes(shorter, key, at));
                }
            }
            assert(dependencies[end] == last);
            match last {
                DependencyView::Unknown => {
                    assert(consistent(dependencies));
                },
                DependencyView::Read(key, _) | DependencyView::Write(key, _) => {
                    lemma_prefix(dependencies, key, end);
                    assert(state.writes.contains(key) == written(shorter, key, end));
                    assert(state.reads.contains(key) == (touched(shorter, key, end) && !written(
                        shorter,
                        key,
                        end,
                    )));
                    if written(shorter, key, end) {
                        lemma_written_is_touched(shorter, key, end);
                    }
                    if clashes(dependencies, key, end) {
                        assert(!consistent(dependencies));
                    } else {
                        assert(consistent(dependencies));
                    }
                },
            }
            if consistent(dependencies) {
                assert(after == state.filled(last));
                if has_unknown(shorter) {
                    let index = choose|index: int|
                        0 <= index < shorter.len() && #[trigger] shorter[index] is Unknown;
                    assert(dependencies[index] is Unknown);
                }
                if has_unknown(dependencies) {
                    let index = choose|index: int|
                        0 <= index < dependencies.len() && #[trigger] dependencies[index]
                            is Unknown;
                    if index < end {
                        assert(shorter[index] is Unknown);
                    }
                }
                assert forall|key: KeyView|
                    #![trigger after.orders.contains_key(key)]
                    #![trigger after.reads.contains(key)]
                    #![trigger after.writes.contains(key)]
                    after.orders.contains_key(key) == touched(dependencies, key, end + 1)
                    && (after.orders.contains_key(key) ==> after.orders[key] == joint_order(
                    dependencies,
                    key,
                    end + 1,
                )) && after.reads.contains(key) == (touched(dependencies, key, end + 1)
                    && !written(dependencies, key, end + 1)) && after.writes.contains(key)
                    == written(dependencies, key, end + 1) by {
                    lemma_prefix(dependencies, key, end);
                    assert(state.orders.contains_key(key) == touched(shorter, key, end));
                    assert(state.writes.contains(key) == written(shorter, key, end));
                    assert(state.reads.contains(key) == (touched(shorter, key, end) && !written(
                        shorter,
                        key,
                        end,
                    )));
                    if last.touches(key) {
                        lemma_touched(dependencies, key, end);
                        lemma_not_strict_untouched(shorter, key, end);
                        assert(!clashes(dependencies, key, end));
                    } else {
                        lemma_untouched(dependencies, key, end);
                    }
                }
            }
        }
    }
}

proof fn lemma_written_is_touched(dependencies: Seq<DependencyView>, key: KeyView, until: int)
    requires
        written(dependencies, key, until),
    ensures
        touched(dependencies, key, until),
{
    let index = choose|index: int|
        0 <= index < until && (#[trigger] dependencies[index]).touches(key)
            && dependencies[index].writes();
    assert(dependencies[index].touches(key));
}

proof fn lemma_not_strict_untouched(dependencies: Seq<DependencyView>, key: KeyView, until: int)
    ensures
        !touched(dependencies, key, until) ==> !strict(dependencies, key, until),
{
    if strict(dependencies, key, until) {
        let index = choose|index: int|
            0 <= index < until && (#[trigger] dependencies[index]).touches(key)
                && dependencies[index].is_strict();
        assert(dependencies[index].touches(key));
    }
}

proof fn lemma_outer_errors(state: ConflictView, dependencies: Seq<DependencyView>)
    ensures
        (state.outer_errors(dependencies).len() > 0) == (state.unknown || exists|index: int|
            0 <= index < dependencies.len() && state.verdict(
                Scope::Outer,
                #[trigger] dependencies[index],
            ) is Err),
    decreases dependencies.len(),
{
    if dependencies.len() > 0 {
        let shorter = dependencies.drop_last();
        lemma_outer_errors(state, shorter);
        assert forall|index: int| 0 <= index < shorter.len() implies #[trigger] shorter[index]
            == dependencies[index] by {}
        if state.outer_errors(shorter).len() > 0 && !state.unknown {
            let index = choose|index: int|
                0 <= index < shorter.len() && state.verdict(Scope::Outer, #[trigger] shorter[index])
                    is Err;
            assert(state.verdict(Scope::Outer, dependencies[index]) is Err);
        }
        if exists|index: int|
            0 <= index < dependencies.len() && state.verdict(
                Scope::Outer,
                #[trigger] dependencies[index],
            ) is Err {
            let index = choose|index: int|
                0 <= index < dependencies.len() && state.verdict(
                    Scope::Outer,
                    #[trigger] dependencies[index],
                ) is Err;
            if index < shorter.len() {
                assert(state.verdict(Scope::Outer, shorter[index]) is Err);
            } else {
                assert(dependencies[index] == dependencies.last());
            }
        }
    }
}

/// Judging the dependencies of one job against those of another, consistent one gives an error
/// where the jobs are strictly related, tolerates where they are related in a relaxed way, and
/// allows without concern where they are not related.
pub proof fn outer_detection_tells_the_relation(
    left: Seq<DependencyView>,
    right: Seq<DependencyView>,
    fill: bool,
    all: bool,
)
    requires
        consistent(right),
    ensures
        match ConflictView::inner(right, fill).0.outer(left, all) {
            Err(_) => relation_of(left, right) == Relation::Strict,
            Ok(Order::Relax) => relation_of(left, right) == Relation::Relaxed,
            Ok(Order::Strict) => relation_of(left, right) == Relation::Free,
        },
{
    let state = ConflictView::inner(right, fill).0;
    let end = right.len() as int;
    inner_detection_finds_every_clash(right, fill);
    lemma_outer_errors(state, left);
    // What a single dependency of the left job is judged to be.
    assert forall|l: int| 0 <= l < left.len() implies match state.verdict(
        Scope::Outer,
        #[trigger] left[l],
    ) {
        Err(_) => left[l] is Unknown || some_pair(left, right, Relation::Strict),
        Ok(Order::Relax) => some_pair(left, right, Relation::Relaxed),
        Ok(Order::Strict) => !(left[l] is Unknown),
    } by {
        match left[l] {
            DependencyView::Unknown => {},
            DependencyView::Read(key, _) | DependencyView::Write(key, _) => {
                assert(state.orders.contains_key(key) == touched(right, key, end));
                assert(state.writes.contains(key) == written(right, key, end));
                assert(state.reads.contains(key) == (touched(right, key, end) && !written(
                    right,
                    key,
                    end,
                )));
                if written(right, key, end) || (left[l].writes() && touched(right, key, end)) {
                    if written(right, key, end) {
                        lemma_written_is_touched(right, key, end);
                    }
                    let r = if strict(right, key, end) {
                        choose|index: int|
                            0 <= index < end && (#[trigger] right[index]).touches(key)
                                && right[index].is_strict()
                    } else {
                        choose|index: int|
                            0 <= index < end && (#[trigger] right[index]).touches(key)
                    };
                    assert(right[r].touches(key));
                    lemma_joint(right, key, r);
                    if written(right, key, end) {
                        lemma_only_access(right, key, r);
                    }
                    let pair = left[l].relation(right[r]);
                    assert(pair == Relation::Strict || pair == Relation::Relaxed);
                }
            },
        }
    }
    // Every pair that is related shows in the judgement of its left dependency.
    assert forall|l: int, r: int|
        0 <= l < left.len() && 0 <= r < right.len() && !(left[l] is Unknown) && !has_unknown(
            right,
        ) implies match (#[trigger] left[l]).relation(#[trigger] right[r]) {
        Relation::Strict => state.verdict(Scope::Outer, left[l]) is Err,
        Relation::Relaxed => state.verdict(Scope::Outer, left[l]) != Ok::<Order, ErrorView>(
            Order::Strict,
        ),
        Relation::Free => true,
    } by {
        assert(!(right[r] is Unknown));
        match left[l] {
            DependencyView::Unknown => {},
            DependencyView::Read(key, _) | DependencyView::Write(key, _) => {
                assert(state.orders.contains_key(key) == touched(right, key, end));
                assert(state.writes.contains(key) == written(right, key, end));
                assert(state.reads.contains(key) == (touched(right, key, end) && !written(
                    right,
                    key,
                    end,
                )));
                if right[r].touches(key) {
                    lemma_joint(right, key, r);
                }
            },
        }
    }
    if has_unknown(left) {
        let l = choose|l: int| 0 <= l < left.len() && #[trigger] left[l] is Unknown;
        assert(state.verdict(Scope::Outer, left[l]) is Err);
    } else if !has_unknown(right) {
        if some_pair(left, right, Relation::Strict) {
            let (l, r) = choose|l: int, r: int|
                0 <= l < left.len() && 0 <= r < right.len() && (#[trigger] left[l]).relation(
                    #[trigger] right[r],
                ) == Relation::Strict;
            assert(state.verdict(Scope::Outer, left[l]) is Err);
        } else if some_pair(left, right, Relation::Relaxed) {
            let (l, r) = choose|l: int, r: int|
                0 <= l < left.len() && 0 <= r < right.len() && (#[trigger] left[l]).relation(
                    #[trigger] right[r],
                ) == Relation::Relaxed;
            assert(state.verdict(Scope::Outer, left[l]) != Ok::<Order, ErrorView>(Order::Strict));
        }
    }
}

} // verus!
