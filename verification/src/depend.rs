//! Dependencies that jobs declare, and the detection of conflicts between them.

use crate::error::{error_views, lemma_leaves_of_leaves, Error, ErrorView};
use crate::keys::KeyMap;
use std::any::TypeId;
use vstd::prelude::*;

verus! {

/// Whether two dependencies belong to the same job or to two different ones.
#[derive(Debug, Copy, Clone, PartialEq, Eq, Structural)]
pub enum Scope {
    Inner,
    Outer,
}

/// What a dependency refers to.
#[derive(Debug)]
pub enum Key {
    Identifier(usize),
    Address(usize),
    Type(TypeId),
    Path(String),
}

/// How strongly a conflict constrains two jobs: `Relax` only keeps them from overlapping, `Strict`
/// also keeps them in declaration order.
#[derive(Debug, Copy, Clone, PartialEq, Eq, Structural)]
pub enum Order {
    Relax,
    Strict,
}

/// One dependency of a job. `Unknown` stands for a dependency on everything.
#[derive(Debug)]
pub enum Dependency {
    Unknown,
    Read(Key, Order),
    Write(Key, Order),
}

/// [`TypeId`] is carried as an opaque value.
#[verifier::external_type_specification]
#[verifier::external_body]
pub struct ExTypeId(TypeId);

/// The position of a type identifier in the total order that [`TypeId`] implements.
pub uninterp spec fn type_rank(id: TypeId) -> int;

/// [`TypeId::of`] returns the identifier of the type that it is instantiated with. What it returns is
/// left open here; [`type_id`] claims that it is always the same.
pub assume_specification<T: ?Sized + 'static>[ TypeId::of::<T> ]() -> (id: TypeId);

/// The identifier of a type: the one that [`TypeId::of`] can return.
pub open spec fn type_id_of<T: ?Sized + 'static>() -> TypeId {
    choose|id: TypeId| call_ensures(TypeId::of::<T>, (), id)
}

/// Calls [`TypeId::of`], which returns one and the same identifier whenever it is called for a type.
#[verifier::external_body]
pub(crate) fn type_id<T: ?Sized + 'static>() -> (id: TypeId)
    ensures
        id == type_id_of::<T>(),
{
    TypeId::of::<T>()
}

/// A type that has a number.
pub trait Numbered {
    /// The number of the type.
    spec fn number() -> int;
}

/// The number of the type that has the identifier at a position in the order of [`TypeId`], where the
/// type has one.
pub uninterp spec fn number_at(rank: int) -> int;

/// Calls [`TypeId::of`] for a type that has a number. The identifier that it returns is that of no
/// other type, so that the number of the type can be told from the identifier.
#[verifier::external_body]
pub(crate) fn numbered_id<T: Numbered + 'static>() -> (id: TypeId)
    ensures
        id == type_id_of::<T>(),
        number_at(type_rank(id)) == T::number(),
{
    TypeId::of::<T>()
}

/// Calls `==` of [`TypeId`], which holds exactly where its order finds neither identifier smaller.
#[verifier::external_body]
pub(crate) fn type_same(left: &TypeId, right: &TypeId) -> (same: bool)
    ensures
        same == (type_rank(*left) == type_rank(*right)),
{
    *left == *right
}

/// Calls `<` of [`TypeId`], which is a strict total order on type identifiers.
#[verifier::external_body]
pub(crate) fn type_precedes(left: &TypeId, right: &TypeId) -> (precedes: bool)
    ensures
        precedes == (type_rank(*left) < type_rank(*right)),
{
    *left < *right
}

/// Calls `<` of [`str`], which orders strings lexicographically by code point.
#[verifier::external_body]
fn text_precedes(left: &str, right: &str) -> (precedes: bool)
    ensures
        precedes == text_before(left@, right@),
{
    left < right
}

/// Lexicographic order of texts.
pub open spec fn text_before(left: Seq<char>, right: Seq<char>) -> bool
    decreases left.len(),
{
    if right.len() == 0 {
        false
    } else if left.len() == 0 {
        true
    } else {
        ||| left[0] < right[0]
        ||| left[0] == right[0] && text_before(left.drop_first(), right.drop_first())
    }
}

proof fn lemma_text_before_irreflexive(text: Seq<char>)
    ensures
        !text_before(text, text),
    decreases text.len(),
{
    if text.len() > 0 {
        lemma_text_before_irreflexive(text.drop_first());
    }
}

proof fn lemma_text_before_transitive(left: Seq<char>, middle: Seq<char>, right: Seq<char>)
    requires
        text_before(left, middle),
        text_before(middle, right),
    ensures
        text_before(left, right),
    decreases left.len(),
{
    if left.len() > 0 && left[0] == middle[0] && middle[0] == right[0] {
        lemma_text_before_transitive(left.drop_first(), middle.drop_first(), right.drop_first());
    }
}

proof fn lemma_text_before_total(left: Seq<char>, right: Seq<char>)
    ensures
        text_before(left, right) || text_before(right, left) || left == right,
    decreases left.len(),
{
    if left.len() > 0 && right.len() > 0 && left[0] == right[0] {
        lemma_text_before_total(left.drop_first(), right.drop_first());
        if left.drop_first() == right.drop_first() {
            assert(left =~= seq![left[0]] + left.drop_first());
            assert(right =~= seq![right[0]] + right.drop_first());
        }
    } else if left.len() == 0 && right.len() == 0 {
        assert(left =~= right);
    }
}

/// The abstract value of a [`Key`].
#[verifier::ext_equal]
pub enum KeyView {
    Identifier(int),
    Address(int),
    Type(int),
    Path(Seq<char>),
}

impl KeyView {
    /// The position of the variant among the variants.
    pub open spec fn variant(self) -> int {
        match self {
            KeyView::Identifier(_) => 0,
            KeyView::Address(_) => 1,
            KeyView::Type(_) => 2,
            KeyView::Path(_) => 3,
        }
    }

    /// The strict order of keys: by variant, then by what the variant holds.
    pub open spec fn before(self, other: KeyView) -> bool {
        match (self, other) {
            (KeyView::Identifier(left), KeyView::Identifier(right)) => left < right,
            (KeyView::Address(left), KeyView::Address(right)) => left < right,
            (KeyView::Type(left), KeyView::Type(right)) => left < right,
            (KeyView::Path(left), KeyView::Path(right)) => text_before(left, right),
            _ => self.variant() < other.variant(),
        }
    }

    /// No key is before itself.
    pub proof fn before_is_irreflexive(self)
        ensures
            !self.before(self),
    {
        if let KeyView::Path(text) = self {
            lemma_text_before_irreflexive(text);
        }
    }

    /// The order of keys is transitive.
    pub proof fn before_is_transitive(self, middle: KeyView, other: KeyView)
        requires
            self.before(middle),
            middle.before(other),
        ensures
            self.before(other),
    {
        if let (KeyView::Path(left), KeyView::Path(between), KeyView::Path(right)) = (
            self,
            middle,
            other,
        ) {
            lemma_text_before_transitive(left, between, right);
        }
    }

    /// Of two different keys one is before the other.
    pub proof fn before_is_total(self, other: KeyView)
        ensures
            self.before(other) || other.before(self) || self == other,
    {
        if let (KeyView::Path(left), KeyView::Path(right)) = (self, other) {
            lemma_text_before_total(left, right);
        }
    }
}

impl View for Key {
    type V = KeyView;

    open spec fn view(&self) -> KeyView {
        match self {
            Key::Identifier(identifier) => KeyView::Identifier(*identifier as int),
            Key::Address(address) => KeyView::Address(*address as int),
            Key::Type(id) => KeyView::Type(type_rank(*id)),
            Key::Path(path) => KeyView::Path(path@),
        }
    }
}

impl Clone for Key {
    fn clone(&self) -> (key: Self)
        ensures
            key@ == self@,
    {
        match self {
            Key::Identifier(identifier) => Key::Identifier(*identifier),
            Key::Address(address) => Key::Address(*address),
            Key::Type(id) => Key::Type(*id),
            Key::Path(path) => Key::Path(path.clone()),
        }
    }
}

impl PartialEq for Key {
    fn eq(&self, other: &Self) -> (same: bool) {
        match (self, other) {
            (Key::Identifier(left), Key::Identifier(right)) => *left == *right,
            (Key::Address(left), Key::Address(right)) => *left == *right,
            (Key::Type(left), Key::Type(right)) => type_same(left, right),
            (Key::Path(left), Key::Path(right)) => *left == *right,
            _ => false,
        }
    }
}

impl vstd::std_specs::cmp::PartialEqSpecImpl for Key {
    open spec fn obeys_eq_spec() -> bool {
        true
    }

    open spec fn eq_spec(&self, other: &Self) -> bool {
        self@ == other@
    }
}

impl Eq for Key {

}

impl Key {
    /// Whether this key comes before `other`.
    pub fn precedes(&self, other: &Key) -> (precedes: bool)
        ensures
            precedes == self@.before(other@),
    {
        match (self, other) {
            (Key::Identifier(left), Key::Identifier(right)) => *left < *right,
            (Key::Address(left), Key::Address(right)) => *left < *right,
            (Key::Type(left), Key::Type(right)) => type_precedes(left, right),
            (Key::Path(left), Key::Path(right)) => text_precedes(left.as_str(), right.as_str()),
            (Key::Identifier(_), _) => true,
            (_, Key::Identifier(_)) => false,
            (Key::Address(_), _) => true,
            (_, Key::Address(_)) => false,
            (Key::Type(_), _) => true,
            (_, Key::Type(_)) => false,
        }
    }
}

impl Order {
    /// The stricter of two orders.
    pub open spec fn stricter(self, other: Order) -> Order {
        if self == Order::Strict {
            Order::Strict
        } else {
            other
        }
    }

    /// The stricter of two orders.
    pub fn max(self, other: Order) -> (order: Order)
        ensures
            order == self.stricter(other),
    {
        if self == Order::Strict {
            Order::Strict
        } else {
            other
        }
    }
}

impl Default for Order {
    fn default() -> (order: Self)
        ensures
            order == Order::Relax,
    {
        Order::Relax
    }
}

/// The abstract value of a [`Dependency`].
#[verifier::ext_equal]
pub enum DependencyView {
    Unknown,
    Read(KeyView, Order),
    Write(KeyView, Order),
}

impl DependencyView {
    /// The same dependency, under another order.
    pub open spec fn ordered(self, order: Order) -> DependencyView {
        match self {
            DependencyView::Unknown => DependencyView::Unknown,
            DependencyView::Read(key, _) => DependencyView::Read(key, order),
            DependencyView::Write(key, _) => DependencyView::Write(key, order),
        }
    }

    /// Whether the dependency reads or writes `key`.
    pub open spec fn touches(self, key: KeyView) -> bool {
        match self {
            DependencyView::Unknown => false,
            DependencyView::Read(own, _) => own == key,
            DependencyView::Write(own, _) => own == key,
        }
    }
}

impl View for Dependency {
    type V = DependencyView;

    open spec fn view(&self) -> DependencyView {
        match self {
            Dependency::Unknown => DependencyView::Unknown,
            Dependency::Read(key, order) => DependencyView::Read(key@, *order),
            Dependency::Write(key, order) => DependencyView::Write(key@, *order),
        }
    }
}

/// The abstract values of a list of dependencies.
pub open spec fn views(dependencies: Seq<Dependency>) -> Seq<DependencyView> {
    dependencies.map_values(|dependency: Dependency| dependency@)
}

impl Clone for Dependency {
    fn clone(&self) -> (dependency: Self)
        ensures
            dependency@ == self@,
    {
        match self {
            Dependency::Unknown => Dependency::Unknown,
            Dependency::Read(key, order) => Dependency::Read(key.clone(), *order),
            Dependency::Write(key, order) => Dependency::Write(key.clone(), *order),
        }
    }
}

impl PartialEq for Dependency {
    fn eq(&self, other: &Self) -> (same: bool) {
        match (self, other) {
            (Dependency::Unknown, Dependency::Unknown) => true,
            (Dependency::Read(left, l), Dependency::Read(right, r)) => *left == *right && *l == *r,
            (Dependency::Write(left, l), Dependency::Write(right, r)) => *left == *right && *l
                == *r,
            _ => false,
        }
    }
}

impl vstd::std_specs::cmp::PartialEqSpecImpl for Dependency {
    open spec fn obeys_eq_spec() -> bool {
        true
    }

    open spec fn eq_spec(&self, other: &Self) -> bool {
        self@ == other@
    }
}

impl Eq for Dependency {

}

impl Dependency {
    pub fn read_at(identifier: usize, order: Order) -> (dependency: Self)
        ensures
            dependency@ == DependencyView::Read(KeyView::Identifier(identifier as int), order),
    {
        Dependency::Read(Key::Identifier(identifier), order)
    }

    /// A read of what the type `T` stands for.
    pub fn read<T: 'static>(order: Order) -> (dependency: Self)
        ensures
            dependency == Dependency::Read(Key::Type(type_id_of::<T>()), order),
    {
        Dependency::Read(Key::Type(type_id::<T>()), order)
    }

    pub fn write_at(identifier: usize, order: Order) -> (dependency: Self)
        ensures
            dependency@ == DependencyView::Write(KeyView::Identifier(identifier as int), order),
    {
        Dependency::Write(Key::Identifier(identifier), order)
    }

    /// A write of what the type `T` stands for.
    pub fn write<T: 'static>(order: Order) -> (dependency: Self)
        ensures
            dependency == Dependency::Write(Key::Type(type_id_of::<T>()), order),
    {
        Dependency::Write(Key::Type(type_id::<T>()), order)
    }

    /// The same dependency, under another order.
    pub fn order(self, order: Order) -> (dependency: Self)
        ensures
            dependency@ == self@.ordered(order),
    {
        match self {
            Dependency::Unknown => Dependency::Unknown,
            Dependency::Read(key, _) => Dependency::Read(key, order),
            Dependency::Write(key, _) => Dependency::Write(key, order),
        }
    }

    pub fn relax(self) -> (dependency: Self)
        ensures
            dependency@ == self@.ordered(Order::Relax),
    {
        self.order(Order::Relax)
    }

    pub fn strict(self) -> (dependency: Self)
        ensures
            dependency@ == self@.ordered(Order::Strict),
    {
        self.order(Order::Strict)
    }
}

/// What a job's dependencies have been found to be, and against which other dependencies are judged.
#[derive(Debug)]
pub struct Conflict {
    unknown: bool,
    orders: KeyMap<Order>,
    reads: KeyMap<()>,
    writes: KeyMap<()>,
}

/// The abstract value of a [`Conflict`].
#[verifier::ext_equal]
pub struct ConflictView {
    pub unknown: bool,
    pub orders: Map<KeyView, Order>,
    pub reads: Set<KeyView>,
    pub writes: Set<KeyView>,
}

impl View for Conflict {
    type V = ConflictView;

    closed spec fn view(&self) -> ConflictView {
        ConflictView {
            unknown: self.unknown,
            orders: self.orders@,
            reads: self.reads@.dom(),
            writes: self.writes@.dom(),
        }
    }
}

impl ConflictView {
    /// The state in which nothing has been recorded.
    pub open spec fn empty() -> ConflictView {
        ConflictView {
            unknown: false,
            orders: Map::empty(),
            reads: Set::empty(),
            writes: Set::empty(),
        }
    }

    /// The order under which `key` is accessed, given an access under `order`.
    pub open spec fn order_of(self, key: KeyView, order: Order) -> Order {
        if self.orders.contains_key(key) {
            self.orders[key].stricter(order)
        } else {
            order
        }
    }

    /// How a clash on a key is judged: between two jobs a relaxed clash is tolerated.
    pub open spec fn clash(scope: Scope, order: Order, error: ErrorView) -> Result<
        Order,
        ErrorView,
    > {
        if scope == Scope::Outer && order == Order::Relax {
            Ok(Order::Relax)
        } else {
            Err(error)
        }
    }

    /// How `dependency` is judged against what has been recorded.
    pub open spec fn verdict(self, scope: Scope, dependency: DependencyView) -> Result<
        Order,
        ErrorView,
    > {
        match dependency {
            DependencyView::Unknown => match scope {
                Scope::Inner => Ok(Order::Strict),
                Scope::Outer => Err(ErrorView::UnknownConflict(scope)),
            },
            DependencyView::Read(key, order) => {
                let order = self.order_of(key, order);
                if self.writes.contains(key) {
                    Self::clash(scope, order, ErrorView::ReadWriteConflict(key, scope, order))
                } else {
                    Ok(Order::Strict)
                }
            },
            DependencyView::Write(key, order) => {
                let order = self.order_of(key, order);
                if self.reads.contains(key) {
                    Self::clash(scope, order, ErrorView::ReadWriteConflict(key, scope, order))
                } else if self.writes.contains(key) {
                    Self::clash(scope, order, ErrorView::WriteWriteConflict(key, scope, order))
                } else {
                    Ok(Order::Strict)
                }
            },
        }
    }

    /// What is recorded once `dependency` has been recorded too. An access that clashes with one of
    /// the other kind only leaves its order.
    pub open spec fn filled(self, dependency: DependencyView) -> ConflictView {
        match dependency {
            DependencyView::Unknown => ConflictView { unknown: true, ..self },
            DependencyView::Read(key, order) => ConflictView {
                orders: self.orders.insert(key, self.order_of(key, order)),
                reads: if self.writes.contains(key) {
                    self.reads
                } else {
                    self.reads.insert(key)
                },
                ..self
            },
            DependencyView::Write(key, order) => ConflictView {
                orders: self.orders.insert(key, self.order_of(key, order)),
                writes: if self.reads.contains(key) {
                    self.writes
                } else {
                    self.writes.insert(key)
                },
                ..self
            },
        }
    }

    /// Whether nothing that is recorded of a key differs in another record.
    pub open spec fn same_about(self, other: Self, key: KeyView) -> bool {
        &&& self.orders.contains_key(key) == other.orders.contains_key(key)
        &&& self.orders.contains_key(key) ==> self.orders[key] == other.orders[key]
        &&& self.reads.contains(key) == other.reads.contains(key)
        &&& self.writes.contains(key) == other.writes.contains(key)
    }

    /// Recording an access leaves what is recorded of other keys as it was, and keeps the stricter of
    /// the order that was recorded of its key and its own. An access that clashes leaves nothing else,
    /// and an error names the key, the scope and that order; one that does not clash is recorded as
    /// what it is. A dependency on what is not known leaves nothing but that.
    pub proof fn recording_touches_one_key(self, scope: Scope, dependency: DependencyView)
        ensures
            ({
                let after = self.filled(dependency);
                let verdict = self.verdict(scope, dependency);
                match dependency {
                    DependencyView::Unknown => {
                        &&& after == (ConflictView { unknown: true, ..self })
                        &&& verdict is Err == (scope == Scope::Outer)
                        &&& verdict matches Err(error) ==> error == ErrorView::UnknownConflict(scope)
                    },
                    DependencyView::Read(key, order) => {
                        let strictest = self.order_of(key, order);
                        &&& after.unknown == self.unknown
                        &&& forall|other: KeyView|
                            other != key ==> #[trigger] after.same_about(self, other)
                        &&& after.orders.contains_key(key) && after.orders[key] == strictest
                        &&& after.writes == self.writes
                        &&& self.writes.contains(key) ==> after.reads == self.reads
                        &&& !self.writes.contains(key) ==> after.reads == self.reads.insert(key)
                            && verdict == Ok::<Order, ErrorView>(Order::Strict)
                        &&& verdict matches Err(error) ==> after.reads == self.reads && error
                            == ErrorView::ReadWriteConflict(key, scope, strictest)
                    },
                    DependencyView::Write(key, order) => {
                        let strictest = self.order_of(key, order);
                        &&& after.unknown == self.unknown
                        &&& forall|other: KeyView|
                            other != key ==> #[trigger] after.same_about(self, other)
                        &&& after.orders.contains_key(key) && after.orders[key] == strictest
                        &&& after.reads == self.reads
                        &&& self.reads.contains(key) || self.writes.contains(key) ==> after.writes
                            == self.writes
                        &&& !self.reads.contains(key) && !self.writes.contains(key) ==> after.writes
                            == self.writes.insert(key) && verdict == Ok::<Order, ErrorView>(
                            Order::Strict,
                        )
                        &&& verdict matches Err(error) ==> after.writes == self.writes && error
                            == if self.reads.contains(key) {
                            ErrorView::ReadWriteConflict(key, scope, strictest)
                        } else {
                            ErrorView::WriteWriteConflict(key, scope, strictest)
                        }
                    },
                }
            }),
    {
        if let DependencyView::Write(key, order) = dependency {
            if self.writes.contains(key) {
                assert(self.writes.insert(key) =~= self.writes);
            }
        }
    }

    /// What is recorded of one job's `dependencies`, and the clashes among them. Without `all` the
    /// first clash ends it.
    pub open spec fn inner(dependencies: Seq<DependencyView>, all: bool) -> (
        ConflictView,
        Seq<ErrorView>,
    )
        decreases dependencies.len(),
    {
        if dependencies.len() == 0 {
            (Self::empty(), Seq::empty())
        } else {
            let (state, errors) = Self::inner(dependencies.drop_last(), all);
            let last = dependencies.last();
            if !all && errors.len() > 0 {
                (state, errors)
            } else {
                match state.verdict(Scope::Inner, last) {
                    Ok(_) => (state.filled(last), errors),
                    Err(error) => (state.filled(last), errors.push(error)),
                }
            }
        }
    }

    /// The errors that another job's `dependencies` give, in order.
    pub open spec fn outer_errors(self, dependencies: Seq<DependencyView>) -> Seq<ErrorView>
        decreases dependencies.len(),
    {
        if dependencies.len() == 0 {
            if self.unknown {
                seq![ErrorView::UnknownConflict(Scope::Outer)]
            } else {
                Seq::empty()
            }
        } else {
            let errors = self.outer_errors(dependencies.drop_last());
            match self.verdict(Scope::Outer, dependencies.last()) {
                Ok(_) => errors,
                Err(error) => errors.push(error),
            }
        }
    }

    /// Whether some of another job's `dependencies` clash in a way that is tolerated.
    pub open spec fn tolerates(self, dependencies: Seq<DependencyView>) -> bool {
        exists|index: int|
            0 <= index < dependencies.len() && self.verdict(
                Scope::Outer,
                #[trigger] dependencies[index],
            ) == Ok::<Order, ErrorView>(Order::Relax)
    }

    /// How another job's `dependencies` are judged as a whole.
    pub open spec fn outer(self, dependencies: Seq<DependencyView>, all: bool) -> Result<
        Order,
        ErrorView,
    > {
        let errors = self.outer_errors(dependencies);
        if errors.len() == 0 {
            Ok(
                if self.tolerates(dependencies) {
                    Order::Relax
                } else {
                    Order::Strict
                },
            )
        } else if all {
            Err(ErrorView::gathered(errors)->0)
        } else {
            Err(errors[0])
        }
    }
}

pub(crate) proof fn lemma_inner_errors_are_leaves(dependencies: Seq<DependencyView>, all: bool)
    ensures
        forall|index: int|
            0 <= index < ConflictView::inner(dependencies, all).1.len() ==> (
            #[trigger] ConflictView::inner(dependencies, all).1[index]).is_leaf(),
    decreases dependencies.len(),
{
    if dependencies.len() > 0 {
        lemma_inner_errors_are_leaves(dependencies.drop_last(), all);
        let before = ConflictView::inner(dependencies.drop_last(), all).1;
        let after = ConflictView::inner(dependencies, all).1;
        assert forall|index: int| 0 <= index < after.len() implies (
        #[trigger] after[index]).is_leaf() by {
            if index < before.len() {
                assert(before[index].is_leaf());
            }
        }
    }
}

pub(crate) proof fn lemma_outer_errors_are_leaves(state: ConflictView, dependencies: Seq<DependencyView>)
    ensures
        forall|index: int|
            0 <= index < state.outer_errors(dependencies).len() ==> (
            #[trigger] state.outer_errors(dependencies)[index]).is_leaf(),
    decreases dependencies.len(),
{
    if dependencies.len() > 0 {
        lemma_outer_errors_are_leaves(state, dependencies.drop_last());
        let before = state.outer_errors(dependencies.drop_last());
        let after = state.outer_errors(dependencies);
        assert forall|index: int| 0 <= index < after.len() implies (
        #[trigger] after[index]).is_leaf() by {
            if index < before.len() {
                assert(before[index].is_leaf());
            }
        }
    }
}

proof fn lemma_inner_stops(dependencies: Seq<DependencyView>, length: int)
    requires
        0 <= length <= dependencies.len(),
        ConflictView::inner(dependencies.take(length), false).1.len() > 0,
    ensures
        ConflictView::inner(dependencies, false) == ConflictView::inner(
            dependencies.take(length),
            false,
        ),
    decreases dependencies.len(),
{
    if length < dependencies.len() {
        assert(dependencies.drop_last().take(length) =~= dependencies.take(length));
        lemma_inner_stops(dependencies.drop_last(), length);
    } else {
        assert(dependencies.take(length) =~= dependencies);
    }
}

proof fn lemma_outer_keeps_first(
    state: ConflictView,
    dependencies: Seq<DependencyView>,
    length: int,
)
    requires
        0 <= length <= dependencies.len(),
        state.outer_errors(dependencies.take(length)).len() > 0,
    ensures
        state.outer_errors(dependencies).len() > 0,
        state.outer_errors(dependencies)[0] == state.outer_errors(dependencies.take(length))[0],
    decreases dependencies.len(),
{
    if length < dependencies.len() {
        assert(dependencies.drop_last().take(length) =~= dependencies.take(length));
        lemma_outer_keeps_first(state, dependencies.drop_last(), length);
    } else {
        assert(dependencies.take(length) =~= dependencies);
    }
}

impl Default for Conflict {
    fn default() -> (conflict: Self)
        ensures
            conflict@ == ConflictView::empty(),
    {
        let conflict = Conflict {
            unknown: false,
            orders: KeyMap::new(),
            reads: KeyMap::new(),
            writes: KeyMap::new(),
        };
        assert(conflict@ =~= ConflictView::empty());
        conflict
    }
}

impl Conflict {
    /// Records the dependencies of one job and looks for clashes among them.
    pub fn detect_inner(&mut self, dependencies: &[Dependency], all: bool) -> (result: Result<
        (),
        Error,
    >)
        ensures
            final(self)@ == ConflictView::inner(views(dependencies@), all).0,
            match result {
                Ok(()) => ConflictView::inner(views(dependencies@), all).1.len() == 0,
                Err(error) => ErrorView::gathered(
                    ConflictView::inner(views(dependencies@), all).1,
                ) == Some(error@),
            },
    {
        self.clear();
        let ghost whole = views(dependencies@);
        let mut errors: Vec<Error> = Vec::new();
        assert(whole.take(0) =~= Seq::<DependencyView>::empty());
        assert(error_views(errors@) =~= Seq::<ErrorView>::empty());
        for index in 0..dependencies.len()
            invariant
                whole == views(dependencies@),
                (self@, error_views(errors@)) == ConflictView::inner(
                    whole.take(index as int),
                    all,
                ),
                !all ==> errors.len() == 0,
        {
            let ghost before = error_views(errors@);
            assert(whole.take(index + 1).drop_last() =~= whole.take(index as int));
            match self.conflict(Scope::Inner, &dependencies[index], true) {
                Ok(_) => {},
                Err(error) => {
                    if all {
                        errors.push(error);
                        assert(error_views(errors@) =~= before.push(error@));
                    } else {
                        proof {
                            assert(before =~= Seq::<ErrorView>::empty());
                            lemma_inner_stops(whole, index + 1);
                        }
                        return Err(error);
                    }
                },
            }
        }
        assert(whole.take(whole.len() as int) =~= whole);
        proof {
            lemma_inner_errors_are_leaves(whole, all);
            lemma_leaves_of_leaves(error_views(errors@));
        }
        match Error::all(errors).flatten(true) {
            None => Ok(()),
            Some(error) => Err(error),
        }
    }

    /// Judges the dependencies of another job against what has been recorded.
    ///
    /// - `Ok(Strict)` means that execution is strictly allowed without any concern for the given
    ///   `dependencies`.
    /// - `Ok(Relax)` means that execution may proceed as long as the given `dependencies` are not
    ///   executing (no ordering is imposed).
    /// - `Err(error)` means that execution can not proceed as long as the given `dependencies` have
    ///   not completely executed.
    pub fn detect_outer(&mut self, dependencies: &[Dependency], all: bool) -> (result: Result<
        Order,
        Error,
    >)
        ensures
            final(self)@ == old(self)@,
            match result {
                Ok(order) => old(self)@.outer(views(dependencies@), all) == Ok::<Order, ErrorView>(
                    order,
                ),
                Err(error) => old(self)@.outer(views(dependencies@), all) == Err::<
                    Order,
                    ErrorView,
                >(error@),
            },
    {
        let ghost state = self@;
        let ghost whole = views(dependencies@);
        let mut allow = Order::Strict;
        let mut errors: Vec<Error> = Vec::new();
        assert(whole.take(0) =~= Seq::<DependencyView>::empty());
        if self.unknown {
            let error = Error::UnknownConflict(Scope::Outer);
            if !all {
                proof {
                    lemma_outer_keeps_first(state, whole, 0);
                }
                return Err(error);
            }
            errors.push(error);
        }
        assert(error_views(errors@) =~= state.outer_errors(whole.take(0)));
        for index in 0..dependencies.len()
            invariant
                whole == views(dependencies@),
                self@ == state,
                state == old(self)@,
                error_views(errors@) == state.outer_errors(whole.take(index as int)),
                !all ==> errors.len() == 0,
                (allow == Order::Relax) == state.tolerates(whole.take(index as int)),
        {
            let ghost before = error_views(errors@);
            let ghost prefix = whole.take(index as int);
            let ghost longer = whole.take(index + 1);
            let ghost verdict = state.verdict(Scope::Outer, whole[index as int]);
            proof {
                assert(longer.drop_last() =~= prefix);
                if state.tolerates(prefix) {
                    let at = choose|at: int|
                        0 <= at < prefix.len() && state.verdict(Scope::Outer, #[trigger] prefix[at])
                            == Ok::<Order, ErrorView>(Order::Relax);
                    assert(longer[at] == prefix[at]);
                }
                if state.tolerates(longer) {
                    let at = choose|at: int|
                        0 <= at < longer.len() && state.verdict(Scope::Outer, #[trigger] longer[at])
                            == Ok::<Order, ErrorView>(Order::Relax);
                    if at < index {
                        assert(longer[at] == prefix[at]);
                    }
                }
                assert(longer[index as int] == whole[index as int]);
            }
            match self.conflict(Scope::Outer, &dependencies[index], false) {
                Ok(order) => {
                    if order == Order::Relax {
                        allow = Order::Relax;
                    }
                },
                Err(error) => {
                    if all {
                        errors.push(error);
                        assert(error_views(errors@) =~= before.push(error@));
                    } else {
                        proof {
                            assert(before =~= Seq::<ErrorView>::empty());
                            lemma_outer_keeps_first(state, whole, index + 1);
                        }
                        return Err(error);
                    }
                },
            }
        }
        assert(whole.take(whole.len() as int) =~= whole);
        proof {
            lemma_outer_errors_are_leaves(state, whole);
            lemma_leaves_of_leaves(error_views(errors@));
        }
        match Error::all(errors).flatten(true) {
            None => Ok(allow),
            Some(error) => Err(error),
        }
    }

    pub fn clear(&mut self)
        ensures
            final(self)@ == ConflictView::empty(),
    {
        self.unknown = false;
        self.orders.clear();
        self.reads.clear();
        self.writes.clear();
        assert(self@ =~= ConflictView::empty());
    }

    /// Judges one dependency against what has been recorded, and records it where `fill` is set.
    pub fn conflict(&mut self, scope: Scope, dependency: &Dependency, fill: bool) -> (result: Result<
        Order,
        Error,
    >)
        ensures
            final(self)@ == (if fill {
                old(self)@.filled(dependency@)
            } else {
                old(self)@
            }),
            match result {
                Ok(order) => old(self)@.verdict(scope, dependency@) == Ok::<Order, ErrorView>(
                    order,
                ),
                Err(error) => old(self)@.verdict(scope, dependency@) == Err::<Order, ErrorView>(
                    error@,
                ),
            },
    {
        match dependency {
            Dependency::Unknown => {
                if fill {
                    self.unknown = true;
                }
                match scope {
                    Scope::Inner => Ok(Order::Strict),
                    Scope::Outer => Err(Error::UnknownConflict(scope)),
                }
            },
            Dependency::Read(key, order) => {
                let order = self.order(key, *order, fill);
                let tolerated = match (scope, order) {
                    (Scope::Outer, Order::Relax) => true,
                    _ => false,
                };
                if self.writes.contains(key) {
                    if tolerated {
                        Ok(Order::Relax)
                    } else {
                        Err(Error::ReadWriteConflict(key.clone(), scope, order))
                    }
                } else {
                    if fill {
                        self.reads.insert(key.clone(), ());
                    }
                    Ok(Order::Strict)
                }
            },
            Dependency::Write(key, order) => {
                let order = self.order(key, *order, fill);
                let tolerated = match (scope, order) {
                    (Scope::Outer, Order::Relax) => true,
                    _ => false,
                };
                if self.reads.contains(key) {
                    if tolerated {
                        Ok(Order::Relax)
                    } else {
                        Err(Error::ReadWriteConflict(key.clone(), scope, order))
                    }
                } else if self.writes.contains(key) {
                    assert(self.writes@.dom().insert(key@) =~= self.writes@.dom());
                    if tolerated {
                        Ok(Order::Relax)
                    } else {
                        Err(Error::WriteWriteConflict(key.clone(), scope, order))
                    }
                } else {
                    if fill {
                        self.writes.insert(key.clone(), ());
                    }
                    Ok(Order::Strict)
                }
            },
        }
    }

    /// The order under which `key` is accessed, given an access under `order`.
    fn order(&mut self, key: &Key, order: Order, fill: bool) -> (current: Order)
        ensures
            current == old(self)@.order_of(key@, order),
            final(self)@ == (if fill {
                (ConflictView { orders: old(self)@.orders.insert(key@, current), ..old(self)@ })
            } else {
                old(self)@
            }),
            final(self).reads == old(self).reads,
            final(self).writes == old(self).writes,
    {
        let current = match self.orders.get(key) {
            Some(previous) => previous.max(order),
            None => order,
        };
        if fill {
            self.orders.insert(key.clone(), current);
        }
        current
    }
}

} // verus!
