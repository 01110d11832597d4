//! What can go wrong when jobs are scheduled or run.

use crate::depend::{Key, KeyView, Order, Scope};
use vstd::prelude::*;

verus! {

#[derive(Debug)]
pub enum Error {
    FailedToRun,
    UnknownConflict(Scope),
    ReadWriteConflict(Key, Scope, Order),
    WriteWriteConflict(Key, Scope, Order),
    /// An error that a job reported, by its message.
    Dynamic(String),
    All(Vec<Error>),
}

/// The abstract value of an [`Error`].
#[verifier::ext_equal]
pub enum ErrorView {
    FailedToRun,
    UnknownConflict(Scope),
    ReadWriteConflict(KeyView, Scope, Order),
    WriteWriteConflict(KeyView, Scope, Order),
    Dynamic(Seq<char>),
    All(Seq<ErrorView>),
}

impl View for Error {
    type V = ErrorView;

    open spec fn view(&self) -> ErrorView {
        self.value()
    }
}

impl Error {
    /// The abstract value of the error.
    pub open spec fn value(self) -> ErrorView
        decreases self,
    {
        match self {
            Error::FailedToRun => ErrorView::FailedToRun,
            Error::UnknownConflict(scope) => ErrorView::UnknownConflict(scope),
            Error::ReadWriteConflict(key, scope, order) => ErrorView::ReadWriteConflict(
                key@,
                scope,
                order,
            ),
            Error::WriteWriteConflict(key, scope, order) => ErrorView::WriteWriteConflict(
                key@,
                scope,
                order,
            ),
            Error::Dynamic(message) => ErrorView::Dynamic(message@),
            Error::All(errors) => ErrorView::All(
                Seq::new(
                    errors@.len(),
                    |index: int|
                        if 0 <= index < errors@.len() {
                            errors@[index].value()
                        } else {
                            arbitrary()
                        },
                ),
            ),
        }
    }
}

/// The abstract values of a list of errors.
pub open spec fn error_views(errors: Seq<Error>) -> Seq<ErrorView> {
    errors.map_values(|error: Error| error@)
}

impl ErrorView {
    /// The errors that are left when every list of errors is opened, in order.
    pub open spec fn leaves(self) -> Seq<ErrorView>
        decreases self,
    {
        match self {
            ErrorView::All(errors) => ErrorView::leaves_of(errors),
            error => seq![error],
        }
    }

    /// The leaves of each error of a list, one after the other.
    pub open spec fn leaves_of(errors: Seq<ErrorView>) -> Seq<ErrorView>
        decreases errors,
    {
        if errors.len() == 0 {
            Seq::empty()
        } else {
            Self::leaves_of(errors.drop_last()) + errors.last().leaves()
        }
    }

    /// The errors of a list of errors, or the error itself.
    pub open spec fn parts(self) -> Seq<ErrorView> {
        match self {
            ErrorView::All(errors) => errors,
            error => seq![error],
        }
    }

    /// No error for no part, the part itself for one part, and a list of them for more.
    pub open spec fn gathered(parts: Seq<ErrorView>) -> Option<ErrorView> {
        if parts.len() == 0 {
            None
        } else if parts.len() == 1 {
            Some(parts[0])
        } else {
            Some(ErrorView::All(parts))
        }
    }

    /// What flattening an error gives.
    pub open spec fn flattened(self, recursive: bool) -> Option<ErrorView> {
        Self::gathered(
            if recursive {
                self.leaves()
            } else {
                self.parts()
            },
        )
    }

    /// Whether the error is no list of errors.
    pub open spec fn is_leaf(self) -> bool {
        !(self is All)
    }
}

proof fn lemma_leaves_of_push(errors: Seq<ErrorView>, error: ErrorView)
    ensures
        ErrorView::leaves_of(errors.push(error)) == ErrorView::leaves_of(errors) + error.leaves(),
{
    assert(errors.push(error).drop_last() =~= errors);
}

proof fn lemma_leaves_of_concat(left: Seq<ErrorView>, right: Seq<ErrorView>)
    ensures
        ErrorView::leaves_of(left + right) == ErrorView::leaves_of(left) + ErrorView::leaves_of(
            right,
        ),
    decreases right.len(),
{
    if right.len() == 0 {
        assert(left + right =~= left);
        assert(ErrorView::leaves_of(left) + ErrorView::leaves_of(right) =~= ErrorView::leaves_of(
            left,
        ));
    } else {
        assert((left + right).drop_last() =~= left + right.drop_last());
        lemma_leaves_of_concat(left, right.drop_last());
        assert(ErrorView::leaves_of(left + right) =~= ErrorView::leaves_of(left)
            + ErrorView::leaves_of(right));
    }
}

pub(crate) proof fn lemma_leaves_of_leaves(errors: Seq<ErrorView>)
    requires
        forall|index: int| 0 <= index < errors.len() ==> (#[trigger] errors[index]).is_leaf(),
    ensures
        ErrorView::leaves_of(errors) == errors,
    decreases errors.len(),
{
    if errors.len() > 0 {
        assert forall|index: int| 0 <= index < errors.drop_last().len() implies (
        #[trigger] errors.drop_last()[index]).is_leaf() by {
            assert(errors[index].is_leaf());
        }
        lemma_leaves_of_leaves(errors.drop_last());
        assert(errors.last().is_leaf());
        assert(errors.last().leaves() =~= seq![errors.last()]);
        assert(errors.drop_last() + seq![errors.last()] =~= errors);
    }
}

proof fn lemma_leaves_are_leaves(error: ErrorView)
    ensures
        forall|index: int|
            0 <= index < error.leaves().len() ==> (#[trigger] error.leaves()[index]).is_leaf(),
    decreases error,
{
    if let ErrorView::All(errors) = error {
        lemma_all_leaves_are_leaves(errors);
        assert(error.leaves() == ErrorView::leaves_of(errors));
    } else {
        assert(error.leaves() =~= seq![error]);
    }
}

proof fn lemma_all_leaves_are_leaves(errors: Seq<ErrorView>)
    ensures
        forall|index: int|
            0 <= index < ErrorView::leaves_of(errors).len() ==> (
            #[trigger] ErrorView::leaves_of(errors)[index]).is_leaf(),
    decreases errors,
{
    if errors.len() > 0 {
        let first = ErrorView::leaves_of(errors.drop_last());
        let second = errors.last().leaves();
        lemma_all_leaves_are_leaves(errors.drop_last());
        lemma_leaves_are_leaves(errors.last());
        assert forall|index: int| 0 <= index < (first + second).len() implies (#[trigger] (first
            + second)[index]).is_leaf() by {
            if index < first.len() {
                assert(first[index].is_leaf());
            } else {
                assert(second[index - first.len()].is_leaf());
            }
        }
        assert(ErrorView::leaves_of(errors) == first + second);
    }
}

/// Merging keeps every leaf of both errors, those of the first error first.
pub proof fn merge_keeps_leaves(left: ErrorView, right: ErrorView)
    ensures
        ErrorView::All(left.parts() + right.parts()).leaves() == left.leaves() + right.leaves(),
{
    assert(ErrorView::leaves_of(seq![left]) =~= left.leaves()) by {
        assert(seq![left].drop_last() =~= Seq::<ErrorView>::empty());
        assert(ErrorView::leaves_of(Seq::<ErrorView>::empty()) =~= Seq::<ErrorView>::empty());
    }
    assert(ErrorView::leaves_of(seq![right]) =~= right.leaves()) by {
        assert(seq![right].drop_last() =~= Seq::<ErrorView>::empty());
        assert(ErrorView::leaves_of(Seq::<ErrorView>::empty()) =~= Seq::<ErrorView>::empty());
    }
    lemma_leaves_of_concat(left.parts(), right.parts());
}

/// Flattening recursively keeps every leaf, and flattening the result again changes nothing.
pub proof fn flattening_is_idempotent(error: ErrorView)
    ensures
        match error.flattened(true) {
            None => error.leaves().len() == 0,
            Some(flat) => {
                &&& flat.leaves() == error.leaves()
                &&& flat.flattened(true) == Some(flat)
            },
        },
{
    let leaves = error.leaves();
    lemma_leaves_are_leaves(error);
    if leaves.len() == 1 {
        assert(leaves[0].is_leaf());
        assert(leaves[0].leaves() =~= leaves);
    } else if leaves.len() > 1 {
        lemma_leaves_of_leaves(leaves);
    }
}

impl Error {
    pub fn all(errors: Vec<Error>) -> (error: Self)
        ensures
            error@ == ErrorView::All(error_views(errors@)),
    {
        let error = Error::All(errors);
        assert(error@->All_0 =~= error_views(errors@));
        error
    }

    pub fn merge(self, error: Self) -> (merged: Self)
        ensures
            merged@ == ErrorView::All(self@.parts() + error@.parts()),
    {
        let ghost expected = self@.parts() + error@.parts();
        let merged = match (self, error) {
            (Error::All(mut left), Error::All(mut right)) => {
                left.append(&mut right);
                Error::All(left)
            },
            (Error::All(mut left), right) => {
                left.push(right);
                Error::All(left)
            },
            (left, Error::All(mut right)) => {
                right.insert(0, left);
                Error::All(right)
            },
            (left, right) => Error::All(vec![left, right]),
        };
        assert(merged@->All_0 =~= expected);
        merged
    }

    fn descend(error: Error, errors: &mut Vec<Error>, recursive: bool)
        ensures
            error_views(final(errors)@) == error_views(old(errors)@) + (if recursive {
                error@.leaves()
            } else {
                error@.parts()
            }),
        decreases error,
    {
        let ghost before = error_views(errors@);
        match error {
            Error::All(mut inner) => {
                let ghost views = error_views(inner@);
                assert(error@->All_0 =~= views);
                if recursive {
                    let ghost whole = inner@;
                    assert(error_views(whole.take(0)) =~= Seq::<ErrorView>::empty());
                    assert(before + ErrorView::leaves_of(error_views(whole.take(0))) =~= before);
                    for part in iterator: inner
                        invariant
                            recursive,
                            iterator.seq() == whole,
                            decreases_to!(error => whole),
                            error_views(errors@) == before + ErrorView::leaves_of(
                                error_views(whole.take(iterator.index())),
                            ),
                    {
                        let ghost index = iterator.index();
                        assert(part == whole[index]);
                        assert(decreases_to!(whole => whole[index]));
                        Self::descend(part, errors, recursive);
                        proof {
                            assert(error_views(whole.take(index + 1)) =~= error_views(
                                whole.take(index),
                            ).push(part@));
                            lemma_leaves_of_push(error_views(whole.take(index)), part@);
                            assert(error_views(errors@) =~= before + ErrorView::leaves_of(
                                error_views(whole.take(index + 1)),
                            ));
                        }
                    }
                    assert(whole.take(whole.len() as int) =~= whole);
                } else {
                    errors.append(&mut inner);
                    assert(error_views(errors@) =~= before + views);
                }
            },
            error => {
                errors.push(error);
                assert(error_views(errors@) =~= before + seq![error@]);
            },
        }
    }

    pub fn flatten(self, recursive: bool) -> (error: Option<Self>)
        ensures
            match error {
                None => self@.flattened(recursive) is None,
                Some(error) => self@.flattened(recursive) == Some(error@),
            },
    {
        let ghost parts = if recursive {
            self@.leaves()
        } else {
            self@.parts()
        };
        let mut errors: Vec<Error> = Vec::new();
        Self::descend(self, &mut errors, recursive);
        assert(error_views(errors@) =~= parts);

        if errors.len() == 0 {
            None
        } else if errors.len() == 1 {
            let error = errors.pop();
            assert(error->0@ == parts[0]);
            error
        } else {
            let error = Error::All(errors);
            assert(error@->All_0 =~= parts);
            Some(error)
        }
    }
}

/// The errors that are in a result: none, those of a list, or the one error.
pub open spec fn pieces(result: Option<ErrorView>) -> Seq<ErrorView> {
    match result {
        None => Seq::empty(),
        Some(ErrorView::All(errors)) => errors,
        Some(error) => seq![error],
    }
}

/// The abstract value of an error that may be missing.
pub open spec fn optional_view(error: Option<Error>) -> Option<ErrorView> {
    match error {
        None => None,
        Some(error) => Some(error@),
    }
}

/// Merging puts the errors of the second error behind those of the first: of a list its own, of any
/// other error the error itself.
pub proof fn merging_appends(left: Error, right: Error, merged: Error)
    requires
        call_ensures(Error::merge, (left, right), merged),
    ensures
        merged@ is All,
        match (left@, right@) {
            (ErrorView::All(l), ErrorView::All(r)) => merged@->All_0 == l + r,
            (ErrorView::All(l), r) => merged@->All_0 == l.push(r),
            (l, ErrorView::All(r)) => merged@->All_0 == seq![l] + r,
            (l, r) => merged@->All_0 == seq![l, r],
        },
{
    match (left@, right@) {
        (ErrorView::All(l), ErrorView::All(r)) => {},
        (ErrorView::All(l), r) => {
            assert(l + seq![r] =~= l.push(r));
        },
        (l, ErrorView::All(r)) => {},
        (l, r) => {
            assert(seq![l] + seq![r] =~= seq![l, r]);
        },
    }
}

/// Flattening leaves an error that is no list as it is. A list with no error is no error, and one
/// with a single error that is no list is that error. A list of more, none of them a list, stays.
pub proof fn flattening_keeps_what_is_flat(error: Error, recursive: bool, flat: Option<Error>)
    requires
        call_ensures(Error::flatten, (error, recursive), flat),
    ensures
        match error@ {
            ErrorView::All(errors) => {
                (!recursive || forall|at: int|
                    0 <= at < errors.len() ==> !((#[trigger] errors[at]) is All)) ==> {
                    &&& errors.len() == 0 ==> flat is None
                    &&& errors.len() == 1 ==> optional_view(flat) == Some(errors[0])
                    &&& errors.len() >= 2 ==> optional_view(flat) == Some(error@)
                }
            },
            _ => optional_view(flat) == Some(error@),
        },
{
    if let ErrorView::All(errors) = error@ {
        if forall|at: int| 0 <= at < errors.len() ==> !((#[trigger] errors[at]) is All) {
            lemma_leaves_of_leaves(errors);
        }
    }
}

/// Flattening recursively opens every list: what is left of a list is what is left of each of its
/// errors, one after the other, and no list is left in a list.
pub proof fn flattening_opens_every_list(
    errors: Vec<Error>,
    shorter: Vec<Error>,
    last: Error,
    flat: Option<Error>,
    first_flat: Option<Error>,
    last_flat: Option<Error>,
)
    requires
        error_views(errors@) == error_views(shorter@).push(last@),
        call_ensures(Error::flatten, (Error::All(errors), true), flat),
        call_ensures(Error::flatten, (Error::All(shorter), true), first_flat),
        call_ensures(Error::flatten, (last, true), last_flat),
    ensures
        pieces(optional_view(flat)) == pieces(optional_view(first_flat)) + pieces(
            optional_view(last_flat),
        ),
        forall|at: int|
            0 <= at < pieces(optional_view(flat)).len() ==> !((#[trigger] pieces(
                optional_view(flat),
            )[at]) is All),
        optional_view(flat) matches Some(ErrorView::All(list)) ==> list.len() >= 2,
{
    let whole = Error::All(errors)@;
    let part = Error::All(shorter)@;
    assert(whole->All_0 =~= error_views(errors@));
    assert(part->All_0 =~= error_views(shorter@));
    lemma_leaves_of_push(error_views(shorter@), last@);
    lemma_leaves_are_leaves(whole);
    lemma_leaves_are_leaves(part);
    lemma_leaves_are_leaves(last@);
    assert(whole.leaves() == part.leaves() + last@.leaves());
    lemma_pieces(whole);
    lemma_pieces(part);
    lemma_pieces(last@);
}

proof fn lemma_pieces(error: ErrorView)
    ensures
        pieces(error.flattened(true)) == error.leaves(),
{
    let leaves = error.leaves();
    lemma_leaves_are_leaves(error);
    if leaves.len() == 0 {
        assert(leaves =~= Seq::<ErrorView>::empty());
    } else if leaves.len() == 1 {
        assert(leaves[0].is_leaf());
        assert(leaves =~= seq![leaves[0]]);
    }
}

} // verus!
