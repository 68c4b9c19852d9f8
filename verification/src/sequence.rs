//! Sequences built item by item: collecting results up to the first failure,
//! and joining byte strings end to end.

use vstd::prelude::*;

verus! {

/// The first `count` items in order, or the error of the first item that fails.
pub open spec fn collect<T, E>(count: nat, item: spec_fn(int) -> Result<T, E>) -> Result<Seq<T>, E>
    decreases count,
{
    if count == 0 {
        Ok(Seq::empty())
    } else {
        match collect((count - 1) as nat, item) {
            Err(error) => Err(error),
            Ok(items) => match item(count - 1) {
                Err(error) => Err(error),
                Ok(value) => Ok(items.push(value)),
            },
        }
    }
}

/// A collection that succeeds holds every item; one that fails stopped at an
/// item that failed after all before it succeeded.
pub proof fn lemma_collect<T, E>(count: nat, item: spec_fn(int) -> Result<T, E>)
    ensures
        match collect(count, item) {
            Ok(items) => items.len() == count && forall|i: int|
                0 <= i < count ==> #[trigger] item(i) == Ok::<T, E>(items[i]),
            Err(error) => exists|i: int|
                0 <= i < count && #[trigger] item(i) == Err::<T, E>(error) && forall|j: int|
                    0 <= j < i ==> (#[trigger] item(j)) is Ok,
        },
    decreases count,
{
    if count > 0 {
        lemma_collect((count - 1) as nat, item);
        match collect((count - 1) as nat, item) {
            Err(error) => {},
            Ok(items) => match item(count - 1) {
                Err(error) => {
                    assert(item(count - 1) == Err::<T, E>(error));
                },
                Ok(value) => {},
            },
        }
    }
}

/// Once a collection has failed, collecting further items gives the same error.
pub proof fn lemma_collect_failed<T, E>(count: nat, more: nat, item: spec_fn(int) -> Result<T, E>)
    requires
        count <= more,
        collect(count, item) is Err,
    ensures
        collect(more, item) == collect(count, item),
    decreases more,
{
    if more > count {
        lemma_collect_failed(count, (more - 1) as nat, item);
    }
}

/// A collection succeeds exactly when every item does.
pub proof fn lemma_collect_succeeds<T, E>(count: nat, item: spec_fn(int) -> Result<T, E>)
    ensures
        collect(count, item) is Ok <==> forall|i: int| 0 <= i < count ==> (#[trigger] item(i)) is Ok,
    decreases count,
{
    lemma_collect(count, item);
    if count > 0 {
        lemma_collect_succeeds((count - 1) as nat, item);
        if forall|i: int| 0 <= i < count ==> (#[trigger] item(i)) is Ok {
            assert(item(count - 1) is Ok);
            assert forall|i: int| 0 <= i < count - 1 implies (#[trigger] item(i)) is Ok by {}
        }
    }
}

/// The first `count` parts joined end to end.
pub open spec fn join(count: nat, part: spec_fn(int) -> Seq<u8>) -> Seq<u8>
    decreases count,
{
    if count == 0 {
        Seq::empty()
    } else {
        join((count - 1) as nat, part) + part(count - 1)
    }
}

/// The total length of the first `count` parts.
pub open spec fn joined_len(count: nat, part: spec_fn(int) -> Seq<u8>) -> nat
    decreases count,
{
    if count == 0 {
        0
    } else {
        joined_len((count - 1) as nat, part) + part(count - 1).len()
    }
}

/// A join is as long as its parts together, and grows with their number.
pub proof fn lemma_join_len(count: nat, part: spec_fn(int) -> Seq<u8>)
    ensures
        join(count, part).len() == joined_len(count, part),
    decreases count,
{
    if count > 0 {
        lemma_join_len((count - 1) as nat, part);
    }
}

/// The length of a join does not shrink as parts are added.
pub proof fn lemma_joined_len_grows(count: nat, more: nat, part: spec_fn(int) -> Seq<u8>)
    requires
        count <= more,
    ensures
        joined_len(count, part) <= joined_len(more, part),
    decreases more,
{
    if more > count {
        lemma_joined_len_grows(count, (more - 1) as nat, part);
    }
}

/// Part `index` of a join stands in it where the parts before it end.
pub proof fn lemma_join_part(count: nat, part: spec_fn(int) -> Seq<u8>, index: int)
    requires
        0 <= index < count,
    ensures
        joined_len(index as nat, part) + part(index).len() <= join(count, part).len(),
        join(count, part).subrange(
            joined_len(index as nat, part) as int,
            (joined_len(index as nat, part) + part(index).len()) as int,
        ) == part(index),
    decreases count,
{
    lemma_join_len(count, part);
    lemma_join_len((count - 1) as nat, part);
    let before = join((count - 1) as nat, part);
    let start = joined_len(index as nat, part) as int;
    let end = start + part(index).len();
    if index == count - 1 {
        assert(join(count, part).subrange(start, end) =~= part(index));
    } else {
        lemma_join_part((count - 1) as nat, part, index);
        assert(join(count, part).subrange(start, end) =~= before.subrange(start, end));
    }
}

/// Two families of parts that agree on the first `count` have the same join.
pub proof fn lemma_join_same(
    count: nat,
    part: spec_fn(int) -> Seq<u8>,
    other: spec_fn(int) -> Seq<u8>,
)
    requires
        forall|i: int| 0 <= i < count ==> #[trigger] part(i) == other(i),
    ensures
        join(count, part) == join(count, other),
        joined_len(count, part) == joined_len(count, other),
    decreases count,
{
    if count > 0 {
        lemma_join_same((count - 1) as nat, part, other);
        assert(part(count - 1) == other(count - 1));
    }
}

/// A collection of items that all succeed is the sequence of their values.
pub proof fn lemma_collect_all<T, E>(
    count: nat,
    item: spec_fn(int) -> Result<T, E>,
    values: Seq<T>,
)
    requires
        values.len() == count,
        forall|i: int| 0 <= i < count ==> #[trigger] item(i) == Ok::<T, E>(values[i]),
    ensures
        collect(count, item) == Ok::<Seq<T>, E>(values),
    decreases count,
{
    if count == 0 {
        assert(values =~= Seq::<T>::empty());
    } else {
        let before = values.take(count - 1);
        assert forall|i: int| 0 <= i < count - 1 implies #[trigger] item(i) == Ok::<T, E>(
            before[i],
        ) by {
            assert(before[i] == values[i]);
        }
        lemma_collect_all((count - 1) as nat, item, before);
        assert(item(count - 1) == Ok::<T, E>(values[count - 1]));
        assert(before.push(values[count - 1]) =~= values);
    }
}

/// Whether `whole` holds `part` at position `at`.
pub open spec fn holds_at(whole: Seq<u8>, at: int, part: Seq<u8>) -> bool {
    &&& 0 <= at
    &&& at + part.len() <= whole.len()
    &&& whole.subrange(at, at + part.len()) == part
}

/// A sequence that holds two parts one behind the other holds each of them.
pub proof fn lemma_holds_both(whole: Seq<u8>, at: int, first: Seq<u8>, second: Seq<u8>)
    requires
        holds_at(whole, at, first + second),
    ensures
        holds_at(whole, at, first),
        holds_at(whole, at + first.len(), second),
{
    let both = first + second;
    assert(whole.subrange(at, at + first.len()) =~= both.subrange(0, first.len() as int));
    assert(both.subrange(0, first.len() as int) =~= first);
    assert(whole.subrange(at + first.len(), at + first.len() + second.len()) =~= both.subrange(
        first.len() as int,
        both.len() as int,
    ));
    assert(both.subrange(first.len() as int, both.len() as int) =~= second);
}

/// A part that a section of a sequence holds is held by the sequence itself.
pub proof fn lemma_holds_within(
    whole: Seq<u8>,
    section_at: int,
    section: Seq<u8>,
    at: int,
    part: Seq<u8>,
)
    requires
        holds_at(whole, section_at, section),
        holds_at(section, at, part),
    ensures
        holds_at(whole, section_at + at, part),
{
    assert(whole.subrange(section_at + at, section_at + at + part.len()) =~= whole.subrange(
        section_at,
        section_at + section.len(),
    ).subrange(at, at + part.len()));
}

/// A join holds each of its parts where the parts before it end.
pub proof fn lemma_join_holds(count: nat, part: spec_fn(int) -> Seq<u8>, index: int)
    requires
        0 <= index < count,
    ensures
        holds_at(join(count, part), joined_len(index as nat, part) as int, part(index)),
{
    lemma_join_part(count, part, index);
}

/// What stands in front of a sequence, or behind it, moves the place of a
/// part and nothing else.
pub proof fn lemma_holds_framed(
    before: Seq<u8>,
    middle: Seq<u8>,
    after: Seq<u8>,
    at: int,
    part: Seq<u8>,
)
    requires
        holds_at(middle, at, part),
    ensures
        holds_at(before + middle + after, before.len() + at, part),
{
    let whole = before + middle + after;
    assert(whole.subrange(before.len() + at, before.len() + at + part.len()) =~= middle.subrange(
        at,
        at + part.len(),
    ));
}

} // verus!
