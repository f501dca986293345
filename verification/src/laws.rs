//! What holds of the slab's operations taken together.

use vstd::prelude::*;
use vstd::set_lib::lemma_len_subset;
use crate::hole::Hole;
use crate::holes::{
    after_take, ends_at, is_first_fit, lemma_after_give, lemma_last_or_before, lemma_push,
    lemma_swap_out, merged, swap_out,
};
use crate::slab::{AnySlab, AnySlabError};
use crate::storable::{DoubleBits, FloatBits, Storable};

verus! {

/// A value that was stored and is taken out again under its key comes
/// back as it went in, and the slab holds what it held before.
pub proof fn round_trip<T: Storable>(
    s0: AnySlab,
    s1: AnySlab,
    s2: AnySlab,
    v: T,
    key: usize,
    r: Result<T, AnySlabError>,
)
    requires
        s0.inserted(s1, v, key),
        s1.removed(s2, key, r),
    ensures
        r == Ok::<T, AnySlabError>(v),
        s2@ == s0@,
{
    T::encoding_is_exact();
    assert(s1@[key] == (T::token(), v.encode()));
    assert(s1.holds::<T>(key));
    assert(s0@.insert(key, (T::token(), v.encode())).remove(key) =~= s0@);
}

/// A key under which a `T` was stored holds a `T`, and is refused as a
/// mismatch to an access as any type with another token.
pub proof fn other_type_is_refused<T: Storable, U: Storable>(
    s0: AnySlab,
    s1: AnySlab,
    v: T,
    key: usize,
)
    requires
        s0.inserted(s1, v, key),
        U::token() != T::token(),
    ensures
        s1.check::<T>(key) == Ok::<(), AnySlabError>(()),
        s1.check::<U>(key) == Err::<(), AnySlabError>(AnySlabError::TypeMismatch),
{
    T::encoding_is_exact();
    assert(s1@[key] == (T::token(), v.encode()));
}

/// No two of the types that this library stores share a token.
pub proof fn tokens_are_distinct()
    ensures
        seq![
            u8::token(),
            u16::token(),
            u32::token(),
            u64::token(),
            u128::token(),
            i128::token(),
            FloatBits::token(),
            i8::token(),
            i16::token(),
            i32::token(),
            i64::token(),
            bool::token(),
            DoubleBits::token(),
        ].no_duplicates(),
{
}

/// Once a value was taken out, its key is unknown, whatever type is asked for.
pub proof fn removed_key_is_unknown<T: Storable, U: Storable>(
    s0: AnySlab,
    s1: AnySlab,
    key: usize,
    v: T,
)
    requires
        s0.removed(s1, key, Ok::<T, AnySlabError>(v)),
    ensures
        s1.check::<U>(key) == Err::<(), AnySlabError>(AnySlabError::UnknownKey),
{
}

/// A slab that holds nothing knows no key.
pub proof fn empty_slab_knows_no_key<U: Storable>(s: AnySlab, key: usize)
    requires
        s@ == Map::<usize, (u64, Seq<u8>)>::empty(),
    ensures
        s.check::<U>(key) == Err::<(), AnySlabError>(AnySlabError::UnknownKey),
{
}

/// Storing a value raises the number of live values by one; taking one
/// out lowers it by one; a refused removal leaves it as it is.
pub proof fn cardinality<T: Storable>(
    s0: AnySlab,
    s1: AnySlab,
    s2: AnySlab,
    v: T,
    key: usize,
    other: usize,
    r: Result<T, AnySlabError>,
)
    requires
        s0.wf(),
        s0.inserted(s1, v, key),
        s1.removed(s2, other, r),
    ensures
        s1@.len() == s0@.len() + 1,
        s2@.len() == if r is Ok {
            s0@.len()
        } else {
            s0@.len() + 1
        },
{
    s0.lemma_wf();
}

/// Storing a `T` adds its key to the keys that hold a `T`, and leaves the
/// keys of every type with another token as they were.
pub proof fn insert_counts_for_its_type<T: Storable, U: Storable>(
    s0: AnySlab,
    s1: AnySlab,
    v: T,
    key: usize,
)
    requires
        s0.wf(),
        s0.inserted(s1, v, key),
    ensures
        s1.keys_of::<T>() == s0.keys_of::<T>().insert(key),
        s1.keys_of::<T>().len() == s0.keys_of::<T>().len() + 1,
        U::token() != T::token() ==> s1.keys_of::<U>() == s0.keys_of::<U>(),
{
    T::encoding_is_exact();
    s0.lemma_wf();
    assert(s1@[key] == (T::token(), v.encode()));
    assert(s1.keys_of::<T>() =~= s0.keys_of::<T>().insert(key));
    assert(s0.keys_of::<T>().subset_of(s0@.dom()));
    lemma_len_subset(s0.keys_of::<T>(), s0@.dom());
    if U::token() != T::token() {
        assert(s1.keys_of::<U>() =~= s0.keys_of::<U>());
    }
}

/// Taking out the value that was stored last gives the hole list the
/// holes that it had before the value was stored, and as many: stored
/// and removed in turn, values never make the list longer.
#[verifier::rlimit(50)]
pub proof fn insert_then_remove_restores_holes<T: Storable>(
    s0: AnySlab,
    s1: AnySlab,
    s2: AnySlab,
    v: T,
    key: usize,
    w: T,
)
    requires
        s0.wf(),
        s0.inserted(s1, v, key),
        s1.removed(s2, key, Ok::<T, AnySlabError>(w)),
    ensures
        s1.holes().len() <= s0.holes().len(),
        s2.holes().len() == s0.holes().len(),
        forall|h: Hole| s2.holes().contains(h) <==> s0.holes().contains(h),
{
    T::encoding_is_exact();
    s0.lemma_wf();
    let start = s0.holes();
    let width = T::width() as int;
    let i = choose|i: int|
        is_first_fit(start, width, i) && key == (#[trigger] start[i]).from && s1.holes()
            == after_take(start, i, width);
    let taken = start[i];
    assert(start.contains(taken));
    lemma_swap_out(start, i);
    let others = swap_out(start, i);
    let rest = Hole { from: (taken.from + width) as usize, to: taken.to };
    let end = (key + T::width()) as usize;
    if taken.span() > width {
        lemma_push(others, rest);
        assert(s1.holes().contains(rest));
        let c = choose|h: Hole| #[trigger] s1.holes().contains(h) && h.from == end;
        assert(c == rest);
    }
    assert(!ends_at(s1.holes(), key as int));
    assert(merged(s1.holes(), key, end) == taken);
    lemma_after_give(s1.holes(), key, end);
    let last = s2.holes();
    assert forall|h: Hole| last.contains(h) <==> start.contains(h) by {
        lemma_last_or_before(last, h);
    }
}

/// Values are stored and taken out in turn, each taken out right after
/// it was stored: `states` holds the slab before the first value, and then
/// after each step.
pub open spec fn in_turn<T: Storable>(
    states: Seq<AnySlab>,
    values: Seq<T>,
    keys: Seq<usize>,
    taken: Seq<T>,
) -> bool {
    &&& states.len() == 2 * values.len() + 1
    &&& keys.len() == values.len()
    &&& taken.len() == values.len()
    &&& forall|j: int| 0 <= j < states.len() ==> (#[trigger] states[j]).wf()
    &&& forall|j: int|
        0 <= j < values.len() ==> states[2 * j].inserted(
            states[2 * j + 1],
            #[trigger] values[j],
            keys[j],
        ) && states[2 * j + 1].removed(states[2 * j + 2], keys[j], Ok::<T, AnySlabError>(taken[j]))
}

/// After each full round of storing and taking out, the hole list is as
/// long as it was at the start.
pub proof fn rounds_restore_the_hole_count<T: Storable>(
    states: Seq<AnySlab>,
    values: Seq<T>,
    keys: Seq<usize>,
    taken: Seq<T>,
    round: int,
)
    requires
        in_turn(states, values, keys, taken),
        0 <= round <= values.len(),
    ensures
        states[2 * round].holes().len() == states[0].holes().len(),
    decreases round,
{
    if round > 0 {
        let j = round - 1;
        rounds_restore_the_hole_count(states, values, keys, taken, j);
        assert(states[2 * j].inserted(states[2 * j + 1], values[j], keys[j]));
        assert(states[2 * j].wf());
        insert_then_remove_restores_holes(
            states[2 * j],
            states[2 * j + 1],
            states[2 * j + 2],
            values[j],
            keys[j],
            taken[j],
        );
    }
}

/// While values are stored and taken out in turn, the hole list is never
/// longer than it was at the start: with one hole at the start, as in a new
/// slab, it never has more than one.
pub proof fn holes_do_not_grow_in_turn<T: Storable>(
    states: Seq<AnySlab>,
    values: Seq<T>,
    keys: Seq<usize>,
    taken: Seq<T>,
    step: int,
)
    requires
        in_turn(states, values, keys, taken),
        0 <= step < states.len(),
    ensures
        states[step].holes().len() <= states[0].holes().len(),
{
    let j = step / 2;
    rounds_restore_the_hole_count(states, values, keys, taken, j);
    if step != 2 * j {
        assert(step == 2 * j + 1);
        assert(states[2 * j].inserted(states[2 * j + 1], values[j], keys[j]));
        assert(states[2 * j].wf());
        insert_then_remove_restores_holes(
            states[2 * j],
            states[2 * j + 1],
            states[2 * j + 2],
            values[j],
            keys[j],
            taken[j],
        );
    }
}

} // verus!
