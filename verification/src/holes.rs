//! The hole list: what it means for a list of holes to be in order, and
//! the steps that take a hole out of it and put one in.

use vstd::prelude::*;
use crate::hole::Hole;

verus! {

/// Holes are distinct and non-empty, and between any two of them lies at
/// least one byte: they neither overlap nor touch.
pub open spec fn apart(holes: Seq<Hole>) -> bool {
    &&& holes.no_duplicates()
    &&& forall|h: Hole| #[trigger] holes.contains(h) ==> h.from < h.to
    &&& forall|h: Hole, g: Hole|
        #[trigger] holes.contains(h) && #[trigger] holes.contains(g) && h != g ==> h.to < g.from
            || g.to < h.from
}

/// The list without the hole at index `i`: the last hole takes its place.
pub open spec fn swap_out(holes: Seq<Hole>, i: int) -> Seq<Hole> {
    holes.update(i, holes.last()).drop_last()
}

/// `idx` is the first index whose hole has room for `needed` bytes.
pub open spec fn is_first_fit(holes: Seq<Hole>, needed: int, idx: int) -> bool {
    &&& 0 <= idx < holes.len()
    &&& holes[idx].span() >= needed
    &&& forall|j: int| 0 <= j < idx ==> (#[trigger] holes[j]).span() < needed
}

/// The list after `needed` bytes were taken from the start of the hole at
/// index `i`: that hole leaves its place, and what is left of it, if
/// anything, goes to the end.
pub open spec fn after_take(holes: Seq<Hole>, i: int, needed: int) -> Seq<Hole> {
    let others = swap_out(holes, i);
    if holes[i].span() > needed {
        others.push(Hole { from: (holes[i].from + needed) as usize, to: holes[i].to })
    } else {
        others
    }
}

/// Whether some hole ends exactly at `at`.
pub open spec fn ends_at(holes: Seq<Hole>, at: int) -> bool {
    exists|h: Hole| #[trigger] holes.contains(h) && h.to == at
}

/// Whether some hole starts exactly at `at`.
pub open spec fn starts_at(holes: Seq<Hole>, at: int) -> bool {
    exists|h: Hole| #[trigger] holes.contains(h) && h.from == at
}

/// The hole that the freed range `[from, to)` becomes: it reaches back
/// over a hole that ends at `from` and forward over one that starts at `to`.
pub open spec fn merged(holes: Seq<Hole>, from: usize, to: usize) -> Hole {
    Hole {
        from: if ends_at(holes, from as int) {
            (choose|h: Hole| #[trigger] holes.contains(h) && h.to == from).from
        } else {
            from
        },
        to: if starts_at(holes, to as int) {
            (choose|h: Hole| #[trigger] holes.contains(h) && h.from == to).to
        } else {
            to
        },
    }
}

/// The index of the hole that ends at `at`, where there is one.
pub open spec fn index_ending_at(holes: Seq<Hole>, at: int) -> int {
    choose|i: int| 0 <= i < holes.len() && (#[trigger] holes[i]).to == at
}

/// The index of the hole that starts at `at`, where there is one.
pub open spec fn index_starting_at(holes: Seq<Hole>, at: int) -> int {
    choose|i: int| 0 <= i < holes.len() && (#[trigger] holes[i]).from == at
}

/// The list after the range `[from, to)` was freed: the hole that ends at
/// `from` leaves its place, then the hole that starts at `to` leaves its
/// place, and the hole that they and the range form goes to the end.
pub open spec fn after_give(holes: Seq<Hole>, from: usize, to: usize) -> Seq<Hole> {
    let left_gone = if ends_at(holes, from as int) {
        swap_out(holes, index_ending_at(holes, from as int))
    } else {
        holes
    };
    let both_gone = if starts_at(holes, to as int) {
        swap_out(left_gone, index_starting_at(left_gone, to as int))
    } else {
        left_gone
    };
    both_gone.push(merged(holes, from, to))
}

/// Among holes that are apart, at most one ends at a given offset and at
/// most one starts there.
pub proof fn lemma_one_neighbour(holes: Seq<Hole>, i: int, j: int)
    requires
        apart(holes),
        0 <= i < holes.len(),
        0 <= j < holes.len(),
        holes[i].to == holes[j].to || holes[i].from == holes[j].from,
    ensures
        i == j,
{
    assert(holes.contains(holes[i]));
    assert(holes.contains(holes[j]));
}

/// What freeing a range that no hole reaches into does to the list: the
/// holes that touch the range go, all others stay, and the fused hole is
/// the last.
#[verifier::rlimit(50)]
pub proof fn lemma_after_give(holes: Seq<Hole>, from: usize, to: usize)
    requires
        apart(holes),
        from < to,
        forall|h: Hole| #[trigger] holes.contains(h) ==> h.to <= from || to <= h.from,
    ensures
        after_give(holes, from, to).len() == holes.len() + 1 - (if ends_at(holes, from as int) {
            1int
        } else {
            0int
        }) - (if starts_at(holes, to as int) {
            1int
        } else {
            0int
        }),
        after_give(holes, from, to).last() == merged(holes, from, to),
        after_give(holes, from, to).drop_last().no_duplicates(),
        forall|h: Hole| #[trigger]
            after_give(holes, from, to).drop_last().contains(h) <==> holes.contains(h) && h.to
                != from && h.from != to,
{
    let left_gone = if ends_at(holes, from as int) {
        swap_out(holes, index_ending_at(holes, from as int))
    } else {
        holes
    };
    if ends_at(holes, from as int) {
        let h = choose|h: Hole| #[trigger] holes.contains(h) && h.to == from;
        let k = choose|k: int| 0 <= k < holes.len() && holes[k] == h;
        assert(holes[k].to == from);
        let l = index_ending_at(holes, from as int);
        lemma_swap_out(holes, l);
        assert(holes.contains(holes[l]));
    }
    assert(left_gone.no_duplicates());
    assert forall|h: Hole| #[trigger] left_gone.contains(h) <==> holes.contains(h) && h.to
        != from by {
        if holes.contains(h) && h.to == from {
            let l = index_ending_at(holes, from as int);
            let k = choose|k: int| 0 <= k < holes.len() && holes[k] == h;
            lemma_one_neighbour(holes, k, l);
        }
    }
    let both_gone = if starts_at(holes, to as int) {
        swap_out(left_gone, index_starting_at(left_gone, to as int))
    } else {
        left_gone
    };
    if starts_at(holes, to as int) {
        let h = choose|h: Hole| #[trigger] holes.contains(h) && h.from == to;
        assert(left_gone.contains(h));
        let k = choose|k: int| 0 <= k < left_gone.len() && left_gone[k] == h;
        assert(left_gone[k].from == to);
        let r = index_starting_at(left_gone, to as int);
        lemma_swap_out(left_gone, r);
        assert(left_gone.contains(left_gone[r]));
    }
    assert forall|h: Hole| #[trigger] both_gone.contains(h) <==> holes.contains(h) && h.to != from
        && h.from != to by {
        if left_gone.contains(h) && h.from == to {
            let r = index_starting_at(left_gone, to as int);
            assert(left_gone.contains(left_gone[r]));
            assert(holes.contains(left_gone[r]));
            if h != left_gone[r] {
                assert(false);
            }
        }
    }
    assert(after_give(holes, from, to).drop_last() =~= both_gone);
}

/// Without the hole at index `i` the list holds every other hole, once.
pub proof fn lemma_swap_out(holes: Seq<Hole>, i: int)
    requires
        holes.no_duplicates(),
        0 <= i < holes.len(),
    ensures
        swap_out(holes, i).len() == holes.len() - 1,
        swap_out(holes, i).no_duplicates(),
        forall|h: Hole| #[trigger]
            swap_out(holes, i).contains(h) <==> holes.contains(h) && h != holes[i],
{
    let out = swap_out(holes, i);
    let last = holes.len() - 1;
    assert forall|h: Hole| #[trigger] out.contains(h) implies holes.contains(h) && h != holes[i] by {
        let k = choose|k: int| 0 <= k < out.len() && out[k] == h;
        if k == i {
            assert(holes[last] == h);
        } else {
            assert(holes[k] == h);
        }
    }
    assert forall|h: Hole| holes.contains(h) && h != holes[i] implies #[trigger] out.contains(h) by {
        let k = choose|k: int| 0 <= k < holes.len() && holes[k] == h;
        if k == last {
            assert(out[i] == h);
        } else {
            assert(out[k] == h);
        }
    }
}

/// With a new hole at its end the list holds that hole and the ones it
/// held, each once.
pub proof fn lemma_push(holes: Seq<Hole>, h: Hole)
    requires
        holes.no_duplicates(),
        !holes.contains(h),
    ensures
        holes.push(h).no_duplicates(),
        forall|g: Hole| #[trigger] holes.push(h).contains(g) <==> holes.contains(g) || g == h,
{
    let more = holes.push(h);
    assert forall|g: Hole| #[trigger] more.contains(g) implies holes.contains(g) || g == h by {
        let k = choose|k: int| 0 <= k < more.len() && more[k] == g;
        if k < holes.len() {
            assert(holes[k] == g);
        }
    }
    assert forall|g: Hole| holes.contains(g) || g == h implies #[trigger] more.contains(g) by {
        if g == h {
            assert(more[holes.len() as int] == g);
        } else {
            let k = choose|k: int| 0 <= k < holes.len() && holes[k] == g;
            assert(more[k] == g);
        }
    }
    assert forall|a: int, b: int| 0 <= a < more.len() && 0 <= b < more.len() && a != b implies more[a]
        != more[b] by {
        if a < holes.len() {
            assert(holes.contains(holes[a]));
        }
        if b < holes.len() {
            assert(holes.contains(holes[b]));
        }
    }
}

/// A hole of the list is its last or stands before the last.
pub proof fn lemma_last_or_before(holes: Seq<Hole>, h: Hole)
    requires
        holes.len() > 0,
    ensures
        holes.contains(h) <==> holes.drop_last().contains(h) || h == holes.last(),
{
    let before = holes.drop_last();
    if holes.contains(h) {
        let k = choose|k: int| 0 <= k < holes.len() && holes[k] == h;
        if k < holes.len() - 1 {
            assert(before[k] == h);
        }
    }
    if before.contains(h) {
        let k = choose|k: int| 0 <= k < before.len() && before[k] == h;
        assert(holes[k] == h);
    }
    if h == holes.last() {
        assert(holes[holes.len() - 1] == h);
    }
}

/// Whether some hole has room for `needed` bytes.
pub open spec fn some_fits(holes: Seq<Hole>, needed: int) -> bool {
    exists|i: int| 0 <= i < holes.len() && (#[trigger] holes[i]).span() >= needed
}

/// Whether some hole has room for `needed` bytes.
pub fn has_room(holes: &Vec<Hole>, needed: usize) -> (b: bool)
    requires
        forall|i: int| 0 <= i < holes@.len() ==> (#[trigger] holes@[i]).from <= holes@[i].to,
    ensures
        b == some_fits(holes@, needed as int),
{
    let mut i: usize = 0;
    while i < holes.len()
        invariant
            0 <= i <= holes@.len(),
            forall|i: int| 0 <= i < holes@.len() ==> (#[trigger] holes@[i]).from <= holes@[i].to,
            forall|j: int| 0 <= j < i ==> (#[trigger] holes@[j]).span() < needed,
        decreases holes@.len() - i,
    {
        if holes[i].len() >= needed {
            return true;
        }
        i += 1;
    }
    false
}

/// The index of the first hole that has room for `needed` bytes.
pub fn first_fit(holes: &Vec<Hole>, needed: usize) -> (idx: usize)
    requires
        forall|i: int| 0 <= i < holes@.len() ==> (#[trigger] holes@[i]).from <= holes@[i].to,
        some_fits(holes@, needed as int),
    ensures
        is_first_fit(holes@, needed as int, idx as int),
{
    let ghost goal = choose|i: int| 0 <= i < holes@.len() && (#[trigger] holes@[i]).span() >= needed;
    let count: usize = holes.len();
    let mut idx: usize = 0;
    while holes[idx].len() < needed
        invariant
            0 <= idx <= goal < holes@.len() == count,
            holes@[goal].span() >= needed,
            forall|i: int| 0 <= i < holes@.len() ==> (#[trigger] holes@[i]).from <= holes@[i].to,
            forall|j: int| 0 <= j < idx ==> (#[trigger] holes@[j]).span() < needed,
        decreases goal - idx,
    {
        assert(idx != goal);
        idx += 1;
    }
    idx
}

/// The indices of the hole that ends at `from` and of the hole that
/// starts at `to`, where the list has them.
pub fn neighbours(holes: &Vec<Hole>, from: usize, to: usize) -> (found: (
    Option<usize>,
    Option<usize>,
))
    requires
        from < to,
        forall|i: int| 0 <= i < holes@.len() ==> (#[trigger] holes@[i]).from <= holes@[i].to,
    ensures
        match found.0 {
            Some(l) => l < holes@.len() && holes@[l as int].to == from,
            None => !ends_at(holes@, from as int),
        },
        match found.1 {
            Some(r) => r < holes@.len() && holes@[r as int].from == to,
            None => !starts_at(holes@, to as int),
        },
{
    let mut lid: Option<usize> = None;
    let mut rid: Option<usize> = None;
    let mut i: usize = 0;
    while i < holes.len() && !(lid.is_some() && rid.is_some())
        invariant
            0 <= i <= holes@.len(),
            from < to,
            forall|i: int| 0 <= i < holes@.len() ==> (#[trigger] holes@[i]).from <= holes@[i].to,
            match lid {
                Some(l) => l < holes@.len() && holes@[l as int].to == from,
                None => forall|j: int| 0 <= j < i ==> (#[trigger] holes@[j]).to != from,
            },
            match rid {
                Some(r) => r < holes@.len() && holes@[r as int].from == to,
                None => forall|j: int| 0 <= j < i ==> (#[trigger] holes@[j]).from != to,
            },
        decreases holes@.len() - i,
    {
        if holes[i].to == from {
            lid = Some(i);
        } else if holes[i].from == to {
            rid = Some(i);
        }
        i += 1;
    }
    (lid, rid)
}

/// Freeing a range that no hole reaches into leaves the holes apart. The
/// fused hole covers the range, and where it reaches further, it does so
/// over a hole that touched the range.
#[verifier::rlimit(50)]
pub proof fn lemma_give_keeps_apart(holes: Seq<Hole>, from: usize, to: usize)
    requires
        apart(holes),
        from < to,
        forall|h: Hole| #[trigger] holes.contains(h) ==> h.to <= from || to <= h.from,
    ensures
        apart(after_give(holes, from, to)),
        forall|h: Hole| #[trigger]
            after_give(holes, from, to).contains(h) <==> h == merged(holes, from, to) || (
            holes.contains(h) && h.to != from && h.from != to),
        merged(holes, from, to).from == from || holes.contains(
            Hole { from: merged(holes, from, to).from, to: from },
        ),
        merged(holes, from, to).to == to || holes.contains(
            Hole { from: to, to: merged(holes, from, to).to },
        ),
{
    lemma_after_give(holes, from, to);
    let after = after_give(holes, from, to);
    let fused = merged(holes, from, to);
    let others = after.drop_last();
    assert(after =~= others.push(fused));
    if ends_at(holes, from as int) {
        let l = choose|h: Hole| #[trigger] holes.contains(h) && h.to == from;
        assert(l == Hole { from: fused.from, to: from });
    }
    if starts_at(holes, to as int) {
        let r = choose|h: Hole| #[trigger] holes.contains(h) && h.from == to;
        assert(r == Hole { from: to, to: fused.to });
    }
    assert forall|h: Hole| #[trigger] others.contains(h) implies h.to < fused.from || fused.to
        < h.from by {
        assert(holes.contains(h));
    }
    lemma_push(others, fused);
}

/// Frees the range `[from, to)`: the holes that touch it leave the list,
/// and the hole that they and the range form goes to the end.
#[verifier::rlimit(50)]
pub fn give(holes: &mut Vec<Hole>, from: usize, to: usize)
    requires
        apart(old(holes)@),
        from < to,
        forall|h: Hole| #[trigger] old(holes)@.contains(h) ==> h.to <= from || to <= h.from,
    ensures
        final(holes)@ == after_give(old(holes)@, from, to),
{
    let ghost before = holes@;
    proof {
        assert forall|i: int| 0 <= i < before.len() implies (#[trigger] before[i]).from
            <= before[i].to by {
            assert(before.contains(before[i]));
        }
    }
    let (lid, rid) = neighbours(holes, from, to);
    let mut rid = rid;
    let mut fused = Hole { from, to };
    proof {
        if let Some(r) = rid {
            assert(before.contains(before[r as int]));
            let c = choose|h: Hole| #[trigger] before.contains(h) && h.from == to;
            assert(c == before[r as int]);
        }
    }
    if let Some(l) = lid {
        fused.from = holes[l].from;
        proof {
            assert(before.contains(before[l as int]));
            let c = choose|h: Hole| #[trigger] before.contains(h) && h.to == from;
            assert(c == before[l as int]);
            lemma_one_neighbour(before, l as int, index_ending_at(before, from as int));
        }
        holes.swap_remove(l);
        if let Some(r) = rid {
            if r == holes.len() {
                // the right neighbour was last and has taken the left one's place
                rid = Some(l);
            }
        }
    }
    let ghost middle = holes@;
    if let Some(r) = rid {
        fused.to = holes[r].to;
        proof {
            if lid is Some {
                lemma_swap_out(before, index_ending_at(before, from as int));
            }
            let found = index_starting_at(middle, to as int);
            assert(middle.contains(middle[r as int]));
            assert(middle.contains(middle[found]));
            assert(before.contains(middle[found]) && before.contains(middle[r as int]));
            assert(found == r);
        }
        holes.swap_remove(r);
    }
    holes.push(fused);
}

/// Taking bytes from the start of a hole leaves the holes apart: the
/// hole is gone, what is left of it has come, and the others stay.
#[verifier::rlimit(50)]
pub proof fn lemma_take_keeps_apart(holes: Seq<Hole>, i: int, needed: int)
    requires
        apart(holes),
        0 <= i < holes.len(),
        0 < needed <= holes[i].span(),
    ensures
        apart(after_take(holes, i, needed)),
        forall|h: Hole| #[trigger]
            after_take(holes, i, needed).contains(h) <==> (holes.contains(h) && h != holes[i]) || (
            holes[i].span() > needed && h == Hole {
                from: (holes[i].from + needed) as usize,
                to: holes[i].to,
            }),
{
    let others = swap_out(holes, i);
    let rest = Hole { from: (holes[i].from + needed) as usize, to: holes[i].to };
    assert(holes.contains(holes[i]));
    lemma_swap_out(holes, i);
    if holes[i].span() > needed {
        lemma_push(others, rest);
    }
}

/// Takes `needed` bytes from the start of the first hole that has room,
/// and returns where they start. That hole leaves its place, and what is
/// left of it, if anything, goes to the end of the list.
pub fn take(holes: &mut Vec<Hole>, needed: usize) -> (key: usize)
    requires
        forall|i: int|
            0 <= i < old(holes)@.len() ==> (#[trigger] old(holes)@[i]).from <= old(holes)@[i].to,
        some_fits(old(holes)@, needed as int),
    ensures
        exists|i: int|
            is_first_fit(old(holes)@, needed as int, i) && key == (#[trigger] old(holes)@[i]).from
                && final(holes)@ == after_take(old(holes)@, i, needed as int),
{
    let idx = first_fit(holes, needed);
    let hole = holes.swap_remove(idx);
    let rest = Hole { from: hole.from + needed, to: hole.to };
    if rest.len() > 0 {
        holes.push(rest);
    }
    assert(is_first_fit(old(holes)@, needed as int, idx as int) && hole.from == old(
        holes,
    )@[idx as int].from && holes@ == after_take(old(holes)@, idx as int, needed as int));
    hole.from
}

} // verus!
