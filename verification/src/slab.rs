//! The slab itself: hole list, directory and buffer, and the typed
//! operations on them.

use vstd::prelude::*;
use crate::directory::{
    directory_clear, directory_entries, directory_get, directory_insert, directory_len,
    directory_new, directory_pairs, directory_remove, Directory,
};
use crate::hole::Hole;
use crate::holes::{
    after_give, after_take, apart, give, has_room, is_first_fit, lemma_give_keeps_apart,
    lemma_take_keeps_apart, merged, some_fits, take,
};
use crate::storable::Storable;

verus! {

/// Why a typed access was refused.
#[derive(Clone, Copy, Debug, PartialEq, Eq, Structural)]
pub enum AnySlabError {
    /// The key is live, but holds a value of another type.
    TypeMismatch,
    /// No live value is stored under the key.
    UnknownKey,
}

/// A slab that stores values of any [`Storable`] type in one byte buffer.
///
/// Its view maps each live key to the token of the type stored there and
/// the bytes of the value.
pub struct AnySlab {
    holes: Vec<Hole>,
    allocated: Directory,
    data: Vec<u8>,
    top: Ghost<int>,
}

/// No hole reaches into the bytes of a live value.
pub open spec fn holes_avoid(holes: Seq<Hole>, live: Map<usize, (u64, usize)>) -> bool {
    forall|h: Hole, k: usize|
        #[trigger] holes.contains(h) && #[trigger] live.contains_key(k) ==> h.to <= k || k
            + live[k].1 <= h.from
}

/// Every live value has at least one byte, lies inside the buffer, and
/// shares no byte with another.
pub open spec fn live_in_place(live: Map<usize, (u64, usize)>, buffer_len: int) -> bool {
    &&& forall|k: usize| #[trigger]
        live.contains_key(k) ==> 0 < live[k].1 && k + live[k].1 <= buffer_len
    &&& forall|k: usize, l: usize|
        #[trigger] live.contains_key(k) && #[trigger] live.contains_key(l) && k != l ==> k
            + live[k].1 <= l || l + live[l].1 <= k
}

/// `top` is where the unbounded hole starts: the one hole that reaches the
/// largest offset, if there is still one.
pub open spec fn unbounded_from(holes: Seq<Hole>, top: int) -> bool {
    &&& 0 <= top <= usize::MAX
    &&& forall|h: Hole| #[trigger] holes.contains(h) && h.to == usize::MAX ==> h.from == top
    &&& top < usize::MAX ==> holes.contains(Hole { from: top as usize, to: usize::MAX })
}

/// The buffer after `bytes` were written at offset `at`: as long as
/// before, or as long as the bytes reach, and zero where it had no byte and
/// got none.
pub open spec fn written(buffer: Seq<u8>, at: int, bytes: Seq<u8>) -> Seq<u8> {
    Seq::new(
        if buffer.len() < at + bytes.len() {
            (at + bytes.len()) as nat
        } else {
            buffer.len()
        },
        |i: int|
            if at <= i < at + bytes.len() {
                bytes[i - at]
            } else if i < buffer.len() {
                buffer[i]
            } else {
                0u8
            },
    )
}

/// Extends `data` with zero bytes until it has at least `len` bytes.
fn fill_to(data: &mut Vec<u8>, len: usize)
    ensures
        final(data)@.len() == if old(data)@.len() < len {
            len as nat
        } else {
            old(data)@.len()
        },
        forall|i: int| 0 <= i < old(data)@.len() ==> final(data)@[i] == old(data)@[i],
        forall|i: int| old(data)@.len() <= i < final(data)@.len() ==> final(data)@[i] == 0,
{
    while data.len() < len
        invariant
            data@.len() >= old(data)@.len(),
            data@.len() <= len || data@.len() == old(data)@.len(),
            forall|i: int| 0 <= i < old(data)@.len() ==> data@[i] == old(data)@[i],
            forall|i: int| old(data)@.len() <= i < data@.len() ==> data@[i] == 0,
        decreases len - data@.len(),
    {
        data.push(0);
    }
}

/// Writes `bytes` over the bytes of `data` from offset `at` on.
fn write_at(data: &mut Vec<u8>, at: usize, bytes: &Vec<u8>)
    requires
        at + bytes@.len() <= old(data)@.len(),
    ensures
        final(data)@.len() == old(data)@.len(),
        final(data)@.subrange(at as int, at + bytes@.len()) == bytes@,
        forall|i: int|
            0 <= i < at || at + bytes@.len() <= i < old(data)@.len() ==> final(data)@[i] == old(
                data,
            )@[i],
{
    let total: usize = data.len();
    let mut i: usize = 0;
    while i < bytes.len()
        invariant
            0 <= i <= bytes@.len(),
            data@.len() == old(data)@.len() == total,
            at + bytes@.len() <= data@.len(),
            forall|j: int| 0 <= j < i ==> data@[at + j] == bytes@[j],
            forall|j: int|
                0 <= j < at || at + bytes@.len() <= j < old(data)@.len() ==> data@[j] == old(
                    data,
                )@[j],
        decreases bytes@.len() - i,
    {
        data.set(at + i, bytes[i]);
        i += 1;
    }
    assert(data@.subrange(at as int, at + bytes@.len()) =~= bytes@);
}

/// Copies `n` bytes of `data` from offset `at` on.
fn read_at(data: &Vec<u8>, at: usize, n: usize) -> (out: Vec<u8>)
    requires
        at + n <= data@.len(),
    ensures
        out@ == data@.subrange(at as int, at + n),
{
    let mut out: Vec<u8> = Vec::new();
    let total: usize = data.len();
    let mut i: usize = 0;
    while i < n
        invariant
            0 <= i <= n,
            at + n <= data@.len() == total,
            out@.len() == i,
            forall|j: int| 0 <= j < i ==> out@[j] == data@[at + j],
        decreases n - i,
    {
        out.push(data[at + i]);
        i += 1;
    }
    assert(out@ =~= data@.subrange(at as int, at + n));
    out
}

impl View for AnySlab {
    type V = Map<usize, (u64, Seq<u8>)>;

    closed spec fn view(&self) -> Map<usize, (u64, Seq<u8>)> {
        Map::new(
            |k: usize| self.live().contains_key(k),
            |k: usize| (self.live()[k].0, self.data@.subrange(k as int, k + self.live()[k].1)),
        )
    }
}

impl Default for AnySlab {
    /// An empty slab: nothing is stored, and the one hole is the unbounded one.
    fn default() -> (slab: AnySlab)
        ensures
            slab.wf(),
            slab@ == Map::<usize, (u64, Seq<u8>)>::empty(),
            slab@.len() == 0,
            slab.holes() == seq![Hole { from: 0, to: usize::MAX }],
            slab.frontier() == 0,
            slab.buffer() == Seq::<u8>::empty(),
    {
        let mut holes: Vec<Hole> = Vec::new();
        holes.push(Hole::everything());
        let slab = AnySlab { holes, allocated: directory_new(), data: Vec::new(), top: Ghost(0) };
        proof {
            assert(slab.holes@ =~= seq![Hole { from: 0, to: usize::MAX }]);
            assert(slab.holes@[0] == Hole { from: 0, to: usize::MAX });
            assert(slab@ =~= Map::<usize, (u64, Seq<u8>)>::empty());
        }
        slab
    }
}

impl AnySlab {
    closed spec fn live(&self) -> Map<usize, (u64, usize)> {
        directory_entries(self.allocated)
    }

    /// The hole list, in the order in which it is searched.
    pub closed spec fn holes(&self) -> Seq<Hole> {
        self.holes@
    }

    /// Where the unbounded hole starts; the largest offset once it is used up.
    pub closed spec fn frontier(&self) -> int {
        self.top@
    }

    /// The bytes of the buffer. Those of the live values are in the view;
    /// the others are stale or zero.
    pub closed spec fn buffer(&self) -> Seq<u8> {
        self.data@
    }

    /// Whether some hole has room for `needed` bytes.
    pub open spec fn has_room(&self, needed: nat) -> bool {
        some_fits(self.holes(), needed as int)
    }

    /// The three pieces of state agree with each other.
    pub closed spec fn wf(&self) -> bool {
        &&& self.live().dom().finite()
        &&& apart(self.holes@)
        &&& holes_avoid(self.holes@, self.live())
        &&& live_in_place(self.live(), self.data@.len() as int)
        &&& unbounded_from(self.holes@, self.top@)
    }

    /// What a typed access to `key` as a `T` finds: the key must be live,
    /// and what it holds must have the token and the width of `T`.
    pub open spec fn check<T: Storable>(&self, key: usize) -> Result<(), AnySlabError> {
        if !self@.contains_key(key) {
            Err(AnySlabError::UnknownKey)
        } else if self@[key].0 == T::token() && self@[key].1.len() == T::width() {
            Ok(())
        } else {
            Err(AnySlabError::TypeMismatch)
        }
    }

    /// Whether `key` is live and holds a `T`.
    pub open spec fn holds<T: Storable>(&self, key: usize) -> bool {
        self.check::<T>(key) is Ok
    }

    /// The keys that hold a `T`.
    pub open spec fn keys_of<T: Storable>(&self) -> Set<usize> {
        Set::new(|k: usize| self.holds::<T>(k))
    }

    /// In a well-formed slab the holes are apart, the unbounded hole starts
    /// at the frontier, the directory is finite, each live value has at
    /// least one byte and its bytes are those of the buffer from its key
    /// on, no live value shares a byte with another or with a hole, and all
    /// of them lie before the frontier.
    pub proof fn lemma_wf(&self)
        requires
            self.wf(),
        ensures
            apart(self.holes()),
            unbounded_from(self.holes(), self.frontier()),
            self@.dom().finite(),
            forall|k: usize| #[trigger]
                self@.contains_key(k) ==> 0 < self@[k].1.len() && k + self@[k].1.len()
                    <= self.buffer().len() && self@[k].1 == self.buffer().subrange(
                    k as int,
                    k + self@[k].1.len(),
                ),
            forall|k: usize, l: usize|
                #[trigger] self@.contains_key(k) && #[trigger] self@.contains_key(l) && k != l ==> k
                    + self@[k].1.len() <= l || l + self@[l].1.len() <= k,
            forall|h: Hole, k: usize|
                #[trigger] self.holes().contains(h) && #[trigger] self@.contains_key(k) ==> h.to
                    <= k || k + self@[k].1.len() <= h.from,
            forall|k: usize| #[trigger]
                self@.contains_key(k) ==> k + self@[k].1.len() <= self.frontier(),
    {
        assert(self@.dom() =~= self.live().dom());
        assert(self.data.len() == self.data@.len());
        assert forall|k: usize| #[trigger] self@.contains_key(k) implies k + self@[k].1.len()
            <= self.frontier() by {
            if self.frontier() < usize::MAX {
                let unbounded = Hole { from: self.frontier() as usize, to: usize::MAX };
                assert(self.holes().contains(unbounded));
            }
        }
    }

    /// While the frontier is far enough from the largest offset, the
    /// unbounded hole has room.
    pub proof fn lemma_room_behind_frontier(&self, needed: nat)
        requires
            self.wf(),
            self.frontier() + needed <= usize::MAX,
            needed > 0,
        ensures
            self.has_room(needed),
    {
        let unbounded = Hole { from: self.frontier() as usize, to: usize::MAX };
        let s = choose|s: int| 0 <= s < self.holes().len() && self.holes()[s] == unbounded;
        assert(self.holes()[s].span() >= needed);
    }

    /// Forgets every value. The buffer keeps its length.
    pub fn clear(&mut self)
        ensures
            final(self).wf(),
            final(self)@ == Map::<usize, (u64, Seq<u8>)>::empty(),
            final(self)@.len() == 0,
            final(self).holes() == seq![Hole { from: 0, to: usize::MAX }],
            final(self).frontier() == 0,
            final(self).buffer() == old(self).buffer(),
    {
        directory_clear(&mut self.allocated);
        self.holes.clear();
        self.holes.push(Hole::everything());
        self.top = Ghost(0);
        proof {
            assert(self.holes@ =~= seq![Hole { from: 0, to: usize::MAX }]);
            assert(self.holes@[0] == Hole { from: 0, to: usize::MAX });
            assert(self@ =~= Map::<usize, (u64, Seq<u8>)>::empty());
        }
    }

    /// Looks `key` up in the directory and holds what it finds against `T`.
    fn verify_key<T: Storable>(&self, key: usize) -> (r: Result<(), AnySlabError>)
        requires
            self.wf(),
        ensures
            r == self.check::<T>(key),
    {
        match directory_get(&self.allocated, key) {
            Some((token, width)) => {
                if token == T::type_token() && width == T::size() {
                    Ok(())
                } else {
                    Err(AnySlabError::TypeMismatch)
                }
            },
            None => Err(AnySlabError::UnknownKey),
        }
    }

    /// The number of live values, of whatever type.
    pub fn len(&self) -> (n: usize)
        requires
            self.wf(),
        ensures
            n == self@.len(),
    {
        proof {
            assert(self@.dom() =~= self.live().dom());
        }
        directory_len(&self.allocated)
    }

    /// Whether no value is live.
    pub fn is_empty(&self) -> (b: bool)
        requires
            self.wf(),
        ensures
            b == (self@.len() == 0),
    {
        self.len() == 0
    }

    /// Whether `key` is live and holds a `T`.
    pub fn contains_key<T: Storable>(&self, key: usize) -> (b: bool)
        requires
            self.wf(),
        ensures
            b == self.holds::<T>(key),
    {
        self.verify_key::<T>(key).is_ok()
    }

    /// Whether some hole has room for a `T`, so that one can be stored.
    pub fn can_insert<T: Storable>(&self) -> (b: bool)
        requires
            self.wf(),
        ensures
            b == self.has_room(T::width()),
    {
        proof {
            assert forall|i: int| 0 <= i < self.holes@.len() implies (#[trigger] self.holes@[i]).from
                <= self.holes@[i].to by {
                assert(self.holes@.contains(self.holes@[i]));
            }
        }
        has_room(&self.holes, T::size())
    }

    /// What storing `t` makes of a slab, `key` being the key returned: the
    /// first hole of the list that has room gives up its first bytes, its
    /// start is the key, and the key, which was not live, now holds `t`.
    pub open spec fn inserted<T: Storable>(&self, after: AnySlab, t: T, key: usize) -> bool {
        &&& !self@.contains_key(key)
        &&& after@ == self@.insert(key, (T::token(), t.encode()))
        &&& exists|i: int|
            is_first_fit(self.holes(), T::width() as int, i) && key == (
            #[trigger] self.holes()[i]).from && after.holes() == after_take(
                self.holes(),
                i,
                T::width() as int,
            )
        &&& after.frontier() == if key == self.frontier() {
            self.frontier() + T::width()
        } else {
            self.frontier()
        }
        &&& after.buffer() == written(self.buffer(), key as int, t.encode())
    }

    /// Stores `t` in the first hole of the list that has room for it, and
    /// returns its key: the offset at which that hole started. The buffer
    /// grows, by zero bytes, as far as the value reaches.
    #[verifier::rlimit(50)]
    pub fn insert<T: Storable>(&mut self, t: T) -> (key: usize)
        requires
            old(self).wf(),
            old(self).has_room(T::width()),
        ensures
            final(self).wf(),
            old(self).inserted(*final(self), t, key),
            final(self)@.len() == old(self)@.len() + 1,
    {
        proof {
            T::encoding_is_exact();
            old(self).lemma_wf();
        }
        let ghost before = self.holes@;
        let ghost live = self.live();
        let ghost bytes_before = self.data@;
        let bytes_needed = T::size();
        proof {
            assert forall|i: int| 0 <= i < before.len() implies (#[trigger] before[i]).from
                <= before[i].to by {
                assert(before.contains(before[i]));
            }
        }

        // the first hole with room gives up its first bytes
        let key = take(&mut self.holes, bytes_needed);
        let ghost idx = choose|i: int|
            is_first_fit(before, bytes_needed as int, i) && key == (#[trigger] before[i]).from
                && self.holes@ == after_take(before, i, bytes_needed as int);
        let ghost hole = before[idx];
        proof {
            assert(before.contains(hole));
            lemma_take_keeps_apart(before, idx, bytes_needed as int);
        }
        let key_end = key + bytes_needed;

        // the buffer reaches over the new value
        fill_to(&mut self.data, key_end);
        let encoded = t.to_bytes();
        write_at(&mut self.data, key, &encoded);
        let _ = directory_insert(&mut self.allocated, key, (T::type_token(), bytes_needed));
        proof {
            if hole.to == usize::MAX {
                self.top = Ghost(key_end as int);
            }
            assert(!live.contains_key(key));
            assert forall|k: usize| #[trigger] live.contains_key(k) implies self.data@.subrange(
                k as int,
                k + live[k].1,
            ) == bytes_before.subrange(k as int, k + live[k].1) by {
                assert(self.data@.subrange(k as int, k + live[k].1) =~= bytes_before.subrange(
                    k as int,
                    k + live[k].1,
                ));
            }
            assert(self@ =~= old(self)@.insert(key, (T::token(), t.encode())));
            assert(encoded@ =~= self.data@.subrange(key as int, key + encoded@.len()));
            assert(self.data@ =~= written(bytes_before, key as int, t.encode()));
        }
        key
    }

    /// What taking a `T` from under `key` makes of a slab, `r` being what
    /// is returned. Where the key holds a `T`, the value comes out, the key
    /// is no longer live and its bytes are a hole; where not, the error says
    /// why and the slab is as it was.
    pub open spec fn removed<T: Storable>(
        &self,
        after: AnySlab,
        key: usize,
        r: Result<T, AnySlabError>,
    ) -> bool {
        match r {
            Ok(v) => {
                &&& self.holds::<T>(key)
                &&& v == T::decode(self@[key].1)
                &&& after@ == self@.remove(key)
                &&& after.holes() == after_give(self.holes(), key, (key + T::width()) as usize)
                &&& after.frontier() == if after.holes().last().to == usize::MAX {
                    after.holes().last().from as int
                } else {
                    self.frontier()
                }
                &&& after.buffer() == self.buffer()
            },
            Err(e) => self.check::<T>(key) == Err::<(), AnySlabError>(e) && after == *self,
        }
    }

    /// Takes the `T` stored under `key` out of the slab. Its bytes become
    /// a hole, fused with the holes that touch it on either side.
    #[verifier::rlimit(50)]
    pub fn remove<T: Storable>(&mut self, key: usize) -> (r: Result<T, AnySlabError>)
        requires
            old(self).wf(),
        ensures
            final(self).wf(),
            old(self).removed(*final(self), key, r),
            final(self)@.len() == old(self)@.len() - (if r is Ok {
                1int
            } else {
                0int
            }),
            final(self).frontier() <= old(self).frontier(),
    {
        // the key must be live and hold a `T`
        match self.verify_key::<T>(key) {
            Ok(_) => {},
            Err(e) => {
                return Err(e);
            },
        }
        proof {
            T::encoding_is_exact();
            old(self).lemma_wf();
        }
        let ghost before = self.holes@;
        let ghost live = self.live();
        let ghost top = self.top@;
        let bytes_needed = T::size();
        assert(live.contains_key(key));
        assert(key + bytes_needed <= self.data.len());
        let key_end = key + bytes_needed;
        let raw = read_at(&self.data, key, bytes_needed);
        let value = T::from_bytes(raw.as_slice());

        // the freed range becomes a hole, fused with the holes that touch it
        proof {
            lemma_give_keeps_apart(before, key, key_end);
        }
        give(&mut self.holes, key, key_end);
        let ghost fused = merged(before, key, key_end);

        // the directory forgets the key
        let _ = directory_remove(&mut self.allocated, key);
        proof {
            assert(self.holes@.last() == fused);
            if fused.to == usize::MAX {
                self.top = Ghost(fused.from as int);
            }
            assert(self@ =~= old(self)@.remove(key));
        }
        Ok(value)
    }

    /// Decodes the `T` whose bytes start at `key`.
    fn read<T: Storable>(&self, key: usize) -> (v: T)
        requires
            self.wf(),
            self.holds::<T>(key),
        ensures
            v == T::decode(self@[key].1),
    {
        let raw = read_at(&self.data, key, T::size());
        T::from_bytes(raw.as_slice())
    }

    /// Writes `value` over the `T` whose bytes start at `key`.
    fn write<T: Storable>(&mut self, key: usize, value: T)
        requires
            old(self).wf(),
            old(self).holds::<T>(key),
        ensures
            final(self).wf(),
            final(self)@ == old(self)@.insert(key, (T::token(), value.encode())),
            final(self).holes() == old(self).holes(),
            final(self).frontier() == old(self).frontier(),
            final(self).buffer() == written(old(self).buffer(), key as int, value.encode()),
            final(self).buffer().len() == old(self).buffer().len(),
            final(self).live() == old(self).live(),
    {
        proof {
            T::encoding_is_exact();
        }
        let ghost live = self.live();
        let ghost bytes_before = self.data@;
        let encoded = value.to_bytes();
        write_at(&mut self.data, key, &encoded);
        proof {
            assert forall|k: usize| #[trigger] live.contains_key(k) && k != key implies self.data@.subrange(
                k as int,
                k + live[k].1,
            ) == bytes_before.subrange(k as int, k + live[k].1) by {
                assert(self.data@.subrange(k as int, k + live[k].1) =~= bytes_before.subrange(
                    k as int,
                    k + live[k].1,
                ));
            }
            assert(self@ =~= old(self)@.insert(key, (T::token(), value.encode())));
            assert(encoded@ =~= self.data@.subrange(key as int, key + encoded@.len()));
            assert(self.data@ =~= written(bytes_before, key as int, value.encode()));
        }
    }

    /// A copy of the `T` stored under `key`.
    pub fn get<T: Storable>(&self, key: usize) -> (r: Result<T, AnySlabError>)
        requires
            self.wf(),
        ensures
            r == (match self.check::<T>(key) {
                Ok(_) => Ok(T::decode(self@[key].1)),
                Err(e) => Err(e),
            }),
    {
        match self.verify_key::<T>(key) {
            Ok(_) => Ok(self.read::<T>(key)),
            Err(e) => Err(e),
        }
    }

    /// Changes the `T` stored under `key` in place: `change` gets the
    /// value and what it returns is stored in its stead.
    pub fn get_mut<T: Storable, F: FnOnce(T) -> T>(&mut self, key: usize, change: F) -> (r: Result<
        (),
        AnySlabError,
    >)
        requires
            old(self).wf(),
            old(self).holds::<T>(key) ==> change.requires((T::decode(old(self)@[key].1),)),
        ensures
            final(self).wf(),
            final(self).holes() == old(self).holes(),
            final(self).frontier() == old(self).frontier(),
            match r {
                Ok(_) => old(self).holds::<T>(key) && exists|v: T|
                    change.ensures((T::decode(old(self)@[key].1),), v) && final(self)@ == old(
                        self,
                    )@.insert(key, (T::token(), #[trigger] v.encode())) && final(self).buffer()
                        == written(old(self).buffer(), key as int, v.encode()),
                Err(e) => old(self).check::<T>(key) == Err::<(), AnySlabError>(e) && *final(self)
                    == *old(self),
            },
    {
        match self.verify_key::<T>(key) {
            Ok(_) => {
                let current = self.read::<T>(key);
                let next = change(current);
                let ghost stored = next.encode();
                self.write::<T>(key, next);
                assert(self@ == old(self)@.insert(key, (T::token(), stored)));
                assert(self.buffer() == written(old(self).buffer(), key as int, stored));
                Ok(())
            },
            Err(e) => Err(e),
        }
    }

    /// Every live `T` with its key, in the order in which the directory
    /// hands its entries out: each key once, and no other.
    #[verifier::rlimit(50)]
    pub fn iter<T: Storable>(&self) -> (pairs: Vec<(usize, T)>)
        requires
            self.wf(),
        ensures
            forall|i: int|
                0 <= i < pairs@.len() ==> self.holds::<T>((#[trigger] pairs@[i]).0) && pairs@[i].1
                    == T::decode(self@[pairs@[i].0].1),
            forall|k: usize| #[trigger]
                self.holds::<T>(k) ==> exists|i: int|
                    0 <= i < pairs@.len() && (#[trigger] pairs@[i]).0 == k,
            forall|i: int, j: int|
                0 <= i < j < pairs@.len() ==> (#[trigger] pairs@[i]).0 != (#[trigger] pairs@[j]).0,
            pairs@.len() == self.keys_of::<T>().len(),
    {
        let entries = directory_pairs(&self.allocated);
        let mut pairs: Vec<(usize, T)> = Vec::new();
        let ghost mut source: Seq<int> = Seq::empty();
        let mut n: usize = 0;
        while n < entries.len()
            invariant
                self.wf(),
                0 <= n <= entries@.len(),
                forall|i: int|
                    0 <= i < entries@.len() ==> self.live().contains_key((#[trigger] entries@[i]).0)
                        && self.live()[entries@[i].0] == entries@[i].1,
                forall|i: int, j: int|
                    0 <= i < j < entries@.len() ==> (#[trigger] entries@[i]).0 != (
                    #[trigger] entries@[j]).0,
                source.len() == pairs@.len(),
                forall|i: int|
                    0 <= i < pairs@.len() ==> 0 <= #[trigger] source[i] < n && entries@[source[i]].0
                        == pairs@[i].0,
                forall|i: int, j: int|
                    0 <= i < j < pairs@.len() ==> #[trigger] source[i] < #[trigger] source[j],
                forall|i: int|
                    0 <= i < pairs@.len() ==> self.holds::<T>((#[trigger] pairs@[i]).0)
                        && pairs@[i].1 == T::decode(self@[pairs@[i].0].1),
                forall|m: int|
                    0 <= m < n && self.holds::<T>((#[trigger] entries@[m]).0) ==> exists|i: int|
                        0 <= i < pairs@.len() && (#[trigger] pairs@[i]).0 == entries@[m].0,
            decreases entries@.len() - n,
        {
            let key = entries[n].0;
            let (token, width) = entries[n].1;
            if token == T::type_token() && width == T::size() {
                let value = self.read::<T>(key);
                let ghost found = pairs@;
                pairs.push((key, value));
                proof {
                    source = source.push(n as int);
                    assert forall|m: int|
                        0 <= m < n + 1 && self.holds::<T>(
                            (#[trigger] entries@[m]).0,
                        ) implies exists|i: int|
                        0 <= i < pairs@.len() && (#[trigger] pairs@[i]).0 == entries@[m].0 by {
                        if m < n {
                            let i = choose|i: int|
                                0 <= i < found.len() && (#[trigger] found[i]).0 == entries@[m].0;
                            assert(pairs@[i].0 == entries@[m].0);
                        } else {
                            assert(pairs@[found.len() as int].0 == entries@[m].0);
                        }
                    }
                }
            }
            n += 1;
        }
        proof {
            assert forall|k: usize| #[trigger] self.holds::<T>(k) implies exists|i: int|
                0 <= i < pairs@.len() && (#[trigger] pairs@[i]).0 == k by {
                assert(self.live().contains_key(k));
                let m = choose|m: int| 0 <= m < entries@.len() && (#[trigger] entries@[m]).0 == k;
                assert(self.holds::<T>(entries@[m].0));
            }
            assert forall|i: int, j: int| 0 <= i < j < pairs@.len() implies (#[trigger] pairs@[i]).0
                != (#[trigger] pairs@[j]).0 by {
                assert(source[i] < source[j]);
            }
            let keys = Seq::new(pairs@.len(), |i: int| pairs@[i].0);
            assert(keys.no_duplicates());
            keys.unique_seq_to_set();
            assert forall|k: usize| keys.to_set().contains(k) <==> self.keys_of::<T>().contains(
                k,
            ) by {
                if self.holds::<T>(k) {
                    let i = choose|i: int| 0 <= i < pairs@.len() && (#[trigger] pairs@[i]).0 == k;
                    assert(keys[i] == k);
                }
                if keys.contains(k) {
                    let i = choose|i: int| 0 <= i < keys.len() && keys[i] == k;
                    assert(self.holds::<T>(pairs@[i].0));
                }
            }
            assert(keys.to_set() =~= self.keys_of::<T>());
        }
        pairs
    }

    /// What [`AnySlab::iter_mut`] leaves under `key`: where a `T` was
    /// stored, a `T` that `change` gave for it; elsewhere what was there.
    pub open spec fn changed_at<T: Storable, F: Fn(usize, T) -> T>(
        before: AnySlab,
        after: AnySlab,
        key: usize,
        change: F,
    ) -> bool {
        if before.holds::<T>(key) {
            exists|v: T|
                change.ensures((key, T::decode(before@[key].1)), v) && after@[key] == (
                    T::token(),
                    #[trigger] v.encode(),
                )
        } else {
            after@[key] == before@[key]
        }
    }

    /// Changes every live `T` in place: `change` gets each key with its
    /// value, once, and what it returns is stored in the value's stead.
    /// Values of other types stay as they are.
    #[verifier::rlimit(50)]
    pub fn iter_mut<T: Storable, F: Fn(usize, T) -> T>(&mut self, change: F)
        requires
            old(self).wf(),
            forall|k: usize| #[trigger]
                old(self).holds::<T>(k) ==> change.requires((k, T::decode(old(self)@[k].1))),
        ensures
            final(self).wf(),
            final(self).holes() == old(self).holes(),
            final(self).frontier() == old(self).frontier(),
            final(self).buffer().len() == old(self).buffer().len(),
            final(self)@.dom() == old(self)@.dom(),
            forall|k: usize| #[trigger]
                old(self)@.contains_key(k) ==> Self::changed_at::<T, F>(
                    *old(self),
                    *final(self),
                    k,
                    change,
                ),
    {
        let ghost before = *old(self);
        let entries = directory_pairs(&self.allocated);
        let mut n: usize = 0;
        while n < entries.len()
            invariant
                self.wf(),
                before.wf(),
                before == *old(self),
                self.holes@ == before.holes@,
                self.top@ == before.top@,
                self.data@.len() == before.data@.len(),
                self.live() == before.live(),
                0 <= n <= entries@.len(),
                forall|k: usize| #[trigger]
                    before.holds::<T>(k) ==> change.requires((k, T::decode(before@[k].1))),
                forall|i: int|
                    0 <= i < entries@.len() ==> self.live().contains_key((#[trigger] entries@[i]).0)
                        && self.live()[entries@[i].0] == entries@[i].1,
                forall|i: int, j: int|
                    0 <= i < j < entries@.len() ==> (#[trigger] entries@[i]).0 != (
                    #[trigger] entries@[j]).0,
                forall|m: int|
                    0 <= m < n ==> Self::changed_at::<T, F>(
                        before,
                        *self,
                        (#[trigger] entries@[m]).0,
                        change,
                    ),
                forall|m: int|
                    n <= m < entries@.len() ==> self@[(#[trigger] entries@[m]).0]
                        == before@[entries@[m].0],
            decreases entries@.len() - n,
        {
            let key = entries[n].0;
            let (token, width) = entries[n].1;
            let ghost earlier = *self;
            assert(self@[entries@[n as int].0] == before@[key]);
            if token == T::type_token() && width == T::size() {
                assert(self@.contains_key(key) && before@.contains_key(key));
                assert(self.holds::<T>(key) && before.holds::<T>(key));
                let current = self.read::<T>(key);
                let next = change(key, current);
                let ghost stored = next.encode();
                self.write::<T>(key, next);
                proof {
                    assert(self@[key] == (T::token(), stored));
                    assert(Self::changed_at::<T, F>(before, *self, key, change));
                }
            }
            proof {
                assert forall|m: int| 0 <= m < n implies Self::changed_at::<T, F>(
                    before,
                    *self,
                    (#[trigger] entries@[m]).0,
                    change,
                ) by {
                    assert(entries@[m].0 != entries@[n as int].0);
                    assert(self@[entries@[m].0] == earlier@[entries@[m].0]);
                    assert(Self::changed_at::<T, F>(before, earlier, entries@[m].0, change));
                }
                assert forall|m: int| n + 1 <= m < entries@.len() implies self@[(
                #[trigger] entries@[m]).0] == before@[entries@[m].0] by {
                    assert(entries@[n as int].0 != entries@[m].0);
                }
            }
            n += 1;
        }
        proof {
            assert(self@.dom() =~= before@.dom());
            assert forall|k: usize| #[trigger] before@.contains_key(k) implies Self::changed_at::<
                T,
                F,
            >(before, *self, k, change) by {
                assert(self.live().contains_key(k));
                let m = choose|m: int| 0 <= m < entries@.len() && (#[trigger] entries@[m]).0 == k;
                assert(Self::changed_at::<T, F>(before, *self, entries@[m].0, change));
            }
        }
    }
}

} // verus!
