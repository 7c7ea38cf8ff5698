use vstd::prelude::*;

verus! {

/// The capacity class that currently backs a [`DynamicVec`].
///
/// A container is created at `Small` and only ever moves forward through
/// `Medium` to `Large`; it never moves back.
#[derive(Clone, Copy, Debug, PartialEq, Eq, Structural)]
pub enum Tier {
    Small,
    Medium,
    Large,
}

/// Tier order: `Small` below `Medium` below `Large`.
pub open spec fn tier_le(a: Tier, b: Tier) -> bool {
    match (a, b) {
        (Tier::Small, _) => true,
        (Tier::Medium, Tier::Small) => false,
        (Tier::Medium, _) => true,
        (Tier::Large, Tier::Large) => true,
        (Tier::Large, _) => false,
    }
}

/// The tier a container is at after one append, given the tier `t` and the
/// length `len` it held before the append.
///
/// A full `Small` tier (four elements) hands the append to `Medium`; a full
/// `Medium` tier (sixteen elements) hands it to `Large`; `Large` has no
/// ceiling and never hands off.
pub open spec fn tier_after_push(t: Tier, len: nat) -> Tier {
    match t {
        Tier::Small => if len < 4 { Tier::Small } else { Tier::Medium },
        Tier::Medium => if len < 16 { Tier::Medium } else { Tier::Large },
        Tier::Large => Tier::Large,
    }
}

/// The tier a container is at after `count` appends in a row, given the tier
/// `t` and the length `len` it held before the first of them: `tier_after_push`
/// iterated once per appended element.
pub open spec fn tier_after_extend(t: Tier, len: nat, count: nat) -> Tier
    decreases count,
{
    if count == 0 {
        t
    } else {
        tier_after_extend(tier_after_push(t, len), len + 1, (count - 1) as nat)
    }
}

/// An ordered sequence container that starts in a small capacity class and,
/// each time an append would cross the class's ceiling, migrates everything
/// it holds into the next class: `Small` holds up to 4 elements, `Medium` up
/// to 16, and `Large` grows without bound.
///
/// Element order is insertion order, and a migration preserves it exactly.
#[derive(Debug)]
pub struct DynamicVec<T> {
    tier: Tier,
    storage: Vec<T>,
}

impl<T> View for DynamicVec<T> {
    type V = Seq<T>;

    closed spec fn view(&self) -> Seq<T> {
        self.storage@
    }
}

impl<T> DynamicVec<T> {
    /// The capacity class currently backing the container.
    pub closed spec fn tier(self) -> Tier {
        self.tier
    }

    /// The stored length never exceeds the current tier's ceiling; `Large`
    /// has none.
    pub open spec fn wf(self) -> bool {
        match self.tier() {
            Tier::Small => self@.len() <= 4,
            Tier::Medium => self@.len() <= 16,
            Tier::Large => true,
        }
    }

    /// Creates an empty container at tier `Small`.
    pub fn new() -> (r: DynamicVec<T>)
        ensures
            r@ == Seq::<T>::empty(),
            r.tier() == Tier::Small,
            r.wf(),
    {
        DynamicVec { tier: Tier::Small, storage: Vec::new() }
    }

    /// Appends one element at the logical end.
    ///
    /// If the current tier is full, the contents first migrate, in order,
    /// into storage for the next tier, and the new element lands last; the
    /// tier moves exactly as `tier_after_push` says. The operation cannot
    /// fail and accepts any element.
    pub fn push(&mut self, item: T)
        requires
            old(self).wf(),
        ensures
            final(self).wf(),
            final(self)@ == old(self)@.push(item),
            final(self).tier() == tier_after_push(old(self).tier(), old(self)@.len()),
    {
        match self.tier {
            Tier::Small => {
                if self.storage.len() == 4 {
                    let mut migrated: Vec<T> = Vec::with_capacity(16);
                    migrated.append(&mut self.storage);
                    self.storage = migrated;
                    self.tier = Tier::Medium;
                }
            },
            Tier::Medium => {
                if self.storage.len() == 16 {
                    let mut migrated: Vec<T> = Vec::with_capacity(64);
                    migrated.append(&mut self.storage);
                    self.storage = migrated;
                    self.tier = Tier::Large;
                }
            },
            Tier::Large => {},
        }
        self.storage.push(item);
    }

    /// Appends every element of `items` in order, by repeated `push`.
    ///
    /// The final state is identical to calling `push` once per element in
    /// sequence order: the stored sequence is the old one followed by
    /// `items`, and the tier is `tier_after_push` folded over the appends,
    /// so the transition points fall exactly where the sequential pushes
    /// would put them.
    pub fn extend(&mut self, items: Vec<T>)
        requires
            old(self).wf(),
        ensures
            final(self).wf(),
            final(self)@ == old(self)@ + items@,
            final(self).tier() == tier_after_extend(
                old(self).tier(),
                old(self)@.len(),
                items@.len(),
            ),
    {
        let ghost items_init: Seq<T> = items@;
        let ghost n0: nat = old(self)@.len();
        let ghost t0: Tier = old(self).tier();
        let mut items = items;
        while items.len() > 0
            invariant
                self.wf(),
                n0 == old(self)@.len(),
                t0 == old(self).tier(),
                items@.len() <= items_init.len(),
                items@ == items_init.skip(items_init.len() - items@.len()),
                self@ == old(self)@ + items_init.take(items_init.len() - items@.len()),
                self.tier() == tier_after_extend(
                    t0,
                    n0,
                    (items_init.len() - items@.len()) as nat,
                ),
            decreases items@.len(),
        {
            let ghost done: int = items_init.len() - items@.len();
            assert(self@.len() == n0 + done);
            let x = items.remove(0);
            self.push(x);
            proof {
                assert(items_init.skip(done)[0] == items_init[done]);
                assert(items_init.take(done + 1) =~= items_init.take(done).push(
                    items_init[done],
                ));
                assert(items_init.skip(done).remove(0) =~= items_init.skip(done + 1));
                lemma_tier_after_extend_snoc(t0, n0, done as nat);
            }
        }
        proof {
            assert(items_init.take(items_init.len() as int) =~= items_init);
        }
    }

    /// The number of elements currently held.
    pub fn len(&self) -> (n: usize)
        ensures
            n == self@.len(),
    {
        self.storage.len()
    }

    /// The element at position `i` in insertion order, unaffected by which
    /// tier backs the container.
    pub fn get(&self, i: usize) -> (r: &T)
        requires
            i < self@.len(),
        ensures
            *r == self@[i as int],
    {
        &self.storage[i]
    }

    /// The capacity class currently backing the container.
    pub fn current_tier(&self) -> (t: Tier)
        ensures
            t == self.tier(),
    {
        self.tier
    }
}

/// Appending one more element after `count` appends is the same as one
/// further `tier_after_push` at the length those appends reached.
pub proof fn lemma_tier_after_extend_snoc(t: Tier, len: nat, count: nat)
    ensures
        tier_after_extend(t, len, count + 1) == tier_after_push(
            tier_after_extend(t, len, count),
            len + count,
        ),
    decreases count,
{
    reveal_with_fuel(tier_after_extend, 2);
    if count > 0 {
        lemma_tier_after_extend_snoc(tier_after_push(t, len), len + 1, (count - 1) as nat);
    }
}

/// The (tier, contents) pair a container reaches after appending each
/// element of `items` in order, one `push` at a time.
pub open spec fn state_after_pushes<T>(t: Tier, s: Seq<T>, items: Seq<T>) -> (Tier, Seq<T>)
    decreases items.len(),
{
    if items.len() == 0 {
        (t, s)
    } else {
        state_after_pushes(tier_after_push(t, s.len()), s.push(items[0]), items.drop_first())
    }
}

/// Bulk append is sequential append: the state `extend` promises — contents
/// `s + items` at tier `tier_after_extend` — is exactly the state reached by
/// pushing the elements of `items` one at a time, from any starting state.
pub proof fn lemma_extend_is_sequential_push<T>(t: Tier, s: Seq<T>, items: Seq<T>)
    ensures
        state_after_pushes(t, s, items) == (
            tier_after_extend(t, s.len(), items.len()),
            s + items,
        ),
    decreases items.len(),
{
    if items.len() == 0 {
        assert(s + items =~= s);
    } else {
        lemma_extend_is_sequential_push(
            tier_after_push(t, s.len()),
            s.push(items[0]),
            items.drop_first(),
        );
        assert(s.push(items[0]) + items.drop_first() =~= s + items);
    }
}

/// Tier monotonicity for a single append: the tier never moves backwards.
pub proof fn lemma_push_tier_monotone(t: Tier, len: nat)
    ensures
        tier_le(t, tier_after_push(t, len)),
{
}

/// Tier monotonicity: over any run of appends, from any starting tier and
/// length, the tier observed afterwards is never below the one before.
pub proof fn lemma_tier_monotone(t: Tier, len: nat, count: nat)
    ensures
        tier_le(t, tier_after_extend(t, len, count)),
    decreases count,
{
    if count > 0 {
        lemma_tier_monotone(tier_after_push(t, len), len + 1, (count - 1) as nat);
    }
}

/// Transition trigger points from a fresh, empty container: up to four
/// appends stay `Small`, the fifth through sixteenth land in `Medium`, and
/// the seventeenth onward land in `Large`.
pub proof fn lemma_trigger_points(count: nat)
    ensures
        tier_after_extend(Tier::Small, 0, count) == (if count <= 4 {
            Tier::Small
        } else if count <= 16 {
            Tier::Medium
        } else {
            Tier::Large
        }),
    decreases count,
{
    if count > 0 {
        lemma_trigger_points((count - 1) as nat);
        lemma_tier_after_extend_snoc(Tier::Small, 0, (count - 1) as nat);
    }
}

/// `Large` is terminal: however many further elements are appended, the tier
/// stays `Large`.
pub proof fn lemma_large_is_terminal(len: nat, count: nat)
    ensures
        tier_after_extend(Tier::Large, len, count) == Tier::Large,
    decreases count,
{
    if count > 0 {
        lemma_large_is_terminal(len + 1, (count - 1) as nat);
    }
}

} // verus!
