//! Moving between zones: the zone shown wraps around at both ends.

use std::path::PathBuf;
use vstd::prelude::*;
use vstd::arithmetic::div_mod::{
    lemma_add_mod_noop, lemma_fundamental_div_mod, lemma_mod_add_multiples_vanish, lemma_small_mod,
};

verus! {

/// The zone before zone `i` of `n`, wrapping to the last.
pub open spec fn prev_index(i: int, n: int) -> int {
    (i + n - 1) % n
}

/// The zone after zone `i` of `n`, wrapping to the first.
pub open spec fn next_index(i: int, n: int) -> int {
    (i + 1) % n
}

/// The zones, in order, and which of them is shown.
pub struct ZoneNav {
    zones: Vec<PathBuf>,
    zone_index: usize,
}

impl ZoneNav {
    #[verifier::type_invariant]
    spec fn well_formed(self) -> bool {
        0 <= self.zone_index < self.zones.len()
    }

    /// The zones, in order.
    pub closed spec fn zones(self) -> Seq<PathBuf> {
        self.zones@
    }

    /// The position of the zone shown.
    pub closed spec fn index(self) -> int {
        self.zone_index as int
    }

    /// Starts on the first of the zones found, or on `root` alone when none was found.
    pub fn new(found: Vec<PathBuf>, root: PathBuf) -> (r: Self)
        ensures
            r.zones() == (if found@.len() == 0 {
                seq![root]
            } else {
                found@
            }),
            r.index() == 0,
    {
        let mut zones = found;
        if zones.len() == 0 {
            zones.push(root);
            assert(zones@ =~= seq![root]);
        }
        ZoneNav { zones, zone_index: 0 }
    }

    /// Number of zones (at least one).
    pub fn zone_count(&self) -> (n: usize)
        ensures
            n == self.zones().len(),
            n >= 1,
    {
        proof {
            use_type_invariant(self);
        }
        self.zones.len()
    }

    /// Position of the zone shown (less than the number of zones).
    pub fn zone_index(&self) -> (i: usize)
        ensures
            i == self.index(),
            i < self.zones().len(),
    {
        proof {
            use_type_invariant(self);
        }
        self.zone_index
    }

    /// The folder of the zone shown.
    pub fn current(&self) -> (p: &PathBuf)
        ensures
            *p == self.zones()[self.index()],
    {
        proof {
            use_type_invariant(self);
        }
        &self.zones[self.zone_index]
    }

    /// Shows the previous zone, wrapping to the last; with a single zone
    /// nothing moves.  Returns whether the zone shown changed.
    pub fn go_prev(&mut self) -> (moved: bool)
        ensures
            final(self).zones() == old(self).zones(),
            moved == (old(self).zones().len() > 1),
            final(self).index() == if moved {
                prev_index(old(self).index(), old(self).zones().len() as int)
            } else {
                old(self).index()
            },
    {
        proof {
            use_type_invariant(&*self);
        }
        let n = self.zones.len();
        if n <= 1 {
            return false;
        }
        let i = self.zone_index;
        proof {
            if i == 0 {
                lemma_small_mod((n - 1) as nat, n as nat);
            } else {
                lemma_mod_add_multiples_vanish(i - 1, n as int);
                lemma_small_mod((i - 1) as nat, n as nat);
            }
        }
        self.zone_index = if i == 0 {
            n - 1
        } else {
            i - 1
        };
        true
    }

    /// Shows the next zone, wrapping to the first; with a single zone
    /// nothing moves.  Returns whether the zone shown changed.
    pub fn go_next(&mut self) -> (moved: bool)
        ensures
            final(self).zones() == old(self).zones(),
            moved == (old(self).zones().len() > 1),
            final(self).index() == if moved {
                next_index(old(self).index(), old(self).zones().len() as int)
            } else {
                old(self).index()
            },
            moved_next(*old(self), *final(self)),
    {
        proof {
            use_type_invariant(&*self);
        }
        let n = self.zones.len();
        if n <= 1 {
            return false;
        }
        let i = self.zone_index;
        proof {
            if i + 1 < n {
                lemma_small_mod((i + 1) as nat, n as nat);
            } else {
                lemma_mod_add_multiples_vanish(0, n as int);
                lemma_small_mod(0, n as nat);
            }
        }
        self.zone_index = if i + 1 == n {
            0
        } else {
            i + 1
        };
        true
    }
}

/// Moving back then forward, or forward then back, returns to the same zone,
/// and both moves stay among the zones.
pub proof fn lemma_prev_next_inverse(i: int, n: int)
    requires
        0 <= i < n,
    ensures
        0 <= prev_index(i, n) < n,
        0 <= next_index(i, n) < n,
        next_index(prev_index(i, n), n) == i,
        prev_index(next_index(i, n), n) == i,
{
    if i == 0 {
        lemma_small_mod((n - 1) as nat, n as nat);
    } else {
        lemma_mod_add_multiples_vanish(i - 1, n);
        lemma_small_mod((i - 1) as nat, n as nat);
    }
    if i + 1 < n {
        lemma_small_mod((i + 1) as nat, n as nat);
    } else {
        lemma_mod_add_multiples_vanish(0, n);
        lemma_small_mod(0, n as nat);
    }
    let p = prev_index(i, n);
    if p + 1 < n {
        lemma_small_mod((p + 1) as nat, n as nat);
    } else {
        lemma_mod_add_multiples_vanish(0, n);
        lemma_small_mod(0, n as nat);
    }
    let q = next_index(i, n);
    if q == 0 {
        lemma_small_mod((n - 1) as nat, n as nat);
    } else {
        lemma_mod_add_multiples_vanish(q - 1, n);
        lemma_small_mod((q - 1) as nat, n as nat);
    }
}

/// The zone reached from zone `i` of `n` after `k` moves forward.
pub open spec fn after_next(i: int, n: int, k: nat) -> int
    decreases k,
{
    if k == 0 {
        i
    } else {
        next_index(after_next(i, n, (k - 1) as nat), n)
    }
}

/// `k` moves forward from zone `i` reach zone `(i + k) mod n`; in particular
/// `n` moves forward come back to the zone started from.
pub proof fn lemma_next_cycle(i: int, n: int, k: nat)
    requires
        0 <= i < n,
    ensures
        after_next(i, n, k) == (i + k) % n,
        after_next(i, n, n as nat) == i,
{
    lemma_after_next_mod(i, n, k);
    lemma_cycle_once(i, n);
}

proof fn lemma_cycle_once(i: int, n: int)
    requires
        0 <= i < n,
    ensures
        after_next(i, n, n as nat) == i,
{
    lemma_after_next_mod(i, n, n as nat);
    lemma_mod_add_multiples_vanish(i, n);
    lemma_small_mod(i as nat, n as nat);
}

proof fn lemma_after_next_mod(i: int, n: int, k: nat)
    requires
        0 <= i < n,
    ensures
        after_next(i, n, k) == (i + k) % n,
    decreases k,
{
    if k == 0 {
        lemma_small_mod(i as nat, n as nat);
    } else {
        lemma_after_next_mod(i, n, (k - 1) as nat);
        lemma_add_mod_noop(i + k - 1, 1, n);
        if n > 1 {
            lemma_small_mod(1, n as nat);
        } else {
            let a = i + k - 1;
            assert((a % n + 1) % n == (a + 1) % n) by (nonlinear_arith)
                requires
                    n == 1,
            ;
        }
    }
}


/// `n` moves forward from zone `i` of `n` visit every zone exactly once:
/// the zones reached after 1 to `n` moves are all different (the `n`-th
/// being zone `i` again).
pub proof fn lemma_cycle_visits_each_zone_once(i: int, n: int)
    requires
        0 <= i < n,
    ensures
        forall|k: nat, l: nat|
            1 <= k < l <= n ==> #[trigger] after_next(i, n, k) != #[trigger] after_next(i, n, l),
        forall|k: nat| 1 <= k <= n ==> 0 <= #[trigger] after_next(i, n, k) < n,
        after_next(i, n, n as nat) == i,
{
    assert forall|k: nat, l: nat| 1 <= k < l <= n implies #[trigger] after_next(i, n, k)
        != #[trigger] after_next(i, n, l) by {
        lemma_after_next_mod(i, n, k);
        lemma_after_next_mod(i, n, l);
        let a = i + k;
        let b = i + l;
        lemma_fundamental_div_mod(a, n);
        lemma_fundamental_div_mod(b, n);
        if a % n == b % n {
            let qa = a / n;
            let qb = b / n;
            assert(b - a == n * (qb - qa)) by (nonlinear_arith)
                requires
                    a == n * qa + a % n,
                    b == n * qb + b % n,
                    a % n == b % n,
            ;
            assert(false) by (nonlinear_arith)
                requires
                    b - a == n * (qb - qa),
                    0 < b - a < n,
                    n > 0,
            ;
        }
    }
    assert forall|k: nat| 1 <= k <= n implies 0 <= #[trigger] after_next(i, n, k) < n by {
        lemma_after_next_mod(i, n, k);
    }
    lemma_cycle_once(i, n);
}

/// `b` is what `go_next` leaves of `a`: the same zones, and the next zone
/// shown when there is more than one.
pub open spec fn moved_next(a: ZoneNav, b: ZoneNav) -> bool {
    &&& b.zones() == a.zones()
    &&& b.index() == if a.zones().len() > 1 {
        next_index(a.index(), a.zones().len() as int)
    } else {
        a.index()
    }
}

proof fn lemma_moved_next_prefix(navs: Seq<ZoneNav>, k: int)
    requires
        navs.len() >= 1,
        0 <= navs[0].index() < navs[0].zones().len(),
        forall|j: int| 1 <= j < navs.len() ==> moved_next(navs[j - 1], #[trigger] navs[j]),
        0 <= k < navs.len(),
    ensures
        navs[k].zones() == navs[0].zones(),
        navs[k].index() == after_next(navs[0].index(), navs[0].zones().len() as int, k as nat),
    decreases k,
{
    if k > 0 {
        lemma_moved_next_prefix(navs, k - 1);
        assert(moved_next(navs[k - 1], navs[k]));
        let i = navs[0].index();
        let n = navs[0].zones().len() as int;
        if n == 1 {
            lemma_after_next_mod(i, n, k as nat);
            lemma_after_next_mod(i, n, (k - 1) as nat);
        }
    }
}

/// Calling `go_next` as many times as there are zones shows every zone
/// exactly once, in cyclic order from the zone after the one shown first,
/// and ends on the zone shown first.  `navs` holds the navigator before the
/// first call and after each call.
pub proof fn lemma_go_next_visits_each_zone_once(navs: Seq<ZoneNav>)
    requires
        navs.len() >= 1,
        navs.len() == navs[0].zones().len() + 1,
        0 <= navs[0].index() < navs[0].zones().len(),
        forall|j: int| 1 <= j < navs.len() ==> moved_next(navs[j - 1], #[trigger] navs[j]),
    ensures
        forall|k: int|
            0 <= k < navs.len() ==> (#[trigger] navs[k]).zones() == navs[0].zones()
                && navs[k].index() == (navs[0].index() + k) % (navs[0].zones().len() as int),
        forall|k: int, l: int|
            1 <= k < l < navs.len() ==> (#[trigger] navs[k]).index() != (#[trigger] navs[l]).index(),
        navs.last().index() == navs[0].index(),
{
    let i = navs[0].index();
    let n = navs[0].zones().len() as int;
    assert forall|k: int| 0 <= k < navs.len() implies (#[trigger] navs[k]).zones() == navs[0].zones()
        && navs[k].index() == (i + k) % n by {
        lemma_moved_next_prefix(navs, k);
        lemma_after_next_mod(i, n, k as nat);
    }
    lemma_cycle_visits_each_zone_once(i, n);
    assert forall|k: int, l: int| 1 <= k < l < navs.len() implies (#[trigger] navs[k]).index()
        != (#[trigger] navs[l]).index() by {
        lemma_moved_next_prefix(navs, k);
        lemma_moved_next_prefix(navs, l);
        assert(after_next(i, n, k as nat) != after_next(i, n, l as nat));
    }
    lemma_moved_next_prefix(navs, navs.len() - 1);
}

} // verus!
