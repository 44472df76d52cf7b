//! The search filter and the icon requests made for the entries shown.

use vstd::prelude::*;
use crate::listing::{clone_path, Entry, IconRequest};
use crate::text::{
    chars_of, contains_chars, contains_seq, lowercase_range, spec_to_lowercase, trim, trim_range,
};

verus! {

/// The search text as it is matched: trimmed, then in lower case.
pub open spec fn normalized_query(query: Seq<char>) -> Seq<char> {
    spec_to_lowercase(trim(query))
}

/// An entry named `name` passes the normalized search text `nq`: `nq` is
/// empty, or occurs in the lower case form of the name.
pub open spec fn name_matches(name: Seq<char>, nq: Seq<char>) -> bool {
    nq.len() == 0 || contains_seq(spec_to_lowercase(name), nq)
}

/// The search text `query`, normalized for matching; empty exactly when
/// the search text is blank.
pub fn normalize_query(query: &str) -> (r: Vec<char>)
    ensures
        r@ == normalized_query(query@),
        (r@.len() == 0) == (trim(query@).len() == 0),
{
    let v = chars_of(query);
    let (a, b) = trim_range(&v, 0, v.len());
    assert(v@.subrange(0, v.len() as int) =~= query@);
    lowercase_range(&v, a, b)
}

/// Whether an entry named `name` passes the normalized search text `nq`.
pub fn name_passes(name: &str, nq: &Vec<char>) -> (b: bool)
    ensures
        b == name_matches(name@, nq@),
{
    if nq.len() == 0 {
        return true;
    }
    let v = chars_of(name);
    let lower = lowercase_range(&v, 0, v.len());
    assert(v@.subrange(0, v.len() as int) =~= name@);
    contains_chars(&lower, nq)
}

/// The positions of the entries that pass `nq`, in order.
pub open spec fn matching_indices(entries: Seq<Entry>, nq: Seq<char>) -> Seq<int>
    decreases entries.len(),
{
    if entries.len() == 0 {
        Seq::empty()
    } else {
        let before = matching_indices(entries.drop_last(), nq);
        if name_matches(entries.last().name@, nq) {
            before.push(entries.len() - 1)
        } else {
            before
        }
    }
}

/// With a blank search text every entry is shown, in order.
pub proof fn lemma_blank_search_shows_all(entries: Seq<Entry>, nq: Seq<char>)
    requires
        nq.len() == 0,
    ensures
        matching_indices(entries, nq) == Seq::new(entries.len(), |i: int| i),
    decreases entries.len(),
{
    if entries.len() > 0 {
        lemma_blank_search_shows_all(entries.drop_last(), nq);
        assert(matching_indices(entries, nq) =~= Seq::new(entries.len(), |i: int| i));
    } else {
        assert(matching_indices(entries, nq) =~= Seq::new(entries.len(), |i: int| i));
    }
}

/// The positions of the entries shown for the search text `query`.
pub fn matching_entries(entries: &Vec<Entry>, query: &str) -> (r: Vec<usize>)
    ensures
        r@.map_values(|i: usize| i as int) == matching_indices(entries@, normalized_query(query@)),
{
    let nq = normalize_query(query);
    let mut out: Vec<usize> = Vec::new();
    let mut i: usize = 0;
    proof {
        assert(entries@.take(0) =~= Seq::<Entry>::empty());
        assert(out@.map_values(|i: usize| i as int) =~= Seq::<int>::empty());
    }
    while i < entries.len()
        invariant
            0 <= i <= entries.len(),
            nq@ == normalized_query(query@),
            out@.map_values(|i: usize| i as int) == matching_indices(
                entries@.take(i as int),
                nq@,
            ),
        decreases entries.len() - i,
    {
        proof {
            assert(entries@.take(i + 1).drop_last() =~= entries@.take(i as int));
            assert(entries@.take(i + 1).last() == entries@[i as int]);
        }
        let ghost before = out@;
        if name_passes(&entries[i].name, &nq) {
            out.push(i);
            proof {
                assert(out@.map_values(|i: usize| i as int) =~= before.map_values(
                    |i: usize| i as int,
                ).push(i as int));
            }
        }
        i = i + 1;
    }
    proof {
        assert(entries@.take(i as int) =~= entries@);
    }
    out
}

/// At most this many icon requests are made per frame.
pub const MAX_REQUESTS_PER_FRAME: usize = 64;

/// The positions, in order, of the entries that still need an icon (not
/// `known`: no texture, no failure, no request yet) and pass `nq`.
pub open spec fn pending_indices(entries: Seq<Entry>, known: Seq<bool>, nq: Seq<char>) -> Seq<int>
    decreases entries.len(),
{
    if entries.len() == 0 {
        Seq::empty()
    } else {
        let before = pending_indices(entries.drop_last(), known, nq);
        let i = entries.len() - 1;
        if !known[i] && name_matches(entries.last().name@, nq) {
            before.push(i)
        } else {
            before
        }
    }
}

/// The entries whose icons are requested this frame: the first
/// `MAX_REQUESTS_PER_FRAME` of the pending ones.
pub open spec fn request_indices(entries: Seq<Entry>, known: Seq<bool>, nq: Seq<char>) -> Seq<int> {
    let p = pending_indices(entries, known, nq);
    if p.len() <= 64 {
        p
    } else {
        p.take(64)
    }
}

proof fn lemma_pending_prefix(entries: Seq<Entry>, known: Seq<bool>, nq: Seq<char>, j: int)
    requires
        0 <= j <= entries.len(),
    ensures
        pending_indices(entries.take(j), known, nq).len() <= pending_indices(
            entries,
            known,
            nq,
        ).len(),
        pending_indices(entries, known, nq).take(
            pending_indices(entries.take(j), known, nq).len() as int,
        ) == pending_indices(entries.take(j), known, nq),
    decreases entries.len(),
{
    let whole = pending_indices(entries, known, nq);
    if j == entries.len() {
        assert(entries.take(j) =~= entries);
        assert(whole.take(whole.len() as int) =~= whole);
    } else {
        assert(entries.drop_last().take(j) =~= entries.take(j));
        lemma_pending_prefix(entries.drop_last(), known, nq, j);
        let part = pending_indices(entries.take(j), known, nq);
        let shorter = pending_indices(entries.drop_last(), known, nq);
        assert(whole.take(part.len() as int) =~= shorter.take(part.len() as int));
    }
}

proof fn lemma_pending_bounds(entries: Seq<Entry>, known: Seq<bool>, nq: Seq<char>)
    ensures
        forall|k: int|
            0 <= k < pending_indices(entries, known, nq).len() ==> 0 <= #[trigger] pending_indices(
                entries,
                known,
                nq,
            )[k] < entries.len(),
    decreases entries.len(),
{
    if entries.len() > 0 {
        lemma_pending_bounds(entries.drop_last(), known, nq);
        let before = pending_indices(entries.drop_last(), known, nq);
        let whole = pending_indices(entries, known, nq);
        assert forall|k: int| 0 <= k < whole.len() implies 0 <= #[trigger] whole[k]
            < entries.len() by {
            if k < before.len() {
                assert(whole[k] == before[k]);
            }
        }
    }
}

/// Icons are requested only for entries that have none, no failure and no
/// request yet and that pass the search; each at most once, in listing order.
pub proof fn lemma_requests_new_and_distinct(entries: Seq<Entry>, known: Seq<bool>, nq: Seq<char>)
    requires
        known.len() == entries.len(),
    ensures
        forall|k: int|
            0 <= k < request_indices(entries, known, nq).len() ==> {
                let i = #[trigger] request_indices(entries, known, nq)[k];
                &&& 0 <= i < entries.len()
                &&& !known[i]
                &&& name_matches(entries[i].name@, nq)
            },
        forall|k: int, l: int|
            0 <= k < l < request_indices(entries, known, nq).len() ==> #[trigger] request_indices(
                entries,
                known,
                nq,
            )[k] < #[trigger] request_indices(entries, known, nq)[l],
{
    lemma_pending_new_ordered(entries, known, nq);
}

proof fn lemma_pending_new_ordered(entries: Seq<Entry>, known: Seq<bool>, nq: Seq<char>)
    requires
        known.len() >= entries.len(),
    ensures
        forall|k: int|
            0 <= k < pending_indices(entries, known, nq).len() ==> {
                let i = #[trigger] pending_indices(entries, known, nq)[k];
                &&& 0 <= i < entries.len()
                &&& !known[i]
                &&& name_matches(entries[i].name@, nq)
            },
        forall|k: int, l: int|
            0 <= k < l < pending_indices(entries, known, nq).len() ==> #[trigger] pending_indices(
                entries,
                known,
                nq,
            )[k] < #[trigger] pending_indices(entries, known, nq)[l],
    decreases entries.len(),
{
    if entries.len() > 0 {
        let shorter = entries.drop_last();
        lemma_pending_new_ordered(shorter, known, nq);
        let before = pending_indices(shorter, known, nq);
        let whole = pending_indices(entries, known, nq);
        assert forall|k: int| 0 <= k < whole.len() implies {
            let i = #[trigger] whole[k];
            &&& 0 <= i < entries.len()
            &&& !known[i]
            &&& name_matches(entries[i].name@, nq)
        } by {
            if k < before.len() {
                assert(whole[k] == before[k]);
                assert(entries[before[k]] == shorter[before[k]]);
            }
        }
        assert forall|k: int, l: int| 0 <= k < l < whole.len() implies #[trigger] whole[k]
            < #[trigger] whole[l] by {
            assert(whole[k] == before[k]);
            if l < before.len() {
                assert(whole[l] == before[l]);
            }
        }
    }
}

/// `known` with the positions in `idx` marked.
pub open spec fn marked(known: Seq<bool>, idx: Seq<int>) -> Seq<bool> {
    Seq::new(known.len(), |j: int| known[j] || idx.contains(j))
}

/// The icon requests made this frame for `entries`, where `known[i]` tells
/// whether entry `i` already has a texture, a failure or a request, for
/// images of `size_px` pixels in listing generation `generation`; each
/// entry requested is marked in `known`.
pub fn plan_icon_requests(
    entries: &Vec<Entry>,
    known: &mut Vec<bool>,
    query: &str,
    size_px: i32,
    generation: u32,
) -> (r: Vec<IconRequest>)
    requires
        old(known).len() == entries.len(),
    ensures
        r.len() == request_indices(entries@, old(known)@, normalized_query(query@)).len(),
        r.len() <= MAX_REQUESTS_PER_FRAME,
        forall|k: int|
            0 <= k < r.len() ==> {
                let i = request_indices(entries@, old(known)@, normalized_query(query@))[k];
                &&& (#[trigger] r[k]).path == entries@[i].path
                &&& 0 <= i < entries.len()
                &&& r[k].size_px == size_px
                &&& r[k].generation == generation
            },
        final(known)@ == marked(
            old(known)@,
            request_indices(entries@, old(known)@, normalized_query(query@)),
        ),
{
    let nq = normalize_query(query);
    let ghost orig = known@;
    let ghost all = pending_indices(entries@, orig, nq@);
    let mut out: Vec<IconRequest> = Vec::new();
    let mut i: usize = 0;
    proof {
        assert(entries@.take(0) =~= Seq::<Entry>::empty());
    }
    while i < entries.len() && out.len() < MAX_REQUESTS_PER_FRAME
        invariant
            0 <= i <= entries.len(),
            known.len() == entries.len(),
            orig.len() == entries.len(),
            nq@ == normalized_query(query@),
            all == pending_indices(entries@, orig, nq@),
            out.len() == pending_indices(entries@.take(i as int), orig, nq@).len(),
            out.len() <= 64,
            forall|k: int|
                0 <= k < out.len() ==> {
                    let j = pending_indices(entries@.take(i as int), orig, nq@)[k];
                    &&& (#[trigger] out[k]).path == entries@[j].path
                    &&& out[k].size_px == size_px
                    &&& out[k].generation == generation
                },
            forall|j: int| i <= j < known.len() ==> #[trigger] known@[j] == orig[j],
            forall|j: int|
                0 <= j < i ==> #[trigger] known@[j] == (orig[j] || pending_indices(
                    entries@.take(i as int),
                    orig,
                    nq@,
                ).contains(j)),
        decreases entries.len() - i,
    {
        proof {
            assert(entries@.take(i + 1).drop_last() =~= entries@.take(i as int));
            assert(entries@.take(i + 1).last() == entries@[i as int]);
            assert(entries@.take(i + 1).len() - 1 == i);
            lemma_pending_bounds(entries@.take(i as int), orig, nq@);
        }
        let ghost before = out@;
        let ghost known_before = known@;
        let ghost p_old = pending_indices(entries@.take(i as int), orig, nq@);
        let ghost p_new = pending_indices(entries@.take(i + 1), orig, nq@);
        if !known[i] && name_passes(&entries[i].name, &nq) {
            let path = clone_path(&entries[i].path);
            out.push(IconRequest { path, size_px, generation });
            known.set(i, true);
            proof {
                assert(p_new == p_old.push(i as int));
                assert(p_new[p_new.len() - 1] == i);
            }
        } else {
            proof {
                assert(p_new == p_old);
            }
        }
        proof {
            assert forall|k: int| 0 <= k < out.len() implies {
                let j = p_new[k];
                &&& (#[trigger] out[k]).path == entries@[j].path
                &&& out[k].size_px == size_px
                &&& out[k].generation == generation
            } by {
                if k < before.len() {
                    assert(out[k] == before[k]);
                    assert(p_new[k] == p_old[k]);
                }
            }
            assert forall|j: int| 0 <= j < i + 1 implies #[trigger] known@[j] == (orig[j]
                || p_new.contains(j)) by {
                if j < i {
                    assert(known@[j] == known_before[j]);
                    if p_old.contains(j) {
                        let w = choose|w: int| 0 <= w < p_old.len() && p_old[w] == j;
                        assert(p_new[w] == j);
                    }
                    if p_new.contains(j) {
                        let w = choose|w: int| 0 <= w < p_new.len() && p_new[w] == j;
                        if w < p_old.len() {
                            assert(p_old[w] == j);
                        }
                    }
                } else {
                    if p_new.contains(j) && p_new == p_old {
                        let w = choose|w: int| 0 <= w < p_new.len() && p_new[w] == j;
                        assert(p_old[w] < i);
                    }
                }
            }
        }
        i = i + 1;
    }
    proof {
        lemma_pending_prefix(entries@, orig, nq@, i as int);
        lemma_pending_bounds(entries@, orig, nq@);
        lemma_pending_bounds(entries@.take(i as int), orig, nq@);
        let part = pending_indices(entries@.take(i as int), orig, nq@);
        if i == entries.len() {
            assert(entries@.take(i as int) =~= entries@);
        }
        assert(all.take(part.len() as int) == part);
        assert(request_indices(entries@, orig, nq@) =~= part);
        assert forall|j: int| 0 <= j < known.len() implies #[trigger] known@[j] == marked(
            orig,
            part,
        )[j] by {
            if j >= i && part.contains(j) {
                let w = choose|w: int| 0 <= w < part.len() && part[w] == j;
                assert(part[w] < i);
            }
        }
        assert(known@ =~= marked(orig, part));
    }
    out
}

/// The generation after `g`, wrapping to 0 after the largest (as an atomic
/// counter's `fetch_add(1)` does).
pub open spec fn next_generation(g: u32) -> u32 {
    if g == u32::MAX {
        0
    } else {
        (g + 1) as u32
    }
}

fn bump_generation(g: u32) -> (r: u32)
    ensures
        r == next_generation(g),
{
    if g == u32::MAX {
        0
    } else {
        g + 1
    }
}

/// `n` entries, none of them requested.
pub open spec fn none_queued(n: nat) -> Seq<bool> {
    Seq::new(n, |j: int| false)
}

fn none_queued_vec(n: usize) -> (v: Vec<bool>)
    ensures
        v@ == none_queued(n as nat),
{
    let mut v: Vec<bool> = Vec::new();
    while v.len() < n
        invariant
            v.len() <= n,
            v@ == none_queued(v.len() as nat),
        decreases n - v.len(),
    {
        v.push(false);
        assert(v@ =~= none_queued(v.len() as nat));
    }
    v
}

/// What the icon loader keeps from one frame to the next: for each entry of
/// the listing shown, whether its icon has been requested (a texture or a
/// failure only ever answers a request of the same generation, so an entry
/// that has one was requested); the generation of the listing; and the
/// texture size last requested (0 before the first frame).
///
/// Requests are recorded by entry position, not as a set of paths: the
/// entries of one listing have distinct paths, so the two say the same, and
/// a position can be compared where a path cannot.
pub struct IconTracker {
    queued: Vec<bool>,
    generation: u32,
    last_size: i32,
}

impl IconTracker {
    /// For each entry, whether its icon has been requested.
    pub closed spec fn queued(self) -> Seq<bool> {
        self.queued@
    }

    /// The generation of the listing.
    pub closed spec fn generation(self) -> u32 {
        self.generation
    }

    /// The texture size last requested, 0 before the first frame.
    pub closed spec fn last_size(self) -> i32 {
        self.last_size
    }

    /// A tracker for a listing of `n` entries in generation `generation`,
    /// before the first frame.
    pub fn new(n: usize, generation: u32) -> (t: Self)
        ensures
            t.queued() == none_queued(n as nat),
            t.generation() == generation,
            t.last_size() == 0,
    {
        IconTracker { queued: none_queued_vec(n), generation, last_size: 0 }
    }

    /// The generation of the listing.
    pub fn current_generation(&self) -> (g: u32)
        ensures
            g == self.generation(),
    {
        self.generation
    }

    /// Number of entries tracked.
    pub fn entry_count(&self) -> (n: usize)
        ensures
            n == self.queued().len(),
    {
        self.queued.len()
    }

    /// A new listing of `n` entries: a new generation, nothing requested.
    pub fn rescan(&mut self, n: usize)
        ensures
            final(self).queued() == none_queued(n as nat),
            final(self).generation() == next_generation(old(self).generation()),
            final(self).last_size() == old(self).last_size(),
    {
        self.generation = bump_generation(self.generation);
        self.queued = none_queued_vec(n);
    }

    /// Starts a frame whose icons are `size_px` pixels.  After the first
    /// frame, a size other than the last one drops every request and starts
    /// a new generation, the images made so far no longer fitting.  Returns
    /// whether it did.
    pub fn begin_frame(&mut self, size_px: i32) -> (cleared: bool)
        ensures
            cleared == (old(self).last_size() != 0 && old(self).last_size() != size_px),
            final(self).last_size() == size_px,
            final(self).generation() == if cleared {
                next_generation(old(self).generation())
            } else {
                old(self).generation()
            },
            final(self).queued() == if cleared {
                none_queued(old(self).queued().len())
            } else {
                old(self).queued()
            },
    {
        let cleared = self.last_size != 0 && self.last_size != size_px;
        if cleared {
            self.generation = bump_generation(self.generation);
            self.queued = none_queued_vec(self.queued.len());
        }
        self.last_size = size_px;
        cleared
    }

    /// The icon requests of this frame for `entries` and the search text
    /// `query`, at the last size and in the current generation; each entry
    /// requested is recorded as queued.
    pub fn request_icons(&mut self, entries: &Vec<Entry>, query: &str) -> (r: Vec<IconRequest>)
        requires
            old(self).queued().len() == entries.len(),
        ensures
            planned(*old(self), *final(self), entries@, query@),
            r.len() == request_indices(
                entries@,
                old(self).queued(),
                normalized_query(query@),
            ).len(),
            forall|k: int|
                0 <= k < r.len() ==> {
                    let i = request_indices(entries@, old(self).queued(), normalized_query(query@))[k];
                    &&& (#[trigger] r[k]).path == entries@[i].path
                    &&& 0 <= i < entries.len()
                    &&& r[k].size_px == old(self).last_size()
                    &&& r[k].generation == old(self).generation()
                },
    {
        let size_px = self.last_size;
        let generation = self.generation;
        let r = plan_icon_requests(entries, &mut self.queued, query, size_px, generation);
        r
    }
}

/// `b` is what `request_icons` leaves of `a` for `entries` and the search
/// text `query`.
pub open spec fn planned(a: IconTracker, b: IconTracker, entries: Seq<Entry>, query: Seq<char>) -> bool {
    &&& b.generation() == a.generation()
    &&& b.last_size() == a.last_size()
    &&& b.queued() == marked(
        a.queued(),
        request_indices(entries, a.queued(), normalized_query(query)),
    )
}

proof fn lemma_planned_steps(
    ts: Seq<IconTracker>,
    entries: Seq<Entry>,
    queries: Seq<Seq<char>>,
    k: int,
)
    requires
        ts.len() == queries.len() + 1,
        ts[0].queued().len() == entries.len(),
        forall|j: int| 1 <= j < ts.len() ==> planned(ts[j - 1], #[trigger] ts[j], entries, queries[j - 1]),
        0 <= k < ts.len(),
    ensures
        ts[k].generation() == ts[0].generation(),
        ts[k].last_size() == ts[0].last_size(),
        ts[k].queued().len() == entries.len(),
    decreases k,
{
    if k > 0 {
        lemma_planned_steps(ts, entries, queries, k - 1);
        assert(planned(ts[k - 1], ts[k], entries, queries[k - 1]));
    }
}

proof fn lemma_queued_stays(
    ts: Seq<IconTracker>,
    entries: Seq<Entry>,
    queries: Seq<Seq<char>>,
    k: int,
    m: int,
    i: int,
)
    requires
        ts.len() == queries.len() + 1,
        ts[0].queued().len() == entries.len(),
        forall|j: int| 1 <= j < ts.len() ==> planned(ts[j - 1], #[trigger] ts[j], entries, queries[j - 1]),
        0 <= k <= m < ts.len(),
        0 <= i < entries.len(),
        ts[k].queued()[i],
    ensures
        ts[m].queued()[i],
    decreases m - k,
{
    if k < m {
        lemma_queued_stays(ts, entries, queries, k, m - 1, i);
        lemma_planned_steps(ts, entries, queries, m - 1);
        assert(planned(ts[m - 1], ts[m], entries, queries[m - 1]));
    }
}

/// Between two listings or size changes, over any number of frames, no
/// entry's icon is requested twice, so that no path is sent twice when the
/// entries' paths differ, and every request carries the same generation and
/// size.  `ts` holds the tracker before the first frame and after each;
/// `queries[k]` is the search text of frame `k`.
pub proof fn lemma_no_icon_requested_twice(
    ts: Seq<IconTracker>,
    entries: Seq<Entry>,
    queries: Seq<Seq<char>>,
)
    requires
        ts.len() == queries.len() + 1,
        ts[0].queued().len() == entries.len(),
        forall|j: int| 1 <= j < ts.len() ==> planned(ts[j - 1], #[trigger] ts[j], entries, queries[j - 1]),
    ensures
        forall|k: int|
            0 <= k < ts.len() ==> (#[trigger] ts[k]).generation() == ts[0].generation()
                && ts[k].last_size() == ts[0].last_size(),
        forall|k: int, l: int, p: int, q: int|
            0 <= k < l < queries.len() && 0 <= p < request_indices(
                entries,
                ts[k].queued(),
                normalized_query(queries[k]),
            ).len() && 0 <= q < request_indices(
                entries,
                ts[l].queued(),
                normalized_query(queries[l]),
            ).len() ==> #[trigger] request_indices(
                entries,
                ts[k].queued(),
                normalized_query(queries[k]),
            )[p] != #[trigger] request_indices(
                entries,
                ts[l].queued(),
                normalized_query(queries[l]),
            )[q],
        (forall|i: int, j: int|
            0 <= i < j < entries.len() ==> #[trigger] entries[i].path != #[trigger] entries[j].path)
            ==> forall|k: int, l: int, p: int, q: int|
            0 <= k < l < queries.len() && 0 <= p < request_indices(
                entries,
                ts[k].queued(),
                normalized_query(queries[k]),
            ).len() && 0 <= q < request_indices(
                entries,
                ts[l].queued(),
                normalized_query(queries[l]),
            ).len() ==> entries[#[trigger] request_indices(
                entries,
                ts[k].queued(),
                normalized_query(queries[k]),
            )[p]].path != entries[#[trigger] request_indices(
                entries,
                ts[l].queued(),
                normalized_query(queries[l]),
            )[q]].path,
{
    assert forall|k: int| 0 <= k < ts.len() implies (#[trigger] ts[k]).generation()
        == ts[0].generation() && ts[k].last_size() == ts[0].last_size() by {
        lemma_planned_steps(ts, entries, queries, k);
    }
    assert forall|k: int, l: int, p: int, q: int|
        0 <= k < l < queries.len() && 0 <= p < request_indices(
            entries,
            ts[k].queued(),
            normalized_query(queries[k]),
        ).len() && 0 <= q < request_indices(
            entries,
            ts[l].queued(),
            normalized_query(queries[l]),
        ).len() implies #[trigger] request_indices(
        entries,
        ts[k].queued(),
        normalized_query(queries[k]),
    )[p] != #[trigger] request_indices(entries, ts[l].queued(), normalized_query(queries[l]))[q] by {
        let rk = request_indices(entries, ts[k].queued(), normalized_query(queries[k]));
        let rl = request_indices(entries, ts[l].queued(), normalized_query(queries[l]));
        lemma_planned_steps(ts, entries, queries, k);
        lemma_planned_steps(ts, entries, queries, l);
        lemma_requests_new_and_distinct(entries, ts[k].queued(), normalized_query(queries[k]));
        lemma_requests_new_and_distinct(entries, ts[l].queued(), normalized_query(queries[l]));
        let i = rk[p];
        assert(0 <= i < entries.len());
        assert(planned(ts[k], ts[k + 1], entries, queries[k]));
        assert(rk.contains(i));
        assert(ts[k + 1].queued()[i]);
        lemma_queued_stays(ts, entries, queries, k + 1, l, i);
        assert(!ts[l].queued()[rl[q]]);
    }
    if forall|i: int, j: int|
        0 <= i < j < entries.len() ==> #[trigger] entries[i].path != #[trigger] entries[j].path {
        assert forall|k: int, l: int, p: int, q: int|
            0 <= k < l < queries.len() && 0 <= p < request_indices(
                entries,
                ts[k].queued(),
                normalized_query(queries[k]),
            ).len() && 0 <= q < request_indices(
                entries,
                ts[l].queued(),
                normalized_query(queries[l]),
            ).len() implies entries[#[trigger] request_indices(
            entries,
            ts[k].queued(),
            normalized_query(queries[k]),
        )[p]].path != entries[#[trigger] request_indices(
            entries,
            ts[l].queued(),
            normalized_query(queries[l]),
        )[q]].path by {
            let rk = request_indices(entries, ts[k].queued(), normalized_query(queries[k]));
            let rl = request_indices(entries, ts[l].queued(), normalized_query(queries[l]));
            lemma_planned_steps(ts, entries, queries, k);
            lemma_planned_steps(ts, entries, queries, l);
            lemma_requests_new_and_distinct(entries, ts[k].queued(), normalized_query(queries[k]));
            lemma_requests_new_and_distinct(entries, ts[l].queued(), normalized_query(queries[l]));
            let a = rk[p];
            let b = rl[q];
            assert(a != b);
            if a < b {
                assert(entries[a].path != entries[b].path);
            } else {
                assert(entries[b].path != entries[a].path);
            }
        }
    }
}

/// What to do with an icon worker's answer.
#[derive(Clone, Copy, Debug, PartialEq, Eq, Structural)]
pub enum IconOutcome {
    /// Make a texture of the image.
    Texture,
    /// Record that the entry has no icon.
    Failed,
    /// Drop it: it answers a request of an older listing.
    Stale,
}

/// What to do with an answer of generation `answered` carrying an image or
/// not, the listing being at generation `current`.
pub fn icon_outcome(answered: u32, current: u32, has_image: bool) -> (o: IconOutcome)
    ensures
        o == (if answered != current {
            IconOutcome::Stale
        } else if has_image {
            IconOutcome::Texture
        } else {
            IconOutcome::Failed
        }),
{
    if answered != current {
        IconOutcome::Stale
    } else if has_image {
        IconOutcome::Texture
    } else {
        IconOutcome::Failed
    }
}


/// The search finds its text anywhere in a name, ignoring case: a blank
/// search passes every name, and a name whose lower-case form has the
/// search text at position `i`, whatever `i`, passes.
pub proof fn lemma_search_finds_text_anywhere(name: Seq<char>, nq: Seq<char>, i: int)
    ensures
        nq.len() == 0 ==> name_matches(name, nq),
        0 <= i && i + nq.len() <= spec_to_lowercase(name).len() && (forall|j: int|
            0 <= j < nq.len() ==> #[trigger] spec_to_lowercase(name)[i + j] == nq[j])
            ==> name_matches(name, nq),
{
    let low = spec_to_lowercase(name);
    if 0 <= i && i + nq.len() <= low.len() && (forall|j: int|
        0 <= j < nq.len() ==> #[trigger] low[i + j] == nq[j]) {
        assert forall|j: int| 0 <= j < nq.len() implies low.subrange(i, i + nq.len())[j]
            == nq[j] by {
            assert(low[i + j] == nq[j]);
        }
        assert(low.subrange(i, i + nq.len()) =~= nq);
        assert(contains_seq(low, nq));
    }
}

/// A name that passes a non-blank search has the search text at some
/// position `p` of its lower-case form.
pub proof fn lemma_search_match_position(name: Seq<char>, nq: Seq<char>) -> (p: int)
    requires
        name_matches(name, nq),
        nq.len() > 0,
    ensures
        0 <= p,
        p + nq.len() <= spec_to_lowercase(name).len(),
        forall|j: int| 0 <= j < nq.len() ==> #[trigger] spec_to_lowercase(name)[p + j] == nq[j],
{
    let low = spec_to_lowercase(name);
    let p = choose|p: int|
        0 <= p <= low.len() - nq.len() && #[trigger] low.subrange(p, p + nq.len()) == nq;
    assert forall|j: int| 0 <= j < nq.len() implies #[trigger] low[p + j] == nq[j] by {
        assert(low.subrange(p, p + nq.len())[j] == low[p + j]);
    }
    p
}

} // verus!
