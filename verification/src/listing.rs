//! Folder listings: the order in which a folder's items are shown, which of
//! them are shown, and which sub-folders are zones.

use std::path::PathBuf;
use vstd::prelude::*;

verus! {

#[verifier::external_type_specification]
#[verifier::external_body]
pub struct ExPathBuf(PathBuf);

/// A copy of the path `p` (`PathBuf::clone`).
#[verifier::external_body]
pub(crate) fn clone_path(p: &PathBuf) -> (r: PathBuf)
    ensures
        r == *p,
{
    p.clone()
}

/// A file or folder shown in a zone.
pub struct Entry {
    /// Full path of the file or folder.
    pub path: PathBuf,
    /// Name shown for it.
    pub name: String,
    /// Whether it is a folder.
    pub is_dir: bool,
}

/// A request, handed to an icon worker, for the icon of one entry.
pub struct IconRequest {
    /// Full path of the entry whose icon is wanted.
    pub path: PathBuf,
    /// Size (square) of the wanted image, in pixels.
    pub size_px: i32,
    /// Generation of the listing the request belongs to; a worker skips
    /// requests of an older generation.
    pub generation: u32,
}

/// One item of a folder as the file system lists it.
pub struct DirItem {
    /// Full path of the item.
    pub path: PathBuf,
    /// The item's file name in the platform's own encoding; items are ordered by it.
    pub file_name: Vec<u8>,
    /// The item's file name as text, invalid sequences replaced.
    pub name: String,
    /// Whether the file name is valid Unicode.
    pub name_is_unicode: bool,
    /// Whether the item is a folder.
    pub is_dir: bool,
}

/// Lexicographic order of byte strings, which is how file names compare.
pub open spec fn bytes_lt(a: Seq<u8>, b: Seq<u8>) -> bool
    decreases a.len(),
{
    if a.len() == 0 {
        b.len() > 0
    } else if b.len() == 0 {
        false
    } else if a[0] != b[0] {
        a[0] < b[0]
    } else {
        bytes_lt(a.drop_first(), b.drop_first())
    }
}

pub proof fn lemma_bytes_lt_irreflexive(a: Seq<u8>)
    ensures
        !bytes_lt(a, a),
    decreases a.len(),
{
    if a.len() > 0 {
        lemma_bytes_lt_irreflexive(a.drop_first());
    }
}

pub proof fn lemma_bytes_lt_transitive(a: Seq<u8>, b: Seq<u8>, c: Seq<u8>)
    requires
        bytes_lt(a, b),
        bytes_lt(b, c),
    ensures
        bytes_lt(a, c),
    decreases a.len(),
{
    if a.len() > 0 && b.len() > 0 && c.len() > 0 && a[0] == b[0] && b[0] == c[0] {
        lemma_bytes_lt_transitive(a.drop_first(), b.drop_first(), c.drop_first());
    }
}

pub proof fn lemma_bytes_lt_total(a: Seq<u8>, b: Seq<u8>)
    requires
        !bytes_lt(a, b),
        !bytes_lt(b, a),
    ensures
        a == b,
    decreases a.len(),
{
    if a.len() > 0 && b.len() > 0 {
        lemma_bytes_lt_total(a.drop_first(), b.drop_first());
        assert(a =~= seq![a[0]] + a.drop_first());
        assert(b =~= seq![b[0]] + b.drop_first());
    } else {
        assert(a =~= b);
    }
}

/// Whether `a` comes before `b` in byte order.
pub fn bytes_less(a: &Vec<u8>, b: &Vec<u8>) -> (r: bool)
    ensures
        r == bytes_lt(a@, b@),
{
    let mut i: usize = 0;
    assert(a@.skip(0) =~= a@);
    assert(b@.skip(0) =~= b@);
    while i < a.len() && i < b.len() && a[i] == b[i]
        invariant
            0 <= i <= a.len(),
            i <= b.len(),
            bytes_lt(a@, b@) == bytes_lt(a@.skip(i as int), b@.skip(i as int)),
        decreases a.len() - i,
    {
        assert(a@.skip(i as int).drop_first() =~= a@.skip(i + 1));
        assert(b@.skip(i as int).drop_first() =~= b@.skip(i + 1));
        i = i + 1;
    }
    if i == a.len() {
        i < b.len()
    } else if i == b.len() {
        false
    } else {
        assert(a@.skip(i as int)[0] == a@[i as int]);
        assert(b@.skip(i as int)[0] == b@[i as int]);
        a[i] < b[i]
    }
}

/// `x` is listed strictly before `y`: folders before files, then by file name.
pub open spec fn listed_before(x: DirItem, y: DirItem) -> bool {
    ||| x.is_dir && !y.is_dir
    ||| x.is_dir == y.is_dir && bytes_lt(x.file_name@, y.file_name@)
}

/// `x` and `y` have the same place in the order.
pub open spec fn same_rank(x: DirItem, y: DirItem) -> bool {
    x.is_dir == y.is_dir && x.file_name@ == y.file_name@
}

fn listed_before_exec(x: &DirItem, y: &DirItem) -> (r: bool)
    ensures
        r == listed_before(*x, *y),
{
    if x.is_dir != y.is_dir {
        x.is_dir
    } else {
        bytes_less(&x.file_name, &y.file_name)
    }
}

/// Where `x` goes in the ordered sequence `r`: after every item not listed after it.
pub open spec fn insert_pos(r: Seq<DirItem>, x: DirItem) -> int
    decreases r.len(),
{
    if r.len() == 0 {
        0
    } else if !listed_before(x, r.last()) {
        r.len() as int
    } else {
        insert_pos(r.drop_last(), x)
    }
}

/// The items in listing order, items of the same rank keeping their order
/// (what a stable sort by `listed_before` gives).
pub open spec fn listing_order(s: Seq<DirItem>) -> Seq<DirItem>
    decreases s.len(),
{
    if s.len() == 0 {
        s
    } else {
        let r = listing_order(s.drop_last());
        r.insert(insert_pos(r, s.last()), s.last())
    }
}

proof fn lemma_insert_pos_bounds(r: Seq<DirItem>, x: DirItem)
    ensures
        0 <= insert_pos(r, x) <= r.len(),
        forall|i: int| insert_pos(r, x) <= i < r.len() ==> listed_before(x, #[trigger] r[i]),
    decreases r.len(),
{
    if r.len() > 0 && listed_before(x, r.last()) {
        lemma_insert_pos_bounds(r.drop_last(), x);
        assert forall|i: int| insert_pos(r, x) <= i < r.len() implies listed_before(
            x,
            #[trigger] r[i],
        ) by {
            if i < r.len() - 1 {
                assert(r[i] == r.drop_last()[i]);
            }
        }
    }
}

/// The items in `items`, in listing order.
fn listing_sort(items: Vec<DirItem>) -> (r: Vec<DirItem>)
    ensures
        r@ == listing_order(items@),
{
    let ghost orig = items@;
    assert(orig.len() == items.len());
    let mut rest = items;
    let mut out: Vec<DirItem> = Vec::new();
    let mut k: usize = 0;
    proof {
        assert(orig.take(0) =~= Seq::<DirItem>::empty());
        assert(orig.skip(0) =~= orig);
    }
    while rest.len() > 0
        invariant
            k + rest.len() == orig.len(),
            orig.len() <= usize::MAX,
            rest@ == orig.skip(k as int),
            out@ == listing_order(orig.take(k as int)),
        decreases rest.len(),
    {
        let x = rest.remove(0);
        proof {
            assert(orig.take(k + 1).drop_last() =~= orig.take(k as int));
            assert(orig.take(k + 1).last() == orig[k as int]);
            assert(rest@ =~= orig.skip(k + 1));
            lemma_insert_pos_bounds(out@, x);
        }
        let mut j = out.len();
        assert(out@.take(j as int) =~= out@);
        while j > 0 && listed_before_exec(&x, &out[j - 1])
            invariant
                0 <= j <= out.len(),
                insert_pos(out@, x) == insert_pos(out@.take(j as int), x),
            decreases j,
        {
            assert(out@.take(j as int).drop_last() =~= out@.take(j - 1));
            j = j - 1;
        }
        proof {
            if j > 0 {
                assert(out@.take(j as int).last() == out@[j - 1]);
            }
        }
        out.insert(j, x);
        k = k + 1;
    }
    proof {
        assert(orig.take(k as int) =~= orig);
    }
    out
}

/// Whether an item is hidden from a zone's listing: its name starts with `.`.
pub open spec fn is_hidden(d: DirItem) -> bool {
    d.name@.len() > 0 && d.name@[0] == '.'
}

/// The entry that shows an item.
pub open spec fn entry_of(d: DirItem) -> Entry {
    Entry { path: d.path, name: d.name, is_dir: d.is_dir }
}

/// The entries of a folder: its items in listing order, hidden ones left out.
pub open spec fn listed_entries(items: Seq<DirItem>) -> Seq<Entry> {
    listing_order(items).filter(|d: DirItem| !is_hidden(d)).map_values(|d: DirItem| entry_of(d))
}

fn starts_with_dot(s: &String) -> (b: bool)
    ensures
        b == (s@.len() > 0 && s@[0] == '.'),
{
    let mut it = s.chars();
    match it.next() {
        Some(c) => c == '.',
        None => false,
    }
}

/// The entries shown for a folder whose items are `items`.
pub fn list_entries(items: Vec<DirItem>) -> (r: Vec<Entry>)
    ensures
        r@ == listed_entries(items@),
{
    let sorted = listing_sort(items);
    let ghost ordered = sorted@;
    assert(ordered.len() == sorted.len());
    let ghost keep = |d: DirItem| !is_hidden(d);
    let ghost show = |d: DirItem| entry_of(d);
    let mut rest = sorted;
    let mut out: Vec<Entry> = Vec::new();
    let mut k: usize = 0;
    proof {
        assert(ordered.take(0) =~= Seq::<DirItem>::empty());
        reveal(Seq::filter);
        assert(ordered.take(0).filter(keep).map_values(show) =~= Seq::<Entry>::empty());
        assert(ordered.skip(0) =~= ordered);
    }
    while rest.len() > 0
        invariant
            k + rest.len() == ordered.len(),
            ordered.len() <= usize::MAX,
            rest@ == ordered.skip(k as int),
            out@ == ordered.take(k as int).filter(keep).map_values(show),
            keep == (|d: DirItem| !is_hidden(d)),
            show == (|d: DirItem| entry_of(d)),
        decreases rest.len(),
    {
        let d = rest.remove(0);
        proof {
            assert(ordered.take(k + 1).drop_last() =~= ordered.take(k as int));
            assert(ordered.take(k + 1).last() == d);
            assert(rest@ =~= ordered.skip(k + 1));
            reveal(Seq::filter);
        }
        let hidden = starts_with_dot(&d.name);
        if !hidden {
            let ghost before = out@;
            out.push(Entry { path: d.path, name: d.name, is_dir: d.is_dir });
            proof {
                assert(ordered.take(k + 1).filter(keep) == ordered.take(k as int).filter(keep).push(d));
                assert(out@ =~= ordered.take(k + 1).filter(keep).map_values(show));
            }
        } else {
            proof {
                assert(ordered.take(k + 1).filter(keep) == ordered.take(k as int).filter(keep));
            }
        }
        k = k + 1;
    }
    proof {
        assert(ordered.take(k as int) =~= ordered);
    }
    out
}


/// Whether an item is a zone: a folder, unless its name is valid Unicode
/// and starts with `.`.
pub open spec fn is_zone(d: DirItem) -> bool {
    d.is_dir && !(d.name_is_unicode && is_hidden(d))
}

/// The zones among a folder's items, ordered by file name.
pub open spec fn zone_paths(items: Seq<DirItem>) -> Seq<PathBuf> {
    listing_order(items.filter(|d: DirItem| is_zone(d))).map_values(|d: DirItem| d.path)
}

/// The paths of the zones among `items`, in order.
pub fn zone_dirs(items: Vec<DirItem>) -> (r: Vec<PathBuf>)
    ensures
        r@ == zone_paths(items@),
{
    let ghost orig = items@;
    let ghost keep = |d: DirItem| is_zone(d);
    assert(orig.len() == items.len());
    let mut rest = items;
    let mut zones: Vec<DirItem> = Vec::new();
    let mut k: usize = 0;
    proof {
        assert(orig.take(0) =~= Seq::<DirItem>::empty());
        reveal(Seq::filter);
        assert(orig.take(0).filter(keep) =~= Seq::<DirItem>::empty());
        assert(orig.skip(0) =~= orig);
    }
    while rest.len() > 0
        invariant
            k + rest.len() == orig.len(),
            orig.len() <= usize::MAX,
            rest@ == orig.skip(k as int),
            zones@ == orig.take(k as int).filter(keep),
            keep == (|d: DirItem| is_zone(d)),
        decreases rest.len(),
    {
        let d = rest.remove(0);
        proof {
            assert(orig.take(k + 1).drop_last() =~= orig.take(k as int));
            assert(orig.take(k + 1).last() == d);
            assert(rest@ =~= orig.skip(k + 1));
            reveal(Seq::filter);
        }
        let zone = d.is_dir && !(d.name_is_unicode && starts_with_dot(&d.name));
        if zone {
            zones.push(d);
        }
        k = k + 1;
    }
    proof {
        assert(orig.take(k as int) =~= orig);
    }
    let sorted = listing_sort(zones);
    let ghost ordered = sorted@;
    assert(ordered.len() == sorted.len());
    let mut rest = sorted;
    let mut out: Vec<PathBuf> = Vec::new();
    let mut k: usize = 0;
    proof {
        assert(ordered.skip(0) =~= ordered);
        assert(ordered.take(0).map_values(|d: DirItem| d.path) =~= Seq::<PathBuf>::empty());
    }
    while rest.len() > 0
        invariant
            k + rest.len() == ordered.len(),
            ordered.len() <= usize::MAX,
            rest@ == ordered.skip(k as int),
            out@ == ordered.take(k as int).map_values(|d: DirItem| d.path),
        decreases rest.len(),
    {
        let d = rest.remove(0);
        proof {
            assert(rest@ =~= ordered.skip(k + 1));
            assert(ordered[k as int] == d);
        }
        out.push(d.path);
        proof {
            assert(out@ =~= ordered.take(k + 1).map_values(|d: DirItem| d.path));
        }
        k = k + 1;
    }
    proof {
        assert(ordered.take(k as int) =~= ordered);
    }
    out
}


/// The items of the same rank as `y`.
pub open spec fn rank_of(y: DirItem) -> spec_fn(DirItem) -> bool {
    |x: DirItem| same_rank(x, y)
}

proof fn lemma_listed_before_order(a: DirItem, b: DirItem, c: DirItem)
    ensures
        !listed_before(a, a),
        listed_before(a, b) && listed_before(b, c) ==> listed_before(a, c),
        !listed_before(a, b) && !listed_before(b, a) ==> same_rank(a, b),
        same_rank(a, b) ==> (listed_before(c, a) == listed_before(c, b)) && (listed_before(a, c)
            == listed_before(b, c)),
{
    lemma_bytes_lt_irreflexive(a.file_name@);
    if listed_before(a, b) && listed_before(b, c) && a.is_dir == b.is_dir && b.is_dir == c.is_dir {
        lemma_bytes_lt_transitive(a.file_name@, b.file_name@, c.file_name@);
    }
    if !listed_before(a, b) && !listed_before(b, a) {
        lemma_bytes_lt_total(a.file_name@, b.file_name@);
    }
}

proof fn lemma_filter_none<A>(s: Seq<A>, pred: spec_fn(A) -> bool)
    requires
        forall|i: int| 0 <= i < s.len() ==> !pred(#[trigger] s[i]),
    ensures
        s.filter(pred) == Seq::<A>::empty(),
    decreases s.len(),
{
    reveal(Seq::filter);
    if s.len() > 0 {
        lemma_filter_none(s.drop_last(), pred);
    }
    assert(s.filter(pred) =~= Seq::<A>::empty());
}

/// Listing order is a stable sort of the items: no item is listed after one
/// that it comes before, and the items of each rank (folder or not, file
/// name) keep the order in which they were given — so the listing holds the
/// given items, each as often as given.
pub proof fn lemma_listing_order_is_stable_sort(s: Seq<DirItem>)
    ensures
        listing_order(s).len() == s.len(),
        forall|i: int, j: int|
            0 <= i < j < s.len() ==> !listed_before(
                #[trigger] listing_order(s)[j],
                #[trigger] listing_order(s)[i],
            ),
        forall|y: DirItem| #[trigger] listing_order(s).filter(rank_of(y)) == s.filter(rank_of(y)),
    decreases s.len(),
{
    if s.len() > 0 {
        let r = listing_order(s.drop_last());
        let x = s.last();
        lemma_listing_order_is_stable_sort(s.drop_last());
        lemma_insert_pos_bounds(r, x);
        let p = insert_pos(r, x);
        let out = r.insert(p, x);
        assert(out == listing_order(s));
        // Items before the insertion point are not listed after `x`.
        assert forall|i: int| 0 <= i < p implies !listed_before(x, #[trigger] r[i]) by {
            if p > 0 {
                assert(!listed_before(x, r[p - 1])) by {
                    lemma_insert_pos_last(r, x);
                }
                if i < p - 1 {
                    lemma_listed_before_order(r[i], r[p - 1], x);
                    lemma_listed_before_order(x, r[i], r[p - 1]);
                    lemma_listed_before_order(r[p - 1], r[i], x);
                    lemma_listed_before_order(r[i], r[p - 1], r[i]);
                }
            }
        }
        assert forall|i: int, j: int| 0 <= i < j < s.len() implies !listed_before(
            #[trigger] out[j],
            #[trigger] out[i],
        ) by {
            if j < p {
                assert(out[i] == r[i] && out[j] == r[j]);
            } else if j == p {
                assert(out[i] == r[i] && out[j] == x);
            } else if i == p {
                assert(out[i] == x && out[j] == r[j - 1]);
                lemma_listed_before_order(x, r[j - 1], x);
            } else if i < p {
                assert(out[i] == r[i] && out[j] == r[j - 1]);
            } else {
                assert(out[i] == r[i - 1] && out[j] == r[j - 1]);
            }
        }
        assert forall|y: DirItem| #[trigger] out.filter(rank_of(y)) == s.filter(rank_of(y)) by {
            let pred = rank_of(y);
            let front = r.take(p);
            let back = r.skip(p);
            assert(r =~= front + back);
            assert(out =~= front + seq![x] + back);
            Seq::filter_distributes_over_add(front, back, pred);
            Seq::filter_distributes_over_add(front + seq![x], back, pred);
            Seq::filter_distributes_over_add(front, seq![x], pred);
            reveal(Seq::filter);
            assert(s.drop_last().push(x) =~= s);
            assert(seq![x].drop_last() =~= Seq::<DirItem>::empty());
            assert(Seq::<DirItem>::empty().filter(pred) =~= Seq::<DirItem>::empty());
            assert(seq![x].last() == x);
            if pred(x) {
                assert forall|i: int| 0 <= i < back.len() implies !pred(#[trigger] back[i]) by {
                    assert(back[i] == r[p + i]);
                    lemma_listed_before_order(x, back[i], x);
                    lemma_listed_before_order(back[i], y, x);
                    lemma_listed_before_order(back[i], x, y);
                }
                lemma_filter_none(back, pred);
                assert(seq![x].filter(pred) =~= seq![x]);
                assert(out.filter(pred) =~= r.filter(pred).push(x));
            } else {
                assert(seq![x].filter(pred) =~= Seq::<DirItem>::empty());
                assert(out.filter(pred) =~= r.filter(pred));
            }
        }
    }
}

proof fn lemma_insert_pos_last(r: Seq<DirItem>, x: DirItem)
    requires
        insert_pos(r, x) > 0,
    ensures
        !listed_before(x, r[insert_pos(r, x) - 1]),
        insert_pos(r, x) <= r.len(),
    decreases r.len(),
{
    if r.len() > 0 && listed_before(x, r.last()) {
        lemma_insert_pos_last(r.drop_last(), x);
        assert(r[insert_pos(r, x) - 1] == r.drop_last()[insert_pos(r, x) - 1]);
    }
}

/// No two items of `s` have the same rank (folder or not, file name); the
/// items of one folder never do, as no two share a name.
pub open spec fn distinct_ranks(s: Seq<DirItem>) -> bool {
    forall|i: int, j: int| 0 <= i < j < s.len() ==> !same_rank(#[trigger] s[i], #[trigger] s[j])
}

proof fn lemma_rank_filter_at_most_one(s: Seq<DirItem>, y: DirItem)
    requires
        distinct_ranks(s),
    ensures
        s.filter(rank_of(y)).len() <= 1,
    decreases s.len(),
{
    reveal(Seq::filter);
    if s.len() > 0 {
        let t = s.drop_last();
        let pred = rank_of(y);
        assert forall|i: int, j: int| 0 <= i < j < t.len() implies !same_rank(
            #[trigger] t[i],
            #[trigger] t[j],
        ) by {
            assert(t[i] == s[i] && t[j] == s[j]);
        }
        lemma_rank_filter_at_most_one(t, y);
        if pred(s.last()) {
            assert forall|i: int| 0 <= i < t.len() implies !pred(#[trigger] t[i]) by {
                assert(t[i] == s[i]);
                assert(!same_rank(s[i], s[s.len() - 1]));
            }
            lemma_filter_none(t, pred);
        }
    }
}

proof fn lemma_filter_two(s: Seq<DirItem>, pred: spec_fn(DirItem) -> bool, i: int, j: int)
    requires
        0 <= i < j < s.len(),
        pred(s[i]),
        pred(s[j]),
    ensures
        s.filter(pred).len() >= 2,
{
    let front = s.take(j);
    let back = s.skip(j);
    assert(s =~= front + back);
    Seq::filter_distributes_over_add(front, back, pred);
    assert(front[i] == s[i]);
    front.lemma_filter_contains(pred, i);
    assert(back[0] == s[j]);
    back.lemma_filter_contains(pred, 0);
}

proof fn lemma_listing_keeps_items(s: Seq<DirItem>)
    requires
        distinct_ranks(s),
    ensures
        forall|x: DirItem|
            #![trigger listing_order(s).contains(x)]
            #![trigger s.contains(x)]
            listing_order(s).contains(x) <==> s.contains(x),
        forall|i: int, j: int|
            0 <= i < j < listing_order(s).len() ==> listed_before(
                #[trigger] listing_order(s)[i],
                #[trigger] listing_order(s)[j],
            ),
{
    lemma_listing_order_is_stable_sort(s);
    let a = listing_order(s);
    assert forall|x: DirItem| #![trigger a.contains(x)] #![trigger s.contains(x)] a.contains(x)
        <==> s.contains(x) by {
        let p = rank_of(x);
        assert(a.filter(p) == s.filter(p));
        if a.contains(x) {
            let k = choose|k: int| 0 <= k < a.len() && a[k] == x;
            a.lemma_filter_contains(p, k);
            s.lemma_filter_contains_rev(p, x);
        }
        if s.contains(x) {
            let k = choose|k: int| 0 <= k < s.len() && s[k] == x;
            s.lemma_filter_contains(p, k);
            a.lemma_filter_contains_rev(p, x);
        }
    }
    assert forall|i: int, j: int| 0 <= i < j < a.len() implies listed_before(
        #[trigger] a[i],
        #[trigger] a[j],
    ) by {
        if same_rank(a[i], a[j]) {
            let y = a[i];
            lemma_filter_two(a, rank_of(y), i, j);
            lemma_rank_filter_at_most_one(s, y);
            assert(a.filter(rank_of(y)) == s.filter(rank_of(y)));
        }
        lemma_listed_before_order(a[i], a[j], a[i]);
    }
}

proof fn lemma_strictly_sorted_unique(a: Seq<DirItem>, b: Seq<DirItem>)
    requires
        forall|i: int, j: int| 0 <= i < j < a.len() ==> listed_before(#[trigger] a[i], #[trigger] a[j]),
        forall|i: int, j: int| 0 <= i < j < b.len() ==> listed_before(#[trigger] b[i], #[trigger] b[j]),
        forall|x: DirItem| #![trigger a.contains(x)] #![trigger b.contains(x)] a.contains(x) <==> b.contains(x),
    ensures
        a == b,
    decreases a.len() + b.len(),
{
    if a.len() == 0 {
        if b.len() > 0 {
            assert(b.contains(b[0]));
        }
        assert(a =~= b);
    } else if b.len() == 0 {
        assert(a.contains(a[0]));
    } else {
        let x = a.last();
        let y = b.last();
        assert(a.contains(a[a.len() - 1]));
        assert(b.contains(b[b.len() - 1]));
        let k = choose|k: int| 0 <= k < b.len() && b[k] == x;
        let m = choose|m: int| 0 <= m < a.len() && a[m] == y;
        if x != y {
            assert(listed_before(b[k], b[b.len() - 1]));
            assert(listed_before(a[m], a[a.len() - 1]));
            lemma_listed_before_order(x, y, x);
        }
        let a2 = a.drop_last();
        let b2 = b.drop_last();
        assert forall|z: DirItem| #![trigger a2.contains(z)] #![trigger b2.contains(z)] a2.contains(z)
            <==> b2.contains(z) by {
            if a2.contains(z) {
                let i = choose|i: int| 0 <= i < a2.len() && a2[i] == z;
                assert(a[i] == z);
                assert(listed_before(a[i], a[a.len() - 1]));
                lemma_listed_before_order(z, z, z);
                assert(a.contains(z));
                let j = choose|j: int| 0 <= j < b.len() && b[j] == z;
                assert(b2[j] == z);
            }
            if b2.contains(z) {
                let i = choose|i: int| 0 <= i < b2.len() && b2[i] == z;
                assert(b[i] == z);
                assert(listed_before(b[i], b[b.len() - 1]));
                lemma_listed_before_order(z, z, z);
                assert(b.contains(z));
                let j = choose|j: int| 0 <= j < a.len() && a[j] == z;
                assert(a2[j] == z);
            }
        }
        lemma_strictly_sorted_unique(a2, b2);
        assert(a =~= a2.push(x));
        assert(b =~= b2.push(y));
    }
}

proof fn lemma_filter_keeps_distinct_ranks(s: Seq<DirItem>, p: spec_fn(DirItem) -> bool)
    requires
        distinct_ranks(s),
    ensures
        distinct_ranks(s.filter(p)),
        forall|x: DirItem|
            #![trigger s.filter(p).contains(x)]
            #![trigger s.contains(x)]
            s.filter(p).contains(x) <==> s.contains(x) && p(x),
    decreases s.len(),
{
    reveal(Seq::filter);
    if s.len() > 0 {
        let t = s.drop_last();
        let x = s.last();
        assert forall|i: int, j: int| 0 <= i < j < t.len() implies !same_rank(
            #[trigger] t[i],
            #[trigger] t[j],
        ) by {
            assert(t[i] == s[i] && t[j] == s[j]);
        }
        lemma_filter_keeps_distinct_ranks(t, p);
        let g = t.filter(p);
        let f = s.filter(p);
        if p(x) {
            assert(f == g.push(x));
            assert forall|i: int, j: int| 0 <= i < j < f.len() implies !same_rank(
                #[trigger] f[i],
                #[trigger] f[j],
            ) by {
                assert(f[i] == g[i]);
                if j < g.len() {
                    assert(f[j] == g[j]);
                } else {
                    assert(g.contains(g[i]));
                    let k = choose|k: int| 0 <= k < t.len() && t[k] == g[i];
                    assert(t[k] == s[k]);
                    assert(!same_rank(s[k], s[s.len() - 1]));
                }
            }
        } else {
            assert(f == g);
        }
        assert forall|y: DirItem| #![trigger f.contains(y)] #![trigger s.contains(y)] f.contains(y)
            <==> s.contains(y) && p(y) by {
            if f.contains(y) {
                let k = choose|k: int| 0 <= k < f.len() && f[k] == y;
                if k < g.len() {
                    assert(g[k] == y);
                    assert(g.contains(y));
                    let m = choose|m: int| 0 <= m < t.len() && t[m] == y;
                    assert(s[m] == y);
                } else {
                    assert(s[s.len() - 1] == y);
                }
            }
            if s.contains(y) && p(y) {
                let k = choose|k: int| 0 <= k < s.len() && s[k] == y;
                if k < t.len() {
                    assert(t[k] == y);
                    assert(t.contains(y));
                    let m = choose|m: int| 0 <= m < g.len() && g[m] == y;
                    assert(f[m] == y);
                } else {
                    assert(f[f.len() - 1] == y);
                }
            }
        }
    }
}

/// The listing does not depend on the order in which the folder's items are
/// read: two readings of the same items, no two of the same rank, give the
/// same items in listing order, so the same entries, and the same zones.
pub proof fn lemma_listing_independent_of_read_order(s1: Seq<DirItem>, s2: Seq<DirItem>)
    requires
        distinct_ranks(s1),
        distinct_ranks(s2),
        forall|x: DirItem| #![trigger s1.contains(x)] #![trigger s2.contains(x)] s1.contains(x)
            <==> s2.contains(x),
    ensures
        listing_order(s1) == listing_order(s2),
        listed_entries(s1) == listed_entries(s2),
        zone_paths(s1) == zone_paths(s2),
{
    lemma_listing_keeps_items(s1);
    lemma_listing_keeps_items(s2);
    lemma_strictly_sorted_unique(listing_order(s1), listing_order(s2));
    let p = |d: DirItem| is_zone(d);
    let z1 = s1.filter(p);
    let z2 = s2.filter(p);
    lemma_filter_keeps_distinct_ranks(s1, p);
    lemma_filter_keeps_distinct_ranks(s2, p);
    assert forall|x: DirItem| #![trigger z1.contains(x)] #![trigger z2.contains(x)] z1.contains(x)
        <==> z2.contains(x) by {
        assert(z1.contains(x) <==> s1.contains(x) && p(x));
        assert(z2.contains(x) <==> s2.contains(x) && p(x));
    }
    lemma_listing_keeps_items(z1);
    lemma_listing_keeps_items(z2);
    lemma_strictly_sorted_unique(listing_order(z1), listing_order(z2));
}


/// File names are compared byte by byte, bytes as unsigned numbers: where
/// two names first differ, the one with the smaller byte comes first.
pub proof fn lemma_names_ordered_by_first_different_byte(a: Seq<u8>, b: Seq<u8>, i: int)
    requires
        0 <= i < a.len(),
        i < b.len(),
        a.take(i) == b.take(i),
        a[i] != b[i],
    ensures
        bytes_lt(a, b) <==> (a[i] as int) < (b[i] as int),
    decreases i,
{
    if i > 0 {
        assert(a[0] == a.take(i)[0]);
        assert(b[0] == b.take(i)[0]);
        assert(a.drop_first().take(i - 1) =~= a.take(i).drop_first());
        assert(b.drop_first().take(i - 1) =~= b.take(i).drop_first());
        lemma_names_ordered_by_first_different_byte(a.drop_first(), b.drop_first(), i - 1);
    }
}

/// A file name comes before every longer name that starts with it.
pub proof fn lemma_prefix_name_first(a: Seq<u8>, b: Seq<u8>)
    requires
        a.len() < b.len(),
        b.take(a.len() as int) == a,
    ensures
        bytes_lt(a, b),
        !bytes_lt(b, a),
    decreases a.len(),
{
    if a.len() > 0 {
        assert(b[0] == b.take(a.len() as int)[0]);
        assert(b.drop_first().take(a.drop_first().len() as int) =~= a.drop_first());
        lemma_prefix_name_first(a.drop_first(), b.drop_first());
    }
}

/// Folders come before files; among folders, and among files, the order is
/// that of the file names' bytes, as unsigned numbers, from the first byte
/// where they differ.
pub proof fn lemma_listed_before_by_kind_then_bytes(x: DirItem, y: DirItem, i: int)
    ensures
        x.is_dir && !y.is_dir ==> listed_before(x, y) && !listed_before(y, x),
        x.is_dir == y.is_dir && 0 <= i < x.file_name@.len() && i < y.file_name@.len()
            && x.file_name@.take(i) == y.file_name@.take(i) && x.file_name@[i] != y.file_name@[i]
            ==> (listed_before(x, y) <==> (x.file_name@[i] as int) < (y.file_name@[i] as int)),
{
    if x.is_dir == y.is_dir && 0 <= i < x.file_name@.len() && i < y.file_name@.len()
        && x.file_name@.take(i) == y.file_name@.take(i) && x.file_name@[i] != y.file_name@[i] {
        lemma_names_ordered_by_first_different_byte(x.file_name@, y.file_name@, i);
    }
}

} // verus!
