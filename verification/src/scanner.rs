//! What a scan finds: the reclaimable directories, how they are chosen during the walk,
//! and their order (largest first).

use std::path::PathBuf;

use vstd::prelude::*;

use crate::targets::{find_dir, match_dir, table, Target};

verus! {

/// A filesystem path; the library only carries it from the walk to the report.
#[verifier::external_type_specification]
#[verifier::external_body]
pub struct ExPathBuf(PathBuf);

/// `PathBuf::clone` (std): the copy holds the same path as the value it was made from, so it
/// equals it.
/// `cli::resolve_path` copies the given path with it, and the `Clone` that `Hit` derives
/// reaches it through the `path` field.
pub assume_specification[ <PathBuf as Clone>::clone ](p: &PathBuf) -> (r: PathBuf)
    ensures
        r == *p,
;

/// One reclaimable directory found on disk.
#[derive(Debug, Clone)]
pub struct Hit {
    pub path: PathBuf,
    pub kind: &'static str,
    pub size: u64,
    /// Whether the user has marked it for deletion.
    pub picked: bool,
}

/// The outcome of a scan: the hits plus a few stats for the UI.
#[derive(Debug)]
pub struct Scan {
    /// Reclaimable directories, sorted largest first.
    pub hits: Vec<Hit>,
    /// How many directories were walked while searching.
    pub dirs_scanned: usize,
}

/// The sum of the sizes of `hits`.
pub open spec fn total(hits: Seq<Hit>) -> nat
    decreases hits.len(),
{
    if hits.len() == 0 {
        0
    } else {
        total(hits.drop_last()) + hits.last().size as nat
    }
}

/// Whether a hit is picked for deletion.
pub open spec fn is_picked() -> spec_fn(Hit) -> bool {
    |h: Hit| h.picked
}

/// Whether a hit has size `k`.
pub open spec fn size_is(k: u64) -> spec_fn(Hit) -> bool {
    |h: Hit| h.size == k
}

/// Sizes never grow from front to back.
pub open spec fn largest_first(hits: Seq<Hit>) -> bool {
    forall|a: int, b: int| 0 <= a < b < hits.len() ==> #[trigger] hits[a].size >= #[trigger] hits[b].size
}

/// `sorted` is `hits` ordered by size, largest first, with hits of equal size kept in the
/// order they had: it is sorted, and for every size it holds the hits of that size in the
/// order `hits` holds them.
pub open spec fn stable_largest_first(hits: Seq<Hit>, sorted: Seq<Hit>) -> bool {
    &&& largest_first(sorted)
    &&& forall|k: u64| #[trigger] sorted.filter(size_is(k)) == hits.filter(size_is(k))
}

/// Total bytes across `hits`.
pub fn total_size_of(hits: &[Hit]) -> (t: u64)
    requires
        total(hits@) <= u64::MAX,
    ensures
        t == total(hits@),
{
    let n = hits.len();
    let mut t: u64 = 0;
    let mut i: usize = 0;
    while i < n
        invariant
            n == hits@.len(),
            i <= n,
            t == total(hits@.take(i as int)),
            total(hits@) <= u64::MAX,
        decreases n - i,
    {
        proof {
            assert(hits@.take(i + 1).drop_last() =~= hits@.take(i as int));
            lemma_total_prefix(hits@, i + 1);
        }
        t = t + hits[i].size;
        i = i + 1;
    }
    proof {
        assert(hits@.take(n as int) =~= hits@);
    }
    t
}

/// Whether the sizes of `hits` add up to a number that fits in 64 bits.
pub fn sizes_fit(hits: &[Hit]) -> (r: bool)
    ensures
        r == (total(hits@) <= u64::MAX),
{
    let n = hits.len();
    let mut t: u64 = 0;
    let mut i: usize = 0;
    while i < n
        invariant
            n == hits@.len(),
            i <= n,
            t == total(hits@.take(i as int)),
        decreases n - i,
    {
        proof {
            assert(hits@.take(i + 1).drop_last() =~= hits@.take(i as int));
        }
        match t.checked_add(hits[i].size) {
            Some(u) => t = u,
            None => {
                proof {
                    lemma_total_prefix(hits@, i + 1);
                }
                return false;
            },
        }
        i = i + 1;
    }
    proof {
        assert(hits@.take(n as int) =~= hits@);
    }
    true
}

impl Scan {
    /// Total bytes across every hit found.
    pub fn total_size(&self) -> (t: u64)
        requires
            total(self.hits@) <= u64::MAX,
        ensures
            t == total(self.hits@),
    {
        total_size_of(self.hits.as_slice())
    }
}

/// The hits kept by any filter never add up to more than all of them.
pub proof fn lemma_filtered_total_le(hits: Seq<Hit>, p: spec_fn(Hit) -> bool)
    ensures
        total(hits.filter(p)) <= total(hits),
    decreases hits.len(),
{
    if hits.len() > 0 {
        let pre = hits.drop_last();
        lemma_filtered_total_le(pre, p);
        assert(pre.push(hits.last()) =~= hits);
        pre.lemma_filter_push(hits.last(), p);
        if p(hits.last()) {
            assert(hits.filter(p).drop_last() =~= pre.filter(p));
        }
    }
}

/// The total of a prefix never exceeds the total of the whole.
pub proof fn lemma_total_prefix(hits: Seq<Hit>, i: int)
    requires
        0 <= i <= hits.len(),
    ensures
        total(hits.take(i)) <= total(hits),
    decreases hits.len(),
{
    if i < hits.len() {
        assert(hits.drop_last().take(i) =~= hits.take(i));
        lemma_total_prefix(hits.drop_last(), i);
    } else {
        assert(hits.take(i) =~= hits);
    }
}

proof fn lemma_filter_insert(s: Seq<Hit>, j: int, x: Hit, k: u64)
    requires
        0 <= j <= s.len(),
        forall|a: int| 0 <= a < j ==> #[trigger] s[a].size > x.size,
    ensures
        s.insert(j, x).filter(size_is(k)) == if x.size == k {
            seq![x] + s.filter(size_is(k))
        } else {
            s.filter(size_is(k))
        },
{
    let p = size_is(k);
    let front = s.take(j);
    let back = s.skip(j);
    assert(s.insert(j, x) =~= front + seq![x] + back);
    assert(s =~= front + back);
    Seq::filter_distributes_over_add(front + seq![x], back, p);
    Seq::filter_distributes_over_add(front, seq![x], p);
    Seq::filter_distributes_over_add(front, back, p);
    reveal_with_fuel(Seq::filter, 2);
    assert(seq![x].drop_last() =~= Seq::<Hit>::empty());
    if x.size == k {
        assert forall|a: int| 0 <= a < front.len() implies !p(#[trigger] front[a]) by {
            assert(front[a] == s[a]);
        }
        front.lemma_all_neg_filter_empty(p);
        assert(seq![x].filter(p) =~= seq![x]);
        assert(front.filter(p) + seq![x] + back.filter(p) =~= seq![x] + back.filter(p));
        assert(front.filter(p) + back.filter(p) =~= back.filter(p));
    } else {
        assert(seq![x].filter(p) =~= Seq::<Hit>::empty());
        assert(front.filter(p) + Seq::<Hit>::empty() =~= front.filter(p));
    }
}

/// Puts `x` into `out`, which is largest first, after every hit strictly larger than it and
/// before every other one.
fn insert_by_size(out: &mut Vec<Hit>, x: Hit)
    requires
        largest_first(old(out)@),
    ensures
        largest_first(final(out)@),
        forall|k: u64| #[trigger] final(out)@.filter(size_is(k)) == if x.size == k {
            seq![x] + old(out)@.filter(size_is(k))
        } else {
            old(out)@.filter(size_is(k))
        },
{
    let n = out.len();
    let mut j: usize = 0;
    while j < n && out[j].size > x.size
        invariant
            n == out@.len(),
            j <= n,
            forall|a: int| 0 <= a < j ==> #[trigger] out@[a].size > x.size,
        decreases n - j,
    {
        j = j + 1;
    }
    let ghost before = out@;
    out.insert(j, x);
    proof {
        assert forall|a: int, b: int| 0 <= a < b < out@.len() implies #[trigger] out@[a].size >= #[trigger] out@[b].size by {
            if b < j {
                assert(out@[a] == before[a] && out@[b] == before[b]);
            } else if b == j {
                assert(out@[a] == before[a]);
            } else if a < j {
                assert(out@[a] == before[a] && out@[b] == before[b - 1]);
            } else if a == j {
                assert(out@[b] == before[b - 1]);
                if j < n {
                    assert(before[j as int].size <= x.size);
                    if b - 1 > j {
                        assert(before[j as int].size >= before[b - 1].size);
                    }
                }
            } else {
                assert(out@[a] == before[a - 1] && out@[b] == before[b - 1]);
            }
        }
        assert forall|k: u64| #[trigger] out@.filter(size_is(k)) == if x.size == k {
            seq![x] + before.filter(size_is(k))
        } else {
            before.filter(size_is(k))
        } by {
            lemma_filter_insert(before, j as int, x, k);
        }
    }
}

/// Orders hits by size, largest first; hits of equal size keep their order.
pub fn sort_largest_first(hits: Vec<Hit>) -> (sorted: Vec<Hit>)
    ensures
        stable_largest_first(hits@, sorted@),
{
    let mut rest = hits;
    let mut out: Vec<Hit> = Vec::new();
    proof {
        assert forall|k: u64| #[trigger] out@.filter(size_is(k)) == hits@.skip(hits@.len() as int).filter(size_is(k)) by {
            reveal_with_fuel(Seq::filter, 1);
            assert(out@ =~= Seq::<Hit>::empty());
            assert(hits@.skip(hits@.len() as int) =~= Seq::<Hit>::empty());
        }
    }
    while rest.len() > 0
        invariant
            rest@ == hits@.take(rest@.len() as int),
            rest@.len() <= hits@.len(),
            largest_first(out@),
            forall|k: u64| #[trigger] out@.filter(size_is(k)) == hits@.skip(rest@.len() as int).filter(size_is(k)),
        decreases rest@.len(),
    {
        let ghost i = rest@.len() - 1;
        let ghost prev = out@;
        let x = rest.pop().unwrap();
        proof {
            assert(rest@ =~= hits@.take(i));
            assert(x == hits@[i]);
        }
        insert_by_size(&mut out, x);
        proof {
            assert(hits@.skip(i) =~= seq![x] + hits@.skip(i + 1));
            assert forall|k: u64| #[trigger] out@.filter(size_is(k)) == hits@.skip(i).filter(size_is(k)) by {
                Seq::filter_distributes_over_add(seq![x], hits@.skip(i + 1), size_is(k));
                reveal_with_fuel(Seq::filter, 2);
                assert(seq![x].drop_last() =~= Seq::<Hit>::empty());
                if x.size == k {
                    assert(seq![x].filter(size_is(k)) =~= seq![x]);
                } else {
                    assert(seq![x].filter(size_is(k)) =~= Seq::<Hit>::empty());
                    assert(Seq::<Hit>::empty() + hits@.skip(i + 1).filter(size_is(k)) =~= hits@.skip(i + 1).filter(size_is(k)));
                }
            }
        }
    }
    proof {
        assert(hits@.skip(0) =~= hits@);
    }
    out
}

proof fn lemma_count_in_filter(s: Seq<Hit>, x: Hit)
    ensures
        s.to_multiset().count(x) == s.filter(size_is(x.size)).to_multiset().count(x),
    decreases s.len(),
{
    broadcast use vstd::multiset::group_multiset_axioms;
    if s.len() == 0 {
        reveal_with_fuel(Seq::filter, 1);
        assert(s.to_multiset() =~= vstd::multiset::Multiset::<Hit>::empty()) by {
            s.to_multiset_ensures();
        }
        assert(s.filter(size_is(x.size)) =~= s);
    } else {
        let pre = s.drop_last();
        lemma_count_in_filter(pre, x);
        assert(pre.push(s.last()) =~= s);
        pre.lemma_filter_push(s.last(), size_is(x.size));
        vstd::seq_lib::to_multiset_build(pre, s.last());
        if (size_is(x.size))(s.last()) {
            vstd::seq_lib::to_multiset_build(pre.filter(size_is(x.size)), s.last());
        } else {
            assert(s.last() != x);
        }
    }
}

/// Sorting neither loses nor invents a hit: the sorted list holds every hit exactly as often
/// as the list it was made from.
pub proof fn sorting_keeps_every_hit(hits: Seq<Hit>, sorted: Seq<Hit>)
    requires
        stable_largest_first(hits, sorted),
    ensures
        sorted.to_multiset() == hits.to_multiset(),
{
    assert forall|x: Hit| #[trigger] sorted.to_multiset().count(x) == hits.to_multiset().count(x) by {
        lemma_count_in_filter(sorted, x);
        lemma_count_in_filter(hits, x);
        assert(sorted.filter(size_is(x.size)) == hits.filter(size_is(x.size)));
    }
    assert(sorted.to_multiset() =~= hits.to_multiset());
}

proof fn lemma_first_of_filter(s: Seq<Hit>, k: u64)
    requires
        s.len() > 0,
        s[0].size == k,
    ensures
        s.filter(size_is(k)).len() > 0,
        s.filter(size_is(k))[0] == s[0],
        s.filter(size_is(k)).drop_first() == s.drop_first().filter(size_is(k)),
{
    assert(s =~= seq![s[0]] + s.drop_first());
    s.drop_first().lemma_filter_prepend(s[0], size_is(k));
    assert((seq![s[0]] + s.drop_first().filter(size_is(k))).drop_first() =~= s.drop_first().filter(size_is(k)));
}

proof fn lemma_filter_skips_other(s: Seq<Hit>, k: u64)
    requires
        s.len() > 0,
        s[0].size != k,
    ensures
        s.filter(size_is(k)) == s.drop_first().filter(size_is(k)),
{
    assert(s =~= seq![s[0]] + s.drop_first());
    s.drop_first().lemma_filter_prepend(s[0], size_is(k));
    assert(Seq::<Hit>::empty() + s.drop_first().filter(size_is(k)) =~= s.drop_first().filter(size_is(k)));
}

proof fn lemma_largest_first_head(s: Seq<Hit>, k: u64)
    requires
        largest_first(s),
        s.filter(size_is(k)).len() > 0,
    ensures
        s.len() > 0,
        s[0].size >= k,
{
    reveal_with_fuel(Seq::filter, 1);
    if s.len() == 0 {
        assert(s.filter(size_is(k)) =~= Seq::<Hit>::empty());
    } else {
        let x = s.filter(size_is(k))[0];
        assert(s.filter(size_is(k)).contains(x));
        s.lemma_filter_contains_rev(size_is(k), x);
        s.lemma_filter_pred(size_is(k), 0);
        let i = choose|i: int| 0 <= i < s.len() && s[i] == x;
        if i > 0 {
            assert(s[0].size >= s[i].size);
        }
    }
}

/// There is only one way to order hits largest first while keeping equal sizes in the order
/// they had: two such orderings of the same hits are the same list.
pub proof fn largest_first_order_is_unique(hits: Seq<Hit>, a: Seq<Hit>, b: Seq<Hit>)
    requires
        stable_largest_first(hits, a),
        stable_largest_first(hits, b),
    ensures
        a == b,
    decreases a.len() + b.len(),
{
    if a.len() == 0 && b.len() == 0 {
        assert(a =~= b);
    } else if a.len() == 0 {
        lemma_first_of_filter(b, b[0].size);
        assert(a.filter(size_is(b[0].size)) == hits.filter(size_is(b[0].size)));
        lemma_largest_first_head(a, b[0].size);
    } else if b.len() == 0 {
        lemma_first_of_filter(a, a[0].size);
        assert(b.filter(size_is(a[0].size)) == hits.filter(size_is(a[0].size)));
        lemma_largest_first_head(b, a[0].size);
    } else {
        let ka = a[0].size;
        let kb = b[0].size;
        lemma_first_of_filter(a, ka);
        lemma_first_of_filter(b, kb);
        assert(a.filter(size_is(kb)) == b.filter(size_is(kb)));
        assert(a.filter(size_is(ka)) == b.filter(size_is(ka)));
        lemma_largest_first_head(a, kb);
        lemma_largest_first_head(b, ka);
        assert(ka == kb);
        assert(a[0] == b[0]);
        let ra = a.drop_first();
        let rb = b.drop_first();
        assert forall|x: int, y: int| 0 <= x < y < ra.len() implies #[trigger] ra[x].size >= #[trigger] ra[y].size by {
            assert(ra[x] == a[x + 1] && ra[y] == a[y + 1]);
        }
        assert forall|x: int, y: int| 0 <= x < y < rb.len() implies #[trigger] rb[x].size >= #[trigger] rb[y].size by {
            assert(rb[x] == b[x + 1] && rb[y] == b[y + 1]);
        }
        assert forall|k: u64| #[trigger] ra.filter(size_is(k)) == rb.filter(size_is(k)) by {
            if k == ka {
                lemma_first_of_filter(a, k);
                lemma_first_of_filter(b, k);
            } else {
                lemma_filter_skips_other(a, k);
                lemma_filter_skips_other(b, k);
            }
        }
        assert(stable_largest_first(ra, ra)) by {
            assert forall|k: u64| #[trigger] ra.filter(size_is(k)) == ra.filter(size_is(k)) by {}
        }
        assert(stable_largest_first(ra, rb));
        largest_first_order_is_unique(ra, ra, rb);
        assert(a =~= seq![a[0]] + ra);
        assert(b =~= seq![b[0]] + rb);
    }
}

proof fn lemma_same_members(a: Seq<Hit>, b: Seq<Hit>)
    requires
        a.to_multiset() == b.to_multiset(),
    ensures
        a.len() == b.len(),
        forall|j: int| 0 <= j < a.len() ==> b.contains(#[trigger] a[j]),
        forall|i: int| 0 <= i < b.len() ==> a.contains(#[trigger] b[i]),
{
    a.to_multiset_ensures();
    b.to_multiset_ensures();
    assert forall|j: int| 0 <= j < a.len() implies b.contains(#[trigger] a[j]) by {
        assert(a.contains(a[j]));
        assert(a.to_multiset().count(a[j]) > 0);
        assert(b.to_multiset().count(a[j]) > 0);
    }
    assert forall|i: int| 0 <= i < b.len() implies a.contains(#[trigger] b[i]) by {
        assert(b.contains(b[i]));
        assert(b.to_multiset().count(b[i]) > 0);
        assert(a.to_multiset().count(b[i]) > 0);
    }
}

/// The hits ordered from `found` and `sizes` are, up to order, exactly one hit per found
/// directory, with that directory's path, kind and size, and picked.
proof fn lemma_hits_from_found(
    found: Seq<(PathBuf, Target)>,
    sizes: Seq<u64>,
    want: Seq<Hit>,
    sorted: Seq<Hit>,
)
    requires
        sizes.len() == found.len(),
        want == found_hits(found, sizes),
        sorted.to_multiset() == want.to_multiset(),
    ensures
        sorted.len() == found.len(),
        sorted.to_multiset() == Seq::new(
            found.len(),
            |i: int| Hit { path: found[i].0, kind: found[i].1.kind, size: sizes[i], picked: true },
        ).to_multiset(),
        forall|j: int| 0 <= j < sorted.len() ==> made_from_found(#[trigger] sorted[j], found, sizes),
        forall|i: int| 0 <= i < found.len() ==> has_hit_for(sorted, #[trigger] found[i], sizes[i]),
{
    let direct = Seq::new(
        found.len(),
        |i: int| Hit { path: found[i].0, kind: found[i].1.kind, size: sizes[i], picked: true },
    );
    assert(want =~= direct);
    lemma_same_members(sorted, want);
    assert forall|j: int| 0 <= j < sorted.len() implies made_from_found(#[trigger] sorted[j], found, sizes) by {
        assert(want.contains(sorted[j]));
        let i = choose|i: int| 0 <= i < want.len() && want[i] == sorted[j];
        assert(want[i] == direct[i]);
    }
    assert forall|i: int| 0 <= i < found.len() implies has_hit_for(sorted, #[trigger] found[i], sizes[i]) by {
        assert(sorted.contains(want[i]));
        let j = choose|j: int| 0 <= j < sorted.len() && sorted[j] == want[i];
        assert(want[i] == direct[i]);
    }
}

/// `h` is the hit made from one of the `found` directories: that directory's path and kind,
/// its size from `sizes`, and picked.
pub open spec fn made_from_found(h: Hit, found: Seq<(PathBuf, Target)>, sizes: Seq<u64>) -> bool {
    exists|i: int| 0 <= i < found.len() && h == (Hit { path: found[i].0, kind: found[i].1.kind, size: sizes[i], picked: true })
}

/// Some hit of `hits` is the one made from directory `d` of size `size`: its path and kind, that
/// size, and picked.
pub open spec fn has_hit_for(hits: Seq<Hit>, d: (PathBuf, Target), size: u64) -> bool {
    exists|j: int| 0 <= j < hits.len() && hits[j] == (Hit { path: d.0, kind: d.1.kind, size: size, picked: true })
}

/// Whether a matched directory counts: a target without a marker always does; one with a
/// marker only when the directory has a parent (`sibling` is `Some`) holding the marker file
/// (`Some(true)`).
pub open spec fn marker_satisfied(marker: Option<&'static str>, sibling: Option<bool>) -> bool {
    match marker {
        None => true,
        Some(_) => sibling == Some(true),
    }
}

/// Check that the sibling marker file (e.g. `package.json`) is present. `sibling` is `None`
/// when the directory has no parent, otherwise whether the marker file exists in the parent.
pub fn marker_ok(target: &Target, sibling: Option<bool>) -> (ok: bool)
    ensures
        ok == marker_satisfied(target.marker, sibling),
{
    match target.marker {
        None => true,
        Some(_) => match sibling {
            Some(b) => b,
            None => false,
        },
    }
}

/// The hits a walk has found, in walk order, before sorting: each found directory with its
/// ecosystem, its size, and picked for deletion.
pub open spec fn found_hits(found: Seq<(PathBuf, Target)>, sizes: Seq<u64>) -> Seq<Hit> {
    Seq::new(
        found.len(),
        |i: int| Hit { path: found[i].0, kind: found[i].1.kind, size: sizes[i], picked: true },
    )
}

/// One entry of a walk as the library sees it: whether it is a directory, its name, and its
/// depth below the root (the root is at depth 0).
pub type Entry = (bool, Seq<char>, nat);

/// Entry `b` lies inside entry `a`: it comes after `a` in the walk and every entry from just
/// after `a` up to `b` is deeper than `a` (a walk lists a directory's contents right after it).
pub open spec fn nested(entries: Seq<Entry>, a: int, b: int) -> bool {
    &&& 0 <= a < b < entries.len()
    &&& forall|m: int| a < m <= b ==> #[trigger] entries[m].2 > entries[a].2
}

/// How many of `entries` are directories that were not passed over.
pub open spec fn counted_dirs(entries: Seq<Entry>, passed: Seq<bool>) -> nat
    decreases entries.len(),
{
    if entries.len() == 0 || passed.len() == 0 {
        0
    } else {
        counted_dirs(entries.drop_last(), passed.drop_last()) + if entries.last().0 && !passed.last() {
            1nat
        } else {
            0nat
        }
    }
}

/// The state of a walk over a directory tree: the matches so far and the directories seen.
pub struct Walk {
    /// Matched directories with their target, in the order they were met.
    found: Vec<(PathBuf, Target)>,
    /// How many directories were walked.
    dirs_scanned: usize,
    /// The target and depth of the entry visited last, when it is a directory whose name
    /// matched a target and it has not been settled yet.
    pending: Option<(Target, usize)>,
    /// The depth of the directory recorded last, while the walk is still inside it.
    inside: Option<usize>,
    /// Every entry given to the walk, in order.
    entries: Ghost<Seq<Entry>>,
    /// For each entry, whether it was passed over because it lies inside a recorded directory.
    passed: Ghost<Seq<bool>>,
    /// For each found directory, the position of its entry in `entries`.
    found_at: Ghost<Seq<int>>,
    /// For each found directory, what was known of its marker file when it was settled.
    siblings: Ghost<Seq<Option<bool>>>,
}

impl Walk {
    /// The matched directories recorded so far, in walk order.
    pub closed spec fn found_view(self) -> Seq<(PathBuf, Target)> {
        self.found@
    }

    /// How many directories were counted.
    pub closed spec fn scanned(self) -> nat {
        self.dirs_scanned as nat
    }

    /// Every entry given to the walk, in order.
    pub closed spec fn entries(self) -> Seq<Entry> {
        self.entries@
    }

    /// For each entry, whether it was passed over as lying inside a recorded directory.
    pub closed spec fn passed_over(self) -> Seq<bool> {
        self.passed@
    }

    /// The target of the entry visited last, when it is a directory whose name matched one
    /// and it has not been settled yet.
    pub closed spec fn pending(self) -> Option<Target> {
        match self.pending {
            Some((t, _)) => Some(t),
            None => None,
        }
    }

    /// The depth of the directory recorded last, while entries still lie inside it.
    pub closed spec fn inside_depth(self) -> Option<nat> {
        match self.inside {
            Some(d) => Some(d as nat),
            None => None,
        }
    }

    /// The position in `entries()` of the `i`-th recorded directory.
    pub closed spec fn visit_of(self, i: int) -> int {
        self.found_at@[i]
    }

    /// What was known of the marker file of the `i`-th recorded directory when it was settled.
    pub closed spec fn sibling_of(self, i: int) -> Option<bool> {
        self.siblings@[i]
    }

    /// The walk's consistency: see `walk_laws` for what it gives.
    pub closed spec fn wf(self) -> bool {
        let e = self.entries@;
        let k = self.passed@;
        let f = self.found_at@;
        let n = self.found@.len();
        &&& e.len() == k.len()
        &&& self.dirs_scanned as nat == counted_dirs(e, k)
        &&& n == f.len()
        &&& n == self.siblings@.len()
        &&& n <= self.dirs_scanned
        &&& forall|i: int| 0 <= i < n ==> 0 <= #[trigger] f[i] < e.len() && e[f[i]].0 && !k[f[i]]
        &&& forall|i: int, j: int| 0 <= i < j < n ==> #[trigger] f[i] < #[trigger] f[j]
        &&& forall|i: int| 0 <= i < n ==> find_dir(table(), e[#[trigger] f[i]].1) == Some(self.found@[i].1@)
        &&& forall|i: int| 0 <= i < n ==> marker_satisfied(self.found@[i].1.marker, #[trigger] self.siblings@[i])
        &&& forall|i: int, j: int| 0 <= i < j < n ==> !nested(e, #[trigger] f[i], #[trigger] f[j])
        &&& forall|m: int| 0 <= m < e.len() ==> (#[trigger] k[m] <==> exists|i: int| 0 <= i < n && nested(e, #[trigger] f[i], m))
        &&& (self.pending matches Some((t, d)) ==> {
            &&& e.len() > 0
            &&& e.last().0
            &&& !k.last()
            &&& e.last().2 == d
            &&& find_dir(table(), e.last().1) == Some(t@)
            &&& (n == 0 || f[n - 1] < e.len() - 1)
            &&& n < self.dirs_scanned
            &&& self.inside is None
        })
        &&& (self.inside matches Some(d) ==> {
            &&& n > 0
            &&& e[f[n - 1]].2 == d
            &&& forall|m: int| f[n - 1] < m < e.len() ==> #[trigger] e[m].2 > d
        })
        &&& (self.inside is None && n > 0 ==> exists|m: int| f[n - 1] < m < e.len() && #[trigger] e[m].2 <= e[f[n - 1]].2)
    }

    /// A walk that has seen nothing yet.
    pub fn new() -> (w: Walk)
        ensures
            w.wf(),
            w.found_view() == Seq::<(PathBuf, Target)>::empty(),
            w.entries() == Seq::<Entry>::empty(),
            w.scanned() == 0,
            w.pending() is None,
            w.inside_depth() is None,
    {
        Walk {
            found: Vec::new(),
            dirs_scanned: 0,
            pending: None,
            inside: None,
            entries: Ghost(Seq::empty()),
            passed: Ghost(Seq::empty()),
            found_at: Ghost(Seq::empty()),
            siblings: Ghost(Seq::empty()),
        }
    }

    /// The matched directories recorded so far.
    pub fn found(&self) -> (f: &Vec<(PathBuf, Target)>)
        ensures
            f@ == self.found_view(),
    {
        &self.found
    }

    /// How many directories were counted.
    pub fn dirs_scanned(&self) -> (n: usize)
        ensures
            n == self.scanned(),
    {
        self.dirs_scanned
    }

    /// One entry of the walk, `depth` levels below the root. An entry inside the directory
    /// recorded last is passed over, as the walk does not descend into a recorded directory.
    /// Otherwise a directory is counted, and its target is returned (and kept for `settle`)
    /// when its name is a known one; anything else is passed over.
    pub fn visit(&mut self, is_dir: bool, name: &str, depth: usize) -> (t: Option<Target>)
        requires
            old(self).wf(),
            old(self).scanned() < usize::MAX,
        ensures
            final(self).wf(),
            final(self).found_view() == old(self).found_view(),
            final(self).entries() == old(self).entries().push((is_dir, name@, depth as nat)),
            ({
                let skipped = old(self).inside_depth() matches Some(d) && depth > d;
                &&& final(self).passed_over() == old(self).passed_over().push(skipped)
                &&& final(self).scanned() == old(self).scanned() + if is_dir && !skipped { 1int } else { 0int }
                &&& (skipped || !is_dir ==> t is None)
                &&& (!skipped && is_dir ==> match t {
                    Some(t) => find_dir(table(), name@) == Some(t@),
                    None => find_dir(table(), name@) is None,
                })
                &&& final(self).inside_depth() == if skipped { old(self).inside_depth() } else { None }
            }),
            final(self).pending() == t,
            forall|i: int| 0 <= i < old(self).found_view().len() ==> final(self).visit_of(i) == old(self).visit_of(i)
                && final(self).sibling_of(i) == old(self).sibling_of(i),
    {
        let ghost e0 = self.entries@;
        let ghost k0 = self.passed@;
        let ghost f = self.found_at@;
        let ghost n = self.found@.len();
        let skipped = match self.inside {
            Some(d) => depth > d,
            None => false,
        };
        proof {
            self.entries@ = e0.push((is_dir, name@, depth as nat));
            self.passed@ = k0.push(skipped);
            let e = self.entries@;
            let k = self.passed@;
            assert(e.drop_last() =~= e0);
            assert(k.drop_last() =~= k0);
            assert forall|a: int, b: int| b < e0.len() implies nested(e, a, b) == nested(e0, a, b) by {
                if nested(e0, a, b) {
                    assert forall|m: int| a < m <= b implies #[trigger] e[m].2 > e[a].2 by {
                        assert(e[m] == e0[m]);
                    }
                }
                if nested(e, a, b) {
                    assert forall|m: int| a < m <= b implies #[trigger] e0[m].2 > e0[a].2 by {
                        assert(e[m] == e0[m]);
                    }
                }
            }
            let idx = e0.len() as int;
            if n > 0 {
                let l = f[n - 1];
                if skipped {
                    assert(nested(e, l, idx)) by {
                        assert forall|m: int| l < m <= idx implies #[trigger] e[m].2 > e[l].2 by {
                            if m < idx {
                                assert(e[m] == e0[m]);
                            }
                        }
                    }
                } else {
                    let w = if self.inside is None {
                        choose|m: int| f[n - 1] < m < e0.len() && #[trigger] e0[m].2 <= e0[f[n - 1]].2
                    } else {
                        idx
                    };
                    assert(l < w <= idx && e[w].2 <= e[l].2);
                    assert forall|i: int| 0 <= i < n implies !nested(e, #[trigger] f[i], idx) by {
                        if i < n - 1 {
                            if nested(e, f[i], idx) {
                                assert(nested(e0, f[i], l)) by {
                                    assert forall|m: int| f[i] < m <= l implies #[trigger] e0[m].2 > e0[f[i]].2 by {
                                        assert(e[m] == e0[m]);
                                    }
                                }
                            }
                        } else {
                            assert(!(e[w].2 > e[l].2));
                        }
                    }
                }
            }
        }
        if skipped {
            self.pending = None;
            return None;
        }
        self.inside = None;
        if !is_dir {
            self.pending = None;
            return None;
        }
        self.dirs_scanned = self.dirs_scanned + 1;
        let t = match_dir(name);
        self.pending = match t {
            Some(target) => Some((target, depth)),
            None => None,
        };
        t
    }

    /// Settles the entry visited last. When it is a directory whose name matched a target and
    /// that target's marker rule holds (see `marker_ok`), the directory is recorded with its
    /// target and the result is `true`: the walk then does not descend into it, and the entries
    /// inside it are passed over. Otherwise nothing is recorded.
    pub fn settle(&mut self, path: PathBuf, sibling: Option<bool>) -> (taken: bool)
        requires
            old(self).wf(),
        ensures
            final(self).wf(),
            taken == (old(self).pending() matches Some(t) && marker_satisfied(t.marker, sibling)),
            final(self).found_view() == if taken {
                old(self).found_view().push((path, old(self).pending().unwrap()))
            } else {
                old(self).found_view()
            },
            taken ==> final(self).visit_of(old(self).found_view().len() as int) == old(self).entries().len() - 1
                && final(self).sibling_of(old(self).found_view().len() as int) == sibling
                && final(self).inside_depth() == Some(old(self).entries().last().2),
            !taken ==> final(self).inside_depth() == old(self).inside_depth(),
            final(self).entries() == old(self).entries(),
            final(self).passed_over() == old(self).passed_over(),
            final(self).scanned() == old(self).scanned(),
            final(self).pending() is None,
            forall|i: int| 0 <= i < old(self).found_view().len() ==> final(self).visit_of(i) == old(self).visit_of(i)
                && final(self).sibling_of(i) == old(self).sibling_of(i),
    {
        let taken = match self.pending {
            Some((target, depth)) => {
                if marker_ok(&target, sibling) {
                    let ghost e = self.entries@;
                    let ghost f0 = self.found_at@;
                    let ghost n = self.found@.len();
                    self.found.push((path, target));
                    self.inside = Some(depth);
                    proof {
                        let idx = e.len() - 1;
                        self.found_at@ = f0.push(idx);
                        self.siblings@ = self.siblings@.push(sibling);
                        assert(self.found@[n as int] == (path, target));
                        let f = self.found_at@;
                        assert forall|i: int| 0 <= i < n implies !nested(e, #[trigger] f[i], idx) by {
                            let l = f0[n - 1];
                            let w = choose|m: int| l < m < e.len() && #[trigger] e[m].2 <= e[l].2;
                            if i < n - 1 {
                                if nested(e, f[i], idx) {
                                    assert(f[i] == f0[i]);
                                    assert(f0[i] < l);
                                    assert(nested(e, f0[i], l));
                                }
                            } else {
                                assert(!(e[w].2 > e[l].2));
                            }
                        }
                        assert forall|m: int| 0 <= m < e.len() implies (#[trigger] self.passed@[m] <==> exists|i: int| 0 <= i < n + 1 && nested(e, #[trigger] f[i], m)) by {
                            if self.passed@[m] {
                                let i = choose|i: int| 0 <= i < n && nested(e, #[trigger] f0[i], m);
                                assert(f[i] == f0[i]);
                            }
                            if exists|i: int| 0 <= i < n + 1 && nested(e, #[trigger] f[i], m) {
                                let i = choose|i: int| 0 <= i < n + 1 && nested(e, #[trigger] f[i], m);
                                assert(i < n);
                                assert(f[i] == f0[i]);
                            }
                        }
                    }
                    true
                } else {
                    false
                }
            },
            None => false,
        };
        self.pending = None;
        taken
    }

    /// Ends the walk: `sizes[i]` is the size of the `i`-th found directory. The hits are the
    /// found directories, all picked, ordered largest first (equal sizes in walk order).
    pub fn finish(self, sizes: Vec<u64>) -> (scan: Scan)
        requires
            sizes@.len() == self.found_view().len(),
        ensures
            stable_largest_first(found_hits(self.found_view(), sizes@), scan.hits@),
            scan.dirs_scanned == self.scanned(),
            scan.hits@.len() == self.found_view().len(),
            scan.hits@.to_multiset() == Seq::new(
                self.found_view().len(),
                |i: int| Hit {
                    path: self.found_view()[i].0,
                    kind: self.found_view()[i].1.kind,
                    size: sizes@[i],
                    picked: true,
                },
            ).to_multiset(),
            forall|j: int| 0 <= j < scan.hits@.len() ==> made_from_found(#[trigger] scan.hits@[j], self.found_view(), sizes@),
            forall|i: int| 0 <= i < self.found_view().len() ==> has_hit_for(scan.hits@, #[trigger] self.found_view()[i], sizes@[i]),
    {
        let ghost want = found_hits(self.found@, sizes@);
        let ghost s0 = sizes@;
        let Walk { found, dirs_scanned, .. } = self;
        let ghost f0 = found@;
        let mut found = found;
        let mut sizes = sizes;
        let mut rev: Vec<Hit> = Vec::new();
        while found.len() > 0
            invariant
                found@ == f0.take(found@.len() as int),
                sizes@.len() == found@.len(),
                sizes@ == want.map_values(|h: Hit| h.size).take(found@.len() as int),
                rev@.len() + found@.len() == want.len(),
                forall|a: int| 0 <= a < rev@.len() ==> #[trigger] rev@[a] == want[want.len() - 1 - a],
                want == found_hits(f0, want.map_values(|h: Hit| h.size)),
                want.len() == f0.len(),
            decreases found@.len(),
        {
            let ghost i = found@.len() - 1;
            let (path, target) = found.pop().unwrap();
            let size = sizes.pop().unwrap();
            proof {
                assert(found@ =~= f0.take(i));
                assert(sizes@ =~= want.map_values(|h: Hit| h.size).take(i));
            }
            rev.push(Hit { path, kind: target.kind, size, picked: true });
        }
        let mut hits: Vec<Hit> = Vec::new();
        while rev.len() > 0
            invariant
                rev@.len() + hits@.len() == want.len(),
                forall|a: int| 0 <= a < rev@.len() ==> #[trigger] rev@[a] == want[want.len() - 1 - a],
                hits@ == want.take(hits@.len() as int),
            decreases rev@.len(),
        {
            let h = rev.pop().unwrap();
            proof {
                assert(hits@.push(h) =~= want.take(hits@.len() as int + 1));
            }
            hits.push(h);
        }
        proof {
            assert(hits@ =~= want);
        }
        let sorted = sort_largest_first(hits);
        proof {
            sorting_keeps_every_hit(want, sorted@);
            lemma_hits_from_found(f0, s0, want, sorted@);
        }
        Scan { hits: sorted, dirs_scanned }
    }
}

/// Across a whole walk: every recorded directory was counted as a directory, at its own
/// entry and in walk order; its name matched its target in the table and its marker rule held.
/// No recorded directory lies inside another, an entry is passed over exactly when it lies
/// inside a recorded directory, and no more directories are recorded than were counted.
pub proof fn walk_laws(w: Walk)
    requires
        w.wf(),
    ensures
        w.found_view().len() <= w.scanned(),
        w.scanned() == counted_dirs(w.entries(), w.passed_over()),
        w.passed_over().len() == w.entries().len(),
        forall|i: int| 0 <= i < w.found_view().len() ==> 0 <= #[trigger] w.visit_of(i) < w.entries().len()
            && w.entries()[w.visit_of(i)].0 && !w.passed_over()[w.visit_of(i)],
        forall|i: int, j: int| 0 <= i < j < w.found_view().len() ==> #[trigger] w.visit_of(i) < #[trigger] w.visit_of(j),
        forall|i: int| 0 <= i < w.found_view().len() ==>
            find_dir(table(), w.entries()[#[trigger] w.visit_of(i)].1) == Some(w.found_view()[i].1@),
        forall|i: int| 0 <= i < w.found_view().len() ==>
            marker_satisfied(w.found_view()[i].1.marker, #[trigger] w.sibling_of(i)),
        forall|i: int, j: int| 0 <= i < j < w.found_view().len() ==>
            !nested(w.entries(), #[trigger] w.visit_of(i), #[trigger] w.visit_of(j)),
        forall|m: int| 0 <= m < w.entries().len() ==> (#[trigger] w.passed_over()[m] <==>
            exists|i: int| 0 <= i < w.found_view().len() && nested(w.entries(), #[trigger] w.visit_of(i), m)),
{
    assert forall|m: int| 0 <= m < w.entries().len() implies (#[trigger] w.passed_over()[m] <==>
        exists|i: int| 0 <= i < w.found_view().len() && nested(w.entries(), #[trigger] w.visit_of(i), m)) by {
        if w.passed_over()[m] {
            let i = choose|i: int| 0 <= i < w.found@.len() && nested(w.entries@, #[trigger] w.found_at@[i], m);
            assert(w.visit_of(i) == w.found_at@[i]);
        }
        if exists|i: int| 0 <= i < w.found_view().len() && nested(w.entries(), #[trigger] w.visit_of(i), m) {
            let i = choose|i: int| 0 <= i < w.found_view().len() && nested(w.entries(), #[trigger] w.visit_of(i), m);
            assert(w.visit_of(i) == w.found_at@[i]);
        }
    }
}

} // verus!
