//! The per-ecosystem breakdown printed by `--list`.

use vstd::prelude::*;
use vstd::string::*;
use vstd::utf8::*;

use crate::scanner::{total, Hit};

verus! {

/// The hits of one ecosystem: how many directories and how many bytes.
#[derive(Debug, Clone, Copy)]
pub struct KindTotal {
    pub kind: &'static str,
    pub dirs: usize,
    pub size: u64,
}

/// Whether a hit belongs to the ecosystem `k`.
pub open spec fn of_kind(k: Seq<char>) -> spec_fn(Hit) -> bool {
    |h: Hit| h.kind@ == k
}

/// Byte-wise lexicographic order, the order of `str`: `a` comes strictly before `b`.
pub open spec fn lex_less(a: Seq<u8>, b: Seq<u8>) -> bool
    decreases a.len(),
{
    if a.len() == 0 {
        b.len() > 0
    } else if b.len() == 0 {
        false
    } else if a[0] != b[0] {
        a[0] < b[0]
    } else {
        lex_less(a.drop_first(), b.drop_first())
    }
}

proof fn lemma_lex_irreflexive(a: Seq<u8>)
    ensures
        !lex_less(a, a),
    decreases a.len(),
{
    if a.len() > 0 {
        lemma_lex_irreflexive(a.drop_first());
    }
}

proof fn lemma_lex_trichotomy(a: Seq<u8>, b: Seq<u8>)
    ensures
        lex_less(a, b) || lex_less(b, a) || a == b,
        !(lex_less(a, b) && lex_less(b, a)),
        !lex_less(a, a),
    decreases a.len(),
{
    lemma_lex_irreflexive(a);
    if a.len() > 0 && b.len() > 0 {
        lemma_lex_trichotomy(a.drop_first(), b.drop_first());
        if a[0] == b[0] && a.drop_first() == b.drop_first() {
            assert(a =~= seq![a[0]] + a.drop_first());
            assert(b =~= seq![b[0]] + b.drop_first());
        }
    } else if a.len() == 0 && b.len() == 0 {
        assert(a =~= b);
    }
}

proof fn lemma_lex_transitive(a: Seq<u8>, b: Seq<u8>, c: Seq<u8>)
    requires
        lex_less(a, b),
        lex_less(b, c),
    ensures
        lex_less(a, c),
    decreases a.len(),
{
    if a.len() > 0 && b.len() > 0 && c.len() > 0 && a[0] == b[0] && b[0] == c[0] {
        lemma_lex_transitive(a.drop_first(), b.drop_first(), c.drop_first());
    }
}

/// Whether `a` comes strictly before `b` as strings.
pub fn str_less(a: &str, b: &str) -> (r: bool)
    ensures
        r == lex_less(a.spec_bytes(), b.spec_bytes()),
{
    let ab = a.as_bytes();
    let bb = b.as_bytes();
    let n = ab.len();
    let m = bb.len();
    let mut i: usize = 0;
    proof {
        assert(ab@.skip(0) =~= ab@);
        assert(bb@.skip(0) =~= bb@);
    }
    while i < n && i < m && ab[i] == bb[i]
        invariant
            n == ab@.len(),
            m == bb@.len(),
            i <= n,
            i <= m,
            lex_less(ab@, bb@) == lex_less(ab@.skip(i as int), bb@.skip(i as int)),
        decreases n - i,
    {
        proof {
            assert(ab@.skip(i as int).drop_first() =~= ab@.skip(i + 1));
            assert(bb@.skip(i as int).drop_first() =~= bb@.skip(i + 1));
        }
        i = i + 1;
    }
    if i == n {
        i < m
    } else if i == m {
        false
    } else {
        ab[i] < bb[i]
    }
}

/// `summary` lists, by ecosystem in string order, how many of `hits` belong to each one and
/// their bytes; every ecosystem of `hits` is listed once.
pub open spec fn is_summary(hits: Seq<Hit>, summary: Seq<KindTotal>) -> bool {
    &&& forall|a: int, b: int| 0 <= a < b < summary.len() ==>
        lex_less(#[trigger] summary[a].kind.spec_bytes(), #[trigger] summary[b].kind.spec_bytes())
    &&& forall|a: int| 0 <= a < summary.len() ==> {
        &&& (#[trigger] summary[a]).dirs == hits.filter(of_kind(summary[a].kind@)).len()
        &&& summary[a].size == total(hits.filter(of_kind(summary[a].kind@)))
        &&& summary[a].dirs >= 1
    }
    &&& forall|h: int| 0 <= h < hits.len() ==> listed(summary, #[trigger] hits[h].kind@)
}

/// Whether the ecosystem `k` has an entry in `summary`.
pub open spec fn listed(summary: Seq<KindTotal>, k: Seq<char>) -> bool {
    exists|a: int| 0 <= a < summary.len() && #[trigger] summary[a].kind@ == k
}

/// The sum of `f` over the entries of `s`.
pub open spec fn sum_by(s: Seq<KindTotal>, f: spec_fn(KindTotal) -> nat) -> nat
    decreases s.len(),
{
    if s.len() == 0 {
        0
    } else {
        sum_by(s.drop_last(), f) + f(s.last())
    }
}

/// Directories in an entry.
pub open spec fn dirs_of() -> spec_fn(KindTotal) -> nat {
    |e: KindTotal| e.dirs as nat
}

/// Bytes in an entry.
pub open spec fn size_of() -> spec_fn(KindTotal) -> nat {
    |e: KindTotal| e.size as nat
}

proof fn lemma_sum_update(s: Seq<KindTotal>, j: int, e: KindTotal, f: spec_fn(KindTotal) -> nat)
    requires
        0 <= j < s.len(),
    ensures
        sum_by(s.update(j, e), f) + f(s[j]) == sum_by(s, f) + f(e),
    decreases s.len(),
{
    if j < s.len() - 1 {
        lemma_sum_update(s.drop_last(), j, e, f);
        assert(s.update(j, e).drop_last() =~= s.drop_last().update(j, e));
    } else {
        assert(s.update(j, e).drop_last() =~= s.drop_last());
    }
}

proof fn lemma_sum_insert(s: Seq<KindTotal>, j: int, e: KindTotal, f: spec_fn(KindTotal) -> nat)
    requires
        0 <= j <= s.len(),
    ensures
        sum_by(s.insert(j, e), f) == sum_by(s, f) + f(e),
    decreases s.len(),
{
    if j < s.len() {
        lemma_sum_insert(s.drop_last(), j, e, f);
        assert(s.insert(j, e).drop_last() =~= s.drop_last().insert(j, e));
        assert(s.insert(j, e).last() == s.last());
    } else {
        assert(s.insert(j, e).drop_last() =~= s);
    }
}

proof fn lemma_filter_total_prefix(s: Seq<Hit>, n: int, p: spec_fn(Hit) -> bool)
    requires
        0 <= n <= s.len(),
    ensures
        total(s.take(n).filter(p)) <= total(s.filter(p)),
    decreases s.len(),
{
    if n < s.len() {
        let pre = s.drop_last();
        assert(pre.take(n) =~= s.take(n));
        lemma_filter_total_prefix(pre, n, p);
        assert(pre.push(s.last()) =~= s);
        pre.lemma_filter_push(s.last(), p);
        if p(s.last()) {
            assert(s.filter(p).drop_last() =~= pre.filter(p));
        }
    } else {
        assert(s.take(n) =~= s);
    }
}

/// Groups hits by ecosystem, in string order of the ecosystem, with a count and a byte total
/// for each.
pub fn summarize(hits: &[Hit]) -> (summary: Vec<KindTotal>)
    requires
        forall|k: Seq<char>| total(#[trigger] hits@.filter(of_kind(k))) <= u64::MAX,
    ensures
        is_summary(hits@, summary@),
        sum_by(summary@, dirs_of()) == hits@.len(),
        sum_by(summary@, size_of()) == total(hits@),
{
    let mut out: Vec<KindTotal> = Vec::new();
    let n = hits.len();
    let mut i: usize = 0;
    proof {
        assert(hits@.take(0) =~= Seq::<Hit>::empty());
    }
    while i < n
        invariant
            n == hits@.len(),
            i <= n,
            is_summary(hits@.take(i as int), out@),
            sum_by(out@, dirs_of()) == i,
            sum_by(out@, size_of()) == total(hits@.take(i as int)),
            forall|k: Seq<char>| total(#[trigger] hits@.filter(of_kind(k))) <= u64::MAX,
            out@.len() <= i,
        decreases n - i,
    {
        let h = &hits[i];
        let ghost pre = hits@.take(i as int);
        let ghost next = hits@.take(i + 1);
        proof {
            assert(next =~= pre.push(*h));
            assert forall|k: Seq<char>| #[trigger] next.filter(of_kind(k)) == if h.kind@ == k {
                pre.filter(of_kind(k)).push(*h)
            } else {
                pre.filter(of_kind(k))
            } by {
                pre.lemma_filter_push(*h, of_kind(k));
            }
        }
        let m = out.len();
        let mut j: usize = 0;
        while j < m && str_less(out[j].kind, h.kind)
            invariant
                m == out@.len(),
                j <= m,
                forall|a: int| 0 <= a < j ==> lex_less(#[trigger] out@[a].kind.spec_bytes(), h.kind.spec_bytes()),
            decreases m - j,
        {
            j = j + 1;
        }
        proof {
            encode_utf8_decode_utf8(h.kind@);
            if j < m {
                encode_utf8_decode_utf8(out@[j as int].kind@);
            }
        }
        if j < m && crate::text::str_eq(out[j].kind, h.kind) {
            let ghost before = out@;
            let e = out[j];
            proof {
                lemma_filter_total_prefix(hits@, i + 1, of_kind(h.kind@));
                assert(next.filter(of_kind(h.kind@)).drop_last() =~= pre.filter(of_kind(h.kind@)));
            }
            let updated = KindTotal { kind: e.kind, dirs: e.dirs + 1, size: e.size + h.size };
            out.set(j, updated);
            proof {
                lemma_sum_update(before, j as int, updated, dirs_of());
                lemma_sum_update(before, j as int, updated, size_of());
                assert(next.drop_last() =~= pre);
                assert forall|a: int, b: int| 0 <= a < b < out@.len() implies
                    lex_less(#[trigger] out@[a].kind.spec_bytes(), #[trigger] out@[b].kind.spec_bytes()) by {
                    assert(out@[a].kind == before[a].kind && out@[b].kind == before[b].kind);
                }
                assert forall|a: int| 0 <= a < out@.len() implies {
                    &&& (#[trigger] out@[a]).dirs == next.filter(of_kind(out@[a].kind@)).len()
                    &&& out@[a].size == total(next.filter(of_kind(out@[a].kind@)))
                    &&& out@[a].dirs >= 1
                } by {
                    if a != j {
                        assert(out@[a] == before[a]);
                        if out@[a].kind@ == h.kind@ {
                            lemma_lex_trichotomy(out@[a].kind.spec_bytes(), out@[j as int].kind.spec_bytes());
                        }
                    }
                }
                assert forall|x: int| 0 <= x < next.len() implies listed(out@, #[trigger] next[x].kind@) by {
                    if x < i {
                        assert(next[x] == pre[x]);
                        assert(listed(before, pre[x].kind@));
                        let a = choose|a: int| 0 <= a < before.len() && #[trigger] before[a].kind@ == pre[x].kind@;
                        assert(out@[a].kind@ == before[a].kind@);
                    } else {
                        assert(out@[j as int].kind@ == next[x].kind@);
                    }
                }
                assert(is_summary(next, out@));
            }
        } else {
            let ghost before = out@;
            proof {
                assert forall|a: int| 0 <= a < before.len() implies (#[trigger] before[a]).kind@ != h.kind@ by {
                    if before[a].kind@ == h.kind@ {
                        encode_utf8_decode_utf8(before[a].kind@);
                        lemma_lex_trichotomy(h.kind.spec_bytes(), h.kind.spec_bytes());
                        if a < j {
                            assert(lex_less(before[a].kind.spec_bytes(), h.kind.spec_bytes()));
                        } else {
                            lemma_lex_trichotomy(before[j as int].kind.spec_bytes(), h.kind.spec_bytes());
                            if a > j {
                                assert(lex_less(before[j as int].kind.spec_bytes(), before[a].kind.spec_bytes()));
                                lemma_lex_transitive(h.kind.spec_bytes(), before[j as int].kind.spec_bytes(), before[a].kind.spec_bytes());
                            }
                        }
                    }
                }
                assert forall|x: int| 0 <= x < pre.len() implies !(of_kind(h.kind@))(#[trigger] pre[x]) by {
                    assert(listed(before, pre[x].kind@));
                    let a = choose|a: int| 0 <= a < before.len() && #[trigger] before[a].kind@ == pre[x].kind@;
                }
                pre.lemma_all_neg_filter_empty(of_kind(h.kind@));
                reveal_with_fuel(total, 2);
                assert(next.filter(of_kind(h.kind@)) =~= seq![*h]);
                assert(seq![*h].drop_last() =~= Seq::<Hit>::empty());
            }
            let fresh = KindTotal { kind: h.kind, dirs: 1, size: h.size };
            out.insert(j, fresh);
            proof {
                lemma_sum_insert(before, j as int, fresh, dirs_of());
                lemma_sum_insert(before, j as int, fresh, size_of());
                assert(next.drop_last() =~= pre);
                if j < m {
                    lemma_lex_trichotomy(before[j as int].kind.spec_bytes(), h.kind.spec_bytes());
                }
                assert forall|a: int, b: int| 0 <= a < b < out@.len() implies
                    lex_less(#[trigger] out@[a].kind.spec_bytes(), #[trigger] out@[b].kind.spec_bytes()) by {
                    if b < j {
                        assert(out@[a] == before[a] && out@[b] == before[b]);
                    } else if b == j {
                        assert(out@[a] == before[a]);
                    } else if a < j {
                        assert(out@[a] == before[a] && out@[b] == before[b - 1]);
                        lemma_lex_transitive(before[a].kind.spec_bytes(), h.kind.spec_bytes(), before[j as int].kind.spec_bytes());
                        if b - 1 > j {
                            lemma_lex_transitive(before[a].kind.spec_bytes(), before[j as int].kind.spec_bytes(), before[b - 1].kind.spec_bytes());
                        }
                    } else if a == j {
                        assert(out@[b] == before[b - 1]);
                        if b - 1 > j {
                            lemma_lex_transitive(h.kind.spec_bytes(), before[j as int].kind.spec_bytes(), before[b - 1].kind.spec_bytes());
                        }
                    } else {
                        assert(out@[a] == before[a - 1] && out@[b] == before[b - 1]);
                    }
                }
                assert forall|a: int| 0 <= a < out@.len() implies {
                    &&& (#[trigger] out@[a]).dirs == next.filter(of_kind(out@[a].kind@)).len()
                    &&& out@[a].size == total(next.filter(of_kind(out@[a].kind@)))
                    &&& out@[a].dirs >= 1
                } by {
                    if a != j {
                        let old_a = if a < j { a } else { a - 1 };
                        assert(out@[a] == before[old_a]);
                        assert(before[old_a].kind@ != h.kind@);
                    }
                }
                assert forall|x: int| 0 <= x < next.len() implies listed(out@, #[trigger] next[x].kind@) by {
                    if x < i {
                        assert(next[x] == pre[x]);
                        assert(listed(before, pre[x].kind@));
                        let a = choose|a: int| 0 <= a < before.len() && #[trigger] before[a].kind@ == pre[x].kind@;
                        if a < j {
                            assert(out@[a] == before[a]);
                        } else {
                            assert(out@[a + 1] == before[a]);
                        }
                    } else {
                        assert(out@[j as int].kind@ == next[x].kind@);
                    }
                }
                assert(is_summary(next, out@));
            }
        }
        i = i + 1;
    }
    proof {
        assert(hits@.take(n as int) =~= hits@);
    }
    out
}

/// When all sizes add up in 64 bits, so does every ecosystem's share.
pub proof fn groups_fit_when_total_fits(hits: Seq<Hit>)
    requires
        total(hits) <= u64::MAX,
    ensures
        forall|k: Seq<char>| total(#[trigger] hits.filter(of_kind(k))) <= u64::MAX,
{
    assert forall|k: Seq<char>| total(#[trigger] hits.filter(of_kind(k))) <= u64::MAX by {
        crate::scanner::lemma_filtered_total_le(hits, of_kind(k));
    }
}

} // verus!
