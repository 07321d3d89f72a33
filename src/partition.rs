//! Partitions of a set into non-empty, pairwise disjoint groups, kept in a
//! canonical order, and the enumeration of all partitions of a sequence.
use vstd::prelude::*;
use vstd::string::StringExecFns;

use crate::element::Element;

verus! {

/// Strictly increasing in rank (so also free of repeats).
pub open spec fn ascending<A: Element>(s: Seq<A>) -> bool {
    forall|i: int, j: int| 0 <= i < j < s.len() ==> s[i].rank() < s[j].rank()
}

/// No element stands in two different groups.
pub open spec fn disjoint_groups<A: Element>(gs: Seq<Seq<A>>) -> bool {
    forall|i: int, j: int, a: int, b: int|
        0 <= i < gs.len() && 0 <= j < gs.len() && i != j && 0 <= a < gs[i].len() && 0 <= b
            < gs[j].len() ==> #[trigger] gs[i][a] != #[trigger] gs[j][b]
}

/// The canonical layout of a partition: every group non-empty and ascending,
/// no element in two groups, and the groups ordered by their smallest element.
pub open spec fn canonical<A: Element>(gs: Seq<Seq<A>>) -> bool {
    &&& forall|i: int| 0 <= i < gs.len() ==> #[trigger] gs[i].len() > 0 && ascending(gs[i])
    &&& forall|i: int, j: int| 0 <= i < j < gs.len() ==> #[trigger] gs[i][0].rank() < #[trigger] gs[j][0].rank()
    &&& disjoint_groups(gs)
}

/// The set of groups that a list of groups describes.
pub open spec fn blocks<A>(gs: Seq<Seq<A>>) -> Set<Set<A>> {
    Set::new(|g: Set<A>| exists|i: int| 0 <= i < gs.len() && g == #[trigger] gs[i].to_set())
}

/// The union of a set of groups.
pub open spec fn union_of<A>(p: Set<Set<A>>) -> Set<A> {
    Set::new(|a: A| exists|g: Set<A>| #[trigger] p.contains(g) && g.contains(a))
}

/// Every element that occurs in a list of groups.
pub open spec fn placed<A>(gs: Seq<Seq<A>>) -> Set<A> {
    Set::new(|a: A| exists|i: int| 0 <= i < gs.len() && #[trigger] gs[i].contains(a))
}

/// The partition built from raw groups, first seen wins: each group, in
/// order, keeps only the elements that no earlier group holds, and is left
/// out when nothing is kept.
pub open spec fn built<A>(gs: Seq<Seq<A>>) -> Set<Set<A>>
    decreases gs.len(),
{
    if gs.len() == 0 {
        Set::empty()
    } else {
        let fresh = gs.last().to_set().difference(placed(gs.drop_last()));
        if fresh.is_empty() {
            built(gs.drop_last())
        } else {
            built(gs.drop_last()).insert(fresh)
        }
    }
}

/// `p` is a partition of `s`: non-empty groups, pairwise disjoint, covering `s` exactly.
pub open spec fn is_partition_of<A>(p: Set<Set<A>>, s: Set<A>) -> bool {
    &&& forall|g: Set<A>| #[trigger] p.contains(g) ==> !g.is_empty()
    &&& forall|g: Set<A>, h: Set<A>|
        #[trigger] p.contains(g) && #[trigger] p.contains(h) && g != h ==> g.disjoint(h)
    &&& union_of(p) == s
}

/// The views of a list of vectors.
pub open spec fn views_of<A>(v: Seq<Vec<A>>) -> Seq<Seq<A>> {
    v.map_values(|g: Vec<A>| g@)
}

/// A partition of a set of elements into non-empty, pairwise disjoint groups.
#[derive(Debug, PartialEq, Eq)]
pub struct Partition<A: Element> {
    parts: Vec<Vec<A>>,
}

impl<A: Element> View for Partition<A> {
    type V = Set<Set<A>>;

    open spec fn view(&self) -> Set<Set<A>> {
        blocks(self.groups())
    }
}

/// A canonical layout is determined by what the groups are.
pub proof fn lemma_sorted_unique<A: Element>(s: Seq<A>, t: Seq<A>)
    requires
        ascending(s),
        ascending(t),
        s.to_set() == t.to_set(),
    ensures
        s == t,
    decreases s.len(),
{
    if s.len() == 0 {
        if t.len() > 0 {
            assert(t.to_set().contains(t[0]));
        }
        assert(t.len() == 0);
    } else {
        assert(s.to_set().contains(s[0]));
        assert(t.len() > 0);
        assert(t.to_set().contains(t[0]));
        let i = choose|i: int| 0 <= i < t.len() && t[i] == s[0];
        let j = choose|j: int| 0 <= j < s.len() && s[j] == t[0];
        assert(s[0].rank() == t[0].rank());
        A::lemma_rank_injective(s[0], t[0]);
        let s1 = s.drop_first();
        let t1 = t.drop_first();
        assert forall|x: A| s1.to_set().contains(x) implies t1.to_set().contains(x) by {
            let a = choose|a: int| 0 <= a < s1.len() && s1[a] == x;
            assert(s.to_set().contains(x));
            let b = choose|b: int| 0 <= b < t.len() && t[b] == x;
            if b == 0 {
                assert(s[a + 1].rank() > s[0].rank());
            }
            assert(t1[b - 1] == x);
        }
        assert forall|x: A| t1.to_set().contains(x) implies s1.to_set().contains(x) by {
            let a = choose|a: int| 0 <= a < t1.len() && t1[a] == x;
            assert(t.to_set().contains(x));
            let b = choose|b: int| 0 <= b < s.len() && s[b] == x;
            if b == 0 {
                assert(t[a + 1].rank() > t[0].rank());
            }
            assert(s1[b - 1] == x);
        }
        assert(s1.to_set() =~= t1.to_set());
        lemma_sorted_unique(s1, t1);
        assert(s.len() == t.len());
        assert forall|k: int| 0 <= k < s.len() implies s[k] == t[k] by {
            if k > 0 {
                assert(s[k] == s1[k - 1]);
                assert(t[k] == t1[k - 1]);
            }
        }
        assert(s =~= t);
    }
}

proof fn lemma_insert_to_set<A>(s: Seq<A>, p: int, x: A)
    requires
        0 <= p <= s.len(),
    ensures
        s.insert(p, x).to_set() == s.to_set().insert(x),
{
    let t = s.insert(p, x);
    assert forall|y: A| t.to_set().contains(y) implies s.to_set().insert(x).contains(y) by {
        let k = choose|k: int| 0 <= k < t.len() && t[k] == y;
        if k < p {
            assert(s[k] == y);
        } else if k > p {
            assert(s[k - 1] == y);
        }
    }
    assert forall|y: A| s.to_set().insert(x).contains(y) implies t.to_set().contains(y) by {
        if y == x {
            assert(t[p] == x);
        } else {
            let k = choose|k: int| 0 <= k < s.len() && s[k] == y;
            if k < p {
                assert(t[k] == y);
            } else {
                assert(t[k + 1] == y);
            }
        }
    }
    assert(t.to_set() =~= s.to_set().insert(x));
}

/// The elements of a list of groups are the union of the groups it describes.
pub proof fn lemma_union_of_blocks<A>(gs: Seq<Seq<A>>)
    ensures
        union_of(blocks(gs)) == placed(gs),
{
    assert forall|a: A| union_of(blocks(gs)).contains(a) implies placed(gs).contains(a) by {
        let g = choose|g: Set<A>| #[trigger] blocks(gs).contains(g) && g.contains(a);
        let i = choose|i: int| 0 <= i < gs.len() && g == #[trigger] gs[i].to_set();
        assert(gs[i].contains(a));
    }
    assert forall|a: A| placed(gs).contains(a) implies union_of(blocks(gs)).contains(a) by {
        let i = choose|i: int| 0 <= i < gs.len() && #[trigger] gs[i].contains(a);
        assert(blocks(gs).contains(gs[i].to_set()));
        assert(gs[i].to_set().contains(a));
    }
    assert(union_of(blocks(gs)) =~= placed(gs));
}

/// Whatever raw groups a partition is built from, its elements are exactly
/// the elements of those groups: first seen wins drops repeats, never elements.
pub proof fn lemma_union_of_built<A>(gs: Seq<Seq<A>>)
    ensures
        union_of(built(gs)) == placed(gs),
    decreases gs.len(),
{
    if gs.len() > 0 {
        let prev = gs.drop_last();
        lemma_union_of_built(prev);
        let fresh = gs.last().to_set().difference(placed(prev));
        assert forall|a: A| placed(gs).contains(a) <==> (placed(prev).contains(a) || gs.last().contains(a)) by {
            if placed(gs).contains(a) {
                let i = choose|i: int| 0 <= i < gs.len() && #[trigger] gs[i].contains(a);
                if i < gs.len() - 1 {
                    assert(prev[i] == gs[i]);
                }
            }
            if placed(prev).contains(a) {
                let i = choose|i: int| 0 <= i < prev.len() && #[trigger] prev[i].contains(a);
                assert(prev[i] == gs[i]);
            }
            if gs.last().contains(a) {
                assert(gs[gs.len() - 1].contains(a));
            }
        }
        if fresh.is_empty() {
            assert forall|a: A| gs.last().contains(a) implies placed(prev).contains(a) by {
                assert(gs.last().to_set().contains(a));
                if !placed(prev).contains(a) {
                    assert(fresh.contains(a));
                }
            }
        } else {
            let b = built(prev);
            assert forall|a: A| union_of(b.insert(fresh)).contains(a) <==> (union_of(b).contains(a) || fresh.contains(a)) by {
                if union_of(b.insert(fresh)).contains(a) {
                    let g = choose|g: Set<A>| #[trigger] b.insert(fresh).contains(g) && g.contains(a);
                    if g != fresh {
                        assert(b.contains(g));
                    }
                }
                if union_of(b).contains(a) {
                    let g = choose|g: Set<A>| #[trigger] b.contains(g) && g.contains(a);
                    assert(b.insert(fresh).contains(g));
                }
                if fresh.contains(a) {
                    assert(b.insert(fresh).contains(fresh));
                }
            }
        }
        assert(union_of(built(gs)) =~= placed(gs));
    }
}

fn contains_elem<A: Element>(v: &Vec<A>, x: &A) -> (r: bool)
    ensures
        r == v@.contains(*x),
{
    let mut k: usize = 0;
    while k < v.len()
        invariant
            k <= v.len(),
            forall|m: int| 0 <= m < k ==> v@[m] != *x,
        decreases v.len() - k,
    {
        if !v[k].precedes(x) && !x.precedes(&v[k]) {
            proof {
                A::lemma_rank_injective(v@[k as int], *x);
            }
            return true;
        }
        k = k + 1;
    }
    false
}

fn insert_sorted<A: Element>(v: &mut Vec<A>, x: A)
    requires
        ascending(old(v)@),
    ensures
        ascending(final(v)@),
        final(v)@.to_set() == old(v)@.to_set().insert(x),
{
    let mut p: usize = 0;
    while p < v.len() && v[p].precedes(&x)
        invariant
            p <= v.len(),
            ascending(v@),
            forall|m: int| 0 <= m < p ==> v@[m].rank() < x.rank(),
        decreases v.len() - p,
    {
        p = p + 1;
    }
    if p < v.len() && !x.precedes(&v[p]) {
        proof {
            A::lemma_rank_injective(v@[p as int], x);
            assert(v@.to_set().contains(x));
            assert(v@.to_set() =~= v@.to_set().insert(x));
        }
        return;
    }
    proof {
        lemma_insert_to_set(v@, p as int, x);
    }
    v.insert(p, x);
}

/// The printed form of one group: its elements separated by `", "`.
pub open spec fn group_text<A: Element>(g: Seq<A>) -> Seq<char>
    decreases g.len(),
{
    if g.len() == 0 {
        Seq::empty()
    } else if g.len() == 1 {
        g[0].text()
    } else {
        group_text(g.drop_last()) + seq![',', ' '] + g.last().text()
    }
}

/// The printed forms of the groups, separated by `"], ["`.
pub open spec fn groups_text<A: Element>(gs: Seq<Seq<A>>) -> Seq<char>
    decreases gs.len(),
{
    if gs.len() == 0 {
        Seq::empty()
    } else if gs.len() == 1 {
        group_text(gs[0])
    } else {
        groups_text(gs.drop_last()) + seq![']', ',', ' ', '['] + group_text(gs.last())
    }
}

/// The printed form of a partition: `[[e1, e2], [e3], ...]`.
pub open spec fn render<A: Element>(gs: Seq<Seq<A>>) -> Seq<char> {
    seq!['[', '['] + groups_text(gs) + seq![']', ']']
}

proof fn lemma_canonical_drop_first<A: Element>(gs: Seq<Seq<A>>)
    requires
        canonical(gs),
        gs.len() > 0,
    ensures
        canonical(gs.drop_first()),
        blocks(gs.drop_first()) == blocks(gs).remove(gs[0].to_set()),
{
    let rest = gs.drop_first();
    assert forall|i: int, j: int, a: int, b: int|
        0 <= i < rest.len() && 0 <= j < rest.len() && i != j && 0 <= a < rest[i].len() && 0 <= b
            < rest[j].len() implies #[trigger] rest[i][a] != #[trigger] rest[j][b] by {
        assert(rest[i] == gs[i + 1]);
        assert(rest[j] == gs[j + 1]);
    }
    assert forall|i: int, j: int| 0 <= i < j < rest.len() implies
        #[trigger] rest[i][0].rank() < #[trigger] rest[j][0].rank() by {
        assert(rest[i] == gs[i + 1]);
        assert(rest[j] == gs[j + 1]);
    }
    assert forall|x: Set<A>| blocks(rest).contains(x) <==> blocks(gs).remove(gs[0].to_set()).contains(x) by {
        if blocks(rest).contains(x) {
            let i = choose|i: int| 0 <= i < rest.len() && x == #[trigger] rest[i].to_set();
            assert(rest[i] == gs[i + 1]);
            assert(x.contains(gs[i + 1][0]));
            if x == gs[0].to_set() {
                let a = choose|a: int| 0 <= a < gs[0].len() && gs[0][a] == gs[i + 1][0];
                assert(gs[0][a] != gs[i + 1][0]);
            }
        }
        if blocks(gs).remove(gs[0].to_set()).contains(x) {
            let i = choose|i: int| 0 <= i < gs.len() && x == #[trigger] gs[i].to_set();
            assert(i != 0);
            assert(rest[i - 1] == gs[i]);
        }
    }
    assert(blocks(rest) =~= blocks(gs).remove(gs[0].to_set()));
}

/// A partition has one canonical layout: two canonical lists of groups that
/// describe the same groups are the same list.
pub proof fn lemma_canonical_unique<A: Element>(gs: Seq<Seq<A>>, hs: Seq<Seq<A>>)
    requires
        canonical(gs),
        canonical(hs),
        blocks(gs) == blocks(hs),
    ensures
        gs == hs,
    decreases gs.len(),
{
    if gs.len() == 0 {
        if hs.len() > 0 {
            assert(blocks(hs).contains(hs[0].to_set()));
        }
        assert(gs =~= hs);
    } else {
        assert(blocks(gs).contains(gs[0].to_set()));
        let j = choose|j: int| 0 <= j < hs.len() && gs[0].to_set() == #[trigger] hs[j].to_set();
        assert(blocks(hs).contains(hs[0].to_set()));
        let i = choose|i: int| 0 <= i < gs.len() && hs[0].to_set() == #[trigger] gs[i].to_set();
        lemma_sorted_unique(hs[j], gs[0]);
        lemma_sorted_unique(gs[i], hs[0]);
        if i > 0 {
            assert(gs[0][0].rank() < gs[i][0].rank());
            if j > 0 {
                assert(hs[0][0].rank() < hs[j][0].rank());
            }
        }
        assert(gs[0] == hs[0]);
        lemma_canonical_drop_first(gs);
        lemma_canonical_drop_first(hs);
        lemma_canonical_unique(gs.drop_first(), hs.drop_first());
        assert(gs =~= hs) by {
            assert forall|k: int| 0 <= k < gs.len() implies gs[k] == hs[k] by {
                if k > 0 {
                    assert(gs[k] == gs.drop_first()[k - 1]);
                    assert(hs[k] == hs.drop_first()[k - 1]);
                }
            }
        }
    }
}

/// The layouts that adding `elem` to the layout `parts` gives: first `elem`
/// alone in a new last group, then `elem` appended to each group in turn.
pub open spec fn mixes<A>(elem: A, parts: Seq<Seq<A>>) -> Seq<Seq<Seq<A>>> {
    seq![parts.push(seq![elem])] + Seq::new(
        parts.len(),
        |i: int| parts.update(i, parts[i].push(elem)),
    )
}

/// The layouts that adding `elem` gives, for each layout of `ps` in order.
pub open spec fn mix_all<A>(elem: A, ps: Seq<Seq<Seq<A>>>) -> Seq<Seq<Seq<A>>>
    decreases ps.len(),
{
    if ps.len() == 0 {
        Seq::empty()
    } else {
        mix_all(elem, ps.drop_last()) + mixes(elem, ps.last())
    }
}

/// The raw layouts that the enumeration produces for `s`: none for an empty
/// sequence, one group for a single element, and otherwise the first element
/// mixed into each layout of the rest.
pub open spec fn layouts<A>(s: Seq<A>) -> Seq<Seq<Seq<A>>>
    decreases s.len(),
{
    if s.len() == 0 {
        Seq::empty()
    } else if s.len() == 1 {
        seq![seq![s]]
    } else {
        mix_all(s[0], layouts(s.drop_first()))
    }
}

/// The views of a list of layouts.
pub open spec fn layouts_of<A>(v: Seq<Vec<Vec<A>>>) -> Seq<Seq<Seq<A>>> {
    v.map_values(|p: Vec<Vec<A>>| views_of(p@))
}

/// `gs` lays out the set `s`: non-empty groups without repeats, no element in
/// two groups, and every element of `s` and nothing else placed.
pub open spec fn layout_of<A: Element>(gs: Seq<Seq<A>>, s: Set<A>) -> bool {
    &&& forall|i: int| 0 <= i < gs.len() ==> #[trigger] gs[i].len() > 0 && gs[i].no_duplicates()
    &&& disjoint_groups(gs)
    &&& placed(gs) == s
}

proof fn lemma_mixes_sound<A: Element>(e: A, parts: Seq<Seq<A>>, s: Set<A>)
    requires
        layout_of(parts, s),
        !s.contains(e),
    ensures
        mixes(e, parts).len() == parts.len() + 1,
        forall|m: int| 0 <= m < mixes(e, parts).len() ==> layout_of(#[trigger] mixes(e, parts)[m], s.insert(e)),
{
    let ms = mixes(e, parts);
    assert forall|m: int| 0 <= m < ms.len() implies layout_of(#[trigger] ms[m], s.insert(e)) by {
        let q = ms[m];
        if m == 0 {
            assert(q == parts.push(seq![e]));
            assert forall|i: int| 0 <= i < q.len() implies #[trigger] q[i].len() > 0 && q[i].no_duplicates() by {
                if i < parts.len() {
                    assert(q[i] == parts[i]);
                }
            }
            assert forall|i: int, j: int, a: int, b: int|
                0 <= i < q.len() && 0 <= j < q.len() && i != j && 0 <= a < q[i].len() && 0 <= b
                    < q[j].len() implies #[trigger] q[i][a] != #[trigger] q[j][b] by {
                if i == parts.len() {
                    assert(parts[j].contains(q[j][b]));
                    assert(placed(parts).contains(q[j][b]));
                } else if j == parts.len() {
                    assert(parts[i].contains(q[i][a]));
                    assert(placed(parts).contains(q[i][a]));
                } else {
                    assert(q[i] == parts[i]);
                    assert(q[j] == parts[j]);
                }
            }
            assert forall|x: A| placed(q).contains(x) <==> s.insert(e).contains(x) by {
                if placed(q).contains(x) {
                    let i = choose|i: int| 0 <= i < q.len() && #[trigger] q[i].contains(x);
                    if i < parts.len() {
                        assert(q[i] == parts[i]);
                        assert(placed(parts).contains(x));
                    } else {
                        assert(q[i] == seq![e]);
                        let a = choose|a: int| 0 <= a < q[i].len() && q[i][a] == x;
                        assert(a == 0);
                    }
                }
                if s.contains(x) {
                    assert(placed(parts).contains(x));
                    let i = choose|i: int| 0 <= i < parts.len() && #[trigger] parts[i].contains(x);
                    assert(q[i] == parts[i]);
                    assert(q[i].contains(x));
                }
                if x == e {
                    assert(q[parts.len() as int] == seq![e]);
                    assert(q[parts.len() as int][0] == e);
                    assert(q[parts.len() as int].contains(e));
                }
            }
            assert(placed(q) =~= s.insert(e));
        } else {
            let t = m - 1;
            assert(q == parts.update(t, parts[t].push(e)));
            assert(parts[t].contains(parts[t][0]));
            assert forall|i: int| 0 <= i < q.len() implies #[trigger] q[i].len() > 0 && q[i].no_duplicates() by {
                if i != t {
                    assert(q[i] == parts[i]);
                } else {
                    assert forall|a: int, b: int| 0 <= a < b < q[i].len() implies q[i][a] != q[i][b] by {
                        if b == q[i].len() - 1 {
                            assert(parts[t].contains(q[i][a]));
                            assert(placed(parts).contains(q[i][a]));
                        } else {
                            assert(q[i][a] == parts[t][a]);
                            assert(q[i][b] == parts[t][b]);
                        }
                    }
                }
            }
            assert forall|i: int, j: int, a: int, b: int|
                0 <= i < q.len() && 0 <= j < q.len() && i != j && 0 <= a < q[i].len() && 0 <= b
                    < q[j].len() implies #[trigger] q[i][a] != #[trigger] q[j][b] by {
                if i == t && a == parts[t].len() {
                    assert(q[j] == parts[j]);
                    assert(parts[j].contains(q[j][b]));
                    assert(placed(parts).contains(q[j][b]));
                } else if j == t && b == parts[t].len() {
                    assert(q[i] == parts[i]);
                    assert(parts[i].contains(q[i][a]));
                    assert(placed(parts).contains(q[i][a]));
                } else {
                    assert(q[i][a] == parts[i][a]);
                    assert(q[j][b] == parts[j][b]);
                }
            }
            assert forall|x: A| placed(q).contains(x) <==> s.insert(e).contains(x) by {
                if placed(q).contains(x) {
                    let i = choose|i: int| 0 <= i < q.len() && #[trigger] q[i].contains(x);
                    let a = choose|a: int| 0 <= a < q[i].len() && q[i][a] == x;
                    if i != t || a < parts[t].len() {
                        assert(parts[i][a] == x);
                        assert(parts[i].contains(x));
                        assert(placed(parts).contains(x));
                    }
                }
                if s.contains(x) {
                    assert(placed(parts).contains(x));
                    let i = choose|i: int| 0 <= i < parts.len() && #[trigger] parts[i].contains(x);
                    let a = choose|a: int| 0 <= a < parts[i].len() && parts[i][a] == x;
                    assert(q[i][a] == x);
                    assert(q[i].contains(x));
                }
                if x == e {
                    assert(q[t][parts[t].len() as int] == e);
                    assert(q[t].contains(e));
                }
            }
            assert(placed(q) =~= s.insert(e));
        }
    }
}

proof fn lemma_mix_all_member<A>(e: A, ps: Seq<Seq<Seq<A>>>, idx: int)
    requires
        0 <= idx < mix_all(e, ps).len(),
    ensures
        exists|k: int, m: int|
            0 <= k < ps.len() && 0 <= m < mixes(e, ps[k]).len() && mix_all(e, ps)[idx] == #[trigger] mixes(e, ps[k])[m],
    decreases ps.len(),
{
    let prev = ps.drop_last();
    let n = mix_all(e, prev).len();
    if idx < n {
        lemma_mix_all_member(e, prev, idx);
        let (k, m) = choose|k: int, m: int|
            0 <= k < prev.len() && 0 <= m < mixes(e, prev[k]).len() && mix_all(e, prev)[idx] == #[trigger] mixes(e, prev[k])[m];
        assert(prev[k] == ps[k]);
        assert(mix_all(e, ps)[idx] == mixes(e, ps[k])[m]);
    } else {
        let k = ps.len() - 1;
        assert(mix_all(e, ps)[idx] == mixes(e, ps[k])[idx - n]);
    }
}

/// Every raw layout that the enumeration produces for distinct elements lays
/// out exactly those elements.
pub proof fn lemma_layouts_sound<A: Element>(s: Seq<A>)
    requires
        s.no_duplicates(),
    ensures
        forall|i: int| 0 <= i < layouts(s).len() ==> layout_of(#[trigger] layouts(s)[i], s.to_set()),
    decreases s.len(),
{
    if s.len() == 1 {
        let q = seq![s];
        assert(layouts(s) == seq![q]);
        assert forall|x: A| placed(q).contains(x) <==> s.to_set().contains(x) by {
            if s.contains(x) {
                assert(q[0].contains(x));
            }
        }
        assert(placed(q) =~= s.to_set());
    } else if s.len() > 1 {
        let rest = s.drop_first();
        lemma_layouts_sound(rest);
        assert(!rest.contains(s[0]));
        assert(s.to_set() =~= rest.to_set().insert(s[0])) by {
            assert forall|x: A| s.to_set().contains(x) implies rest.to_set().insert(s[0]).contains(x) by {
                let a = choose|a: int| 0 <= a < s.len() && s[a] == x;
                if a > 0 {
                    assert(rest[a - 1] == x);
                }
            }
            assert forall|x: A| rest.to_set().contains(x) implies s.to_set().contains(x) by {
                let a = choose|a: int| 0 <= a < rest.len() && rest[a] == x;
                assert(s[a + 1] == x);
            }
        }
        assert forall|i: int| 0 <= i < layouts(s).len() implies layout_of(#[trigger] layouts(s)[i], s.to_set()) by {
            lemma_mix_all_member(s[0], layouts(rest), i);
            let (k, m) = choose|k: int, m: int|
                0 <= k < layouts(rest).len() && 0 <= m < mixes(s[0], layouts(rest)[k]).len()
                    && mix_all(s[0], layouts(rest))[i] == #[trigger] mixes(s[0], layouts(rest)[k])[m];
            lemma_mixes_sound(s[0], layouts(rest)[k], rest.to_set());
        }
    }
}

/// Raw groups that are non-empty and share no element are kept whole.
pub proof fn lemma_built_disjoint<A: Element>(gs: Seq<Seq<A>>)
    requires
        forall|i: int| 0 <= i < gs.len() ==> #[trigger] gs[i].len() > 0,
        disjoint_groups(gs),
    ensures
        built(gs) == blocks(gs),
    decreases gs.len(),
{
    if gs.len() > 0 {
        let prev = gs.drop_last();
        let last = gs.last();
        assert forall|i: int, j: int, a: int, b: int|
            0 <= i < prev.len() && 0 <= j < prev.len() && i != j && 0 <= a < prev[i].len() && 0 <= b
                < prev[j].len() implies #[trigger] prev[i][a] != #[trigger] prev[j][b] by {
            assert(prev[i] == gs[i]);
            assert(prev[j] == gs[j]);
        }
        lemma_built_disjoint(prev);
        assert(last.to_set().difference(placed(prev)) =~= last.to_set()) by {
            assert forall|x: A| last.to_set().contains(x) implies !placed(prev).contains(x) by {
                if placed(prev).contains(x) {
                    let i = choose|i: int| 0 <= i < prev.len() && #[trigger] prev[i].contains(x);
                    let a = choose|a: int| 0 <= a < prev[i].len() && prev[i][a] == x;
                    let b = choose|b: int| 0 <= b < last.len() && last[b] == x;
                    assert(gs[i][a] != gs[gs.len() - 1][b]);
                }
            }
        }
        assert(last.to_set().contains(last[0]));
        assert forall|x: Set<A>| blocks(gs).contains(x) <==> blocks(prev).insert(last.to_set()).contains(x) by {
            if blocks(gs).contains(x) {
                let i = choose|i: int| 0 <= i < gs.len() && x == #[trigger] gs[i].to_set();
                if i < prev.len() {
                    assert(prev[i] == gs[i]);
                }
            }
            if blocks(prev).contains(x) {
                let i = choose|i: int| 0 <= i < prev.len() && x == #[trigger] prev[i].to_set();
                assert(prev[i] == gs[i]);
            }
            if x == last.to_set() {
                assert(gs[gs.len() - 1] == last);
            }
        }
        assert(blocks(gs) =~= blocks(prev).insert(last.to_set()));
    } else {
        assert(blocks(gs) =~= Set::<Set<A>>::empty());
    }
}

/// The groups of a layout of `s` form a partition of `s`.
pub proof fn lemma_layout_partition<A: Element>(gs: Seq<Seq<A>>, s: Set<A>)
    requires
        layout_of(gs, s),
    ensures
        is_partition_of(blocks(gs), s),
{
    lemma_union_of_blocks(gs);
    assert forall|g: Set<A>| #[trigger] blocks(gs).contains(g) implies !g.is_empty() by {
        let i = choose|i: int| 0 <= i < gs.len() && g == #[trigger] gs[i].to_set();
        assert(g.contains(gs[i][0]));
    }
    assert forall|g: Set<A>, h: Set<A>|
        #[trigger] blocks(gs).contains(g) && #[trigger] blocks(gs).contains(h) && g != h implies g.disjoint(h) by {
        let i = choose|i: int| 0 <= i < gs.len() && g == #[trigger] gs[i].to_set();
        let j = choose|j: int| 0 <= j < gs.len() && h == #[trigger] gs[j].to_set();
        assert forall|x: A| g.contains(x) implies !h.contains(x) by {
            let a = choose|a: int| 0 <= a < gs[i].len() && gs[i][a] == x;
            if h.contains(x) {
                let b = choose|b: int| 0 <= b < gs[j].len() && gs[j][b] == x;
                assert(gs[i][a] != gs[j][b]);
            }
        }
    }
}

proof fn lemma_mix_all_contains<A>(e: A, ps: Seq<Seq<Seq<A>>>, k: int, m: int)
    requires
        0 <= k < ps.len(),
        0 <= m < mixes(e, ps[k]).len(),
    ensures
        exists|idx: int| 0 <= idx < mix_all(e, ps).len() && #[trigger] mix_all(e, ps)[idx] == mixes(e, ps[k])[m],
    decreases ps.len(),
{
    let prev = ps.drop_last();
    let n = mix_all(e, prev).len();
    if k == ps.len() - 1 {
        assert(mix_all(e, ps)[n + m] == mixes(e, ps[k])[m]);
    } else {
        assert(prev[k] == ps[k]);
        lemma_mix_all_contains(e, prev, k, m);
        let idx = choose|idx: int| 0 <= idx < n && #[trigger] mix_all(e, prev)[idx] == mixes(e, prev[k])[m];
        assert(mix_all(e, ps)[idx] == mix_all(e, prev)[idx]);
    }
}

proof fn lemma_blocks_push<A>(gs: Seq<Seq<A>>, g: Seq<A>)
    ensures
        blocks(gs.push(g)) == blocks(gs).insert(g.to_set()),
{
    let ns = gs.push(g);
    assert forall|x: Set<A>| blocks(ns).contains(x) <==> blocks(gs).insert(g.to_set()).contains(x) by {
        if blocks(ns).contains(x) {
            let i = choose|i: int| 0 <= i < ns.len() && x == #[trigger] ns[i].to_set();
            if i < gs.len() {
                assert(ns[i] == gs[i]);
            }
        }
        if blocks(gs).contains(x) {
            let i = choose|i: int| 0 <= i < gs.len() && x == #[trigger] gs[i].to_set();
            assert(ns[i] == gs[i]);
        }
        if x == g.to_set() {
            assert(ns[gs.len() as int] == g);
        }
    }
    assert(blocks(ns) =~= blocks(gs).insert(g.to_set()));
}

proof fn lemma_blocks_update<A: Element>(gs: Seq<Seq<A>>, s: Set<A>, t: int, g: Seq<A>)
    requires
        layout_of(gs, s),
        0 <= t < gs.len(),
    ensures
        blocks(gs.update(t, g)) == blocks(gs).remove(gs[t].to_set()).insert(g.to_set()),
{
    let ns = gs.update(t, g);
    assert forall|x: Set<A>| blocks(ns).contains(x) <==> blocks(gs).remove(gs[t].to_set()).insert(g.to_set()).contains(x) by {
        if blocks(ns).contains(x) {
            let i = choose|i: int| 0 <= i < ns.len() && x == #[trigger] ns[i].to_set();
            if i != t {
                assert(ns[i] == gs[i]);
                if x == gs[t].to_set() {
                    assert(x.contains(gs[i][0]));
                    let a = choose|a: int| 0 <= a < gs[t].len() && gs[t][a] == gs[i][0];
                    assert(gs[t][a] != gs[i][0]);
                }
            }
        }
        if blocks(gs).remove(gs[t].to_set()).contains(x) {
            let i = choose|i: int| 0 <= i < gs.len() && x == #[trigger] gs[i].to_set();
            assert(i != t);
            assert(ns[i] == gs[i]);
        }
        if x == g.to_set() {
            assert(ns[t] == g);
        }
    }
    assert(blocks(ns) =~= blocks(gs).remove(gs[t].to_set()).insert(g.to_set()));
}

proof fn lemma_partition_of_single<A>(q: Set<Set<A>>, x: A)
    requires
        is_partition_of(q, set![x]),
    ensures
        q == set![set![x]],
{
    assert(union_of(q).contains(x));
    let b = choose|b: Set<A>| #[trigger] q.contains(b) && b.contains(x);
    assert forall|g: Set<A>| q.contains(g) implies g == set![x] by {
        assert forall|y: A| g.contains(y) implies y == x by {
            assert(union_of(q).contains(y));
        }
        assert(!g.is_empty());
        let y = g.choose();
        assert(g.contains(y));
        assert(g =~= set![x]);
    }
    assert(b =~= set![x]);
    assert(q =~= set![set![x]]);
}

/// Every partition of a non-empty sequence of distinct elements is among the
/// ones the enumeration produces.
pub proof fn lemma_layouts_complete<A: Element>(s: Seq<A>, q: Set<Set<A>>)
    requires
        s.no_duplicates(),
        s.len() > 0,
        is_partition_of(q, s.to_set()),
    ensures
        exists|i: int| 0 <= i < layouts(s).len() && blocks(#[trigger] layouts(s)[i]) == q,
    decreases s.len(),
{
    if s.len() == 1 {
        assert(s.to_set() =~= set![s[0]]) by {
            assert forall|x: A| s.to_set().contains(x) implies x == s[0] by {
                let a = choose|a: int| 0 <= a < s.len() && s[a] == x;
            }
            assert(s.to_set().contains(s[0]));
        }
        lemma_partition_of_single(q, s[0]);
        let l = layouts(s)[0];
        assert(l == seq![s]);
        assert(blocks(l) =~= set![set![s[0]]]) by {
            assert(l[0].to_set() == s.to_set());
            assert forall|x: Set<A>| blocks(l).contains(x) implies x == set![s[0]] by {
                let i = choose|i: int| 0 <= i < l.len() && x == #[trigger] l[i].to_set();
            }
            assert(blocks(l).contains(l[0].to_set()));
        }
    } else {
        let e = s[0];
        let rest = s.drop_first();
        let r = rest.to_set();
        assert(!rest.contains(e));
        assert(s.to_set() =~= r.insert(e)) by {
            assert forall|x: A| s.to_set().contains(x) implies r.insert(e).contains(x) by {
                let a = choose|a: int| 0 <= a < s.len() && s[a] == x;
                if a > 0 {
                    assert(rest[a - 1] == x);
                }
            }
            assert forall|x: A| r.contains(x) implies s.to_set().contains(x) by {
                let a = choose|a: int| 0 <= a < rest.len() && rest[a] == x;
                assert(s[a + 1] == x);
            }
        }
        assert(union_of(q).contains(e));
        let b = choose|b: Set<A>| #[trigger] q.contains(b) && b.contains(e);
        let b1 = b.remove(e);
        let q1 = if b1.is_empty() { q.remove(b) } else { q.remove(b).insert(b1) };
        // q1 is a partition of the rest
        assert forall|g: Set<A>| #[trigger] q1.contains(g) implies !g.is_empty() by {
            if g != b1 {
                assert(q.contains(g));
            }
        }
        assert forall|g: Set<A>, h: Set<A>|
            #[trigger] q1.contains(g) && #[trigger] q1.contains(h) && g != h implies g.disjoint(h) by {
            if g != b1 && h != b1 {
                assert(q.contains(g) && q.contains(h));
            } else if g == b1 {
                assert(q.contains(h) && h != b);
                assert(b.disjoint(h));
            } else {
                assert(q.contains(g) && g != b);
                assert(b.disjoint(g));
            }
        }
        assert forall|x: A| union_of(q1).contains(x) <==> r.contains(x) by {
            if union_of(q1).contains(x) {
                let g = choose|g: Set<A>| #[trigger] q1.contains(g) && g.contains(x);
                if g == b1 && !b1.is_empty() {
                    assert(union_of(q).contains(x));
                } else {
                    assert(q.contains(g) && g != b);
                    assert(b.disjoint(g));
                    assert(union_of(q).contains(x));
                }
            }
            if r.contains(x) {
                assert(union_of(q).contains(x));
                let g = choose|g: Set<A>| #[trigger] q.contains(g) && g.contains(x);
                if g == b {
                    assert(b1.contains(x));
                    assert(q1.contains(b1));
                } else {
                    assert(q1.contains(g));
                }
            }
        }
        assert(union_of(q1) =~= r);
        lemma_layouts_complete(rest, q1);
        let k = choose|k: int| 0 <= k < layouts(rest).len() && blocks(#[trigger] layouts(rest)[k]) == q1;
        let p = layouts(rest)[k];
        lemma_layouts_sound(rest);
        assert(layout_of(p, r));
        assert(layouts(s) == mix_all(e, layouts(rest)));
        if b1.is_empty() {
            assert(b =~= set![e]) by {
                assert forall|x: A| b.contains(x) implies x == e by {
                    if x != e {
                        assert(b1.contains(x));
                    }
                }
            }
            lemma_blocks_push(p, seq![e]);
            assert(seq![e].to_set() =~= set![e]) by {
                assert(seq![e][0] == e);
            }
            assert(q =~= q1.insert(b));
            assert(mixes(e, p)[0] == p.push(seq![e]));
            lemma_mix_all_contains(e, layouts(rest), k, 0);
        } else {
            assert(q1.contains(b1));
            let t = choose|t: int| 0 <= t < p.len() && b1 == #[trigger] p[t].to_set();
            let g = p[t].push(e);
            lemma_blocks_update(p, r, t, g);
            assert(g.to_set() =~= b) by {
                lemma_insert_to_set(p[t], p[t].len() as int, e);
                assert(p[t].insert(p[t].len() as int, e) =~= g);
            }
            assert(!q.remove(b).contains(b1)) by {
                if q.remove(b).contains(b1) {
                    assert(b.disjoint(b1));
                    let y = b1.choose();
                    assert(b1.contains(y));
                }
            }
            assert(q1.remove(b1) =~= q.remove(b));
            assert(q =~= q.remove(b).insert(b));
            assert(mixes(e, p)[t + 1] == p.update(t, g));
            lemma_mix_all_contains(e, layouts(rest), k, t + 1);
        }
    }
}

/// The partition of `s` into single-element groups.
pub open spec fn singletons<A>(s: Set<A>) -> Set<Set<A>> {
    s.map(|x: A| set![x])
}

/// For a non-empty sequence of distinct elements, the enumeration produces
/// both the partition with one group holding everything and the partition
/// into single-element groups.
pub proof fn lemma_extreme_partitions_present<A: Element>(s: Seq<A>)
    requires
        s.no_duplicates(),
        s.len() > 0,
    ensures
        exists|i: int| 0 <= i < layouts(s).len() && blocks(#[trigger] layouts(s)[i]) == set![s.to_set()],
        exists|i: int| 0 <= i < layouts(s).len() && blocks(#[trigger] layouts(s)[i]) == singletons(s.to_set()),
{
    let all = s.to_set();
    assert(all.contains(s[0]));
    let whole = set![all];
    assert forall|g: Set<A>, h: Set<A>|
        #[trigger] whole.contains(g) && #[trigger] whole.contains(h) && g != h implies g.disjoint(h) by {
    }
    assert forall|x: A| union_of(whole).contains(x) <==> all.contains(x) by {
        if all.contains(x) {
            assert(whole.contains(all));
        }
    }
    assert(union_of(whole) =~= all);
    lemma_layouts_complete(s, whole);
    let single = singletons(all);
    assert forall|g: Set<A>| #[trigger] single.contains(g) implies !g.is_empty() by {
        let x = choose|x: A| all.contains(x) && g == set![x];
        assert(g.contains(x));
    }
    assert forall|g: Set<A>, h: Set<A>|
        #[trigger] single.contains(g) && #[trigger] single.contains(h) && g != h implies g.disjoint(h) by {
        let x = choose|x: A| all.contains(x) && g == set![x];
        let y = choose|y: A| all.contains(y) && h == set![y];
        assert(x != y);
    }
    assert forall|x: A| union_of(single).contains(x) <==> all.contains(x) by {
        if union_of(single).contains(x) {
            let g = choose|g: Set<A>| #[trigger] single.contains(g) && g.contains(x);
            let y = choose|y: A| all.contains(y) && g == set![y];
        }
        if all.contains(x) {
            assert(single.contains(set![x]));
            assert(set![x].contains(x));
        }
    }
    assert(union_of(single) =~= all);
    lemma_layouts_complete(s, single);
}

/// The groups of `q` with `e` taken out, a group left empty dropped.
pub open spec fn without<A>(q: Set<Set<A>>, e: A) -> Set<Set<A>> {
    Set::new(|g: Set<A>| !g.is_empty() && exists|h: Set<A>| #[trigger] q.contains(h) && g == h.remove(e))
}

proof fn lemma_unmix<A: Element>(e: A, p: Seq<Seq<A>>, s: Set<A>, m: int)
    requires
        layout_of(p, s),
        !s.contains(e),
        0 <= m < mixes(e, p).len(),
    ensures
        without(blocks(mixes(e, p)[m]), e) == blocks(p),
{
    let q = blocks(mixes(e, p)[m]);
    assert forall|g: Set<A>| #[trigger] blocks(p).contains(g) implies !g.contains(e) && !g.is_empty() && g.remove(e) == g by {
        let i = choose|i: int| 0 <= i < p.len() && g == #[trigger] p[i].to_set();
        if g.contains(e) {
            assert(p[i].contains(e));
            assert(placed(p).contains(e));
        }
        assert(g.contains(p[i][0]));
        assert(g.remove(e) =~= g);
    }
    if m == 0 {
        assert(mixes(e, p)[0] == p.push(seq![e]));
        lemma_blocks_push(p, seq![e]);
        assert(seq![e].to_set() =~= set![e]) by {
            assert(seq![e][0] == e);
        }
        assert(q == blocks(p).insert(set![e]));
        assert forall|g: Set<A>| without(q, e).contains(g) <==> blocks(p).contains(g) by {
            if without(q, e).contains(g) {
                let h = choose|h: Set<A>| #[trigger] q.contains(h) && g == h.remove(e);
                if h == set![e] {
                    assert(g =~= Set::<A>::empty());
                }
            }
            if blocks(p).contains(g) {
                assert(q.contains(g));
            }
        }
    } else {
        let t = m - 1;
        let g1 = p[t].push(e);
        assert(mixes(e, p)[m] == p.update(t, g1));
        lemma_blocks_update(p, s, t, g1);
        lemma_insert_to_set(p[t], p[t].len() as int, e);
        assert(p[t].insert(p[t].len() as int, e) =~= g1);
        let old_g = p[t].to_set();
        assert(blocks(p).contains(old_g));
        assert(q == blocks(p).remove(old_g).insert(old_g.insert(e)));
        assert(old_g.insert(e).remove(e) =~= old_g);
        assert forall|g: Set<A>| without(q, e).contains(g) <==> blocks(p).contains(g) by {
            if without(q, e).contains(g) {
                let h = choose|h: Set<A>| #[trigger] q.contains(h) && g == h.remove(e);
            }
            if blocks(p).contains(g) {
                if g == old_g {
                    assert(q.contains(old_g.insert(e)));
                } else {
                    assert(q.contains(g));
                }
            }
        }
    }
    assert(without(q, e) =~= blocks(p));
}

proof fn lemma_mixes_distinct<A: Element>(e: A, p: Seq<Seq<A>>, s: Set<A>, m1: int, m2: int)
    requires
        layout_of(p, s),
        !s.contains(e),
        0 <= m1 < m2 < mixes(e, p).len(),
    ensures
        blocks(mixes(e, p)[m1]) != blocks(mixes(e, p)[m2]),
{
    let t2 = m2 - 1;
    let g2 = p[t2].push(e);
    let old2 = p[t2].to_set();
    assert(mixes(e, p)[m2] == p.update(t2, g2));
    lemma_blocks_update(p, s, t2, g2);
    lemma_insert_to_set(p[t2], p[t2].len() as int, e);
    assert(p[t2].insert(p[t2].len() as int, e) =~= g2);
    let q2 = blocks(mixes(e, p)[m2]);
    assert(q2 == blocks(p).remove(old2).insert(old2.insert(e)));
    assert(old2.contains(p[t2][0]));
    assert forall|g: Set<A>| #[trigger] blocks(p).contains(g) implies !g.contains(e) by {
        let i = choose|i: int| 0 <= i < p.len() && g == #[trigger] p[i].to_set();
        if g.contains(e) {
            assert(p[i].contains(e));
            assert(placed(p).contains(e));
        }
    }
    if m1 == 0 {
        assert(mixes(e, p)[0] == p.push(seq![e]));
        lemma_blocks_push(p, seq![e]);
        assert(seq![e].to_set() =~= set![e]) by {
            assert(seq![e][0] == e);
        }
        let q1 = blocks(mixes(e, p)[m1]);
        assert(q1.contains(set![e]));
        if q1 == q2 {
            assert(set![e] != old2.insert(e)) by {
                assert(old2.insert(e).contains(p[t2][0]));
                assert(p[t2].contains(p[t2][0]));
                assert(placed(p).contains(p[t2][0]));
            }
            assert(q2.contains(set![e]));
            assert(blocks(p).contains(set![e]));
        }
    } else {
        let t1 = m1 - 1;
        let g1 = p[t1].push(e);
        let old1 = p[t1].to_set();
        assert(mixes(e, p)[m1] == p.update(t1, g1));
        lemma_blocks_update(p, s, t1, g1);
        lemma_insert_to_set(p[t1], p[t1].len() as int, e);
        assert(p[t1].insert(p[t1].len() as int, e) =~= g1);
        let q1 = blocks(mixes(e, p)[m1]);
        assert(q1.contains(old1.insert(e)));
        if q1 == q2 {
            assert(q2.contains(old1.insert(e)));
            if old1.insert(e) == old2.insert(e) {
                assert(old1.contains(p[t1][0]));
                assert(old2.insert(e).contains(p[t1][0]));
                let b = choose|b: int| 0 <= b < p[t2].len() && p[t2][b] == p[t1][0];
                assert(p[t1][0] != p[t2][b]);
            } else {
                assert(blocks(p).contains(old1.insert(e)));
            }
        }
    }
}

proof fn lemma_mix_all_distinct<A: Element>(e: A, ps: Seq<Seq<Seq<A>>>, s: Set<A>)
    requires
        forall|k: int| 0 <= k < ps.len() ==> layout_of(#[trigger] ps[k], s),
        !s.contains(e),
        forall|k1: int, k2: int| 0 <= k1 < k2 < ps.len() ==> blocks(#[trigger] ps[k1]) != blocks(#[trigger] ps[k2]),
    ensures
        forall|i: int, j: int| 0 <= i < j < mix_all(e, ps).len() ==>
            blocks(#[trigger] mix_all(e, ps)[i]) != blocks(#[trigger] mix_all(e, ps)[j]),
    decreases ps.len(),
{
    if ps.len() > 0 {
        let prev = ps.drop_last();
        let last = ps.last();
        assert forall|k: int| 0 <= k < prev.len() implies layout_of(#[trigger] prev[k], s) by {
            assert(prev[k] == ps[k]);
        }
        assert forall|k1: int, k2: int| 0 <= k1 < k2 < prev.len() implies blocks(#[trigger] prev[k1]) != blocks(#[trigger] prev[k2]) by {
            assert(prev[k1] == ps[k1]);
            assert(prev[k2] == ps[k2]);
        }
        lemma_mix_all_distinct(e, prev, s);
        let n = mix_all(e, prev).len();
        let all = mix_all(e, ps);
        assert(layout_of(last, s));
        assert forall|i: int, j: int| 0 <= i < j < all.len() implies
            blocks(#[trigger] all[i]) != blocks(#[trigger] all[j]) by {
            if j < n {
                assert(all[i] == mix_all(e, prev)[i]);
                assert(all[j] == mix_all(e, prev)[j]);
            } else if i >= n {
                assert(all[i] == mixes(e, last)[i - n]);
                assert(all[j] == mixes(e, last)[j - n]);
                lemma_mixes_distinct(e, last, s, i - n, j - n);
            } else {
                assert(all[i] == mix_all(e, prev)[i]);
                assert(all[j] == mixes(e, last)[j - n]);
                lemma_mix_all_member(e, prev, i);
                let (k, m) = choose|k: int, m: int|
                    0 <= k < prev.len() && 0 <= m < mixes(e, prev[k]).len() && mix_all(e, prev)[i] == #[trigger] mixes(e, prev[k])[m];
                assert(prev[k] == ps[k]);
                lemma_unmix(e, prev[k], s, m);
                lemma_unmix(e, last, s, j - n);
                assert(blocks(ps[k]) != blocks(ps[ps.len() - 1]));
            }
        }
    }
}

/// The enumeration never produces the same partition twice.
pub proof fn lemma_layouts_distinct<A: Element>(s: Seq<A>)
    requires
        s.no_duplicates(),
    ensures
        forall|i: int, j: int| 0 <= i < j < layouts(s).len() ==>
            blocks(#[trigger] layouts(s)[i]) != blocks(#[trigger] layouts(s)[j]),
    decreases s.len(),
{
    if s.len() > 1 {
        let rest = s.drop_first();
        lemma_layouts_distinct(rest);
        lemma_layouts_sound(rest);
        assert(!rest.contains(s[0]));
        assert(!rest.to_set().contains(s[0]));
        lemma_mix_all_distinct(s[0], layouts(rest), rest.to_set());
    }
}

fn copy_group<A: Element>(g: &Vec<A>) -> (r: Vec<A>)
    ensures
        r@ == g@,
{
    let mut r: Vec<A> = Vec::new();
    let mut k: usize = 0;
    while k < g.len()
        invariant
            k <= g.len(),
            r@ == g@.take(k as int),
        decreases g.len() - k,
    {
        r.push(g[k]);
        k = k + 1;
        proof {
            assert(r@ =~= g@.take(k as int));
        }
    }
    proof {
        assert(g@.take(g@.len() as int) =~= g@);
    }
    r
}

fn copy_parts<A: Element>(parts: &Vec<Vec<A>>) -> (r: Vec<Vec<A>>)
    ensures
        views_of(r@) == views_of(parts@),
{
    let mut r: Vec<Vec<A>> = Vec::new();
    let mut k: usize = 0;
    while k < parts.len()
        invariant
            k <= parts.len(),
            views_of(r@) == views_of(parts@).take(k as int),
        decreases parts.len() - k,
    {
        let g = copy_group(&parts[k]);
        let ghost old_r = r@;
        r.push(g);
        k = k + 1;
        proof {
            assert(views_of(old_r).len() == old_r.len());
            assert forall|m: int| 0 <= m < k implies views_of(r@)[m] == views_of(parts@)[m] by {
                if m < k - 1 {
                    assert(r@[m] == old_r[m]);
                    assert(views_of(old_r)[m] == views_of(parts@).take(k - 1)[m]);
                }
            }
            assert(views_of(r@) =~= views_of(parts@).take(k as int));
        }
    }
    proof {
        assert(views_of(parts@).take(parts.len() as int) =~= views_of(parts@));
    }
    r
}

/// A copy of `parts` with `elem` appended to the group at `target`.
fn copy_layout<A: Element>(parts: &Vec<Vec<A>>, target: usize, elem: A) -> (r: Vec<Vec<A>>)
    requires
        target < parts.len(),
    ensures
        views_of(r@) == views_of(parts@).update(target as int, parts@[target as int]@.push(elem)),
{
    let ghost want = views_of(parts@).update(target as int, parts@[target as int]@.push(elem));
    let mut r: Vec<Vec<A>> = Vec::new();
    let mut k: usize = 0;
    while k < parts.len()
        invariant
            k <= parts.len(),
            target < parts.len(),
            want == views_of(parts@).update(target as int, parts@[target as int]@.push(elem)),
            want.len() == parts.len(),
            views_of(r@) == want.take(k as int),
        decreases parts.len() - k,
    {
        let mut g = copy_group(&parts[k]);
        if k == target {
            g.push(elem);
        }
        proof {
            assert(views_of(parts@)[k as int] == parts@[k as int]@);
            assert(g@ == want[k as int]);
        }
        let ghost old_r = r@;
        r.push(g);
        k = k + 1;
        proof {
            assert(views_of(old_r).len() == old_r.len());
            assert(want.take(k - 1).len() == k - 1);
            assert(r@ == old_r.push(g));
            assert forall|m: int| 0 <= m < k implies views_of(r@)[m] == want[m] by {
                if m < k - 1 {
                    assert(r@[m] == old_r[m]);
                    assert(views_of(old_r)[m] == want.take(k - 1)[m]);
                }
            }
            assert(views_of(r@) =~= want.take(k as int));
        }
    }
    proof {
        assert(want.take(want.len() as int) =~= want);
    }
    r
}

/// Every layout that adding `elem` to `parts` gives.
fn mix_in<A: Element>(elem: A, parts: Vec<Vec<A>>) -> (r: Vec<Vec<Vec<A>>>)
    ensures
        layouts_of(r@) == mixes(elem, views_of(parts@)),
{
    let ghost want = mixes(elem, views_of(parts@));
    let mut res: Vec<Vec<Vec<A>>> = Vec::new();
    let mut first = copy_parts(&parts);
    let mut single: Vec<A> = Vec::new();
    single.push(elem);
    first.push(single);
    res.push(first);
    proof {
        assert(views_of(first@) =~= views_of(parts@).push(seq![elem]));
        assert(layouts_of(res@) =~= want.take(1));
    }
    let mut i: usize = 0;
    while i < parts.len()
        invariant
            i <= parts.len(),
            want == mixes(elem, views_of(parts@)),
            want.len() == parts.len() + 1,
            layouts_of(res@) == want.take(i + 1),
        decreases parts.len() - i,
    {
        let copy = copy_layout(&parts, i, elem);
        let ghost cv = views_of(copy@);
        let ghost old_res = res@;
        res.push(copy);
        i = i + 1;
        proof {
            assert(layouts_of(old_res).len() == old_res.len());
            assert(want.take(i as int).len() == i);
            assert(views_of(parts@)[i - 1] == parts@[i - 1]@);
            assert(layouts_of(res@)[i as int] == cv);
            assert forall|m: int| 0 <= m < i implies layouts_of(res@)[m] == layouts_of(old_res)[m] by {
                assert(res@[m] == old_res[m]);
            }
            assert(want[i as int] == views_of(parts@).update(i - 1, views_of(parts@)[i - 1].push(elem)));
            assert(layouts_of(res@) =~= want.take(i + 1));
        }
    }
    proof {
        assert(want.take(want.len() as int) =~= want);
    }
    res
}

/// Every raw layout of `orig` into groups, built by mixing the first element
/// into each layout of the rest.
fn all_partitions<A: Element>(orig: Vec<A>) -> (r: Vec<Vec<Vec<A>>>)
    ensures
        layouts_of(r@) == layouts(orig@),
    decreases orig@.len(),
{
    if orig.len() == 0 {
        let r: Vec<Vec<Vec<A>>> = Vec::new();
        assert(layouts_of(r@) =~= layouts(orig@));
        return r;
    }
    if orig.len() == 1 {
        let g = copy_group(&orig);
        let mut p: Vec<Vec<A>> = Vec::new();
        p.push(g);
        let mut r: Vec<Vec<Vec<A>>> = Vec::new();
        r.push(p);
        proof {
            assert(views_of(p@) =~= seq![orig@]);
            assert(layouts_of(r@) =~= layouts(orig@));
        }
        return r;
    }
    let elem = orig[0];
    let mut sub: Vec<A> = Vec::new();
    let mut k: usize = 1;
    while k < orig.len()
        invariant
            1 <= k <= orig.len(),
            sub@ == orig@.subrange(1, k as int),
        decreases orig.len() - k,
    {
        sub.push(orig[k]);
        k = k + 1;
        proof {
            assert(sub@ =~= orig@.subrange(1, k as int));
        }
    }
    proof {
        assert(sub@ =~= orig@.drop_first());
    }
    let smaller_parts = all_partitions(sub);
    let ghost ps = layouts(orig@.drop_first());
    let mut res: Vec<Vec<Vec<A>>> = Vec::new();
    let mut i: usize = 0;
    proof {
        assert(ps.take(0) =~= Seq::<Seq<Seq<A>>>::empty());
        assert(layouts_of(res@) =~= mix_all(elem, ps.take(0)));
    }
    while i < smaller_parts.len()
        invariant
            i <= smaller_parts.len(),
            layouts_of(smaller_parts@) == ps,
            layouts_of(res@) == mix_all(elem, ps.take(i as int)),
        decreases smaller_parts.len() - i,
    {
        let p = copy_parts(&smaller_parts[i]);
        let mut mixed = mix_in(elem, p);
        proof {
            assert(views_of(p@) == ps[i as int]);
        }
        res.append(&mut mixed);
        i = i + 1;
        proof {
            let t = ps.take(i as int);
            assert(t.drop_last() =~= ps.take(i - 1));
            assert(t.last() == ps[i - 1]);
            assert(layouts_of(res@) =~= mix_all(elem, t));
        }
    }
    proof {
        assert(ps.take(ps.len() as int) =~= ps);
    }
    res
}

impl<A: Element> Partition<A> {
    /// The groups in canonical order, each in ascending order.
    pub closed spec fn groups(self) -> Seq<Seq<A>> {
        views_of(self.parts@)
    }

    /// The stored layout is canonical: groups non-empty, ascending and
    /// disjoint, ordered by their smallest element.
    pub open spec fn wf(self) -> bool {
        canonical(self.groups())
    }

    /// Puts a group that shares no element with the partition in its place.
    fn add(&mut self, group: Vec<A>)
        requires
            old(self).wf(),
            group@.len() > 0,
            ascending(group@),
            group@.to_set().disjoint(union_of(old(self)@)),
        ensures
            final(self).wf(),
            final(self)@ == old(self)@.insert(group@.to_set()),
    {
        let ghost gs = self.groups();
        let ghost g = group@;
        proof {
            lemma_union_of_blocks(gs);
            assert forall|i: int, a: int| 0 <= i < gs.len() && 0 <= a < gs[i].len() implies
                #[trigger] gs[i][a] != g[0] by {
                assert(gs[i].contains(gs[i][a]));
                assert(placed(gs).contains(gs[i][a]));
                assert(g.to_set().contains(g[0]));
            }
        }
        proof {
            assert forall|m: int| 0 <= m < self.parts.len() implies #[trigger] self.parts@[m]@.len() > 0 by {
                assert(gs[m] == self.parts@[m]@);
            }
        }
        let mut p: usize = 0;
        while p < self.parts.len() && self.parts[p][0].precedes(&group[0])
            invariant
                p <= self.parts.len(),
                group@ == g,
                forall|m: int| 0 <= m < self.parts.len() ==> #[trigger] self.parts@[m]@.len() > 0,
                self.groups() == gs,
                canonical(gs),
                g.len() > 0,
                forall|m: int| 0 <= m < p ==> (#[trigger] gs[m])[0].rank() < g[0].rank(),
            decreases self.parts.len() - p,
        {
            proof {
                assert(gs[p as int] == self.parts@[p as int]@);
            }
            p = p + 1;
        }
        proof {
            if p < gs.len() {
                assert(gs[p as int] == self.parts@[p as int]@);
                if gs[p as int][0].rank() == g[0].rank() {
                    A::lemma_rank_injective(gs[p as int][0], g[0]);
                }
            }
        }
        self.parts.insert(p, group);
        proof {
            let ns = gs.insert(p as int, g);
            assert(self.groups() =~= ns);
            assert forall|i: int, j: int| 0 <= i < j < ns.len() implies
                #[trigger] ns[i][0].rank() < #[trigger] ns[j][0].rank() by {
                if j < p {
                } else if j == p {
                } else if i < p {
                    assert(ns[j] == gs[j - 1]);
                } else if i == p {
                    assert(ns[j] == gs[j - 1]);
                } else {
                    assert(ns[j] == gs[j - 1]);
                    assert(ns[i] == gs[i - 1]);
                }
            }
            assert forall|i: int, j: int, a: int, b: int|
                0 <= i < ns.len() && 0 <= j < ns.len() && i != j && 0 <= a < ns[i].len() && 0 <= b
                    < ns[j].len() implies #[trigger] ns[i][a] != #[trigger] ns[j][b] by {
                let oi = if i < p { i } else { i - 1 };
                let oj = if j < p { j } else { j - 1 };
                if i == p {
                    assert(gs[oj].contains(ns[j][b]));
                    assert(placed(gs).contains(ns[j][b]));
                    assert(g.to_set().contains(g[a]));
                } else if j == p {
                    assert(gs[oi].contains(ns[i][a]));
                    assert(placed(gs).contains(ns[i][a]));
                    assert(g.to_set().contains(g[b]));
                } else {
                    assert(ns[i] == gs[oi]);
                    assert(ns[j] == gs[oj]);
                }
            }
            assert forall|i: int| 0 <= i < ns.len() implies #[trigger] ns[i].len() > 0 && ascending(ns[i]) by {
                if i > p {
                    assert(ns[i] == gs[i - 1]);
                } else if i < p {
                    assert(ns[i] == gs[i]);
                }
            }
            assert forall|x: Set<A>| blocks(ns).contains(x) <==> blocks(gs).insert(g.to_set()).contains(x) by {
                if blocks(ns).contains(x) {
                    let i = choose|i: int| 0 <= i < ns.len() && x == #[trigger] ns[i].to_set();
                    if i < p {
                        assert(ns[i] == gs[i]);
                    } else if i > p {
                        assert(ns[i] == gs[i - 1]);
                    }
                }
                if blocks(gs).contains(x) {
                    let i = choose|i: int| 0 <= i < gs.len() && x == #[trigger] gs[i].to_set();
                    if i < p {
                        assert(ns[i] == gs[i]);
                    } else {
                        assert(ns[i + 1] == gs[i]);
                    }
                }
                if x == g.to_set() {
                    assert(ns[p as int] == g);
                }
            }
            assert(blocks(ns) =~= blocks(gs).insert(g.to_set()));
        }
    }

    /// Builds a partition from raw groups, first seen wins: each group keeps
    /// the elements that no earlier group holds, repeats within a group
    /// collapse, and a group left with nothing is dropped.
    pub fn new(junk: Vec<Vec<A>>) -> (r: Self)
        ensures
            r.wf(),
            r@ == built(views_of(junk@)),
    {
        let ghost all = views_of(junk@);
        let mut base = Partition::create_empty();
        let mut seen: Vec<A> = Vec::new();
        let mut i: usize = 0;
        proof {
            assert(all.take(0) =~= Seq::<Seq<A>>::empty());
            assert(seen@.to_set() =~= placed(all.take(0)));
        }
        while i < junk.len()
            invariant
                all == views_of(junk@),
                i <= junk.len(),
                base.wf(),
                ascending(seen@),
                base@ == built(all.take(i as int)),
                seen@.to_set() == placed(all.take(i as int)),
            decreases junk.len() - i,
        {
            let group = &junk[i];
            let ghost before = seen@.to_set();
            let mut fresh: Vec<A> = Vec::new();
            let mut j: usize = 0;
            proof {
                assert(fresh@.to_set() =~= group@.take(0).to_set().difference(before));
            }
            while j < group.len()
                invariant
                    j <= group.len(),
                    ascending(fresh@),
                    ascending(seen@),
                    seen@.to_set() == before,
                    fresh@.to_set() == group@.take(j as int).to_set().difference(before),
                decreases group.len() - j,
            {
                proof {
                    lemma_insert_to_set(group@.take(j as int), j as int, group@[j as int]);
                    assert(group@.take(j as int).insert(j as int, group@[j as int]) =~= group@.take(j + 1));
                }
                if !contains_elem(&seen, &group[j]) {
                    insert_sorted(&mut fresh, group[j]);
                }
                proof {
                    assert(fresh@.to_set() =~= group@.take(j + 1).to_set().difference(before));
                }
                j = j + 1;
            }
            let ghost prev = all.take(i as int);
            let ghost next = all.take(i + 1);
            proof {
                assert(group@.take(group@.len() as int) =~= group@);
                assert(next.drop_last() =~= prev);
                assert(next.last() == group@);
                assert forall|a: A| placed(next).contains(a) <==> (placed(prev).contains(a) || group@.contains(a)) by {
                    if placed(next).contains(a) {
                        let k = choose|k: int| 0 <= k < next.len() && #[trigger] next[k].contains(a);
                        if k < i {
                            assert(prev[k] == next[k]);
                        }
                    }
                    if placed(prev).contains(a) {
                        let k = choose|k: int| 0 <= k < prev.len() && #[trigger] prev[k].contains(a);
                        assert(prev[k] == next[k]);
                    }
                    if group@.contains(a) {
                        assert(next[i as int] == group@);
                    }
                }
                lemma_union_of_built(prev);
            }
            j = 0;
            while j < group.len()
                invariant
                    j <= group.len(),
                    ascending(seen@),
                    seen@.to_set() == before.union(group@.take(j as int).to_set()),
                decreases group.len() - j,
            {
                proof {
                    lemma_insert_to_set(group@.take(j as int), j as int, group@[j as int]);
                    assert(group@.take(j as int).insert(j as int, group@[j as int]) =~= group@.take(j + 1));
                }
                insert_sorted(&mut seen, group[j]);
                proof {
                    assert(seen@.to_set() =~= before.union(group@.take(j + 1).to_set()));
                }
                j = j + 1;
            }
            proof {
                assert(seen@.to_set() =~= placed(next));
            }
            if fresh.len() > 0 {
                proof {
                    assert(fresh@.to_set().contains(fresh@[0]));
                    assert(fresh@.to_set().disjoint(union_of(base@)));
                }
                base.add(fresh);
            } else {
                proof {
                    assert(group@.to_set().difference(placed(prev)) =~= Set::<A>::empty());
                }
            }
            i = i + 1;
        }
        proof {
            assert(all.take(junk.len() as int) =~= all);
        }
        base
    }

    /// The union of all groups, in ascending order.
    pub fn full_set(&self) -> (r: Vec<A>)
        requires
            self.wf(),
        ensures
            ascending(r@),
            r@.to_set() == union_of(self@),
    {
        let ghost gs = self.groups();
        let mut acc: Vec<A> = Vec::new();
        let mut i: usize = 0;
        proof {
            assert(acc@.to_set() =~= placed(gs.take(0)));
        }
        while i < self.parts.len()
            invariant
                gs == self.groups(),
                i <= self.parts.len(),
                ascending(acc@),
                acc@.to_set() == placed(gs.take(i as int)),
            decreases self.parts.len() - i,
        {
            let group = &self.parts[i];
            let ghost before = acc@.to_set();
            let mut j: usize = 0;
            proof {
                assert(group@.take(0).to_set() =~= Set::<A>::empty());
                assert(before.union(group@.take(0).to_set()) =~= before);
            }
            while j < group.len()
                invariant
                    j <= group.len(),
                    ascending(acc@),
                    acc@.to_set() == before.union(group@.take(j as int).to_set()),
                decreases group.len() - j,
            {
                proof {
                    lemma_insert_to_set(group@.take(j as int), j as int, group@[j as int]);
                    assert(group@.take(j as int).insert(j as int, group@[j as int]) =~= group@.take(j + 1));
                }
                insert_sorted(&mut acc, group[j]);
                proof {
                    assert(acc@.to_set() =~= before.union(group@.take(j + 1).to_set()));
                }
                j = j + 1;
            }
            proof {
                let prev = gs.take(i as int);
                let next = gs.take(i + 1);
                assert(group@.take(group@.len() as int) =~= group@);
                assert(gs[i as int] == group@);
                assert forall|a: A| placed(next).contains(a) <==> (placed(prev).contains(a) || group@.contains(a)) by {
                    if placed(next).contains(a) {
                        let k = choose|k: int| 0 <= k < next.len() && #[trigger] next[k].contains(a);
                        if k < i {
                            assert(prev[k] == next[k]);
                        }
                    }
                    if placed(prev).contains(a) {
                        let k = choose|k: int| 0 <= k < prev.len() && #[trigger] prev[k].contains(a);
                        assert(prev[k] == next[k]);
                    }
                    if group@.contains(a) {
                        assert(next[i as int] == group@);
                    }
                }
                assert(acc@.to_set() =~= placed(next));
            }
            i = i + 1;
        }
        proof {
            assert(gs.take(gs.len() as int) =~= gs);
            lemma_union_of_blocks(gs);
        }
        acc
    }

    /// The printed form `[[e1, e2], [e3], ...]`: groups by their smallest
    /// element, elements ascending.
    pub fn to_string(&self) -> (r: String)
        requires
            self.wf(),
        ensures
            r@ == render(self.groups()),
            canonical(self.groups()),
    {
        let ghost gs = self.groups();
        let mut out = String::new();
        proof {
            reveal_strlit("[[");
        }
        out.append("[[");
        let mut i: usize = 0;
        proof {
            assert(gs.take(0) =~= Seq::<Seq<A>>::empty());
            assert(out@ =~= seq!['[', '['] + groups_text(gs.take(0)));
        }
        while i < self.parts.len()
            invariant
                gs == self.groups(),
                i <= self.parts.len(),
                out@ == seq!['[', '['] + groups_text(gs.take(i as int)),
            decreases self.parts.len() - i,
        {
            let ghost before = out@;
            if i > 0 {
                proof {
                    reveal_strlit("], [");
                }
                out.append("], [");
                assert(out@ == before + seq![']', ',', ' ', '[']);
            }
            let ghost start = out@;
            let group = &self.parts[i];
            let mut j: usize = 0;
            proof {
                assert(group@.take(0) =~= Seq::<A>::empty());
                assert(out@ =~= start + group_text(group@.take(0)));
            }
            while j < group.len()
                invariant
                    j <= group.len(),
                    out@ == start + group_text(group@.take(j as int)),
                decreases group.len() - j,
            {
                let ghost before = out@;
                if j > 0 {
                    proof {
                        reveal_strlit(", ");
                    }
                    out.append(", ");
                    assert(out@ == before + seq![',', ' ']);
                }
                let ghost mid = out@;
                group[j].write_text(&mut out);
                assert(out@ == mid + group@[j as int].text());
                proof {
                    let t = group@.take(j + 1);
                    assert(t.drop_last() =~= group@.take(j as int));
                    assert(t.last() == group@[j as int]);
                    if j == 0 {
                        assert(group_text(t) == group@[0].text());
                    }
                    assert(out@ =~= start + group_text(t));
                }
                j = j + 1;
            }
            proof {
                let t = gs.take(i + 1);
                assert(group@.take(group@.len() as int) =~= group@);
                assert(t.drop_last() =~= gs.take(i as int));
                assert(t.last() == gs[i as int]);
                assert(gs[i as int] == group@);
                if i == 0 {
                    assert(groups_text(t) == group_text(gs[0]));
                }
                assert(out@ =~= seq!['[', '['] + groups_text(t));
            }
            i = i + 1;
        }
        let ghost before = out@;
        proof {
            reveal_strlit("]]");
        }
        out.append("]]");
        assert(out@ == before + seq![']', ']']);
        proof {
            assert(gs.take(gs.len() as int) =~= gs);
            assert(out@ =~= render(gs));
        }
        out
    }

    /// Every partition of the distinct elements of `orig` (none for an empty
    /// sequence), each in canonical form.
    pub fn all_partitions(orig: Vec<A>) -> (r: Vec<Self>)
        requires
            orig@.no_duplicates(),
        ensures
            r.len() == layouts(orig@).len(),
            orig.len() == 0 ==> r.len() == 0,
            forall|i: int| 0 <= i < r.len() ==> (#[trigger] r[i]).wf()
                && r[i]@ == blocks(layouts(orig@)[i])
                && is_partition_of(r[i]@, orig@.to_set()),
            forall|q: Set<Set<A>>| orig.len() > 0 && is_partition_of(q, orig@.to_set())
                ==> exists|i: int| 0 <= i < r.len() && (#[trigger] r[i])@ == q,
            forall|i: int, j: int| 0 <= i < j < r.len() ==> (#[trigger] r[i])@ != (#[trigger] r[j])@,
    {
        let ghost ls = layouts(orig@);
        let raw = all_partitions(orig);
        proof {
            lemma_layouts_sound(orig@);
        }
        let mut res: Vec<Self> = Vec::new();
        let mut i: usize = 0;
        while i < raw.len()
            invariant
                i <= raw.len(),
                layouts_of(raw@) == ls,
                forall|k: int| 0 <= k < ls.len() ==> layout_of(#[trigger] ls[k], orig@.to_set()),
                res.len() == i,
                forall|k: int| 0 <= k < i ==> (#[trigger] res[k]).wf()
                    && res[k]@ == blocks(ls[k])
                    && is_partition_of(res[k]@, orig@.to_set()),
            decreases raw.len() - i,
        {
            let p = copy_parts(&raw[i]);
            let part = Partition::new(p);
            proof {
                assert(views_of(p@) == ls[i as int]);
                assert(layout_of(ls[i as int], orig@.to_set()));
                lemma_built_disjoint(ls[i as int]);
                lemma_layout_partition(ls[i as int], orig@.to_set());
            }
            res.push(part);
            i = i + 1;
        }
        proof {
            assert forall|q: Set<Set<A>>| orig.len() > 0 && is_partition_of(q, orig@.to_set())
                implies exists|i: int| 0 <= i < res.len() && (#[trigger] res[i])@ == q by {
                lemma_layouts_complete(orig@, q);
                let i = choose|i: int| 0 <= i < ls.len() && blocks(#[trigger] ls[i]) == q;
                assert(res[i]@ == q);
            }
            lemma_layouts_distinct(orig@);
        }
        res
    }

    /// The groups in canonical order, each in ascending order.
    pub fn group_list(&self) -> (r: &Vec<Vec<A>>)
        requires
            self.wf(),
        ensures
            views_of(r@) == self.groups(),
            canonical(views_of(r@)),
    {
        &self.parts
    }

    /// The partition with no groups.
    pub fn create_empty() -> (r: Self)
        ensures
            r.wf(),
            r@ == Set::<Set<A>>::empty(),
            r.groups() == Seq::<Seq<A>>::empty(),
    {
        let r = Partition { parts: Vec::new() };
        assert(r.groups() =~= Seq::<Seq<A>>::empty());
        assert(r@ =~= Set::<Set<A>>::empty());
        r
    }

    /// Whether the partition has no groups.
    pub fn empty(&self) -> (r: bool)
        ensures
            r == (self@ == Set::<Set<A>>::empty()),
    {
        if self.parts.len() == 0 {
            assert(self@ =~= Set::<Set<A>>::empty());
            true
        } else {
            assert(self@.contains(self.groups()[0].to_set()));
            false
        }
    }
}

} // verus!

verus! {

/// The groups of a partition, given back to `new`, build the same partition.
pub proof fn lemma_rebuild_from_groups<A: Element>(p: Partition<A>)
    requires
        p.wf(),
    ensures
        built(p.groups()) == p@,
{
    lemma_built_disjoint(p.groups());
}

/// Printing depends only on which groups a partition has, not on the order
/// in which they were given to it.
pub proof fn lemma_display_canonical<A: Element>(p: Partition<A>, q: Partition<A>)
    requires
        p.wf(),
        q.wf(),
        p@ == q@,
    ensures
        render(p.groups()) == render(q.groups()),
{
    lemma_canonical_unique(p.groups(), q.groups());
}

} // verus!
