use vstd::prelude::*;
use core::cmp::Ordering;

verus! {

/// Handle of a DFA state: its index in the cache arena.
pub type DfaStateHandle = usize;

/// One cached DFA state: the canonical (sorted, duplicate-free) set of NFA
/// nodes it stands for, its lazily grown transition memo, and its links in
/// the splay tree.
#[derive(Debug)]
pub struct DfaBTreeState {
    pub nfa_nodes: Vec<usize>,
    pub transform: Vec<(char, DfaStateHandle)>,
    pub l_child: Option<DfaStateHandle>,
    pub r_child: Option<DfaStateHandle>,
    pub parent: Option<DfaStateHandle>,
}

/// The DFA state cache: a splay tree over the arena of states, ordered by the
/// length-then-lexicographic comparison of their node sets.
#[derive(Debug)]
pub struct DfaBTree {
    pub states: Vec<DfaBTreeState>,
    pub root: Option<DfaStateHandle>,
}

// ---------------------------------------------------------------------------
// The key order: shorter node sets first, equal lengths lexicographically.
// ---------------------------------------------------------------------------

/// Lexicographic order on sequences of equal length.
pub open spec fn lex_lt(a: Seq<usize>, b: Seq<usize>) -> bool
    decreases a.len(),
{
    a.len() > 0 && b.len() > 0 && (a[0] < b[0] || (a[0] == b[0] && lex_lt(
        a.drop_first(),
        b.drop_first(),
    )))
}

/// The comparator of node sets: length first, then lexicographic.
pub open spec fn key_lt(a: Seq<usize>, b: Seq<usize>) -> bool {
    a.len() < b.len() || (a.len() == b.len() && lex_lt(a, b))
}

/// On equal lengths, `lex_lt` orders totally.
proof fn lemma_lex_total(a: Seq<usize>, b: Seq<usize>)
    requires
        a.len() == b.len(),
    ensures
        lex_lt(a, b) || lex_lt(b, a) || a == b,
        !(lex_lt(a, b) && lex_lt(b, a)),
        a == b ==> !lex_lt(a, b),
    decreases a.len(),
{
    if a.len() == 0 {
        assert(a =~= b);
    } else {
        lemma_lex_total(a.drop_first(), b.drop_first());
        if !lex_lt(a, b) && !lex_lt(b, a) {
            assert(a[0] == b[0]);
            assert(a.drop_first() == b.drop_first());
            assert forall|k: int| 0 <= k < a.len() implies a[k] == b[k] by {
                if k > 0 {
                    assert(a.drop_first()[k - 1] == b.drop_first()[k - 1]);
                }
            }
            assert(a =~= b);
        }
        if a == b {
            assert(a.drop_first() == b.drop_first());
        }
    }
}

/// The comparator orders totally: exactly one of the three outcomes holds.
pub proof fn lemma_key_trichotomy(a: Seq<usize>, b: Seq<usize>)
    ensures
        key_lt(a, b) || key_lt(b, a) || a == b,
        !(key_lt(a, b) && key_lt(b, a)),
        a == b ==> !key_lt(a, b) && !key_lt(b, a),
{
    if a.len() == b.len() {
        lemma_lex_total(a, b);
    }
}

proof fn lemma_lex_trans(a: Seq<usize>, b: Seq<usize>, c: Seq<usize>)
    requires
        a.len() == b.len(),
        b.len() == c.len(),
        lex_lt(a, b),
        lex_lt(b, c),
    ensures
        lex_lt(a, c),
    decreases a.len(),
{
    if a[0] == b[0] && b[0] == c[0] {
        lemma_lex_trans(a.drop_first(), b.drop_first(), c.drop_first());
    }
}

/// The comparator is transitive.
pub proof fn lemma_key_trans(a: Seq<usize>, b: Seq<usize>, c: Seq<usize>)
    requires
        key_lt(a, b),
        key_lt(b, c),
    ensures
        key_lt(a, c),
{
    if a.len() == b.len() && b.len() == c.len() {
        lemma_lex_trans(a, b, c);
    }
}

// ---------------------------------------------------------------------------
// The shape of the tree: in-order sequence of handles, computed from the
// child links with a fuel bound. `proper_at` says the recursion never runs
// out of fuel or range, so the sequence is the tree's true in-order walk.
// ---------------------------------------------------------------------------

/// Fuel that suffices for any genuine tree over this arena.
pub open spec fn tree_fuel(s: Seq<DfaBTreeState>) -> nat {
    s.len() + 1
}

/// In-order walk of the subtree rooted at `r`, cut off at `fuel`.
pub open spec fn in_order_at(s: Seq<DfaBTreeState>, r: Option<usize>, fuel: nat) -> Seq<usize>
    decreases fuel,
{
    match r {
        None => Seq::empty(),
        Some(i) => if fuel == 0 || i >= s.len() {
            Seq::empty()
        } else {
            in_order_at(s, s[i as int].l_child, (fuel - 1) as nat) + seq![i] + in_order_at(
                s,
                s[i as int].r_child,
                (fuel - 1) as nat,
            )
        },
    }
}

/// The recursion neither leaves the arena nor exhausts `fuel`.
pub open spec fn proper_at(s: Seq<DfaBTreeState>, r: Option<usize>, fuel: nat) -> bool
    decreases fuel,
{
    match r {
        None => true,
        Some(i) => fuel > 0 && i < s.len() && proper_at(s, s[i as int].l_child, (fuel - 1) as nat)
            && proper_at(s, s[i as int].r_child, (fuel - 1) as nat),
    }
}

/// The in-order walk of the whole tree.
pub open spec fn in_order(s: Seq<DfaBTreeState>, r: Option<usize>) -> Seq<usize> {
    in_order_at(s, r, tree_fuel(s))
}

/// Membership in a concatenation.
pub broadcast proof fn lemma_contains_cat(a: Seq<usize>, b: Seq<usize>, x: usize)
    ensures
        #[trigger] (a + b).contains(x) <==> a.contains(x) || b.contains(x),
{
    if a.contains(x) {
        let k = choose|k: int| 0 <= k < a.len() && a[k] == x;
        assert((a + b)[k] == x);
    }
    if b.contains(x) {
        let k = choose|k: int| 0 <= k < b.len() && b[k] == x;
        assert((a + b)[a.len() + k] == x);
    }
    if (a + b).contains(x) {
        let k = choose|k: int| 0 <= k < (a + b).len() && (a + b)[k] == x;
        if k < a.len() {
            assert(a[k] == x);
        } else {
            assert(b[k - a.len()] == x);
        }
    }
}

/// More fuel never changes a walk that already had enough.
proof fn lemma_proper_mono(s: Seq<DfaBTreeState>, r: Option<usize>, f1: nat, f2: nat)
    requires
        proper_at(s, r, f1),
        f1 <= f2,
    ensures
        proper_at(s, r, f2),
        in_order_at(s, r, f2) == in_order_at(s, r, f1),
    decreases f1,
{
    match r {
        None => {},
        Some(i) => {
            lemma_proper_mono(s, s[i as int].l_child, (f1 - 1) as nat, (f2 - 1) as nat);
            lemma_proper_mono(s, s[i as int].r_child, (f1 - 1) as nat, (f2 - 1) as nat);
        },
    }
}

/// Two sufficient fuels give the same walk.
proof fn lemma_fuel_indep(s: Seq<DfaBTreeState>, r: Option<usize>, fa: nat, fb: nat)
    requires
        proper_at(s, r, fa),
        proper_at(s, r, fb),
    ensures
        in_order_at(s, r, fa) == in_order_at(s, r, fb),
{
    if fa <= fb {
        lemma_proper_mono(s, r, fa, fb);
    } else {
        lemma_proper_mono(s, r, fb, fa);
    }
}

/// Every handle in a proper walk lies inside the arena.
proof fn lemma_io_elems(s: Seq<DfaBTreeState>, r: Option<usize>, f: nat)
    ensures
        forall|j: usize| #[trigger] in_order_at(s, r, f).contains(j) ==> j < s.len(),
    decreases f,
{
    broadcast use lemma_contains_cat;
    match r {
        None => {},
        Some(i) => {
            if f > 0 && i < s.len() {
                lemma_io_elems(s, s[i as int].l_child, (f - 1) as nat);
                lemma_io_elems(s, s[i as int].r_child, (f - 1) as nat);
                assert forall|j: usize| #[trigger]
                    in_order_at(s, r, f).contains(j) implies j < s.len() by {
                    let a = in_order_at(s, s[i as int].l_child, (f - 1) as nat);
                    let b = in_order_at(s, s[i as int].r_child, (f - 1) as nat);
                    assert(in_order_at(s, r, f) == a + seq![i] + b);
                    if !a.contains(j) && !b.contains(j) {
                        assert((seq![i]).contains(j) ==> j == i);
                    }
                }
            }
        },
    }
}

/// A member of a proper walk roots a proper subtree whose own walk is a
/// contiguous subrange of the larger walk.
proof fn lemma_subtree(s: Seq<DfaBTreeState>, r: Option<usize>, f: nat, m: usize)
    requires
        proper_at(s, r, f),
        in_order_at(s, r, f).contains(m),
    ensures
        proper_at(s, Some(m), f),
        forall|j: usize| #[trigger]
            in_order_at(s, Some(m), f).contains(j) ==> in_order_at(s, r, f).contains(j),
        exists|lo: int, hi: int|
            0 <= lo <= hi <= in_order_at(s, r, f).len() && in_order_at(s, Some(m), f)
                == #[trigger] in_order_at(s, r, f).subrange(lo, hi),
    decreases f,
{
    broadcast use lemma_contains_cat;

    match r {
        None => {
            assert(!in_order_at(s, r, f).contains(m));
        },
        Some(i) => {
            let io = in_order_at(s, r, f);
            let a = in_order_at(s, s[i as int].l_child, (f - 1) as nat);
            let b = in_order_at(s, s[i as int].r_child, (f - 1) as nat);
            assert(io == a + seq![i] + b);
            if m == i {
                lemma_proper_mono(s, Some(i), f, f);
                assert(in_order_at(s, Some(m), f) == io.subrange(0, io.len() as int)) by {
                    assert(io =~= io.subrange(0, io.len() as int));
                }
            } else if a.contains(m) {
                lemma_subtree(s, s[i as int].l_child, (f - 1) as nat, m);
                lemma_proper_mono(s, Some(m), (f - 1) as nat, f);
                lemma_fuel_indep(s, Some(m), f, (f - 1) as nat);
                let iom = in_order_at(s, Some(m), (f - 1) as nat);
                let (lo, hi) = choose|lo: int, hi: int|
                    0 <= lo <= hi <= a.len() && iom == #[trigger] a.subrange(lo, hi);
                assert(in_order_at(s, Some(m), f) == io.subrange(lo, hi)) by {
                    assert(iom =~= io.subrange(lo, hi));
                }
            } else {
                assert((seq![i]).contains(m) ==> m == i);
                assert(b.contains(m));
                lemma_subtree(s, s[i as int].r_child, (f - 1) as nat, m);
                lemma_proper_mono(s, Some(m), (f - 1) as nat, f);
                lemma_fuel_indep(s, Some(m), f, (f - 1) as nat);
                let iom = in_order_at(s, Some(m), (f - 1) as nat);
                let (lo, hi) = choose|lo: int, hi: int|
                    0 <= lo <= hi <= b.len() && iom == #[trigger] b.subrange(lo, hi);
                let lo2 = a.len() + 1 + lo;
                let hi2 = a.len() + 1 + hi;
                assert(in_order_at(s, Some(m), f) == io.subrange(lo2, hi2)) by {
                    assert(iom =~= io.subrange(lo2, hi2));
                }
            }
        },
    }
}

/// A subrange of a duplicate-free sequence is duplicate-free.
proof fn lemma_nodup_subrange(sq: Seq<usize>, lo: int, hi: int)
    requires
        sq.no_duplicates(),
        0 <= lo <= hi <= sq.len(),
    ensures
        sq.subrange(lo, hi).no_duplicates(),
{
    assert(forall|p: int, q: int|
        0 <= p < q < hi - lo ==> sq.subrange(lo, hi)[p] == sq[lo + p] && sq.subrange(lo, hi)[q]
            == sq[lo + q]);
}

/// A walk only reads the child links of the nodes it lists: arenas that agree
/// on those walk the same.
proof fn lemma_io_frame(s1: Seq<DfaBTreeState>, s2: Seq<DfaBTreeState>, r: Option<usize>, f: nat)
    requires
        proper_at(s1, r, f),
        forall|j: usize| #[trigger]
            in_order_at(s1, r, f).contains(j) ==> j < s1.len() && j < s2.len() && s2[j as int]
                .l_child == s1[j as int].l_child && s2[j as int].r_child == s1[j as int].r_child,
    ensures
        proper_at(s2, r, f),
        in_order_at(s2, r, f) == in_order_at(s1, r, f),
    decreases f,
{
    broadcast use lemma_contains_cat;

    match r {
        None => {},
        Some(i) => {
            let a = in_order_at(s1, s1[i as int].l_child, (f - 1) as nat);
            let b = in_order_at(s1, s1[i as int].r_child, (f - 1) as nat);
            assert(in_order_at(s1, r, f) == a + seq![i] + b);
            assert((a + seq![i] + b).contains(i)) by {
                assert((seq![i])[0] == i);
                assert((seq![i]).contains(i));
            }
            assert forall|j: usize| #[trigger] a.contains(j) implies j < s1.len() && j < s2.len()
                && s2[j as int].l_child == s1[j as int].l_child && s2[j as int].r_child
                == s1[j as int].r_child by {
                assert((a + seq![i] + b).contains(j));
            }
            assert forall|j: usize| #[trigger] b.contains(j) implies j < s1.len() && j < s2.len()
                && s2[j as int].l_child == s1[j as int].l_child && s2[j as int].r_child
                == s1[j as int].r_child by {
                assert((a + seq![i] + b).contains(j));
            }
            lemma_io_frame(s1, s2, s1[i as int].l_child, (f - 1) as nat);
            lemma_io_frame(s1, s2, s1[i as int].r_child, (f - 1) as nat);
        },
    }
}

/// A duplicate-free proper walk certifies that fuel one beyond its length is
/// enough for its subtree.
proof fn lemma_tight_proper(s: Seq<DfaBTreeState>, r: Option<usize>, f: nat)
    requires
        proper_at(s, r, f),
        in_order_at(s, r, f).no_duplicates(),
    ensures
        proper_at(s, r, in_order_at(s, r, f).len() + 1),
        in_order_at(s, r, in_order_at(s, r, f).len() + 1) == in_order_at(s, r, f),
    decreases f,
{
    broadcast use lemma_contains_cat;
    match r {
        None => {},
        Some(i) => {
            let a = in_order_at(s, s[i as int].l_child, (f - 1) as nat);
            let b = in_order_at(s, s[i as int].r_child, (f - 1) as nat);
            let io = in_order_at(s, r, f);
            assert(io == a + seq![i] + b);
            assert(a.no_duplicates() && b.no_duplicates()) by {
                assert(forall|p: int, q: int|
                    0 <= p < q < io.len() ==> io[p] != io[q] || p == q);
                assert(forall|p: int| 0 <= p < a.len() ==> a[p] == io[p]);
                assert(forall|p: int|
                    0 <= p < b.len() ==> b[p] == io[p + a.len() + 1]);
            }
            lemma_tight_proper(s, s[i as int].l_child, (f - 1) as nat);
            lemma_tight_proper(s, s[i as int].r_child, (f - 1) as nat);
            lemma_proper_mono(s, s[i as int].l_child, a.len() + 1, io.len());
            lemma_proper_mono(s, s[i as int].r_child, b.len() + 1, io.len());
            assert(proper_at(s, r, io.len() + 1));
            lemma_proper_mono(s, r, io.len() + 1, io.len() + 1);
            lemma_fuel_indep(s, r, io.len() + 1, f);
        },
    }
}

/// Splitting a duplicate-free walk around its root: the parts are
/// duplicate-free and mutually disjoint.
proof fn lemma_nodup_parts(a: Seq<usize>, i: usize, b: Seq<usize>)
    requires
        (a + seq![i] + b).no_duplicates(),
    ensures
        a.no_duplicates(),
        b.no_duplicates(),
        !a.contains(i),
        !b.contains(i),
        forall|x: usize| !(#[trigger] a.contains(x) && b.contains(x)),
{
    let io = a + seq![i] + b;
    assert(forall|p: int| 0 <= p < a.len() ==> a[p] == io[p]);
    assert(io[a.len() as int] == i);
    assert(forall|q: int| 0 <= q < b.len() ==> b[q] == io[a.len() + 1 + q]);
}

/// Exchanging the subtree under `m` for one with the same walk, leaving the
/// rest of the arena alone, leaves the whole walk unchanged. The fuel grows
/// by the replacement's own bound `gm`.
proof fn lemma_io_replace(
    s1: Seq<DfaBTreeState>,
    s2: Seq<DfaBTreeState>,
    r: Option<usize>,
    m: usize,
    f: nat,
    gm: nat,
)
    requires
        proper_at(s1, r, f),
        in_order_at(s1, r, f).no_duplicates(),
        in_order_at(s1, r, f).contains(m),
        forall|j: usize|
            #[trigger] in_order_at(s1, r, f).contains(j) && !in_order_at(s1, Some(m), f).contains(
                j,
            ) ==> j < s1.len() && j < s2.len() && s2[j as int].l_child == s1[j as int].l_child
                && s2[j as int].r_child == s1[j as int].r_child,
        proper_at(s2, Some(m), gm),
        in_order_at(s2, Some(m), gm) == in_order_at(s1, Some(m), f),
    ensures
        proper_at(s2, r, f + gm),
        in_order_at(s2, r, f + gm) == in_order_at(s1, r, f),
    decreases f,
{
    broadcast use lemma_contains_cat;

    let io1 = in_order_at(s1, r, f);
    let iom = in_order_at(s1, Some(m), f);
    lemma_subtree(s1, r, f, m);
    match r {
        None => {},
        Some(i) => {
            if i == m {
                lemma_proper_mono(s2, Some(m), gm, f + gm);
            } else {
                let l = s1[i as int].l_child;
                let rc = s1[i as int].r_child;
                let a = in_order_at(s1, l, (f - 1) as nat);
                let b = in_order_at(s1, rc, (f - 1) as nat);
                assert(io1 == a + seq![i] + b);
                lemma_nodup_parts(a, i, b);
                assert((seq![i]).contains(m) ==> m == i);
                if a.contains(m) {
                    lemma_subtree(s1, l, (f - 1) as nat, m);
                    lemma_fuel_indep(s1, Some(m), f, (f - 1) as nat);
                    // i is outside m's subtree, so its node is unchanged
                    assert(!iom.contains(i));
                    assert(io1.contains(i)) by {
                        assert((seq![i])[0] == i);
                        assert((seq![i]).contains(i));
                    }
                    assert(s2[i as int].l_child == s1[i as int].l_child && s2[i as int].r_child
                        == s1[i as int].r_child);
                    // the left subtree is rewritten below m only
                    assert forall|j: usize|
                        #[trigger] a.contains(j) && !in_order_at(s1, Some(m), (f - 1) as nat)
                            .contains(j) implies j < s1.len() && j < s2.len() && s2[j as int]
                        .l_child == s1[j as int].l_child && s2[j as int].r_child
                        == s1[j as int].r_child by {
                        assert(io1.contains(j));
                        assert(!iom.contains(j));
                    }
                    lemma_io_replace(s1, s2, l, m, (f - 1) as nat, gm);
                    // the right subtree is untouched
                    assert forall|j: usize| #[trigger] b.contains(j) implies j < s1.len() && j
                        < s2.len() && s2[j as int].l_child == s1[j as int].l_child
                        && s2[j as int].r_child == s1[j as int].r_child by {
                        assert(io1.contains(j));
                        assert(!iom.contains(j));
                    }
                    lemma_io_frame(s1, s2, rc, (f - 1) as nat);
                    lemma_proper_mono(s2, rc, (f - 1) as nat, (f + gm - 1) as nat);
                    assert(proper_at(s2, r, f + gm));
                    assert(in_order_at(s2, r, f + gm) == in_order_at(
                        s2,
                        l,
                        (f + gm - 1) as nat,
                    ) + seq![i] + in_order_at(s2, rc, (f + gm - 1) as nat));
                } else {
                    assert(b.contains(m));
                    lemma_subtree(s1, rc, (f - 1) as nat, m);
                    lemma_fuel_indep(s1, Some(m), f, (f - 1) as nat);
                    assert(!iom.contains(i));
                    assert(io1.contains(i)) by {
                        assert((seq![i])[0] == i);
                        assert((seq![i]).contains(i));
                    }
                    assert(s2[i as int].l_child == s1[i as int].l_child && s2[i as int].r_child
                        == s1[i as int].r_child);
                    assert forall|j: usize|
                        #[trigger] b.contains(j) && !in_order_at(s1, Some(m), (f - 1) as nat)
                            .contains(j) implies j < s1.len() && j < s2.len() && s2[j as int]
                        .l_child == s1[j as int].l_child && s2[j as int].r_child
                        == s1[j as int].r_child by {
                        assert(io1.contains(j));
                        assert(!iom.contains(j));
                    }
                    lemma_io_replace(s1, s2, rc, m, (f - 1) as nat, gm);
                    assert forall|j: usize| #[trigger] a.contains(j) implies j < s1.len() && j
                        < s2.len() && s2[j as int].l_child == s1[j as int].l_child
                        && s2[j as int].r_child == s1[j as int].r_child by {
                        assert(io1.contains(j));
                        assert(!iom.contains(j));
                    }
                    lemma_io_frame(s1, s2, l, (f - 1) as nat);
                    lemma_proper_mono(s2, l, (f - 1) as nat, (f + gm - 1) as nat);
                    assert(proper_at(s2, r, f + gm));
                    assert(in_order_at(s2, r, f + gm) == in_order_at(
                        s2,
                        l,
                        (f + gm - 1) as nat,
                    ) + seq![i] + in_order_at(s2, rc, (f + gm - 1) as nat));
                }
            }
        },
    }
}

// ---------------------------------------------------------------------------
// Well-formedness of the cache.
// ---------------------------------------------------------------------------

/// The key a state is filed under.
pub open spec fn key_of(s: Seq<DfaBTreeState>, i: usize) -> Seq<usize> {
    s[i as int].nfa_nodes@
}

/// A child link points into the arena and back to its parent.
pub open spec fn child_ok(s: Seq<DfaBTreeState>, c: Option<usize>, i: usize) -> bool {
    match c {
        None => true,
        Some(j) => j < s.len() && s[j as int].parent == Some(i),
    }
}

/// A parent link points into the arena and down to this node.
pub open spec fn parent_ok(s: Seq<DfaBTreeState>, p: Option<usize>, i: usize) -> bool {
    match p {
        None => true,
        Some(p) => p < s.len() && (s[p as int].l_child == Some(i) || s[p as int].r_child == Some(
            i,
        )),
    }
}

/// Parent and child links of every node agree with each other.
pub open spec fn links_ok(s: Seq<DfaBTreeState>) -> bool {
    forall|i: usize|
        i < s.len() ==> child_ok(s, #[trigger] s[i as int].l_child, i) && child_ok(
            s,
            s[i as int].r_child,
            i,
        ) && parent_ok(s, s[i as int].parent, i)
}

/// The walk lists keys in strictly increasing comparator order.
pub open spec fn io_sorted(s: Seq<DfaBTreeState>, io: Seq<usize>) -> bool {
    forall|p: int, q: int|
        #![trigger io[p], io[q]]
        0 <= p < q < io.len() ==> key_lt(key_of(s, io[p]), key_of(s, io[q]))
}

/// The splay tree invariant: coherent links, a genuine tree that reaches
/// every allocated state exactly once, and keys in strictly increasing
/// in-order sequence.
pub open spec fn tree_wf(s: Seq<DfaBTreeState>, root: Option<usize>) -> bool {
    &&& links_ok(s)
    &&& (match root {
        None => true,
        Some(r) => r < s.len() && s[r as int].parent is None,
    })
    &&& proper_at(s, root, tree_fuel(s))
    &&& in_order(s, root).no_duplicates()
    &&& in_order(s, root).len() == s.len()
    &&& (forall|j: usize| j < s.len() ==> #[trigger] in_order(s, root).contains(j))
    &&& io_sorted(s, in_order(s, root))
}

/// Within a tree, every member other than the root has a parent.
proof fn lemma_parent_in_tree(s: Seq<DfaBTreeState>, rt: usize, f: nat, j: usize)
    requires
        links_ok(s),
        proper_at(s, Some(rt), f),
        in_order_at(s, Some(rt), f).contains(j),
        j != rt,
    ensures
        s[j as int].parent is Some,
    decreases f,
{
    broadcast use lemma_contains_cat;

    let a = in_order_at(s, s[rt as int].l_child, (f - 1) as nat);
    let b = in_order_at(s, s[rt as int].r_child, (f - 1) as nat);
    assert(in_order_at(s, Some(rt), f) == a + seq![rt] + b);
    assert((seq![rt]).contains(j) ==> j == rt);
    if a.contains(j) {
        let lc = s[rt as int].l_child->0;
        assert(s[rt as int].l_child == Some(lc));
        assert(child_ok(s, s[rt as int].l_child, rt));
        if j == lc {
            assert(s[j as int].parent == Some(rt));
        } else {
            lemma_parent_in_tree(s, lc, (f - 1) as nat, j);
        }
    } else {
        assert(b.contains(j));
        let rc = s[rt as int].r_child->0;
        assert(s[rt as int].r_child == Some(rc));
        assert(child_ok(s, s[rt as int].r_child, rt));
        if j == rc {
            assert(s[j as int].parent == Some(rt));
        } else {
            lemma_parent_in_tree(s, rc, (f - 1) as nat, j);
        }
    }
}

/// The child of `x` that a rotation of `x` above its parent `p` hands over
/// to `p`: the one on the side `x` came from.
pub open spec fn rotated_child(s: Seq<DfaBTreeState>, x: usize, p: usize) -> Option<usize> {
    if s[p as int].l_child == Some(x) {
        s[x as int].r_child
    } else {
        s[x as int].l_child
    }
}

// ---------------------------------------------------------------------------
// Parent chains: ancestry and depth, used to show that splaying makes
// progress and ends exactly at its target.
// ---------------------------------------------------------------------------

/// `a` is a strict ancestor of `i`: following parent links from `i` reaches
/// `a` within `fuel` steps.
pub open spec fn is_anc(s: Seq<DfaBTreeState>, i: usize, a: usize, fuel: nat) -> bool
    decreases fuel,
{
    i < s.len() && (match s[i as int].parent {
        None => false,
        Some(p) => p == a || (fuel > 0 && is_anc(s, p, a, (fuel - 1) as nat)),
    })
}

/// The number of parent-link steps from `i` up to the root, cut off at
/// `fuel`.
pub open spec fn depth_of(s: Seq<DfaBTreeState>, i: usize, fuel: nat) -> nat
    decreases fuel,
{
    match s[i as int].parent {
        None => 0,
        Some(p) => if fuel == 0 || p >= s.len() {
            0
        } else {
            (1 + depth_of(s, p, (fuel - 1) as nat)) as nat
        },
    }
}

/// A parent's subtree walk strictly contains its child's.
proof fn lemma_parent_walk(s: Seq<DfaBTreeState>, root: Option<usize>, j: usize)
    requires
        tree_wf(s, root),
        j < s.len(),
        s[j as int].parent is Some,
    ensures
        s[j as int].parent->0 < s.len(),
        proper_at(s, Some(j), tree_fuel(s)),
        proper_at(s, Some(s[j as int].parent->0), tree_fuel(s)),
        in_order_at(s, Some(s[j as int].parent->0), tree_fuel(s)).len() >= in_order_at(
            s,
            Some(j),
            tree_fuel(s),
        ).len() + 1,
        in_order_at(s, Some(j), tree_fuel(s)).len() <= s.len(),
        in_order_at(s, Some(s[j as int].parent->0), tree_fuel(s)).len() <= s.len(),
{
    broadcast use lemma_contains_cat;

    let ff = tree_fuel(s);
    let p = s[j as int].parent->0;
    let io0 = in_order(s, root);
    assert(child_ok(s, s[j as int].l_child, j) && parent_ok(s, s[j as int].parent, j));
    assert(io0.contains(j) && io0.contains(p));
    lemma_subtree(s, root, ff, j);
    lemma_subtree(s, root, ff, p);
    let (jl, jh) = choose|lo: int, hi: int|
        0 <= lo <= hi <= io0.len() && in_order_at(s, Some(j), ff) == #[trigger] io0.subrange(
            lo,
            hi,
        );
    let (pl, ph) = choose|lo: int, hi: int|
        0 <= lo <= hi <= io0.len() && in_order_at(s, Some(p), ff) == #[trigger] io0.subrange(
            lo,
            hi,
        );
    let a = in_order_at(s, s[p as int].l_child, (ff - 1) as nat);
    let b = in_order_at(s, s[p as int].r_child, (ff - 1) as nat);
    assert(in_order_at(s, Some(p), ff) == a + seq![p] + b);
    lemma_fuel_indep(s, Some(j), ff, (ff - 1) as nat);
    if s[p as int].l_child == Some(j) {
        assert(a == in_order_at(s, Some(j), (ff - 1) as nat));
    } else {
        assert(s[p as int].r_child == Some(j));
        assert(b == in_order_at(s, Some(j), (ff - 1) as nat));
    }
}

/// Above the slack threshold, the depth does not depend on the fuel, and
/// neither does ancestry.
proof fn lemma_chain_stable(s: Seq<DfaBTreeState>, root: Option<usize>, j: usize, f: nat)
    requires
        tree_wf(s, root),
        j < s.len(),
        s.len() <= in_order_at(s, Some(j), tree_fuel(s)).len() + f,
    ensures
        depth_of(s, j, f) == depth_of(s, j, s.len() as nat),
        forall|tt: usize| #[trigger] is_anc(s, j, tt, f) == is_anc(s, j, tt, s.len() as nat),
    decreases s.len() - in_order_at(s, Some(j), tree_fuel(s)).len(),
{
    let ff = tree_fuel(s);
    let cap = s.len() as nat;
    match s[j as int].parent {
        None => {},
        Some(p) => {
            lemma_parent_walk(s, root, j);
            assert(in_order_at(s, Some(j), ff).len() < s.len());
            assert(f >= 1 && cap >= 1);
            lemma_chain_stable(s, root, p, (f - 1) as nat);
            lemma_chain_stable(s, root, p, (cap - 1) as nat);
            assert(depth_of(s, j, f) == 1 + depth_of(s, p, (f - 1) as nat));
            assert(depth_of(s, j, cap) == 1 + depth_of(s, p, (cap - 1) as nat));
            assert forall|tt: usize| #[trigger] is_anc(s, j, tt, f) == is_anc(s, j, tt, cap) by {
                assert(is_anc(s, p, tt, (f - 1) as nat) == is_anc(s, p, tt, cap));
                assert(is_anc(s, p, tt, (cap - 1) as nat) == is_anc(s, p, tt, cap));
            }
        },
    }
}

/// Every strict ancestor roots a strictly larger subtree walk.
proof fn lemma_anc_walk(s: Seq<DfaBTreeState>, root: Option<usize>, j: usize, a: usize)
    requires
        tree_wf(s, root),
        j < s.len(),
        is_anc(s, j, a, s.len() as nat),
    ensures
        a < s.len(),
        in_order_at(s, Some(a), tree_fuel(s)).len() >= in_order_at(s, Some(j), tree_fuel(s)).len()
            + 1,
    decreases s.len() - in_order_at(s, Some(j), tree_fuel(s)).len(),
{
    let ff = tree_fuel(s);
    let cap = s.len() as nat;
    let p = s[j as int].parent->0;
    lemma_parent_walk(s, root, j);
    if p != a {
        assert(is_anc(s, p, a, (cap - 1) as nat));
        lemma_chain_stable(s, root, p, (cap - 1) as nat);
        lemma_anc_walk(s, root, p, a);
    }
}

/// Depth and ancestry only read the parent links on the chain itself: an
/// arena that agrees on them gives the same chain.
proof fn lemma_chain_frame(
    s0: Seq<DfaBTreeState>,
    s1: Seq<DfaBTreeState>,
    root0: Option<usize>,
    j: usize,
    f: nat,
)
    requires
        tree_wf(s0, root0),
        j < s0.len(),
        s1.len() == s0.len(),
        s0.len() <= in_order_at(s0, Some(j), tree_fuel(s0)).len() + f,
        s1[j as int].parent == s0[j as int].parent,
        forall|a: usize|
            #[trigger] is_anc(s0, j, a, s0.len() as nat) ==> a < s0.len() && s1[a as int].parent
                == s0[a as int].parent,
    ensures
        depth_of(s1, j, f) == depth_of(s0, j, f),
        forall|tt: usize| #[trigger] is_anc(s1, j, tt, f) == is_anc(s0, j, tt, f),
    decreases s0.len() - in_order_at(s0, Some(j), tree_fuel(s0)).len(),
{
    let cap = s0.len() as nat;
    match s0[j as int].parent {
        None => {},
        Some(p) => {
            lemma_parent_walk(s0, root0, j);
            assert(is_anc(s0, j, p, cap));
            assert(s1[p as int].parent == s0[p as int].parent);
            assert forall|a: usize| #[trigger] is_anc(s0, p, a, cap) implies a < s0.len()
                && s1[a as int].parent == s0[a as int].parent by {
                lemma_chain_stable(s0, root0, p, (cap - 1) as nat);
                assert(is_anc(s0, p, a, (cap - 1) as nat));
                assert(is_anc(s0, j, a, cap));
            }
            assert(in_order_at(s0, Some(j), tree_fuel(s0)).len() < s0.len());
            assert(f >= 1);
            lemma_chain_frame(s0, s1, root0, p, (f - 1) as nat);
            assert forall|tt: usize| #[trigger] is_anc(s1, j, tt, f) == is_anc(
                s0,
                j,
                tt,
                f,
            ) by {
                assert(is_anc(s1, p, tt, (f - 1) as nat) == is_anc(s0, p, tt, (f - 1) as nat));
            }
        },
    }
}

/// One rotation lifts the pivot exactly one level: its depth drops by one
/// and its ancestors become exactly its old parent's ancestors.
proof fn lemma_rotate_depth(
    s0: Seq<DfaBTreeState>,
    s1: Seq<DfaBTreeState>,
    root0: Option<usize>,
    x: usize,
    p: usize,
)
    requires
        tree_wf(s0, root0),
        x < s0.len(),
        s0[x as int].parent == Some(p),
        s1.len() == s0.len(),
        s1[x as int].parent == s0[p as int].parent,
        forall|j: usize|
            j < s0.len() && j != x && j != p && Some(j) != rotated_child(s0, x, p)
                ==> s1[j as int].parent == s0[j as int].parent,
    ensures
        depth_of(s1, x, s1.len() as nat) + 1 == depth_of(s0, x, s0.len() as nat),
        forall|tt: usize|
            #[trigger] is_anc(s1, x, tt, s1.len() as nat) == is_anc(s0, p, tt, s0.len() as nat),
{
    broadcast use lemma_contains_cat;

    let cap = s0.len() as nat;
    let ff = tree_fuel(s0);
    lemma_rotate_distinct(s0, root0, x, p);
    lemma_parent_walk(s0, root0, x);
    let t_opt = rotated_child(s0, x, p);
    assert(cap >= 1);
    match s0[p as int].parent {
        None => {
            assert(depth_of(s1, x, cap) == 0);
            assert(depth_of(s0, p, (cap - 1) as nat) == 0);
            assert(depth_of(s0, x, cap) == 1);
        },
        Some(m) => {
            lemma_parent_walk(s0, root0, p);
            // m sits outside p's subtree, so it is none of the rewired nodes
            assert(m != x && m != p);
            assert(s1[m as int].parent == s0[m as int].parent) by {
                match t_opt {
                    Some(t) => {
                        assert(in_order_at(s0, Some(p), ff).contains(t));
                        assert(m != t);
                    },
                    None => {},
                }
            }
            assert forall|a: usize| #[trigger] is_anc(s0, m, a, cap) implies a < s0.len()
                && s1[a as int].parent == s0[a as int].parent by {
                lemma_anc_walk(s0, root0, m, a);
                assert(a != x && a != p);
                match t_opt {
                    Some(t) => {
                        assert(s0[t as int].parent == Some(x));
                        lemma_parent_walk(s0, root0, t);
                        assert(a != t);
                    },
                    None => {},
                }
            }
            lemma_chain_frame(s0, s1, root0, m, (cap - 1) as nat);
            assert(depth_of(s1, x, cap) == 1 + depth_of(s1, m, (cap - 1) as nat));
            assert(depth_of(s1, m, (cap - 1) as nat) == depth_of(s0, m, (cap - 1) as nat));
            assert(depth_of(s0, x, cap) == 1 + depth_of(s0, p, (cap - 1) as nat));
            lemma_chain_stable(s0, root0, p, (cap - 1) as nat);
            assert(depth_of(s0, p, cap) == 1 + depth_of(s0, m, (cap - 1) as nat));
            assert forall|tt: usize|
                #[trigger] is_anc(s1, x, tt, cap) == is_anc(s0, p, tt, cap) by {
                assert(is_anc(s1, m, tt, (cap - 1) as nat) == is_anc(
                    s0,
                    m,
                    tt,
                    (cap - 1) as nat,
                ));
            }
        },
    }
}

/// The node a rotation hinges on, its parent, grandparent and transferred
/// child are pairwise distinct, and each relevant link slot is unambiguous.
proof fn lemma_rotate_distinct(s: Seq<DfaBTreeState>, root: Option<usize>, x: usize, p: usize)
    requires
        tree_wf(s, root),
        x < s.len(),
        s[x as int].parent == Some(p),
    ensures
        p < s.len(),
        p != x,
        s[p as int].l_child == Some(x) || s[p as int].r_child == Some(x),
        s[p as int].l_child == Some(x) ==> s[p as int].r_child != Some(x),
        s[x as int].l_child is Some && s[x as int].l_child == s[x as int].r_child ==> false,
        proper_at(s, Some(p), tree_fuel(s)),
        in_order_at(s, Some(p), tree_fuel(s)).no_duplicates(),
        in_order_at(s, Some(p), tree_fuel(s)).len() + 1 <= tree_fuel(s),
        in_order_at(s, Some(p), tree_fuel(s)).contains(x),
        in_order_at(s, Some(p), tree_fuel(s)).contains(p),
        forall|t: usize|
            s[x as int].l_child == Some(t) || s[x as int].r_child == Some(t) ==> t < s.len() && t
                != x && t != p && #[trigger] in_order_at(s, Some(p), tree_fuel(s)).contains(t)
                && s[t as int].parent == Some(x),
        forall|c: usize|
            s[p as int].l_child == Some(c) || s[p as int].r_child == Some(c) ==> c < s.len() && c
                != p && #[trigger] in_order_at(s, Some(p), tree_fuel(s)).contains(c)
                && s[c as int].parent == Some(p),
        match s[p as int].parent {
            Some(m) => m < s.len() && (s[m as int].l_child == Some(p) || s[m as int].r_child
                == Some(p)) && (s[m as int].l_child == Some(p) ==> s[m as int].r_child != Some(p))
                && !in_order_at(s, Some(p), tree_fuel(s)).contains(m) && in_order(s, root).contains(
                m,
            ),
            None => root == Some(p),
        },
{
    broadcast use lemma_contains_cat;

    let ff = tree_fuel(s);
    let io0 = in_order(s, root);
    assert(io0.contains(x));
    assert(parent_ok(s, s[x as int].parent, x));
    assert(io0.contains(p));
    lemma_subtree(s, root, ff, p);
    let iop = in_order_at(s, Some(p), ff);
    let (plo, phi) = choose|lo: int, hi: int|
        0 <= lo <= hi <= io0.len() && iop == #[trigger] io0.subrange(lo, hi);
    lemma_nodup_subrange(io0, plo, phi);
    assert(iop.len() <= io0.len());
    let a = in_order_at(s, s[p as int].l_child, (ff - 1) as nat);
    let b = in_order_at(s, s[p as int].r_child, (ff - 1) as nat);
    assert(iop == a + seq![p] + b);
    lemma_nodup_parts(a, p, b);
    // x roots one of the two child walks and is a member of it
    let iox1 = in_order_at(s, Some(x), (ff - 1) as nat);
    let ax = in_order_at(s, s[x as int].l_child, (ff - 2) as nat);
    let bx = in_order_at(s, s[x as int].r_child, (ff - 2) as nat);
    if s[p as int].l_child == Some(x) {
        assert(iox1 == a);
    } else {
        assert(iox1 == b);
    }
    assert(iox1 == ax + seq![x] + bx);
    assert(iox1.contains(x)) by {
        assert((seq![x])[0] == x);
        assert((seq![x]).contains(x));
    }
    lemma_nodup_parts(ax, x, bx);
    assert(iop.contains(x));
    assert(p != x);
    if s[p as int].l_child == Some(x) && s[p as int].r_child == Some(x) {
        assert(a == b);
        assert(a.contains(x) && b.contains(x));
        assert(false);
    }
    assert(proper_at(s, Some(x), (ff - 1) as nat)) by {
        if s[p as int].l_child == Some(x) {
            assert(proper_at(s, s[p as int].l_child, (ff - 1) as nat));
        } else {
            assert(proper_at(s, s[p as int].r_child, (ff - 1) as nat));
        }
    }
    if s[x as int].l_child is Some && s[x as int].l_child == s[x as int].r_child {
        assert(ax == bx);
        let c = s[x as int].l_child->0;
        assert(proper_at(s, s[x as int].l_child, (ff - 2) as nat));
        assert(proper_at(s, Some(c), (ff - 2) as nat));
        assert(ax.contains(c)) by {
            let al = in_order_at(s, s[c as int].l_child, (ff - 3) as nat);
            let ar = in_order_at(s, s[c as int].r_child, (ff - 3) as nat);
            assert(ax == al + seq![c] + ar);
            assert((seq![c])[0] == c);
            assert((seq![c]).contains(c));
        }
        assert(false);
    }
    assert(iop.contains(p)) by {
        assert((seq![p])[0] == p);
        assert((seq![p]).contains(p));
    }
    // any child of p sits inside p's walk
    assert forall|c: usize|
        s[p as int].l_child == Some(c) || s[p as int].r_child == Some(c) implies c < s.len() && c
        != p && #[trigger] in_order_at(s, Some(p), tree_fuel(s)).contains(c) && s[c as int].parent
        == Some(p) by {
        assert(child_ok(s, s[p as int].l_child, p));
        assert(child_ok(s, s[p as int].r_child, p));
        assert(proper_at(s, Some(c), (ff - 1) as nat)) by {
            if s[p as int].l_child == Some(c) {
                assert(proper_at(s, s[p as int].l_child, (ff - 1) as nat));
            } else {
                assert(proper_at(s, s[p as int].r_child, (ff - 1) as nat));
            }
        }
        let ul = in_order_at(s, s[c as int].l_child, (ff - 2) as nat);
        let ur = in_order_at(s, s[c as int].r_child, (ff - 2) as nat);
        assert((seq![c])[0] == c);
        assert((seq![c]).contains(c));
        if s[p as int].l_child == Some(c) {
            assert(a == ul + seq![c] + ur);
            assert(a.contains(c));
        } else {
            assert(b == ul + seq![c] + ur);
            assert(b.contains(c));
        }
        assert(iop.contains(c));
    }
    // any child of x sits strictly inside x's walk
    assert forall|t: usize|
        s[x as int].l_child == Some(t) || s[x as int].r_child == Some(t) implies t < s.len() && t
        != x && t != p && #[trigger] in_order_at(s, Some(p), tree_fuel(s)).contains(t) && s[t as int]
        .parent == Some(x) by {
        assert(child_ok(s, s[x as int].l_child, x));
        assert(child_ok(s, s[x as int].r_child, x));
        assert(proper_at(s, Some(t), (ff - 2) as nat)) by {
            if s[x as int].l_child == Some(t) {
                assert(proper_at(s, s[x as int].l_child, (ff - 2) as nat));
            } else {
                assert(proper_at(s, s[x as int].r_child, (ff - 2) as nat));
            }
        }
        let tl = in_order_at(s, s[t as int].l_child, (ff - 3) as nat);
        let tr = in_order_at(s, s[t as int].r_child, (ff - 3) as nat);
        assert((seq![t])[0] == t);
        assert((seq![t]).contains(t));
        if s[x as int].l_child == Some(t) {
            assert(ax == tl + seq![t] + tr);
            assert(ax.contains(t));
        } else {
            assert(bx == tl + seq![t] + tr);
            assert(bx.contains(t));
        }
        assert(iox1.contains(t));
        assert(iop.contains(t));
    }
    // the grandparent sits outside p's walk
    match s[p as int].parent {
        Some(m) => {
            assert(parent_ok(s, s[p as int].parent, p));
            assert(io0.contains(m));
            lemma_subtree(s, root, ff, m);
            let iom = in_order_at(s, Some(m), ff);
            let (mlo, mhi) = choose|lo: int, hi: int|
                0 <= lo <= hi <= io0.len() && iom == #[trigger] io0.subrange(lo, hi);
            lemma_nodup_subrange(io0, mlo, mhi);
            let cl = in_order_at(s, s[m as int].l_child, (ff - 1) as nat);
            let cr = in_order_at(s, s[m as int].r_child, (ff - 1) as nat);
            assert(iom == cl + seq![m] + cr);
            lemma_nodup_parts(cl, m, cr);
            let iopm = in_order_at(s, Some(p), (ff - 1) as nat);
            lemma_fuel_indep(s, Some(p), ff, (ff - 1) as nat);
            assert(iopm == iop);
            assert(iop.contains(p));
            if s[m as int].l_child == Some(p) && s[m as int].r_child == Some(p) {
                assert(cl == cr);
                assert(cl.contains(p) && cr.contains(p));
                assert(false);
            }
            if s[m as int].l_child == Some(p) {
                assert(cl == iopm);
                assert(!iop.contains(m));
            } else {
                assert(cr == iopm);
                assert(!iop.contains(m));
            }
        },
        None => {
            let r0 = root->0;
            assert(root == Some(r0));
            if p != r0 {
                lemma_parent_in_tree(s, r0, ff, p);
                assert(false);
            }
        },
    }
}

/// After relinking `x` above its parent `p` (one rotation, links below the
/// grandparent only), the subtree now rooted at `x` walks exactly as the
/// subtree rooted at `p` walked before.
proof fn lemma_rotate_local(
    s0: Seq<DfaBTreeState>,
    s1: Seq<DfaBTreeState>,
    x: usize,
    p: usize,
    t_opt: Option<usize>,
    x_left: bool,
    fp: nat,
)
    requires
        s1.len() == s0.len(),
        x < s0.len(),
        p < s0.len(),
        x != p,
        proper_at(s0, Some(p), fp),
        in_order_at(s0, Some(p), fp).no_duplicates(),
        in_order_at(s0, Some(p), fp).len() + 1 <= fp,
        x_left ==> s0[p as int].l_child == Some(x) && t_opt == s0[x as int].r_child,
        !x_left ==> s0[p as int].r_child == Some(x) && t_opt == s0[x as int].l_child,
        forall|j: usize|
            #[trigger] in_order_at(s0, Some(p), fp).contains(j) && j != x && j != p ==> j
                < s0.len() && s1[j as int].l_child == s0[j as int].l_child && s1[j as int].r_child
                == s0[j as int].r_child,
        s1[x as int].l_child == (if x_left {
            s0[x as int].l_child
        } else {
            Some(p)
        }),
        s1[x as int].r_child == (if x_left {
            Some(p)
        } else {
            s0[x as int].r_child
        }),
        s1[p as int].l_child == (if x_left {
            t_opt
        } else {
            s0[p as int].l_child
        }),
        s1[p as int].r_child == (if x_left {
            s0[p as int].r_child
        } else {
            t_opt
        }),
    ensures
        proper_at(s1, Some(x), fp),
        in_order_at(s1, Some(x), fp) == in_order_at(s0, Some(p), fp),
    decreases fp,
{
    broadcast use lemma_contains_cat;

    let iop = in_order_at(s0, Some(p), fp);
    if x_left {
        let lx = s0[x as int].l_child;
        let pr = s0[p as int].r_child;
        let iox = in_order_at(s0, Some(x), (fp - 1) as nat);
        let ax = in_order_at(s0, lx, (fp - 2) as nat);
        let bx = in_order_at(s0, t_opt, (fp - 2) as nat);
        let bp = in_order_at(s0, pr, (fp - 1) as nat);
        assert(proper_at(s0, Some(x), (fp - 1) as nat));
        assert(iop == iox + seq![p] + bp);
        assert(iox == ax + seq![x] + bx);
        lemma_nodup_parts(iox, p, bp);
        lemma_nodup_parts(ax, x, bx);
        assert(iox.contains(x)) by {
            assert((seq![x])[0] == x);
            assert((seq![x]).contains(x));
        }
        assert(iop.len() == ax.len() + bx.len() + bp.len() + 2);
        // the kept child of p drops one level: re-derive its fuel from its size
        lemma_tight_proper(s0, pr, (fp - 1) as nat);
        lemma_proper_mono(s0, pr, bp.len() + 1, (fp - 2) as nat);
        assert(in_order_at(s0, pr, (fp - 2) as nat) == bp);
        // frame all three pieces onto the rewired arena
        assert forall|j: usize| #[trigger] ax.contains(j) implies j < s0.len() && j < s1.len()
            && s1[j as int].l_child == s0[j as int].l_child && s1[j as int].r_child
            == s0[j as int].r_child by {
            assert(iox.contains(j));
            assert(iop.contains(j));
        }
        assert forall|j: usize| #[trigger] bx.contains(j) implies j < s0.len() && j < s1.len()
            && s1[j as int].l_child == s0[j as int].l_child && s1[j as int].r_child
            == s0[j as int].r_child by {
            assert(iox.contains(j));
            assert(iop.contains(j));
        }
        assert forall|j: usize| #[trigger] bp.contains(j) implies j < s0.len() && j < s1.len()
            && s1[j as int].l_child == s0[j as int].l_child && s1[j as int].r_child
            == s0[j as int].r_child by {
            assert(iop.contains(j));
            assert(!iox.contains(j));
            assert(j != x && j != p);
        }
        lemma_io_frame(s0, s1, lx, (fp - 2) as nat);
        lemma_io_frame(s0, s1, t_opt, (fp - 2) as nat);
        lemma_io_frame(s0, s1, pr, (fp - 2) as nat);
        assert(proper_at(s1, Some(p), (fp - 1) as nat));
        assert(in_order_at(s1, Some(p), (fp - 1) as nat) == bx + seq![p] + bp);
        lemma_proper_mono(s1, lx, (fp - 2) as nat, (fp - 1) as nat);
        assert(proper_at(s1, Some(x), fp));
        assert(in_order_at(s1, Some(x), fp) == ax + seq![x] + (bx + seq![p] + bp));
        assert(in_order_at(s1, Some(x), fp) =~= iop);
    } else {
        let rx = s0[x as int].r_child;
        let pl = s0[p as int].l_child;
        let iox = in_order_at(s0, Some(x), (fp - 1) as nat);
        let ax = in_order_at(s0, t_opt, (fp - 2) as nat);
        let bx = in_order_at(s0, rx, (fp - 2) as nat);
        let ap = in_order_at(s0, pl, (fp - 1) as nat);
        assert(proper_at(s0, Some(x), (fp - 1) as nat));
        assert(iop == ap + seq![p] + iox);
        assert(iox == ax + seq![x] + bx);
        lemma_nodup_parts(ap, p, iox);
        lemma_nodup_parts(ax, x, bx);
        assert(iox.contains(x)) by {
            assert((seq![x])[0] == x);
            assert((seq![x]).contains(x));
        }
        assert(iop.len() == ax.len() + bx.len() + ap.len() + 2);
        lemma_tight_proper(s0, pl, (fp - 1) as nat);
        lemma_proper_mono(s0, pl, ap.len() + 1, (fp - 2) as nat);
        assert(in_order_at(s0, pl, (fp - 2) as nat) == ap);
        assert forall|j: usize| #[trigger] ax.contains(j) implies j < s0.len() && j < s1.len()
            && s1[j as int].l_child == s0[j as int].l_child && s1[j as int].r_child
            == s0[j as int].r_child by {
            assert(iox.contains(j));
            assert(iop.contains(j));
        }
        assert forall|j: usize| #[trigger] bx.contains(j) implies j < s0.len() && j < s1.len()
            && s1[j as int].l_child == s0[j as int].l_child && s1[j as int].r_child
            == s0[j as int].r_child by {
            assert(iox.contains(j));
            assert(iop.contains(j));
        }
        assert forall|j: usize| #[trigger] ap.contains(j) implies j < s0.len() && j < s1.len()
            && s1[j as int].l_child == s0[j as int].l_child && s1[j as int].r_child
            == s0[j as int].r_child by {
            assert(iop.contains(j));
            assert(!iox.contains(j));
            assert(j != x && j != p);
        }
        lemma_io_frame(s0, s1, t_opt, (fp - 2) as nat);
        lemma_io_frame(s0, s1, rx, (fp - 2) as nat);
        lemma_io_frame(s0, s1, pl, (fp - 2) as nat);
        assert(proper_at(s1, Some(p), (fp - 1) as nat));
        assert(in_order_at(s1, Some(p), (fp - 1) as nat) == ap + seq![p] + ax);
        lemma_proper_mono(s1, rx, (fp - 2) as nat, (fp - 1) as nat);
        assert(proper_at(s1, Some(x), fp));
        assert(in_order_at(s1, Some(x), fp) == (ap + seq![p] + ax) + seq![x] + bx);
        assert(in_order_at(s1, Some(x), fp) =~= iop);
    }
}

/// Exchanging the subtree under `m` for one with a possibly different walk,
/// leaving the rest of the arena alone, splices the new walk into the old
/// place. The arena may also have grown.
#[verifier::rlimit(100)]
#[verifier::spinoff_prover]
proof fn lemma_io_graft(
    s1: Seq<DfaBTreeState>,
    s2: Seq<DfaBTreeState>,
    r: Option<usize>,
    m: usize,
    f: nat,
    gm: nat,
    a: Seq<usize>,
    b: Seq<usize>,
)
    requires
        s1.len() <= s2.len(),
        proper_at(s1, r, f),
        in_order_at(s1, r, f).no_duplicates(),
        in_order_at(s1, r, f).contains(m),
        in_order_at(s1, r, f) == a + in_order_at(s1, Some(m), f) + b,
        forall|j: usize|
            #[trigger] in_order_at(s1, r, f).contains(j) && !in_order_at(s1, Some(m), f).contains(
                j,
            ) ==> j < s1.len() && s2[j as int].l_child == s1[j as int].l_child && s2[j as int]
                .r_child == s1[j as int].r_child,
        proper_at(s2, Some(m), gm),
    ensures
        proper_at(s2, r, f + gm),
        in_order_at(s2, r, f + gm) == a + in_order_at(s2, Some(m), gm) + b,
    decreases f,
{
    broadcast use lemma_contains_cat;

    let io1 = in_order_at(s1, r, f);
    let iom = in_order_at(s1, Some(m), f);
    let w = in_order_at(s2, Some(m), gm);
    lemma_subtree(s1, r, f, m);
    match r {
        None => {},
        Some(i) => {
            if i == m {
                lemma_proper_mono(s2, Some(m), gm, f + gm);
                assert(a.len() == 0 && b.len() == 0) by {
                    assert(io1.len() == a.len() + iom.len() + b.len());
                }
                assert(a + w + b =~= w);
            } else {
                let l = s1[i as int].l_child;
                let rc = s1[i as int].r_child;
                let al = in_order_at(s1, l, (f - 1) as nat);
                let bl = in_order_at(s1, rc, (f - 1) as nat);
                assert(io1 == al + seq![i] + bl);
                lemma_nodup_parts(al, i, bl);
                assert((seq![i]).contains(m) ==> m == i);
                assert(!iom.contains(i)) by {
                    if iom.contains(i) {
                        if al.contains(m) {
                            lemma_subtree(s1, l, (f - 1) as nat, m);
                            lemma_fuel_indep(s1, Some(m), f, (f - 1) as nat);
                            assert(al.contains(i));
                        } else {
                            assert(bl.contains(m));
                            lemma_subtree(s1, rc, (f - 1) as nat, m);
                            lemma_fuel_indep(s1, Some(m), f, (f - 1) as nat);
                            assert(bl.contains(i));
                        }
                        assert(false);
                    }
                }
                assert(io1.contains(i)) by {
                    assert((seq![i])[0] == i);
                    assert((seq![i]).contains(i));
                }
                assert(s2[i as int].l_child == s1[i as int].l_child && s2[i as int].r_child
                    == s1[i as int].r_child);
                // the m-walk occupies positions [a.len(), a.len() + iom.len())
                assert(forall|idx: int|
                    0 <= idx < iom.len() ==> io1[a.len() + idx] == iom[idx]);
                if al.contains(m) {
                    lemma_subtree(s1, l, (f - 1) as nat, m);
                    lemma_fuel_indep(s1, Some(m), f, (f - 1) as nat);
                    // every position of the m-walk lies inside the left part
                    assert forall|idx: int|
                        #![trigger io1[idx]]
                        a.len() <= idx < a.len() + iom.len() implies idx < al.len() by {
                        let e = io1[idx];
                        assert(iom.contains(e)) by {
                            assert(iom[idx - a.len()] == e);
                        }
                        lemma_subtree(s1, l, (f - 1) as nat, m);
                        assert(al.contains(e));
                        let k = choose|k: int| 0 <= k < al.len() && al[k] == e;
                        assert(io1[k] == e);
                        assert(k == idx);
                    }
                    assert(iom.len() > 0);
                    assert(io1[a.len() as int + iom.len() as int - 1] == iom[iom.len() as int - 1]);
                    assert(a.len() + iom.len() <= al.len());
                    let b1 = al.subrange(a.len() as int + iom.len() as int, al.len() as int);
                    assert(al == a + iom + b1) by {
                        assert(forall|k: int| 0 <= k < al.len() ==> al[k] == io1[k]);
                        assert(al =~= a + iom + b1);
                    }
                    assert forall|j: usize|
                        #[trigger] al.contains(j) && !in_order_at(s1, Some(m), (f - 1) as nat)
                            .contains(j) implies j < s1.len() && s2[j as int].l_child
                        == s1[j as int].l_child && s2[j as int].r_child
                        == s1[j as int].r_child by {
                        assert(io1.contains(j));
                        assert(!iom.contains(j));
                    }
                    lemma_io_graft(s1, s2, l, m, (f - 1) as nat, gm, a, b1);
                    assert forall|j: usize| #[trigger] bl.contains(j) implies j < s1.len() && j
                        < s2.len() && s2[j as int].l_child == s1[j as int].l_child
                        && s2[j as int].r_child == s1[j as int].r_child by {
                        assert(io1.contains(j));
                        assert(!iom.contains(j)) by {
                            lemma_subtree(s1, l, (f - 1) as nat, m);
                            if iom.contains(j) {
                                assert(al.contains(j));
                            }
                        }
                    }
                    lemma_io_frame(s1, s2, rc, (f - 1) as nat);
                    lemma_proper_mono(s2, rc, (f - 1) as nat, (f + gm - 1) as nat);
                    assert(proper_at(s2, r, f + gm));
                    assert(in_order_at(s2, r, f + gm) == (a + w + b1) + seq![i] + bl);
                    assert(b == b1 + seq![i] + bl) by {
                        assert(io1 == (a + iom + b1) + seq![i] + bl);
                        assert(forall|k: int| 0 <= k < al.len() ==> al[k] == io1[k]);
                        assert(forall|k: int|
                            0 <= k < b.len() ==> b[k] == io1[a.len() + iom.len() + k]);
                        assert(forall|k: int|
                            0 <= k < bl.len() ==> bl[k] == io1[al.len() + 1 + k]);
                        assert(io1[al.len() as int] == i);
                        assert(b =~= b1 + seq![i] + bl);
                    }
                    assert((a + w + b1) + seq![i] + bl =~= a + w + (b1 + seq![i] + bl));
                } else {
                    assert(bl.contains(m));
                    lemma_subtree(s1, rc, (f - 1) as nat, m);
                    lemma_fuel_indep(s1, Some(m), f, (f - 1) as nat);
                    // the m-walk starts after the left part and the root
                    assert forall|idx: int|
                        #![trigger io1[idx]]
                        a.len() <= idx < a.len() + iom.len() implies idx >= al.len() + 1 by {
                        let e = io1[idx];
                        assert(iom.contains(e)) by {
                            assert(iom[idx - a.len()] == e);
                        }
                        lemma_subtree(s1, rc, (f - 1) as nat, m);
                        assert(bl.contains(e));
                        let k = choose|k: int| 0 <= k < bl.len() && bl[k] == e;
                        assert(io1[al.len() + 1 + k] == e);
                        assert(al.len() + 1 + k == idx);
                    }
                    assert(iom.len() > 0);
                    assert(io1[a.len() as int] == iom[0]);
                    assert(a.len() >= al.len() + 1);
                    let a1 = a.subrange(al.len() + 1 as int, a.len() as int);
                    assert(a == al + seq![i] + a1) by {
                        assert(forall|k: int| 0 <= k < a.len() ==> a[k] == io1[k]);
                        assert(a =~= al + seq![i] + a1);
                    }
                    assert(bl == a1 + iom + b) by {
                        assert(forall|k: int| 0 <= k < bl.len() ==> bl[k] == io1[al.len() + 1 + k]);
                        assert(bl =~= a1 + iom + b);
                    }
                    assert forall|j: usize|
                        #[trigger] bl.contains(j) && !in_order_at(s1, Some(m), (f - 1) as nat)
                            .contains(j) implies j < s1.len() && s2[j as int].l_child
                        == s1[j as int].l_child && s2[j as int].r_child
                        == s1[j as int].r_child by {
                        assert(io1.contains(j));
                        assert(!iom.contains(j));
                    }
                    lemma_io_graft(s1, s2, rc, m, (f - 1) as nat, gm, a1, b);
                    assert forall|j: usize| #[trigger] al.contains(j) implies j < s1.len() && j
                        < s2.len() && s2[j as int].l_child == s1[j as int].l_child
                        && s2[j as int].r_child == s1[j as int].r_child by {
                        assert(io1.contains(j));
                        assert(!iom.contains(j)) by {
                            lemma_subtree(s1, rc, (f - 1) as nat, m);
                            if iom.contains(j) {
                                assert(bl.contains(j));
                            }
                        }
                    }
                    lemma_io_frame(s1, s2, l, (f - 1) as nat);
                    lemma_proper_mono(s2, l, (f - 1) as nat, (f + gm - 1) as nat);
                    assert(proper_at(s2, r, f + gm));
                    assert(in_order_at(s2, r, f + gm) == al + seq![i] + (a1 + w + b));
                    assert(al + seq![i] + (a1 + w + b) =~= (al + seq![i] + a1) + w + b);
                    assert((al + seq![i] + a1) + w + b == a + w + b);
                }
            }
        },
    }
}

/// Some state already carries this node set.
pub open spec fn key_present(s: Seq<DfaBTreeState>, k: Seq<usize>) -> bool {
    exists|i: usize| i < s.len() && s[i as int].nfa_nodes@ == k
}

/// Hanging a fresh leaf with the frontier key under the node where the
/// search ran out keeps the tree well formed, and splices the leaf into the
/// walk exactly between the two sides of the search.
#[verifier::rlimit(100)]
#[verifier::spinoff_prover]
proof fn lemma_attach_leaf(
    s: Seq<DfaBTreeState>,
    s1: Seq<DfaBTreeState>,
    r0: Option<usize>,
    z: usize,
    last: usize,
    attach_left: bool,
    lo: Seq<usize>,
    hi: Seq<usize>,
    key: Seq<usize>,
)
    requires
        tree_wf(s, r0),
        in_order(s, r0) == lo + hi,
        forall|k: int| 0 <= k < lo.len() ==> key_lt(key_of(s, #[trigger] lo[k]), key),
        forall|k: int| 0 <= k < hi.len() ==> key_lt(key, key_of(s, #[trigger] hi[k])),
        last < s.len(),
        attach_left ==> s[last as int].l_child is None && hi.len() > 0 && hi[0] == last,
        !attach_left ==> s[last as int].r_child is None && lo.len() > 0 && lo[lo.len() - 1]
            == last,
        z == s.len(),
        s1.len() == s.len() + 1,
        s1[z as int].nfa_nodes@ == key,
        s1[z as int].l_child is None,
        s1[z as int].r_child is None,
        s1[z as int].parent == Some(last),
        s1[last as int].l_child == (if attach_left {
            Some(z)
        } else {
            s[last as int].l_child
        }),
        s1[last as int].r_child == (if attach_left {
            s[last as int].r_child
        } else {
            Some(z)
        }),
        s1[last as int].parent == s[last as int].parent,
        s1[last as int].nfa_nodes == s[last as int].nfa_nodes,
        forall|j: int| 0 <= j < s.len() && j != last ==> s1[j] == s[j],
    ensures
        tree_wf(s1, r0),
        in_order(s1, r0) == lo + seq![z] + hi,
{
    broadcast use lemma_contains_cat;

    let io0 = in_order(s, r0);
    let ff = tree_fuel(s);
    lemma_io_elems(s, r0, ff);

    assert(io0.contains(last)) by {
        if attach_left {
            assert(io0[lo.len() as int] == last);
        } else {
            assert(io0[lo.len() - 1] == last);
        }
    }
    lemma_subtree(s, r0, ff, last);
    let iom = in_order_at(s, Some(last), ff);
    let am = in_order_at(s, s[last as int].l_child, (ff - 1) as nat);
    let bm = in_order_at(s, s[last as int].r_child, (ff - 1) as nat);
    assert(iom == am + seq![last] + bm);
    let (mlo, mhi) = choose|p: int, q: int|
        0 <= p <= q <= io0.len() && iom == #[trigger] io0.subrange(p, q);
    lemma_nodup_subrange(io0, mlo, mhi);
    lemma_nodup_parts(am, last, bm);
    // where last stands inside io0
    assert(iom[am.len() as int] == last);
    assert(io0[mlo + am.len()] == last);
    let lastpos: int = if attach_left {
        lo.len() as int
    } else {
        lo.len() - 1
    };
    assert(io0[lastpos] == last);
    assert(mlo + am.len() == lastpos);
    let a_seq = io0.subrange(0, mlo);
    let b_seq = io0.subrange(mhi, io0.len() as int);
    assert(io0 =~= a_seq + iom + b_seq);
    let gm = ff + 1;
    if attach_left {
        assert(am.len() == 0) by {
            assert(in_order_at(s, s[last as int].l_child, (ff - 1) as nat)
                =~= Seq::<usize>::empty());
        }
        assert forall|j: usize| #[trigger] bm.contains(j) implies j < s.len() && j
            < s1.len() && s1[j as int].l_child == s[j as int].l_child && s1[j as int]
            .r_child == s[j as int].r_child by {
            assert(iom.contains(j));
            assert(io0.contains(j));
            assert(j != last);
        }
        lemma_io_frame(s, s1, s[last as int].r_child, (ff - 1) as nat);
        assert(s1[last as int].l_child == Some(z));
        assert(s1[last as int].r_child == s[last as int].r_child);
        assert(z < s1.len());
        assert(s1[z as int].l_child is None);
        assert(s1[z as int].r_child is None);
        assert(proper_at(s1, None, 0));
        assert(proper_at(s1, Some(z), 1));
        lemma_proper_mono(s1, Some(z), 1, (gm - 1) as nat);
        assert(in_order_at(s1, None, 0) == Seq::<usize>::empty());
        assert(in_order_at(s1, Some(z), 1) =~= seq![z]);
        lemma_proper_mono(s1, s[last as int].r_child, (ff - 1) as nat, (gm - 1) as nat);
        assert(proper_at(s1, Some(last), gm));
        assert(in_order_at(s1, Some(last), gm) == seq![z] + seq![last] + bm);
        assert(in_order_at(s1, Some(last), gm) =~= seq![z] + iom);
    } else {
        assert(bm.len() == 0) by {
            assert(in_order_at(s, s[last as int].r_child, (ff - 1) as nat)
                =~= Seq::<usize>::empty());
        }
        assert forall|j: usize| #[trigger] am.contains(j) implies j < s.len() && j
            < s1.len() && s1[j as int].l_child == s[j as int].l_child && s1[j as int]
            .r_child == s[j as int].r_child by {
            assert(iom.contains(j));
            assert(io0.contains(j));
            assert(j != last);
        }
        lemma_io_frame(s, s1, s[last as int].l_child, (ff - 1) as nat);
        assert(s1[last as int].r_child == Some(z));
        assert(s1[last as int].l_child == s[last as int].l_child);
        assert(z < s1.len());
        assert(s1[z as int].l_child is None);
        assert(s1[z as int].r_child is None);
        assert(proper_at(s1, None, 0));
        assert(proper_at(s1, Some(z), 1));
        lemma_proper_mono(s1, Some(z), 1, (gm - 1) as nat);
        assert(in_order_at(s1, None, 0) == Seq::<usize>::empty());
        assert(in_order_at(s1, Some(z), 1) =~= seq![z]);
        lemma_proper_mono(s1, s[last as int].l_child, (ff - 1) as nat, (gm - 1) as nat);
        assert(proper_at(s1, Some(last), gm));
        assert(in_order_at(s1, Some(last), gm) == am + seq![last] + seq![z]);
        assert(in_order_at(s1, Some(last), gm) =~= iom + seq![z]);
    }
    // graft the enlarged subtree back into its place
    assert forall|j: usize|
        #[trigger] io0.contains(j) && !iom.contains(j) implies j < s.len() && s1[j as int]
        .l_child == s[j as int].l_child && s1[j as int].r_child
        == s[j as int].r_child by {
        assert(j != last);
    }
    lemma_io_graft(s, s1, r0, last, ff, gm, a_seq, b_seq);
    let w = in_order_at(s1, Some(last), gm);
    let io2 = in_order_at(s1, r0, ff + gm);
    assert(io2 == a_seq + w + b_seq);
    let io2v = lo + seq![z] + hi;
    // the new walk is the old one with z at the frontier
    assert(io2 =~= io2v) by {
        assert(forall|k: int| 0 <= k < lo.len() ==> lo[k] == io0[k]);
        assert(forall|k: int| 0 <= k < hi.len() ==> hi[k] == io0[lo.len() + k]);
    }
    // all old handles are below z, so the new walk has no duplicates
    assert forall|k: int| 0 <= k < io0.len() implies io0[k] < s.len() by {
        assert(io0.contains(io0[k]));
    }
    assert(io2v.no_duplicates()) by {
        assert(forall|k: int| 0 <= k < lo.len() ==> lo[k] == io0[k] && io2v[k] == lo[k]);
        assert(io2v[lo.len() as int] == z);
        assert(forall|k: int|
            0 <= k < hi.len() ==> hi[k] == io0[lo.len() + k] && io2v[lo.len() + 1 + k]
                == hi[k]);
    }
    lemma_tight_proper(s1, r0, ff + gm);
    assert(io2v.len() == s1.len());
    assert(proper_at(s1, r0, tree_fuel(s1)));
    lemma_fuel_indep(s1, r0, tree_fuel(s1), ff + gm);
    assert(in_order(s1, r0) == io2v);
    // links stay coherent: only last gained a child, and z points back
    assert forall|iu: usize|
        iu < s1.len() implies child_ok(s1, #[trigger] s1[iu as int].l_child, iu)
        && child_ok(s1, s1[iu as int].r_child, iu) && parent_ok(
        s1,
        s1[iu as int].parent,
        iu,
    ) by {
        if iu < s.len() {
            assert(child_ok(s, s[iu as int].l_child, iu));
            assert(child_ok(s, s[iu as int].r_child, iu));
            assert(parent_ok(s, s[iu as int].parent, iu));
        }
    }
    // the root keeps its place
    assert(match r0 {
        None => true,
        Some(rr) => rr < s1.len() && s1[rr as int].parent is None,
    }) by {
        match r0 {
            None => {},
            Some(rr) => {
                assert(s[rr as int].parent is None);
            },
        }
    }
    // every handle is reached
    assert forall|j: usize| j < s1.len() implies #[trigger] in_order(s1, r0).contains(
        j,
    ) by {
        if j < s.len() {
            assert(io0.contains(j));
            let k = choose|k: int| 0 <= k < io0.len() && io0[k] == j;
            if k < lo.len() {
                assert(io2v[k] == j);
            } else {
                assert(io2v[k + 1] == j);
            }
        } else {
            assert(io2v[lo.len() as int] == z);
        }
    }
    // the new key slots exactly between the two sides
    assert forall|pp: int, qq: int|
        #![trigger io2v[pp], io2v[qq]]
        0 <= pp < qq < io2v.len() implies key_lt(
        key_of(s1, io2v[pp]),
        key_of(s1, io2v[qq]),
    ) by {
        assert(s1[z as int].nfa_nodes@ == key);
        assert(forall|k: int| 0 <= k < lo.len() ==> io2v[k] == lo[k] && lo[k] == io0[k]);
        assert(io2v[lo.len() as int] == z);
        assert(forall|k: int|
            0 <= k < hi.len() ==> io2v[lo.len() + 1 + k] == hi[k] && hi[k] == io0[lo.len()
                + k]);
        assert(forall|k: int|
            0 <= k < io0.len() ==> key_of(s1, io0[k]) == key_of(s, io0[k]));
        if pp < lo.len() && qq < lo.len() {
            assert(key_lt(key_of(s, io0[pp]), key_of(s, io0[qq])));
        } else if pp < lo.len() && qq == lo.len() {
            assert(key_lt(key_of(s, lo[pp]), key));
        } else if pp < lo.len() {
            assert(key_lt(key_of(s, io0[pp]), key_of(s, io0[qq - 1])));
        } else if pp == lo.len() {
            assert(key_lt(key, key_of(s, hi[qq - lo.len() - 1])));
        } else {
            assert(key_lt(key_of(s, io0[pp - 1]), key_of(s, io0[qq - 1])));
        }
    }
    assert(tree_wf(s1, r0));
}

impl DfaBTree {
    /// The walk of the whole cache.
    pub open spec fn io(self) -> Seq<usize> {
        in_order(self.states@, self.root)
    }

    /// The splay tree invariant over this cache's arena and root.
    pub open spec fn wf(self) -> bool {
        tree_wf(self.states@, self.root)
    }

    pub fn new() -> (r: DfaBTree)
        ensures
            r.wf(),
            r.states@.len() == 0,
            r.root is None,
    {
        let r = DfaBTree { states: Vec::new(), root: None };
        proof {
            assert(r.io() =~= Seq::<usize>::empty());
        }
        r
    }

    /// Compare two node sets: length first, then element by element. This is
    /// the total order the cache is filed under.
    pub fn list_cmp(list1: &Vec<usize>, list2: &Vec<usize>) -> (r: Ordering)
        ensures
            (r == Ordering::Equal <==> list1@ == list2@),
            (r == Ordering::Less <==> key_lt(list1@, list2@)),
            (r == Ordering::Greater <==> key_lt(list2@, list1@)),
    {
        proof {
            lemma_key_trichotomy(list1@, list2@);
        }
        if list1.len() > list2.len() {
            return Ordering::Greater;
        } else if list1.len() < list2.len() {
            return Ordering::Less;
        }
        let mut i: usize = 0;
        proof {
            assert(list1@.skip(0) =~= list1@);
            assert(list2@.skip(0) =~= list2@);
        }
        while i < list1.len()
            invariant
                list1@.len() == list2@.len(),
                i <= list1@.len(),
                forall|k: int| 0 <= k < i ==> list1@[k] == list2@[k],
                lex_lt(list1@, list2@) <==> lex_lt(list1@.skip(i as int), list2@.skip(i as int)),
                lex_lt(list2@, list1@) <==> lex_lt(list2@.skip(i as int), list1@.skip(i as int)),
            decreases list1@.len() - i,
        {
            proof {
                assert(list1@.skip(i as int)[0] == list1@[i as int]);
                assert(list2@.skip(i as int)[0] == list2@[i as int]);
                assert(list1@.skip(i as int).drop_first() =~= list1@.skip(i as int + 1));
                assert(list2@.skip(i as int).drop_first() =~= list2@.skip(i as int + 1));
            }
            if list1[i] > list2[i] {
                proof {
                    assert(lex_lt(list2@.skip(i as int), list1@.skip(i as int)));
                    lemma_key_trichotomy(list1@, list2@);
                }
                return Ordering::Greater;
            } else if list1[i] < list2[i] {
                proof {
                    assert(lex_lt(list1@.skip(i as int), list2@.skip(i as int)));
                    lemma_key_trichotomy(list1@, list2@);
                }
                return Ordering::Less;
            }
            i = i + 1;
        }
        proof {
            assert(list1@ =~= list2@);
            lemma_key_trichotomy(list1@, list2@);
        }
        Ordering::Equal
    }

    /// One splay rotation: `x` swaps places with its parent, keeping the
    /// in-order sequence of the whole tree. On the root it does nothing.
    #[verifier::rlimit(100)]
    #[verifier::spinoff_prover]
    pub fn rotate(&mut self, x: usize)
        requires
            old(self).wf(),
            x < old(self).states@.len(),
        ensures
            final(self).wf(),
            final(self).states@.len() == old(self).states@.len(),
            forall|i: int|
                0 <= i < old(self).states@.len() ==> final(self).states@[i].nfa_nodes
                    == old(self).states@[i].nfa_nodes && final(self).states@[i].transform
                    == old(self).states@[i].transform,
            in_order(final(self).states@, final(self).root) == in_order(
                old(self).states@,
                old(self).root,
            ),
            old(self).states@[x as int].parent is None ==> *final(self) == *old(self),
            (match old(self).states@[x as int].parent {
                None => true,
                Some(p) => {
                    &&& final(self).states@[x as int].parent == old(self).states@[p as int].parent
                    &&& final(self).states@[p as int].parent == Some(x)
                    &&& (match rotated_child(old(self).states@, x, p) {
                        Some(t) => final(self).states@[t as int].parent == Some(p),
                        None => true,
                    })
                    &&& forall|j: usize|
                        j < old(self).states@.len() && j != x && j != p && Some(j)
                            != rotated_child(old(self).states@, x, p)
                            ==> final(self).states@[j as int].parent == old(self).states@[j as int]
                            .parent
                },
            }),
    {
        let ghost s0 = self.states@;
        let ghost root0 = self.root;
        let ghost ff = tree_fuel(s0);
        let parent_opt = self.states[x].parent;
        let p = match parent_opt {
            None => {
                return ;
            },
            Some(p) => p,
        };
        proof {
            lemma_rotate_distinct(s0, root0, x, p);
            lemma_io_elems(s0, root0, ff);
        }
        let m_opt = self.states[p].parent;
        let x_left = opt_is(self.states[p].l_child, x);
        let t_opt = if x_left {
            self.states[x].r_child
        } else {
            self.states[x].l_child
        };
        proof {
            // surface the distinctness of the four rewired nodes
            let iopg = in_order_at(s0, Some(p), ff);
            assert(iopg.contains(x) && iopg.contains(p));
            match m_opt {
                Some(m) => {
                    assert(!iopg.contains(m));
                    assert(m != x && m != p);
                },
                None => {},
            }
            if t_opt is Some {
                let t = t_opt->0;
                assert(s0[x as int].l_child == Some(t) || s0[x as int].r_child == Some(t));
                assert(iopg.contains(t) && t < s0.len() && t != x && t != p && s0[t as int].parent
                    == Some(x));
                match m_opt {
                    Some(m) => {
                        assert(m != t);
                    },
                    None => {},
                }
            }
        }
        // hand p's place under the grandparent to x, or make x the top
        match m_opt {
            Some(m) => {
                if opt_is(self.states[m].l_child, p) {
                    self.states[m].l_child = Some(x);
                } else {
                    self.states[m].r_child = Some(x);
                }
                self.states[x].parent = Some(m);
            },
            None => {
                self.states[x].parent = None;
                self.root = Some(x);
            },
        }
        // splice the transferred child over and swap x above p
        if x_left {
            self.states[p].l_child = t_opt;
            if let Some(t) = t_opt {
                self.states[t].parent = Some(p);
            }
            self.states[x].r_child = Some(p);
            self.states[p].parent = Some(x);
        } else {
            self.states[p].r_child = t_opt;
            if let Some(t) = t_opt {
                self.states[t].parent = Some(p);
            }
            self.states[x].l_child = Some(p);
            self.states[p].parent = Some(x);
        }
        proof {
            broadcast use lemma_contains_cat;

            let s1 = self.states@;
            let io0 = in_order(s0, root0);
            let iop = in_order_at(s0, Some(p), ff);
            match m_opt {
                None => {
                    // p was the root: the rewired tree is rooted at x
                    lemma_rotate_local(s0, s1, x, p, t_opt, x_left, ff);
                    assert(root0 == Some(p));
                    assert(in_order_at(s1, Some(x), ff) == io0);
                    assert(self.root == Some(x));
                },
                Some(m) => {
                    // the subtree under m keeps its walk; the rest is untouched
                    assert(io0.contains(m));
                    lemma_io_elems(s0, Some(p), ff);
                    lemma_io_elems(s0, Some(m), ff);
                    lemma_subtree(s0, root0, ff, m);
                    let iom = in_order_at(s0, Some(m), ff);
                    let (mlo, mhi) = choose|lo: int, hi: int|
                        0 <= lo <= hi <= io0.len() && iom == #[trigger] io0.subrange(lo, hi);
                    lemma_nodup_subrange(io0, mlo, mhi);
                    let cl = in_order_at(s0, s0[m as int].l_child, (ff - 1) as nat);
                    let cr = in_order_at(s0, s0[m as int].r_child, (ff - 1) as nat);
                    assert(iom == cl + seq![m] + cr);
                    lemma_nodup_parts(cl, m, cr);
                    lemma_fuel_indep(s0, Some(p), ff, (ff - 1) as nat);
                    let iop1 = in_order_at(s0, Some(p), (ff - 1) as nat);
                    assert(iop1 == iop);
                    assert(iop.len() + 1 <= ff - 1) by {
                        if s0[m as int].l_child == Some(p) {
                            assert(cl == iop1);
                        } else {
                            assert(cr == iop1);
                        }
                        assert(iom.len() <= io0.len());
                    }
                    assert forall|j: usize|
                        #[trigger] in_order_at(s0, Some(p), (ff - 1) as nat).contains(j) && j != x
                        && j != p implies j < s0.len() && s1[j as int].l_child
                        == s0[j as int].l_child && s1[j as int].r_child
                        == s0[j as int].r_child by {
                        assert(in_order_at(s0, Some(p), ff).contains(j));
                        assert(j != m);
                    }
                    lemma_rotate_local(s0, s1, x, p, t_opt, x_left, (ff - 1) as nat);
                    assert(in_order_at(s1, Some(x), (ff - 1) as nat) == iop);
                    // reassemble m's subtree with x in p's old place
                    if s0[m as int].l_child == Some(p) {
                        assert(cl == iop1);
                        let other = s0[m as int].r_child;
                        assert forall|j: usize| #[trigger] cr.contains(j) implies j < s0.len() && j
                            < s1.len() && s1[j as int].l_child == s0[j as int].l_child
                            && s1[j as int].r_child == s0[j as int].r_child by {
                            assert(iom.contains(j));
                            assert(!cl.contains(j) && j != m);
                            assert(j != x && j != p);
                        }
                        lemma_io_frame(s0, s1, other, (ff - 1) as nat);
                        assert(s1[m as int].l_child == Some(x));
                        assert(s1[m as int].r_child == other);
                        assert(proper_at(s1, Some(m), ff));
                        assert(in_order_at(s1, Some(m), ff) == iop + seq![m] + cr);
                        assert(in_order_at(s1, Some(m), ff) == iom);
                    } else {
                        assert(cr == iop1);
                        let other = s0[m as int].l_child;
                        assert forall|j: usize| #[trigger] cl.contains(j) implies j < s0.len() && j
                            < s1.len() && s1[j as int].l_child == s0[j as int].l_child
                            && s1[j as int].r_child == s0[j as int].r_child by {
                            assert(iom.contains(j));
                            assert(!cr.contains(j) && j != m);
                            assert(j != x && j != p);
                        }
                        lemma_io_frame(s0, s1, other, (ff - 1) as nat);
                        assert(s1[m as int].r_child == Some(x));
                        assert(s1[m as int].l_child == other);
                        assert(proper_at(s1, Some(m), ff));
                        assert(in_order_at(s1, Some(m), ff) == cl + seq![m] + iop);
                        assert(in_order_at(s1, Some(m), ff) == iom);
                    }
                    // everything outside m's subtree kept its links
                    assert(iom.contains(m)) by {
                        assert((seq![m])[0] == m);
                        assert((seq![m]).contains(m));
                    }
                    assert(iom.contains(x) && iom.contains(p)) by {
                        assert(iop.contains(x) && iop.contains(p));
                        if s0[m as int].l_child == Some(p) {
                            assert(cl.contains(x) && cl.contains(p));
                        } else {
                            assert(cr.contains(x) && cr.contains(p));
                        }
                    }
                    assert forall|j: usize|
                        #[trigger] io0.contains(j) && !iom.contains(j) implies j < s0.len() && j
                        < s1.len() && s1[j as int].l_child == s0[j as int].l_child && s1[j as int]
                        .r_child == s0[j as int].r_child by {
                        assert(j != x && j != p && j != m);
                    }
                    lemma_io_replace(s0, s1, root0, m, ff, ff);
                    assert(in_order_at(s1, root0, ff + ff) == io0);
                    lemma_tight_proper(s1, root0, ff + ff);
                    assert(proper_at(s1, root0, ff));
                    lemma_fuel_indep(s1, root0, ff, ff + ff);
                    assert(in_order_at(s1, root0, ff) == io0);
                    assert(self.root == root0);
                },
            }
            let io1 = in_order(s1, self.root);
            assert(io1 == io0);
            // the root of the new tree has no parent
            assert(match self.root {
                None => true,
                Some(r) => r < s1.len() && s1[r as int].parent is None,
            }) by {
                match m_opt {
                    None => {},
                    Some(m) => {
                        let r0 = root0->0;
                        assert(s0[r0 as int].parent is None);
                        assert(s0[x as int].parent == Some(p));
                        assert(s0[p as int].parent == Some(m));
                        assert(r0 != x && r0 != p);
                        if t_opt is Some {
                            assert(s0[t_opt->0 as int].parent == Some(x));
                        }
                    },
                }
            }
            // links stay coherent node by node
            assert forall|iu: usize|
                iu < s1.len() implies child_ok(s1, #[trigger] s1[iu as int].l_child, iu)
                && child_ok(s1, s1[iu as int].r_child, iu) && parent_ok(
                s1,
                s1[iu as int].parent,
                iu,
            ) by {
                let i = iu as int;
                assert(child_ok(s0, s0[i].l_child, iu));
                assert(child_ok(s0, s0[i].r_child, iu));
                assert(parent_ok(s0, s0[i].parent, iu));
                assert(s0[x as int].parent == Some(p));
                if t_opt is Some {
                    assert(s0[t_opt->0 as int].parent == Some(x));
                }
                // a node whose parent was q still hangs off q unless a slot
                // of q was redirected; each redirected slot held a node that
                // itself moved
                assert(child_ok(s1, s1[i].l_child, iu) && child_ok(s1, s1[i].r_child, iu)) by {
                    let lc = s1[i].l_child;
                    let rc = s1[i].r_child;
                    if lc is Some {
                        let j = lc->0;
                        assert(s0[j as int].parent is Some ==> s1[j as int].parent == (if j == x {
                            m_opt
                        } else if j == p {
                            Some(x)
                        } else if t_opt == Some(j) {
                            Some(p)
                        } else {
                            s0[j as int].parent
                        }));
                        if iu == x {
                            if x_left {
                                if j == p {
                                    assert(s0[p as int].l_child == Some(x));
                                    assert(false);
                                }
                            } else {
                                assert(lc == Some(p));
                            }
                        } else if iu == p {
                            if x_left {
                                assert(lc == t_opt);
                            } else {
                                assert(s0[p as int].l_child == Some(j));
                                assert(j != x);
                                assert(s0[j as int].parent == Some(p));
                                assert(j != p);
                                assert(t_opt == Some(j) ==> x == p);
                            }
                        } else if m_opt == Some(iu) {
                            if s0[i].l_child == Some(p) {
                                assert(lc == Some(x));
                            } else {
                                assert(lc == s0[i].l_child);
                                assert(s0[j as int].parent == Some(iu));
                                assert(j != x && j != p);
                                assert(t_opt == Some(j) ==> iu == x);
                            }
                        } else {
                            assert(lc == s0[i].l_child);
                            assert(s0[j as int].parent == Some(iu));
                            assert(j != x && j != p);
                            assert(t_opt == Some(j) ==> iu == x);
                        }
                    }
                    if rc is Some {
                        let j = rc->0;
                        assert(s0[j as int].parent is Some ==> s1[j as int].parent == (if j == x {
                            m_opt
                        } else if j == p {
                            Some(x)
                        } else if t_opt == Some(j) {
                            Some(p)
                        } else {
                            s0[j as int].parent
                        }));
                        if iu == x {
                            if x_left {
                                assert(rc == Some(p));
                            } else {
                                if j == p {
                                    assert(s0[p as int].r_child == Some(x));
                                    assert(false);
                                }
                            }
                        } else if iu == p {
                            if x_left {
                                assert(s0[p as int].r_child == Some(j));
                                assert(j != x);
                                assert(s0[j as int].parent == Some(p));
                                assert(j != p);
                                assert(t_opt == Some(j) ==> x == p);
                            } else {
                                assert(rc == t_opt);
                            }
                        } else if m_opt == Some(iu) {
                            if s0[i].l_child == Some(p) {
                                assert(rc == s0[i].r_child);
                                assert(s0[j as int].parent == Some(iu));
                                assert(j != x && j != p);
                                assert(t_opt == Some(j) ==> iu == x);
                            } else {
                                assert(rc == Some(x));
                            }
                        } else {
                            assert(rc == s0[i].r_child);
                            assert(s0[j as int].parent == Some(iu));
                            assert(j != x && j != p);
                            assert(t_opt == Some(j) ==> iu == x);
                        }
                    }
                }
                assert(parent_ok(s1, s1[i].parent, iu)) by {
                    if iu == x {
                        match m_opt {
                            Some(m) => {
                                assert(s1[m as int].l_child == Some(x) || s1[m as int].r_child
                                    == Some(x));
                            },
                            None => {},
                        }
                    } else if iu == p {
                        assert(s1[x as int].l_child == Some(p) || s1[x as int].r_child == Some(p));
                    } else if t_opt == Some(iu) {
                        assert(s1[p as int].l_child == Some(iu) || s1[p as int].r_child == Some(
                            iu,
                        ));
                    } else {
                        assert(s1[i].parent == s0[i].parent);
                        match s0[i].parent {
                            None => {},
                            Some(q) => {
                                assert(s0[q as int].l_child == Some(iu) || s0[q as int].r_child
                                    == Some(iu));
                                if q == x {
                                    // iu keeps its slot: the other slot of x moved
                                    assert(iu != p && t_opt != Some(iu));
                                    if x_left {
                                        assert(s0[x as int].l_child == Some(iu));
                                        assert(s1[x as int].l_child == Some(iu));
                                    } else {
                                        assert(s0[x as int].r_child == Some(iu));
                                        assert(s1[x as int].r_child == Some(iu));
                                    }
                                } else if q == p {
                                    assert(iu != x);
                                    if x_left {
                                        assert(s0[p as int].r_child == Some(iu));
                                        assert(s1[p as int].r_child == Some(iu));
                                    } else {
                                        assert(s0[p as int].l_child == Some(iu));
                                        assert(s1[p as int].l_child == Some(iu));
                                    }
                                } else if m_opt == Some(q) {
                                    assert(iu != p);
                                    if s0[q as int].l_child == Some(p) {
                                        assert(s0[q as int].r_child == Some(iu));
                                        assert(s1[q as int].r_child == Some(iu));
                                    } else {
                                        assert(s0[q as int].l_child == Some(iu));
                                        assert(s1[q as int].l_child == Some(iu));
                                    }
                                } else {
                                    assert(s1[q as int].l_child == s0[q as int].l_child
                                        && s1[q as int].r_child == s0[q as int].r_child);
                                }
                            },
                        }
                    }
                }
            }
            // keys are untouched, so order and coverage carry over
            assert forall|pp: int, qq: int|
                #![trigger io1[pp], io1[qq]]
                0 <= pp < qq < io1.len() implies key_lt(
                key_of(s1, io1[pp]),
                key_of(s1, io1[qq]),
            ) by {
                assert(io0.contains(io0[pp]) && io0.contains(io0[qq]));
                assert(key_of(s1, io0[pp]) == key_of(s0, io0[pp]));
                assert(key_of(s1, io0[qq]) == key_of(s0, io0[qq]));
                assert(key_lt(key_of(s0, io0[pp]), key_of(s0, io0[qq])));
            }
            assert(tree_wf(s1, self.root));
        }
    }

    /// The in-order walk of the cache, as a vector of handles. Its keys come
    /// out in strictly increasing comparator order (`lemma_in_order_sorted`).
    pub fn in_order_handles(&self) -> (out: Vec<usize>)
        requires
            self.wf(),
        ensures
            out@ == in_order(self.states@, self.root),
    {
        self.in_order_from(self.root)
    }

    fn in_order_from(&self, r: Option<usize>) -> (out: Vec<usize>)
        requires
            proper_at(self.states@, r, tree_fuel(self.states@)),
        ensures
            out@ == in_order_at(self.states@, r, tree_fuel(self.states@)),
        decreases in_order_at(self.states@, r, tree_fuel(self.states@)).len(),
    {
        let ghost s = self.states@;
        let ghost ff = tree_fuel(s);
        match r {
            None => {
                let out: Vec<usize> = Vec::new();
                proof {
                    assert(out@ =~= in_order_at(s, r, ff));
                }
                out
            },
            Some(i) => {
                let l = self.states[i].l_child;
                let rc = self.states[i].r_child;
                proof {
                    lemma_proper_mono(s, l, (ff - 1) as nat, ff);
                    lemma_proper_mono(s, rc, (ff - 1) as nat, ff);
                    assert(in_order_at(s, r, ff) == in_order_at(s, l, (ff - 1) as nat) + seq![i]
                        + in_order_at(s, rc, (ff - 1) as nat));
                }
                let mut out = self.in_order_from(l);
                out.push(i);
                let mut right = self.in_order_from(rc);
                out.append(&mut right);
                proof {
                    assert(out@ =~= in_order_at(s, l, (ff - 1) as nat) + seq![i] + in_order_at(
                        s,
                        rc,
                        (ff - 1) as nat,
                    ));
                }
                out
            },
        }
    }

    /// Splay `x` toward `target_parent` by zig, zig-zig and zig-zag
    /// rotations, until `x` hangs directly under the target; splaying toward
    /// `None` makes `x` the root. Every rotation keeps the tree well formed
    /// and its in-order walk unchanged.
    pub fn splay(&mut self, x: usize, target_parent: Option<usize>)
        requires
            old(self).wf(),
            x < old(self).states@.len(),
            (match target_parent {
                None => true,
                Some(t) => is_anc(old(self).states@, x, t, old(self).states@.len() as nat),
            }),
        ensures
            final(self).wf(),
            final(self).states@.len() == old(self).states@.len(),
            forall|i: int|
                0 <= i < old(self).states@.len() ==> final(self).states@[i].nfa_nodes
                    == old(self).states@[i].nfa_nodes && final(self).states@[i].transform
                    == old(self).states@[i].transform,
            in_order(final(self).states@, final(self).root) == in_order(
                old(self).states@,
                old(self).root,
            ),
            final(self).states@[x as int].parent == target_parent,
            target_parent is None ==> final(self).root == Some(x),
    {
        loop
            invariant
                self.wf(),
                x < self.states@.len(),
                self.states@.len() == old(self).states@.len(),
                forall|i: int|
                    0 <= i < old(self).states@.len() ==> self.states@[i].nfa_nodes
                        == old(self).states@[i].nfa_nodes && self.states@[i].transform
                        == old(self).states@[i].transform,
                in_order(self.states@, self.root) == in_order(
                    old(self).states@,
                    old(self).root,
                ),
                (match target_parent {
                    None => true,
                    Some(t) => self.states@[x as int].parent == Some(t) || is_anc(
                        self.states@,
                        x,
                        t,
                        self.states@.len() as nat,
                    ),
                }),
            ensures
                self.wf(),
                self.states@.len() == old(self).states@.len(),
                forall|i: int|
                    0 <= i < old(self).states@.len() ==> self.states@[i].nfa_nodes
                        == old(self).states@[i].nfa_nodes && self.states@[i].transform
                        == old(self).states@[i].transform,
                in_order(self.states@, self.root) == in_order(
                    old(self).states@,
                    old(self).root,
                ),
                self.states@[x as int].parent == target_parent,
            decreases depth_of(self.states@, x, self.states@.len() as nat),
        {
            let pa = self.states[x].parent;
            if opt_eq(pa, target_parent) {
                break ;
            }
            let parent = match pa {
                Some(p) => p,
                None => {
                    // an ancestor target always leaves x a parent to climb to
                    proof {
                        assert(false);
                    }
                    break ;
                },
            };
            let ghost s_a = self.states@;
            let ghost root_a = self.root;
            let ghost cap = s_a.len() as nat;
            proof {
                lemma_rotate_distinct(s_a, root_a, x, parent);
                // the target, if any, is a strict ancestor beyond the parent
                match target_parent {
                    None => {},
                    Some(t) => {
                        assert(is_anc(s_a, x, t, cap));
                        if t != parent {
                            assert(s_a[x as int].parent == Some(parent));
                            assert(cap >= 1);
                            assert(is_anc(s_a, parent, t, (cap - 1) as nat));
                            lemma_parent_walk(s_a, root_a, x);
                            lemma_chain_stable(s_a, root_a, parent, (cap - 1) as nat);
                            assert(is_anc(s_a, parent, t, cap));
                        }
                    },
                }
            }
            let meta = self.states[parent].parent;
            if !opt_eq(meta, target_parent) {
                proof {
                    // the target sits strictly above the grandparent, so the
                    // grandparent exists
                    match target_parent {
                        None => {},
                        Some(t) => {
                            assert(pa != target_parent && Some(parent) != target_parent);
                            assert(is_anc(s_a, parent, t, cap));
                            assert(meta is Some);
                        },
                    }
                    if meta is None {
                        assert(target_parent is None);
                        assert(false);
                    }
                }
                let x_is_l = opt_is(self.states[parent].l_child, x);
                let mm = match meta {
                    Some(mm) => mm,
                    None => {
                        proof {
                            assert(false);
                        }
                        break ;
                    },
                };
                proof {
                    lemma_rotate_distinct(s_a, root_a, parent, mm);
                }
                let zigzag = x_is_l != opt_is(self.states[mm].l_child, parent);
                if zigzag {
                    self.rotate(x);
                    proof {
                        lemma_rotate_depth(s_a, self.states@, root_a, x, parent);
                    }
                } else {
                    self.rotate(parent);
                    proof {
                        lemma_rotate_depth(s_a, self.states@, root_a, parent, mm);
                        let s_b = self.states@;
                        // x is none of the nodes the rotation of `parent`
                        // rewired, so it still hangs under `parent`
                        assert(x != parent && x != mm);
                        assert(Some(x) != rotated_child(s_a, parent, mm)) by {
                            if x_is_l {
                                assert(s_a[parent as int].l_child == Some(x));
                                assert(s_a[mm as int].l_child == Some(parent));
                                assert(s_a[parent as int].r_child != Some(x));
                            } else {
                                assert(s_a[parent as int].r_child == Some(x));
                                assert(s_a[mm as int].l_child != Some(parent));
                            }
                        }
                        assert(s_b[x as int].parent == Some(parent));
                        // x's depth fell with its parent's
                        lemma_parent_walk(s_a, root_a, x);
                        lemma_chain_stable(s_a, root_a, parent, (cap - 1) as nat);
                        lemma_parent_walk(s_b, self.root, x);
                        lemma_chain_stable(s_b, self.root, parent, (cap - 1) as nat);
                        assert(depth_of(s_a, x, cap) == 1 + depth_of(s_a, parent, (cap - 1) as nat));
                        assert(depth_of(s_b, x, cap) == 1 + depth_of(s_b, parent, (cap - 1) as nat));
                    }
                }
                let ghost s_b = self.states@;
                let ghost root_b = self.root;
                proof {
                    // after either first rotation, x still has a parent and
                    // the target is still reached along its chain
                    match target_parent {
                        None => {},
                        Some(t) => {
                            assert(t != parent && t != mm);
                            assert(is_anc(s_a, x, t, cap));
                            if zigzag {
                                assert(is_anc(s_b, x, t, cap) == is_anc(s_a, parent, t, cap));
                                assert(is_anc(s_b, x, t, cap));
                            } else {
                                // x still hangs under parent, whose ancestry
                                // is now the grandparent's old one
                                assert(s_b[x as int].parent == Some(parent));
                                assert(is_anc(s_a, parent, t, cap));
                                assert(s_a[parent as int].parent == Some(mm));
                                assert(is_anc(s_a, mm, t, (cap - 1) as nat));
                                lemma_parent_walk(s_a, root_a, parent);
                                lemma_chain_stable(s_a, root_a, mm, (cap - 1) as nat);
                                assert(is_anc(s_a, mm, t, cap));
                                assert(is_anc(s_b, parent, t, cap));
                                lemma_parent_walk(s_b, root_b, x);
                                lemma_chain_stable(s_b, root_b, parent, (cap - 1) as nat);
                                assert(is_anc(s_b, parent, t, (cap - 1) as nat));
                                assert(is_anc(s_b, x, t, cap));
                            }
                        },
                    }
                }
                let pa2 = self.states[x].parent;
                let parent2 = match pa2 {
                    Some(p2) => p2,
                    None => {
                        proof {
                            // a second climb is owed: for an ancestor target
                            // the chain is nonempty, and with no target the
                            // loop spends one more rotation harmlessly
                            match target_parent {
                                None => {},
                                Some(t) => {
                                    assert(is_anc(s_b, x, t, cap));
                                    assert(false);
                                },
                            }
                        }
                        break ;
                    },
                };
                proof {
                    lemma_rotate_distinct(s_b, root_b, x, parent2);
                }
                self.rotate(x);
                proof {
                    lemma_rotate_depth(s_b, self.states@, root_b, x, parent2);
                    lemma_chain_stable(s_b, root_b, x, cap);
                    lemma_parent_walk(s_b, root_b, x);
                    lemma_chain_stable(s_b, root_b, parent2, (cap - 1) as nat);
                    match target_parent {
                        None => {},
                        Some(t) => {
                            assert(is_anc(s_b, x, t, cap));
                            if t != parent2 {
                                assert(is_anc(s_b, parent2, t, (cap - 1) as nat));
                                assert(is_anc(s_b, parent2, t, cap));
                                assert(is_anc(self.states@, x, t, cap) == is_anc(
                                    s_b,
                                    parent2,
                                    t,
                                    cap,
                                ));
                            } else {
                                assert(self.states@[x as int].parent == s_b[parent2 as int].parent);
                                assert(is_anc(s_b, x, t, cap));
                                assert(s_b[x as int].parent == Some(parent2));
                                // climbing past the target cannot happen: the
                                // grandparent branch already handled it
                                assert(Some(parent2) != target_parent || self.states@[x as int]
                                    .parent == s_b[parent2 as int].parent);
                            }
                        },
                    }
                }
            } else {
                // the parent of the parent is already the target: one zig
                self.rotate(x);
                proof {
                    lemma_rotate_depth(s_a, self.states@, root_a, x, parent);
                    assert(self.states@[x as int].parent == target_parent);
                }
            }
        }
        proof {
            if target_parent is None {
                let s = self.states@;
                match self.root {
                    None => {
                        assert(in_order(s, self.root).contains(x));
                    },
                    Some(rr) => {
                        if rr != x {
                            assert(in_order(s, Some(rr)).contains(x));
                            lemma_parent_in_tree(s, rr, tree_fuel(s), x);
                        }
                    },
                }
            }
        }
    }

    /// Look the node set up in the tree, inserting a fresh state when it is
    /// absent, and splay the state that was found or created to the root.
    /// Interning is idempotent: an already-seen node set yields its existing
    /// handle and allocates nothing.
    #[verifier::rlimit(100)]
    #[verifier::spinoff_prover]
    pub fn or_insert(&mut self, list: &mut Vec<usize>) -> (h: usize)
        requires
            old(self).wf(),
        ensures
            final(self).wf(),
            final(list)@ == old(list)@,
            forall|i: int|
                0 <= i < old(self).states@.len() ==> final(self).states@[i].nfa_nodes
                    == old(self).states@[i].nfa_nodes && final(self).states@[i].transform
                    == old(self).states@[i].transform,
            h < final(self).states@.len(),
            final(self).states@[h as int].nfa_nodes@ == old(list)@,
            final(self).root == Some(h),
            key_present(old(self).states@, old(list)@) ==> final(self).states@.len() == old(
                self,
            ).states@.len(),
            !key_present(old(self).states@, old(list)@) ==> final(self).states@.len() == old(
                self,
            ).states@.len() + 1 && h == old(self).states@.len() && final(self).states@[h as int]
                .transform@ == Seq::<(char, DfaStateHandle)>::empty(),
    {
        let ghost s = self.states@;
        let ghost r0 = self.root;
        let ghost ff = tree_fuel(s);
        let ghost io0 = in_order(s, r0);
        let ghost key = list@;
        proof {
            lemma_io_elems(s, r0, ff);
        }
        let mut cur: Option<usize> = self.root;
        let ghost mut lo: Seq<usize> = Seq::empty();
        let ghost mut hi: Seq<usize> = Seq::empty();
        let mut found: Option<usize> = None;
        let mut last: usize = 0;
        let mut attach_left: bool = false;
        let mut have_last: bool = false;
        proof {
            assert(io0 =~= lo + in_order_at(s, cur, ff) + hi);
        }
        loop
            invariant_except_break
                found is None,
            invariant
                self.states@ == s,
                self.root == r0,
                tree_wf(s, r0),
                io0 == in_order(s, r0),
                ff == tree_fuel(s),
                list@ == key,
                proper_at(s, cur, ff),
                io0 == lo + in_order_at(s, cur, ff) + hi,
                forall|k: int| 0 <= k < lo.len() ==> key_lt(key_of(s, #[trigger] lo[k]), key),
                forall|k: int| 0 <= k < hi.len() ==> key_lt(key, key_of(s, #[trigger] hi[k])),
                have_last ==> last < s.len(),
                have_last ==> (if attach_left {
                    s[last as int].l_child == cur && hi.len() > 0 && hi[0] == last
                } else {
                    s[last as int].r_child == cur && lo.len() > 0 && lo[lo.len() - 1] == last
                }),
                !have_last ==> cur == r0 && lo.len() == 0 && hi.len() == 0,
            ensures
                self.states@ == s,
                self.root == r0,
                list@ == key,
                match found {
                    Some(fh) => fh < s.len() && s[fh as int].nfa_nodes@ == key,
                    None => cur is None && io0 == lo + hi && (have_last ==> last < s.len()) && (
                    have_last ==> (if attach_left {
                        s[last as int].l_child is None && hi.len() > 0 && hi[0] == last
                    } else {
                        s[last as int].r_child is None && lo.len() > 0 && lo[lo.len() - 1] == last
                    })) && (!have_last ==> r0 is None && lo.len() == 0 && hi.len() == 0) && (
                    forall|k: int|
                        0 <= k < lo.len() ==> key_lt(key_of(s, #[trigger] lo[k]), key)) && (
                    forall|k: int| 0 <= k < hi.len() ==> key_lt(key, key_of(s, #[trigger] hi[k]))),
                },
            decreases in_order_at(s, cur, ff).len(),
        {
            let ch = match cur {
                None => {
                    proof {
                        assert(in_order_at(s, cur, ff) =~= Seq::<usize>::empty());
                        assert(io0 =~= lo + hi);
                    }
                    break ;
                },
                Some(c) => c,
            };
            let select = Self::list_cmp(&self.states[ch].nfa_nodes, list);
            let ghost ioc = in_order_at(s, Some(ch), ff);
            let ghost aa = in_order_at(s, s[ch as int].l_child, (ff - 1) as nat);
            let ghost bb = in_order_at(s, s[ch as int].r_child, (ff - 1) as nat);
            proof {
                assert(ioc == aa + seq![ch] + bb);
                lemma_proper_mono(s, s[ch as int].l_child, (ff - 1) as nat, ff);
                lemma_proper_mono(s, s[ch as int].r_child, (ff - 1) as nat, ff);
                // the in-order positions of ch and of both halves inside io0
                assert(forall|k: int| 0 <= k < aa.len() ==> io0[lo.len() + k] == aa[k]);
                assert(io0[lo.len() as int + aa.len() as int] == ch);
                assert(forall|k: int|
                    0 <= k < bb.len() ==> io0[lo.len() as int + aa.len() as int + 1 + k] == bb[k]);
                assert(forall|k: int|
                    0 <= k < hi.len() ==> io0[lo.len() as int + ioc.len() as int + k] == hi[k]);
            }
            if matches!(select, Ordering::Equal) {
                found = Some(ch);
                break ;
            } else if matches!(select, Ordering::Greater) {
                // ch's key is above ours: the key can only sit to the left
                proof {
                    assert(key_lt(key, key_of(s, ch)));
                    assert forall|k: int| 0 <= k < bb.len() implies key_lt(
                        key,
                        key_of(s, #[trigger] bb[k]),
                    ) by {
                        assert(io0[lo.len() as int + aa.len() as int] == ch);
                        assert(io0[lo.len() as int + aa.len() as int + 1 + k] == bb[k]);
                        assert(key_lt(key_of(s, ch), key_of(s, bb[k])));
                        lemma_key_trans(key, key_of(s, ch), key_of(s, bb[k]));
                    }
                    assert forall|k: int| 0 <= k < hi.len() implies key_lt(
                        key,
                        key_of(s, #[trigger] hi[k]),
                    ) by {
                    }
                    hi = seq![ch] + bb + hi;
                    assert(io0 =~= lo + in_order_at(s, s[ch as int].l_child, ff) + hi);
                }
                last = ch;
                attach_left = true;
                have_last = true;
                cur = self.states[ch].l_child;
            } else {
                proof {
                    assert(key_lt(key_of(s, ch), key));
                    assert forall|k: int| 0 <= k < aa.len() implies key_lt(
                        key_of(s, #[trigger] aa[k]),
                        key,
                    ) by {
                        assert(io0[lo.len() as int + aa.len() as int] == ch);
                        assert(io0[lo.len() + k] == aa[k]);
                        assert(key_lt(key_of(s, aa[k]), key_of(s, ch)));
                        lemma_key_trans(key_of(s, aa[k]), key_of(s, ch), key);
                    }
                    lo = lo + aa + seq![ch];
                    assert(io0 =~= lo + in_order_at(s, s[ch as int].r_child, ff) + hi);
                }
                last = ch;
                attach_left = false;
                have_last = true;
                cur = self.states[ch].r_child;
            }
        }
        if let Some(fh) = found {
            self.splay(fh, None);
            proof {
                assert(key_present(s, key));
            }
            return fh;
        }
        // not present anywhere: every state's key is on one side of ours
        proof {
            assert forall|iu: usize| iu < s.len() implies s[iu as int].nfa_nodes@ != key by {
                assert(io0.contains(iu));
                let k = choose|k: int| 0 <= k < io0.len() && io0[k] == iu;
                lemma_key_trichotomy(key_of(s, iu), key);
                if k < lo.len() {
                    assert(lo[k] == iu);
                } else {
                    assert(hi[k - lo.len()] == iu);
                }
            }
            assert(!key_present(s, key));
        }
        let z = self.states.len();
        let fresh = DfaBTreeState {
            nfa_nodes: clone_nodes(list),
            transform: Vec::new(),
            l_child: None,
            r_child: None,
            parent: if have_last {
                Some(last)
            } else {
                None
            },
        };
        self.states.push(fresh);
        if !have_last {
            // the tree was empty: the new state is the root
            self.root = Some(z);
            proof {
                let s1 = self.states@;
                assert(s.len() == 0) by {
                    assert(in_order_at(s, r0, ff) =~= Seq::<usize>::empty());
                }
                assert(z == 0);
                assert(s1.len() == 1);
                assert(in_order_at(s1, None, (tree_fuel(s1) - 1) as nat) == Seq::<usize>::empty());
                assert(in_order(s1, Some(z)) =~= seq![z]);
                assert(in_order(s1, Some(z))[0] == z);
                assert(in_order(s1, Some(z)).contains(z));
                assert(links_ok(s1));
                assert(z < s1.len());
                assert(s1[z as int].l_child is None);
                assert(s1[z as int].r_child is None);
                assert(proper_at(s1, None, (tree_fuel(s1) - 1) as nat));
                assert(proper_at(s1, Some(z), tree_fuel(s1)));
                assert(in_order(s1, Some(z)).no_duplicates());
                assert(forall|j: usize| j < s1.len() ==> #[trigger] in_order(s1, Some(z)).contains(j));
                assert(io_sorted(s1, in_order(s1, Some(z))));
                assert(tree_wf(s1, self.root));
            }
            self.splay(z, None);
            return z;
        }
        if attach_left {
            self.states[last].l_child = Some(z);
        } else {
            self.states[last].r_child = Some(z);
        }
        proof {
            lemma_attach_leaf(s, self.states@, r0, z, last, attach_left, lo, hi, key);
        }
        self.splay(z, None);
        z
    }
}

/// A plain copy of a node-set vector.
fn clone_nodes(list: &Vec<usize>) -> (r: Vec<usize>)
    ensures
        r@ == list@,
{
    let mut r: Vec<usize> = Vec::new();
    let mut i: usize = 0;
    while i < list.len()
        invariant
            i <= list@.len(),
            r@ == list@.subrange(0, i as int),
        decreases list@.len() - i,
    {
        r.push(list[i]);
        proof {
            assert(r@ =~= list@.subrange(0, i + 1));
        }
        i = i + 1;
    }
    proof {
        assert(list@.subrange(0, list@.len() as int) =~= list@);
    }
    r
}

/// Touching only the transition memos (never a link or a key) leaves the
/// tree invariant and its walk intact.
pub proof fn lemma_tree_wf_same_links(
    s0: Seq<DfaBTreeState>,
    s1: Seq<DfaBTreeState>,
    root: Option<usize>,
)
    requires
        tree_wf(s0, root),
        s1.len() == s0.len(),
        forall|j: int|
            0 <= j < s0.len() ==> (#[trigger] s1[j]).l_child == s0[j].l_child && s1[j].r_child
                == s0[j].r_child && s1[j].parent == s0[j].parent && s1[j].nfa_nodes
                == s0[j].nfa_nodes,
    ensures
        tree_wf(s1, root),
        in_order(s1, root) == in_order(s0, root),
{
    lemma_io_elems(s0, root, tree_fuel(s0));
    assert forall|j: usize| #[trigger]
        in_order_at(s0, root, tree_fuel(s0)).contains(j) implies j < s0.len() && j < s1.len()
        && s1[j as int].l_child == s0[j as int].l_child && s1[j as int].r_child
        == s0[j as int].r_child by {
    }
    lemma_io_frame(s0, s1, root, tree_fuel(s0));
    let io = in_order(s0, root);
    assert(links_ok(s1)) by {
        assert forall|i: usize|
            i < s1.len() implies child_ok(s1, #[trigger] s1[i as int].l_child, i) && child_ok(
            s1,
            s1[i as int].r_child,
            i,
        ) && parent_ok(s1, s1[i as int].parent, i) by {
            assert(child_ok(s0, s0[i as int].l_child, i));
            assert(child_ok(s0, s0[i as int].r_child, i));
            assert(parent_ok(s0, s0[i as int].parent, i));
        }
    }
    assert(io_sorted(s1, io)) by {
        assert forall|p: int, q: int|
            #![trigger io[p], io[q]]
            0 <= p < q < io.len() implies key_lt(key_of(s1, io[p]), key_of(s1, io[q])) by {
            assert(io.contains(io[p]) && io.contains(io[q]));
            assert(key_lt(key_of(s0, io[p]), key_of(s0, io[q])));
        }
    }
}

/// Whether an optional handle is exactly this handle.
fn opt_is(a: Option<usize>, b: usize) -> (r: bool)
    ensures
        r == (a == Some(b)),
{
    match a {
        Some(v) => v == b,
        None => false,
    }
}

/// Whether two optional handles are the same.
fn opt_eq(a: Option<usize>, b: Option<usize>) -> (r: bool)
    ensures
        r == (a == b),
{
    match (a, b) {
        (None, None) => true,
        (Some(u), Some(v)) => u == v,
        _ => false,
    }
}


/// Interning is injective on node sets: two distinct cache entries never
/// carry equal node sets, so interning an already-seen set yields the same
/// handle both times.
pub proof fn lemma_intern_unique(t: &DfaBTree, i: usize, j: usize)
    requires
        t.wf(),
        i < t.states@.len(),
        j < t.states@.len(),
        t.states@[i as int].nfa_nodes@ == t.states@[j as int].nfa_nodes@,
    ensures
        i == j,
{
    let s = t.states@;
    let io = in_order(s, t.root);
    assert(io.contains(i) && io.contains(j));
    let ki = choose|k: int| 0 <= k < io.len() && io[k] == i;
    let kj = choose|k: int| 0 <= k < io.len() && io[k] == j;
    if ki != kj {
        lemma_key_trichotomy(key_of(s, i), key_of(s, j));
        if ki < kj {
            assert(key_lt(key_of(s, io[ki]), key_of(s, io[kj])));
        } else {
            assert(key_lt(key_of(s, io[kj]), key_of(s, io[ki])));
        }
        assert(false);
    }
}

/// After any sequence of interning operations, the in-order walk of the
/// splay tree lists node sets in strictly increasing comparator order.
pub proof fn lemma_in_order_sorted(t: &DfaBTree)
    requires
        t.wf(),
    ensures
        io_sorted(t.states@, in_order(t.states@, t.root)),
{
}

} // verus!
