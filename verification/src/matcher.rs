use vstd::prelude::*;
use crate::SyntaxError;
use crate::dfa::DfaBTree;
use crate::dfa::DfaBTreeState;
use crate::dfa::DfaStateHandle;
use crate::nfa::Edge;
use crate::nfa::NfaNode;
use crate::nfa::NfaNodeHandle;
use crate::nfa::NfaPaired;
use crate::nfa::Nfas;
use crate::nfa::Transform;
use crate::nfa::accepts;
use crate::nfa::char_step;
use crate::nfa::edge_in_range;
use crate::nfa::eps_closed;
use crate::nfa::eps_edge_to;
use crate::nfa::eps_closure;
use crate::nfa::eps_closure_set;
use crate::nfa::eps_reach;
use crate::nfa::eps_step;
use crate::nfa::lemma_closed_closure;
use crate::nfa::lemma_closure_set_closed;
use crate::nfa::lemma_match_deterministic;
use crate::nfa::lemma_reach_self;
use crate::nfa::lemma_reach_step;
use crate::nfa::lemma_run_snoc;
use crate::nfa::lemma_same_shape_sets;
use crate::nfa::next_set;
use crate::nfa::nfa_wf;
use crate::nfa::run_sets;
use crate::nfa::same_shape;
use crate::nfa::spec_compile;

verus! {

/// The set of handles a sequence lists.
pub open spec fn set_of(s: Seq<usize>) -> Set<usize> {
    Set::new(|x: usize| s.contains(x))
}

/// Strictly ascending: the canonical form of a node set.
pub open spec fn sorted_strict(s: Seq<usize>) -> bool {
    forall|p: int, q: int| 0 <= p < q < s.len() ==> s[p] < s[q]
}

/// The nodes stamped in the current closure pass.
pub open spec fn stamped(nodes: Seq<NfaNode>, gen: usize) -> Set<usize> {
    Set::new(|i: usize| i < nodes.len() && nodes[i as int].id == gen)
}

/// Every transition memoized for this cache entry leads to the state holding
/// exactly the subset-construction successor of its node set.
pub open spec fn dfa_entry_ok(
    nodes: Seq<NfaNode>,
    dfa_states: Seq<DfaBTreeState>,
    d: int,
) -> bool {
    let st = dfa_states[d];
    &&& sorted_strict(st.nfa_nodes@)
    &&& forall|j: int| 0 <= j < st.nfa_nodes@.len() ==> (#[trigger] st.nfa_nodes@[j]) < nodes.len()
    &&& forall|t: int|
        0 <= t < st.transform@.len() ==> ((#[trigger] st.transform@[t]).1 < dfa_states.len()
            && set_of(dfa_states[st.transform@[t].1 as int].nfa_nodes@) == next_set(
            nodes,
            set_of(st.nfa_nodes@),
            st.transform@[t].0,
        ))
    &&& forall|t1: int, t2: int|
        0 <= t1 < t2 < st.transform@.len() ==> (#[trigger] st.transform@[t1]).0 != (
        #[trigger] st.transform@[t2]).0
}

/// A compiled pattern: the NFA, its entry and exit, the lazily grown DFA
/// cache, and the current closure-pass stamp.
pub struct Regex {
    pub nfa: Nfas,
    pub dfa: DfaBTree,
    pub begin: NfaNodeHandle,
    pub end: NfaNodeHandle,
    pub last_update: usize,
}

impl Regex {
    /// The engine's invariant: a well-formed automaton, stamps at most at the
    /// current pass, a well-formed splay cache, and every memoized transition
    /// semantically correct.
    pub open spec fn wf(self) -> bool {
        &&& nfa_wf(self.nfa.nodes@)
        &&& self.begin < self.nfa.nodes@.len()
        &&& self.end < self.nfa.nodes@.len()
        &&& forall|i: int|
            0 <= i < self.nfa.nodes@.len() ==> (#[trigger] self.nfa.nodes@[i]).id
                <= self.last_update
        &&& self.dfa.wf()
        &&& forall|d: int|
            0 <= d < self.dfa.states@.len() ==> #[trigger] dfa_entry_ok(
                self.nfa.nodes@,
                self.dfa.states@,
                d,
            )
    }

    /// Compile a pattern. The automaton is pinned exactly by `spec_compile`,
    /// and every malformed pattern is rejected with the matching error.
    pub fn new(regex_str: &str) -> (r: Result<Regex, SyntaxError>)
        ensures
            match r {
                Ok(g) => g.wf() && (spec_compile(regex_str@) matches Ok(pair) && g.nfa.nodes@
                    == pair.0 && g.begin == pair.1.start && g.end == pair.1.end)
                    && g.dfa.states@.len() == 0,
                Err(e) => spec_compile(regex_str@) == Err::<(Seq<NfaNode>, NfaPaired), _>(e),
            },
    {
        let mut graph = Regex {
            nfa: Nfas::new(),
            dfa: DfaBTree::new(),
            begin: 0,
            end: 0,
            last_update: 1,
        };
        let frag = match graph.nfa.build_nfa(regex_str) {
            Ok(f) => f,
            Err(e) => {
                return Err(e);
            },
        };
        graph.begin = frag.start;
        graph.end = frag.end;
        Ok(graph)
    }

    /// Open a fresh closure pass: afterwards no node carries the current
    /// stamp. A pass counter about to overflow resets every stamp instead.
    fn begin_pass(&mut self)
        requires
            old(self).wf(),
        ensures
            final(self).wf(),
            same_shape(old(self).nfa.nodes@, final(self).nfa.nodes@),
            final(self).dfa == old(self).dfa,
            final(self).begin == old(self).begin,
            final(self).end == old(self).end,
            stamped(final(self).nfa.nodes@, final(self).last_update) == Set::<usize>::empty(),
    {
        let ghost nodes0 = self.nfa.nodes@;
        if self.last_update == usize::MAX {
            let n = self.nfa.nodes.len();
            let mut i: usize = 0;
            while i < n
                invariant
                    i <= n,
                    n == self.nfa.nodes@.len(),
                    nodes0.len() == n,
                    same_shape(nodes0, self.nfa.nodes@),
                    self.dfa == old(self).dfa,
                    self.begin == old(self).begin,
                    self.end == old(self).end,
                    self.last_update == old(self).last_update,
                    forall|k: int| 0 <= k < i ==> (#[trigger] self.nfa.nodes@[k]).id == 0,
                    forall|k: int|
                        i <= k < n ==> (#[trigger] self.nfa.nodes@[k]).id == nodes0[k].id,
                decreases n - i,
            {
                self.nfa.nodes[i].id = 0;
                i = i + 1;
            }
            self.last_update = 1;
        } else {
            self.last_update = self.last_update + 1;
        }
        proof {
            assert(stamped(self.nfa.nodes@, self.last_update) =~= Set::<usize>::empty());
            lemma_wf_transport(*old(self), *self);
        }
    }

    /// Add the epsilon closure of `node` to the pass: stamp and append every
    /// node reachable over epsilon edges that this pass has not visited yet.
    pub fn add2current_state(&mut self, node: NfaNodeHandle, list: &mut Vec<usize>)
        requires
            old(self).wf(),
            node < old(self).nfa.nodes@.len(),
            eps_closed(
                old(self).nfa.nodes@,
                stamped(old(self).nfa.nodes@, old(self).last_update),
            ),
            old(list)@.no_duplicates(),
            set_of(old(list)@) == stamped(old(self).nfa.nodes@, old(self).last_update),
        ensures
            final(self).wf(),
            same_shape(old(self).nfa.nodes@, final(self).nfa.nodes@),
            final(self).dfa == old(self).dfa,
            final(self).begin == old(self).begin,
            final(self).end == old(self).end,
            final(self).last_update == old(self).last_update,
            final(list)@.no_duplicates(),
            old(list)@.is_prefix_of(final(list)@),
            set_of(final(list)@) == stamped(final(self).nfa.nodes@, final(self).last_update),
            stamped(final(self).nfa.nodes@, final(self).last_update) == stamped(
                old(self).nfa.nodes@,
                old(self).last_update,
            ).union(eps_closure(old(self).nfa.nodes@, node)),
            eps_closed(
                final(self).nfa.nodes@,
                stamped(final(self).nfa.nodes@, final(self).last_update),
            ),
            stamped(old(self).nfa.nodes@, old(self).last_update).contains(node) ==> *final(self)
                == *old(self) && final(list)@ == old(list)@,
    {
        broadcast use lemma_contains_push;

        let ghost nodes0 = self.nfa.nodes@;
        let ghost gen = self.last_update;
        let ghost s0 = stamped(nodes0, gen);
        let mut dfs_stack: Vec<usize> = Vec::new();
        proof {
            assert(list@.subrange(0, list@.len() as int) =~= list@);
        }
        if self.nfa.nodes[node].id == self.last_update {
            proof {
                assert(s0.contains(node));
                lemma_closed_closure(nodes0, s0, node);
                assert(s0.union(eps_closure(nodes0, node)) =~= s0);
                lemma_same_shape_sets(nodes0, nodes0);
            }
            return ;
        }
        self.nfa.nodes[node].id = self.last_update;
        dfs_stack.push(node);
        proof {
            assert(same_shape(nodes0, self.nfa.nodes@));
            assert(stamped(self.nfa.nodes@, gen) =~= s0.insert(node));
            lemma_reach_self(nodes0, node);
            lemma_wf_transport(*old(self), *self);
            assert(set_of(dfs_stack@) =~= Set::<usize>::empty().insert(node)) by {
                assert forall|y: usize| dfs_stack@.contains(y) == (y == node) by {
                    lemma_contains_push(Seq::<usize>::empty(), node, y);
                    assert(dfs_stack@ == Seq::<usize>::empty().push(node));
                    assert(!Seq::<usize>::empty().contains(y));
                }
            }
            assert(stamped(self.nfa.nodes@, gen) =~= set_of(list@).union(set_of(dfs_stack@)));
            assert forall|k: int| 0 <= k < list@.len() implies (#[trigger] list@[k])
                < nodes0.len() by {
                assert(list@.contains(list@[k]));
                assert(s0.contains(list@[k]));
            }
        }
        loop
            invariant
                self.wf(),
                same_shape(nodes0, self.nfa.nodes@),
                self.nfa.nodes@.len() == nodes0.len(),
                self.dfa == old(self).dfa,
                self.begin == old(self).begin,
                self.end == old(self).end,
                self.last_update == gen,
                node < nodes0.len(),
                // the stamped set is the old one plus the new walk
                stamped(self.nfa.nodes@, gen) == set_of(list@).union(set_of(dfs_stack@)),
                list@.no_duplicates(),
                old(list)@.is_prefix_of(list@),
                dfs_stack@.no_duplicates(),
                forall|x: usize| !(#[trigger] set_of(list@).contains(x) && set_of(
                    dfs_stack@,
                ).contains(x)),
                forall|k: int| 0 <= k < dfs_stack@.len() ==> (#[trigger] dfs_stack@[k])
                    < nodes0.len(),
                forall|k: int| 0 <= k < list@.len() ==> (#[trigger] list@[k]) < nodes0.len(),
                // soundness: everything newly stamped is reachable from node
                forall|x: usize|
                    #[trigger] stamped(self.nfa.nodes@, gen).contains(x) ==> s0.contains(x)
                        || eps_reach(nodes0, node, x),
                // completeness: the successors of settled nodes are stamped
                forall|a: usize, b: usize|
                    #[trigger] stamped(self.nfa.nodes@, gen).contains(a) && !set_of(
                        dfs_stack@,
                    ).contains(a) && #[trigger] eps_step(nodes0, a, b) ==> stamped(
                        self.nfa.nodes@,
                        gen,
                    ).contains(b),
                s0.subset_of(stamped(self.nfa.nodes@, gen)),
                stamped(self.nfa.nodes@, gen).contains(node),
                eps_closed(nodes0, s0),
                s0 == stamped(nodes0, gen),
            ensures
                self.wf(),
                same_shape(nodes0, self.nfa.nodes@),
                self.dfa == old(self).dfa,
                self.begin == old(self).begin,
                self.end == old(self).end,
                self.last_update == gen,
                dfs_stack@.len() == 0,
                stamped(self.nfa.nodes@, gen) == set_of(list@).union(set_of(dfs_stack@)),
                list@.no_duplicates(),
                old(list)@.is_prefix_of(list@),
                forall|x: usize|
                    #[trigger] stamped(self.nfa.nodes@, gen).contains(x) ==> s0.contains(x)
                        || eps_reach(nodes0, node, x),
                forall|a: usize, b: usize|
                    #[trigger] stamped(self.nfa.nodes@, gen).contains(a) && !set_of(
                        dfs_stack@,
                    ).contains(a) && #[trigger] eps_step(nodes0, a, b) ==> stamped(
                        self.nfa.nodes@,
                        gen,
                    ).contains(b),
                s0.subset_of(stamped(self.nfa.nodes@, gen)),
                stamped(self.nfa.nodes@, gen).contains(node),
            decreases nodes0.len() - list@.len(),
        {
            let ghost self_head = *self;
            let ghost pre_stack = dfs_stack@;
            let cur = match dfs_stack.pop() {
                Some(c) => c,
                None => {
                    break ;
                },
            };
            proof {
                assert(pre_stack[pre_stack.len() - 1] == cur);
                assert(pre_stack.contains(cur));
                assert(set_of(pre_stack).contains(cur));
                assert(stamped(self.nfa.nodes@, gen).contains(cur));
                assert(s0.contains(cur) || eps_reach(nodes0, node, cur));
            }
            let ghost list0 = list@;
            let ghost stack0 = dfs_stack@.push(cur);
            list.push(cur);
            proof {
                assert forall|y: usize|
                    set_of(list@).contains(y) == set_of(list0).insert(cur).contains(y) by {
                    lemma_contains_push(list0, cur, y);
                    assert(list@ == list0.push(cur));
                }
                assert(set_of(list@) =~= set_of(list0).insert(cur));
                assert forall|y: usize|
                    set_of(stack0).contains(y) == set_of(dfs_stack@).insert(cur).contains(y) by {
                    lemma_contains_push(dfs_stack@, cur, y);
                }
                assert(set_of(stack0) =~= set_of(dfs_stack@).insert(cur));
                assert(list@.no_duplicates()) by {
                    assert(forall|k: int| 0 <= k < list0.len() ==> list0[k] == list@[k]);
                    assert(list@[list0.len() as int] == cur);
                    assert(!set_of(list0).contains(cur));
                }
                assert(old(list)@.is_prefix_of(list@)) by {
                    assert(list@.subrange(0, old(list)@.len() as int) =~= old(list)@);
                }
                assert(list@.len() <= nodes0.len()) by {
                    list@.lemma_multiset_has_no_duplicates();
                    lemma_nodup_bounded(list@, nodes0.len());
                }
            }
            let ghost nodes_a = self.nfa.nodes@;
            let ghost stack_a = dfs_stack@;
            proof {
                assert(stamped(nodes_a, gen) =~= set_of(list@).union(set_of(dfs_stack@))) by {
                    assert(set_of(dfs_stack@).insert(cur) =~= set_of(pre_stack)) by {
                        assert forall|y: usize|
                            (set_of(dfs_stack@).contains(y) || y == cur) == set_of(
                                pre_stack,
                            ).contains(y) by {
                            if y != cur && pre_stack.contains(y) {
                                let k = choose|k: int|
                                    0 <= k < pre_stack.len() && pre_stack[k] == y;
                                assert(dfs_stack@[k] == y);
                            }
                            if dfs_stack@.contains(y) {
                                let k = choose|k: int|
                                    0 <= k < dfs_stack@.len() && dfs_stack@[k] == y;
                                assert(pre_stack[k] == y);
                            }
                        }
                    }
                }
            }
            let e1 = self.nfa.nodes[cur].edge1;
            if let Some(Edge { to: target, trans: Transform::Epsilon }) = e1 {
                proof {
                    assert(edge_in_range(self.nfa.nodes@[cur as int].edge1, nodes0.len()));
                }
                if self.nfa.nodes[target].id != self.last_update {
                    proof {
                        assert(!stamped(nodes_a, gen).contains(target));
                        assert(!set_of(stack_a).contains(target));
                        assert(!set_of(list@).contains(target));
                    }
                    self.nfa.nodes[target].id = self.last_update;
                    dfs_stack.push(target);
                    proof {
                        assert(same_shape(nodes0, self.nfa.nodes@));
                        assert(eps_step(nodes0, cur, target));
                        lemma_reach_step_sound(nodes0, s0, node, cur, target);
                        assert(stamped(self.nfa.nodes@, gen) =~= stamped(nodes_a, gen).insert(
                            target,
                        ));
                        assert forall|y: usize|
                            set_of(dfs_stack@).contains(y) == set_of(stack_a).insert(
                                target,
                            ).contains(y) by {
                            lemma_contains_push(stack_a, target, y);
                        }
                        assert(set_of(dfs_stack@) =~= set_of(stack_a).insert(target));
                        assert(dfs_stack@.no_duplicates()) by {
                            assert(forall|k: int|
                                0 <= k < stack_a.len() ==> stack_a[k] == dfs_stack@[k]);
                            assert(dfs_stack@[stack_a.len() as int] == target);
                        }
                    }
                }
            }
            let ghost nodes_b = self.nfa.nodes@;
            let ghost stack_b = dfs_stack@;
            proof {
                assert(stamped(nodes_b, gen) =~= set_of(list@).union(set_of(stack_b)));
                assert(forall|x: usize|
                    stamped(nodes_a, gen).contains(x) ==> #[trigger] stamped(
                        nodes_b,
                        gen,
                    ).contains(x));
                assert(nodes0[cur as int].edge1 == e1);
                assert(match e1 {
                    Some(e) => e.trans is Epsilon ==> stamped(nodes_b, gen).contains(e.to),
                    None => true,
                });
            }
            let e2 = self.nfa.nodes[cur].edge2;
            if let Some(Edge { to: target, trans: Transform::Epsilon }) = e2 {
                proof {
                    assert(edge_in_range(self.nfa.nodes@[cur as int].edge2, nodes0.len()));
                }
                if self.nfa.nodes[target].id != self.last_update {
                    proof {
                        assert(!stamped(nodes_b, gen).contains(target));
                        assert(!set_of(stack_b).contains(target));
                        assert(!set_of(list@).contains(target));
                    }
                    self.nfa.nodes[target].id = self.last_update;
                    dfs_stack.push(target);
                    proof {
                        assert(same_shape(nodes0, self.nfa.nodes@));
                        assert(eps_step(nodes0, cur, target));
                        lemma_reach_step_sound(nodes0, s0, node, cur, target);
                        assert(stamped(self.nfa.nodes@, gen) =~= stamped(nodes_b, gen).insert(
                            target,
                        ));
                        assert forall|y: usize|
                            set_of(dfs_stack@).contains(y) == set_of(stack_b).insert(
                                target,
                            ).contains(y) by {
                            lemma_contains_push(stack_b, target, y);
                        }
                        assert(set_of(dfs_stack@) =~= set_of(stack_b).insert(target));
                        assert(dfs_stack@.no_duplicates()) by {
                            assert(forall|k: int|
                                0 <= k < stack_b.len() ==> stack_b[k] == dfs_stack@[k]);
                            assert(dfs_stack@[stack_b.len() as int] == target);
                        }
                    }
                }
            }
            proof {
                let nodes_c = self.nfa.nodes@;
                let stack_c = dfs_stack@;
                assert(stamped(nodes_c, gen) =~= set_of(list@).union(set_of(stack_c)));
                assert(forall|x: usize|
                    stamped(nodes_b, gen).contains(x) ==> #[trigger] stamped(
                        nodes_c,
                        gen,
                    ).contains(x));
                assert(forall|x: usize|
                    set_of(stack_b).contains(x) ==> #[trigger] set_of(stack_c).contains(x));
                assert(nodes0[cur as int].edge2 == e2);
                assert(match e2 {
                    Some(e) => e.trans is Epsilon ==> stamped(nodes_c, gen).contains(e.to),
                    None => true,
                });
                assert(match e1 {
                    Some(e) => e.trans is Epsilon ==> stamped(nodes_c, gen).contains(e.to),
                    None => true,
                });
                // cur is settled: both of its epsilon successors are stamped
                assert forall|a: usize, b: usize|
                    #[trigger] stamped(nodes_c, gen).contains(a) && !set_of(stack_c).contains(a)
                        && #[trigger] eps_step(nodes0, a, b) implies stamped(
                    nodes_c,
                    gen,
                ).contains(b) by {
                    if a == cur {
                        assert(eps_edge_to(nodes0[cur as int].edge1, b) || eps_edge_to(
                            nodes0[cur as int].edge2,
                            b,
                        ));
                    } else {
                        if stamped(nodes_a, gen).contains(a) {
                            // already stamped when this body began
                            assert(!set_of(stack_a).contains(a)) by {
                                assert(forall|x: usize|
                                    set_of(stack_a).contains(x) ==> #[trigger] set_of(
                                        stack_c,
                                    ).contains(x));
                            }
                            assert(!set_of(pre_stack).contains(a)) by {
                                if pre_stack.contains(a) {
                                    let k = choose|k: int|
                                        0 <= k < pre_stack.len() && pre_stack[k] == a;
                                    if k < pre_stack.len() - 1 {
                                        assert(stack_a[k] == a);
                                    }
                                }
                            }
                            assert(stamped(nodes_a, gen).contains(b));
                        } else {
                            // a was stamped in this body: it is on the stack
                            assert(set_of(stack_c).contains(a));
                            assert(false);
                        }
                    }
                }
                // the engine invariant survives the stampings
                assert forall|i: int|
                    0 <= i < self.nfa.nodes@.len() implies (#[trigger] self.nfa.nodes@[i]).id
                    <= self.last_update by {
                    if self.nfa.nodes@[i].id != self_head.nfa.nodes@[i].id {
                        assert(self.nfa.nodes@[i].id == gen);
                    }
                }
                lemma_wf_transport(self_head, *self);
            }
        }
        proof {
            let nodes1 = self.nfa.nodes@;
            let st = stamped(nodes1, gen);
            assert(set_of(dfs_stack@) =~= Set::<usize>::empty()) by {
                assert(dfs_stack@.len() == 0);
                assert forall|x: usize| !dfs_stack@.contains(x) by {
                    if dfs_stack@.contains(x) {
                        let k = choose|k: int| 0 <= k < dfs_stack@.len() && dfs_stack@[k] == x;
                    }
                }
            }
            assert(st =~= set_of(list@));
            // closed, contains node, sound: equals the union with the closure
            assert(eps_closed(nodes1, st)) by {
                assert forall|a: usize, b: usize|
                    #[trigger] st.contains(a) && #[trigger] eps_step(nodes1, a, b) implies st
                    .contains(b) by {
                    assert(eps_step(nodes0, a, b) == eps_step(nodes1, a, b));
                }
            }
            assert(eps_closed(nodes0, st)) by {
                assert forall|a: usize, b: usize|
                    #[trigger] st.contains(a) && #[trigger] eps_step(nodes0, a, b) implies st
                    .contains(b) by {
                    assert(eps_step(nodes1, a, b) == eps_step(nodes0, a, b));
                }
            }
            lemma_closed_closure(nodes0, st, node);
            assert(st =~= s0.union(eps_closure(nodes0, node)));
        }
    }

    /// Retrieve or create the cache entry for the current node set: sort it
    /// into canonical form and intern it in the splay tree.
    pub fn get_dfa_state(&mut self, list: &mut Vec<usize>) -> (h: DfaStateHandle)
        requires
            old(self).wf(),
            old(list)@.no_duplicates(),
            forall|k: int| 0 <= k < old(list)@.len() ==> (#[trigger] old(list)@[k]) < old(
                self,
            ).nfa.nodes@.len(),
        ensures
            final(self).wf(),
            final(self).nfa == old(self).nfa,
            final(self).begin == old(self).begin,
            final(self).end == old(self).end,
            final(self).last_update == old(self).last_update,
            old(self).dfa.states@.len() <= final(self).dfa.states@.len(),
            forall|d: int|
                0 <= d < old(self).dfa.states@.len() ==> final(self).dfa.states@[d].nfa_nodes
                    == old(self).dfa.states@[d].nfa_nodes && final(self).dfa.states@[d].transform
                    == old(self).dfa.states@[d].transform,
            h < final(self).dfa.states@.len(),
            set_of(final(self).dfa.states@[h as int].nfa_nodes@) == set_of(old(list)@),
            final(list)@.to_multiset() == old(list)@.to_multiset(),
            set_of(final(list)@) == set_of(old(list)@),
            final(list)@.no_duplicates(),
            sorted_strict(final(list)@),
    {
        let ghost key0 = list@;
        sort_nodes(list);
        proof {
            broadcast use vstd::seq_lib::group_to_multiset_ensures;

            key0.lemma_multiset_has_no_duplicates();
            list@.lemma_multiset_has_no_duplicates_conv();
            assert(set_of(list@) =~= set_of(key0)) by {
                assert forall|x: usize| list@.contains(x) == key0.contains(x) by {
                    assert(list@.contains(x) <==> list@.to_multiset().count(x) > 0);
                    assert(key0.contains(x) <==> key0.to_multiset().count(x) > 0);
                }
            }
            assert(sorted_strict(list@)) by {
                assert forall|p: int, q: int| 0 <= p < q < list@.len() implies list@[p]
                    < list@[q] by {
                    if list@[p] == list@[q] {
                        assert(!list@.no_duplicates());
                    }
                }
            }
            assert(forall|k: int|
                0 <= k < list@.len() ==> (#[trigger] list@[k]) < old(self).nfa.nodes@.len()) by {
                assert forall|k: int| 0 <= k < list@.len() implies (#[trigger] list@[k]) < old(
                    self,
                ).nfa.nodes@.len() by {
                    assert(list@.contains(list@[k]));
                    assert(list@.to_multiset().count(list@[k]) > 0);
                    assert(key0.to_multiset().count(list@[k]) > 0);
                    assert(key0.contains(list@[k]));
                }
            }
        }
        let h = self.dfa.or_insert(list);
        proof {
            let nodes = self.nfa.nodes@;
            let ds = self.dfa.states@;
            assert forall|d: int| 0 <= d < ds.len() implies #[trigger] dfa_entry_ok(
                nodes,
                ds,
                d,
            ) by {
                if d < old(self).dfa.states@.len() {
                    assert(dfa_entry_ok(nodes, old(self).dfa.states@, d));
                    assert(forall|t: int|
                        0 <= t < ds[d].transform@.len() ==> ds[d].transform@[t] == old(
                            self,
                        ).dfa.states@[d].transform@[t]);
                } else {
                    assert(ds[d].transform@ == Seq::<(char, DfaStateHandle)>::empty());
                    assert(ds[d].nfa_nodes@ == list@);
                }
            }
        }
        h
    }

    /// One subset-construction step: collect the closures of every node
    /// reached from the current set over a `chr`-labeled edge, and intern the
    /// union.
    pub fn step(&mut self, old_list: &mut Vec<usize>, chr: char) -> (h: DfaStateHandle)
        requires
            old(self).wf(),
            stamped(old(self).nfa.nodes@, old(self).last_update) == Set::<usize>::empty(),
            forall|k: int| 0 <= k < old(old_list)@.len() ==> (#[trigger] old(old_list)@[k]) < old(
                self,
            ).nfa.nodes@.len(),
        ensures
            final(self).wf(),
            same_shape(old(self).nfa.nodes@, final(self).nfa.nodes@),
            final(self).begin == old(self).begin,
            final(self).end == old(self).end,
            final(old_list)@ == old(old_list)@,
            old(self).dfa.states@.len() <= final(self).dfa.states@.len(),
            forall|d: int|
                0 <= d < old(self).dfa.states@.len() ==> final(self).dfa.states@[d].nfa_nodes
                    == old(self).dfa.states@[d].nfa_nodes && final(self).dfa.states@[d].transform
                    == old(self).dfa.states@[d].transform,
            h < final(self).dfa.states@.len(),
            set_of(final(self).dfa.states@[h as int].nfa_nodes@) == next_set(
                old(self).nfa.nodes@,
                set_of(old(old_list)@),
                chr,
            ),
    {
        let ghost nodes0 = self.nfa.nodes@;
        let ghost gen = self.last_update;
        let ghost seeds = set_of(old_list@);
        let mut new_list: Vec<usize> = Vec::new();
        let n = old_list.len();
        let mut idx: usize = 0;
        proof {
            assert(stamped(nodes0, gen) =~= eps_closure_set(
                nodes0,
                char_targets_upto(nodes0, old_list@, chr, 0),
            )) by {
                assert forall|b: usize|
                    !eps_closure_set(nodes0, char_targets_upto(nodes0, old_list@, chr, 0)).contains(
                        b,
                    ) by {
                    assert(forall|t: usize|
                        !char_targets_upto(nodes0, old_list@, chr, 0).contains(t));
                }
            }
        }
        while idx < n
            invariant
                self.wf(),
                same_shape(nodes0, self.nfa.nodes@),
                self.dfa == old(self).dfa,
                self.begin == old(self).begin,
                self.end == old(self).end,
                self.last_update == gen,
                old_list@ == old(old_list)@,
                n == old_list@.len(),
                idx <= n,
                forall|k: int| 0 <= k < old_list@.len() ==> (#[trigger] old_list@[k])
                    < nodes0.len(),
                new_list@.no_duplicates(),
                set_of(new_list@) == stamped(self.nfa.nodes@, gen),
                stamped(self.nfa.nodes@, gen) == eps_closure_set(
                    nodes0,
                    char_targets_upto(nodes0, old_list@, chr, idx as int),
                ),
            decreases n - idx,
        {
            let ghost targets0 = char_targets_upto(nodes0, old_list@, chr, idx as int);
            let nd = old_list[idx];
            let e1 = self.nfa.nodes[nd].edge1;
            if let Some(Edge { to: target, trans: Transform::Trans(edge_ch) }) = e1 {
                if chr == edge_ch {
                    proof {
                        assert(edge_in_range(self.nfa.nodes@[nd as int].edge1, nodes0.len()));
                        lemma_closure_set_closed(nodes0, targets0);
                        lemma_closed_transport(
                            nodes0,
                            self.nfa.nodes@,
                            stamped(self.nfa.nodes@, gen),
                        );
                    }
                    let ghost mid_nodes = self.nfa.nodes@;
                    self.add2current_state(target, &mut new_list);
                    proof {
                        lemma_same_shape_sets(nodes0, mid_nodes);
                        assert(eps_closure(mid_nodes, target) == eps_closure(nodes0, target));
                        lemma_closure_union(nodes0, targets0, target);
                        assert(stamped(self.nfa.nodes@, gen) == eps_closure_set(
                            nodes0,
                            targets0.insert(target),
                        ));
                    }
                }
            }
            proof {
                assert(stamped(self.nfa.nodes@, gen) == eps_closure_set(
                    nodes0,
                    with_edge(nodes0, targets0, chr, e1),
                )) by {
                    match e1 {
                        Some(edge) => {
                            if edge.trans == Transform::Trans(chr) {
                                assert(with_edge(nodes0, targets0, chr, e1) == targets0.insert(
                                    edge.to,
                                ));
                            } else {
                                assert(with_edge(nodes0, targets0, chr, e1) == targets0);
                            }
                        },
                        None => {
                            assert(with_edge(nodes0, targets0, chr, e1) == targets0);
                        },
                    }
                }
            }
            let ghost targets1 = with_edge(nodes0, targets0, chr, e1);
            let e2 = self.nfa.nodes[nd].edge2;
            if let Some(Edge { to: target, trans: Transform::Trans(edge_ch) }) = e2 {
                if chr == edge_ch {
                    proof {
                        assert(edge_in_range(self.nfa.nodes@[nd as int].edge2, nodes0.len()));
                        lemma_closure_set_closed(nodes0, targets1);
                        lemma_closed_transport(
                            nodes0,
                            self.nfa.nodes@,
                            stamped(self.nfa.nodes@, gen),
                        );
                    }
                    let ghost mid_nodes = self.nfa.nodes@;
                    self.add2current_state(target, &mut new_list);
                    proof {
                        lemma_same_shape_sets(nodes0, mid_nodes);
                        assert(eps_closure(mid_nodes, target) == eps_closure(nodes0, target));
                        lemma_closure_union(nodes0, targets1, target);
                        assert(stamped(self.nfa.nodes@, gen) == eps_closure_set(
                            nodes0,
                            targets1.insert(target),
                        ));
                    }
                }
            }
            proof {
                assert(stamped(self.nfa.nodes@, gen) == eps_closure_set(
                    nodes0,
                    with_edge(nodes0, targets1, chr, e2),
                )) by {
                    match e2 {
                        Some(edge) => {
                            if edge.trans == Transform::Trans(chr) {
                                assert(with_edge(nodes0, targets1, chr, e2) == targets1.insert(
                                    edge.to,
                                ));
                            } else {
                                assert(with_edge(nodes0, targets1, chr, e2) == targets1);
                            }
                        },
                        None => {
                            assert(with_edge(nodes0, targets1, chr, e2) == targets1);
                        },
                    }
                }
                lemma_targets_step(
                    nodes0,
                    old_list@,
                    chr,
                    idx as int,
                    stamped(self.nfa.nodes@, gen),
                    targets0,
                    e1,
                    e2,
                );
            }
            idx = idx + 1;
        }
        proof {
            assert(char_targets_upto(nodes0, old_list@, chr, n as int) == all_char_targets(
                nodes0,
                old_list@,
                chr,
            ));
            lemma_next_set_closure(nodes0, old_list@, chr);
            assert(set_of(new_list@) == next_set(nodes0, seeds, chr));
            assert forall|k: int| 0 <= k < new_list@.len() implies (#[trigger] new_list@[k])
                < nodes0.len() by {
                assert(new_list@.contains(new_list@[k]));
                assert(set_of(new_list@).contains(new_list@[k]));
                assert(stamped(self.nfa.nodes@, gen).contains(new_list@[k]));
            }
        }
        let h = self.get_dfa_state(&mut new_list);
        proof {
            lemma_same_shape_sets(nodes0, self.nfa.nodes@);
        }
        h
    }

    /// The DFA transition out of `dstate` on `chr`: reuse the memoized handle
    /// when one exists, otherwise run one subset-construction step and record
    /// it in the state's table.
    pub fn get_next_state(&mut self, dstate: DfaStateHandle, chr: char) -> (h: DfaStateHandle)
        requires
            old(self).wf(),
            dstate < old(self).dfa.states@.len(),
        ensures
            final(self).wf(),
            same_shape(old(self).nfa.nodes@, final(self).nfa.nodes@),
            final(self).begin == old(self).begin,
            final(self).end == old(self).end,
            old(self).dfa.states@.len() <= final(self).dfa.states@.len(),
            forall|d: int|
                0 <= d < old(self).dfa.states@.len() ==> final(self).dfa.states@[d].nfa_nodes
                    == old(self).dfa.states@[d].nfa_nodes,
            h < final(self).dfa.states@.len(),
            set_of(final(self).dfa.states@[h as int].nfa_nodes@) == next_set(
                old(self).nfa.nodes@,
                set_of(old(self).dfa.states@[dstate as int].nfa_nodes@),
                chr,
            ),
            final(self).dfa.states@[dstate as int].transform@.contains((chr, h)),
    {
        let ghost nodes_orig = old(self).nfa.nodes@;
        self.begin_pass();
        let ghost gp = *self;
        let n = self.dfa.states[dstate].transform.len();
        let mut ti: usize = 0;
        while ti < n
            invariant
                *self == gp,
                gp.wf(),
                dstate < gp.dfa.states@.len(),
                n == gp.dfa.states@[dstate as int].transform@.len(),
                ti <= n,
                forall|t: int|
                    0 <= t < ti ==> (#[trigger] gp.dfa.states@[dstate as int].transform@[t]).0
                        != chr,
                nodes_orig == old(self).nfa.nodes@,
                same_shape(nodes_orig, gp.nfa.nodes@),
                gp.begin == old(self).begin,
                gp.end == old(self).end,
                gp.dfa == old(self).dfa,
            decreases n - ti,
        {
            let pair = self.dfa.states[dstate].transform[ti];
            if pair.0 == chr {
                proof {
                    assert(dfa_entry_ok(self.nfa.nodes@, self.dfa.states@, dstate as int));
                    lemma_same_shape_sets(nodes_orig, self.nfa.nodes@);
                    assert(self.dfa.states@[dstate as int].transform@[ti as int] == (
                        chr,
                        pair.1,
                    ));
                    assert(self.dfa.states@[dstate as int].transform@.contains((chr, pair.1)));
                }
                return pair.1;
            }
            ti = ti + 1;
        }
        let mut old_states = copy_nodes(&self.dfa.states[dstate].nfa_nodes);
        proof {
            assert(dfa_entry_ok(self.nfa.nodes@, self.dfa.states@, dstate as int));
            assert(forall|t: int|
                0 <= t < self.dfa.states@[dstate as int].transform@.len() ==> (
                #[trigger] self.dfa.states@[dstate as int].transform@[t]).0 != chr);
        }
        let ghost before_step = *self;
        let h2 = self.step(&mut old_states, chr);
        let ghost after_step = *self;
        self.dfa.states[dstate].transform.push((chr, h2));
        proof {
            assert(self.dfa.states@[dstate as int].transform@.last() == (chr, h2));
            assert(self.dfa.states@[dstate as int].transform@.contains((chr, h2)));
            lemma_same_shape_sets(nodes_orig, before_step.nfa.nodes@);
            lemma_same_shape_sets(before_step.nfa.nodes@, self.nfa.nodes@);
            crate::dfa::lemma_tree_wf_same_links(
                after_step.dfa.states@,
                self.dfa.states@,
                self.dfa.root,
            );
            assert forall|d: int| 0 <= d < self.dfa.states@.len() implies #[trigger] dfa_entry_ok(
                self.nfa.nodes@,
                self.dfa.states@,
                d,
            ) by {
                assert(dfa_entry_ok(after_step.nfa.nodes@, after_step.dfa.states@, d));
                let st = self.dfa.states@[d];
                assert forall|t: int|
                    0 <= t < st.transform@.len() implies ((#[trigger] st.transform@[t]).1
                    < self.dfa.states@.len() && set_of(
                    self.dfa.states@[st.transform@[t].1 as int].nfa_nodes@,
                ) == next_set(self.nfa.nodes@, set_of(st.nfa_nodes@), st.transform@[t].0)) by {
                    if d == dstate && t == st.transform@.len() - 1 {
                        assert(st.transform@[t] == (chr, h2));
                        assert(set_of(self.dfa.states@[h2 as int].nfa_nodes@) == next_set(
                            self.nfa.nodes@,
                            set_of(st.nfa_nodes@),
                            chr,
                        ));
                    } else {
                        assert(after_step.dfa.states@[d].transform@[t] == st.transform@[t]);
                    }
                }
                // the recorded key is fresh: the lookup scanned the whole
                // table without finding it, and the step left it untouched
                assert forall|t1: int, t2: int|
                    0 <= t1 < t2 < st.transform@.len() implies (#[trigger] st.transform@[t1]).0
                    != (#[trigger] st.transform@[t2]).0 by {
                    if d == dstate {
                        assert(after_step.dfa.states@[d].transform@ == gp.dfa.states@[
                            dstate as int
                        ].transform@);
                        if t2 == st.transform@.len() - 1 {
                            assert(st.transform@[t1]
                                == gp.dfa.states@[dstate as int].transform@[t1]);
                            assert(st.transform@[t1].0 != chr);
                        } else {
                            assert(after_step.dfa.states@[d].transform@[t1] == st.transform@[t1]);
                            assert(after_step.dfa.states@[d].transform@[t2] == st.transform@[t2]);
                        }
                    } else {
                        assert(after_step.dfa.states@[d].transform@[t1] == st.transform@[t1]);
                        assert(after_step.dfa.states@[d].transform@[t2] == st.transform@[t2]);
                    }
                }
            }
            assert(self.wf());
        }
        h2
    }

    /// The initial DFA state: the epsilon closure of the automaton's entry.
    pub fn init_current_state(&mut self, list: &mut Vec<usize>) -> (h: DfaStateHandle)
        requires
            old(self).wf(),
        ensures
            final(self).wf(),
            same_shape(old(self).nfa.nodes@, final(self).nfa.nodes@),
            final(self).begin == old(self).begin,
            final(self).end == old(self).end,
            old(self).dfa.states@.len() <= final(self).dfa.states@.len(),
            forall|d: int|
                0 <= d < old(self).dfa.states@.len() ==> final(self).dfa.states@[d].nfa_nodes
                    == old(self).dfa.states@[d].nfa_nodes,
            h < final(self).dfa.states@.len(),
            set_of(final(self).dfa.states@[h as int].nfa_nodes@) == eps_closure(
                old(self).nfa.nodes@,
                old(self).begin,
            ),
            set_of(final(list)@) == eps_closure(old(self).nfa.nodes@, old(self).begin),
            final(list)@.no_duplicates(),
            sorted_strict(final(list)@),
            stamped(final(self).nfa.nodes@, final(self).last_update) == eps_closure(
                old(self).nfa.nodes@,
                old(self).begin,
            ),
    {
        let ghost nodes_orig = old(self).nfa.nodes@;
        self.begin_pass();
        let ghost pass_nodes = self.nfa.nodes@;
        list.clear();
        let b = self.begin;
        proof {
            assert(set_of(list@) =~= stamped(self.nfa.nodes@, self.last_update)) by {
                assert(forall|y: usize| !list@.contains(y));
            }
        }
        self.add2current_state(b, list);
        proof {
            lemma_same_shape_sets(nodes_orig, pass_nodes);
            assert(eps_closure(pass_nodes, b) == eps_closure(nodes_orig, b));
            assert(set_of(list@) =~= eps_closure(nodes_orig, b));
            assert forall|k: int| 0 <= k < list@.len() implies (#[trigger] list@[k])
                < self.nfa.nodes@.len() by {
                assert(list@.contains(list@[k]));
                assert(stamped(self.nfa.nodes@, self.last_update).contains(list@[k]));
            }
        }
        let h = self.get_dfa_state(list);
        h
    }

    /// Match the whole string: run the lazy DFA over `query` and accept when
    /// the final state's node set holds a terminal node. The result is a
    /// function of the automaton and the text alone, so repeated calls agree
    /// regardless of what the cache has memoized in between.
    pub fn bfs_match(&mut self, query: &str) -> (r: bool)
        requires
            old(self).wf(),
        ensures
            final(self).wf(),
            same_shape(old(self).nfa.nodes@, final(self).nfa.nodes@),
            final(self).begin == old(self).begin,
            final(self).end == old(self).end,
            r == accepts(old(self).nfa.nodes@, old(self).begin, query@),
            r == accepts(final(self).nfa.nodes@, final(self).begin, query@),
    {
        let ghost nodes0 = old(self).nfa.nodes@;
        let ghost begin0 = old(self).begin;
        let mut nodes_list: Vec<usize> = Vec::new();
        let mut cur_state = self.init_current_state(&mut nodes_list);
        let n = query.unicode_len();
        let mut i: usize = 0;
        proof {
            assert(query@.subrange(0, 0) =~= Seq::<char>::empty());
        }
        while i < n
            invariant
                self.wf(),
                nodes0 == old(self).nfa.nodes@,
                begin0 == old(self).begin,
                same_shape(nodes0, self.nfa.nodes@),
                self.begin == begin0,
                self.end == old(self).end,
                i <= n,
                n == query@.len(),
                cur_state < self.dfa.states@.len(),
                set_of(self.dfa.states@[cur_state as int].nfa_nodes@) == run_sets(
                    nodes0,
                    eps_closure(nodes0, begin0),
                    query@.subrange(0, i as int),
                ),
            decreases n - i,
        {
            let ch = query.get_char(i);
            let ghost pre = *self;
            cur_state = self.get_next_state(cur_state, ch);
            proof {
                lemma_same_shape_sets(nodes0, pre.nfa.nodes@);
                lemma_run_snoc(
                    nodes0,
                    eps_closure(nodes0, begin0),
                    query@.subrange(0, i as int),
                    ch,
                );
                assert(query@.subrange(0, i as int).push(ch) =~= query@.subrange(0, i as int + 1));
            }
            i = i + 1;
        }
        proof {
            assert(query@.subrange(0, n as int) =~= query@);
        }
        let node_count = self.dfa.states[cur_state].nfa_nodes.len();
        let ghost fin = run_sets(nodes0, eps_closure(nodes0, begin0), query@);
        let mut j: usize = 0;
        while j < node_count
            invariant
                self.wf(),
                nodes0 == old(self).nfa.nodes@,
                begin0 == old(self).begin,
                same_shape(nodes0, self.nfa.nodes@),
                self.begin == begin0,
                self.end == old(self).end,
                fin == run_sets(nodes0, eps_closure(nodes0, begin0), query@),
                cur_state < self.dfa.states@.len(),
                node_count == self.dfa.states@[cur_state as int].nfa_nodes@.len(),
                set_of(self.dfa.states@[cur_state as int].nfa_nodes@) == fin,
                j <= node_count,
                forall|k: int|
                    0 <= k < j ==> !self.nfa.nodes@[(#[trigger] self.dfa.states@[
                        cur_state as int
                    ].nfa_nodes@[k]) as int].is_end,
            decreases node_count - j,
        {
            let nd = self.dfa.states[cur_state].nfa_nodes[j];
            proof {
                assert(dfa_entry_ok(self.nfa.nodes@, self.dfa.states@, cur_state as int));
            }
            if self.nfa.nodes[nd].is_end {
                proof {
                    let lst = self.dfa.states@[cur_state as int].nfa_nodes@;
                    assert(lst.contains(nd));
                    assert(fin.contains(nd));
                    assert(nodes0[nd as int].is_end);
                    assert(accepts(nodes0, begin0, query@));
                    lemma_match_deterministic(nodes0, self.nfa.nodes@, begin0, query@);
                }
                return true;
            }
            j = j + 1;
        }
        proof {
            assert(!accepts(nodes0, begin0, query@)) by {
                if accepts(nodes0, begin0, query@) {
                    let w = choose|w: usize| #[trigger]
                        fin.contains(w) && w < nodes0.len() && nodes0[w as int].is_end;
                    let lst = self.dfa.states@[cur_state as int].nfa_nodes@;
                    assert(lst.contains(w));
                    let k = choose|k: int| 0 <= k < lst.len() && lst[k] == w;
                    assert(!self.nfa.nodes@[lst[k] as int].is_end);
                }
            }
            lemma_match_deterministic(nodes0, self.nfa.nodes@, begin0, query@);
        }
        false
    }

}

/// A plain copy of a node-set vector.
fn copy_nodes(list: &Vec<usize>) -> (r: Vec<usize>)
    ensures
        r@ == list@,
{
    let mut r: Vec<usize> = Vec::new();
    let mut i: usize = 0;
    while i < list.len()
        invariant
            i <= list@.len(),
            r@ == list@.subrange(0, i as int),
        decreases list@.len() - i,
    {
        r.push(list[i]);
        proof {
            assert(r@ =~= list@.subrange(0, i + 1));
        }
        i = i + 1;
    }
    proof {
        assert(list@.subrange(0, list@.len() as int) =~= list@);
    }
    r
}

/// Membership after a push.
pub broadcast proof fn lemma_contains_push(s: Seq<usize>, x: usize, y: usize)
    ensures
        #[trigger] s.push(x).contains(y) <==> s.contains(y) || y == x,
{
    if s.contains(y) {
        let k = choose|k: int| 0 <= k < s.len() && s[k] == y;
        assert(s.push(x)[k] == y);
    }
    assert(s.push(x)[s.len() as int] == x);
    if s.push(x).contains(y) {
        let k = choose|k: int| 0 <= k < s.push(x).len() && s.push(x)[k] == y;
        if k < s.len() {
            assert(s[k] == y);
        }
    }
}

/// Reshaping the stamps leaves the engine's invariant intact.
proof fn lemma_wf_transport(g0: Regex, g1: Regex)
    requires
        g0.wf(),
        same_shape(g0.nfa.nodes@, g1.nfa.nodes@),
        g1.dfa == g0.dfa,
        g1.begin == g0.begin,
        g1.end == g0.end,
        forall|i: int|
            0 <= i < g1.nfa.nodes@.len() ==> (#[trigger] g1.nfa.nodes@[i]).id <= g1.last_update,
    ensures
        g1.wf(),
{
    let a = g0.nfa.nodes@;
    let b = g1.nfa.nodes@;
    lemma_same_shape_sets(a, b);
    assert(nfa_wf(b)) by {
        assert forall|i: int|
            0 <= i < b.len() implies edge_in_range(#[trigger] b[i].edge1, b.len()) && edge_in_range(
            b[i].edge2,
            b.len(),
        ) by {
            assert(edge_in_range(a[i].edge1, a.len()));
            assert(edge_in_range(a[i].edge2, a.len()));
        }
    }
    assert forall|d: int| 0 <= d < g1.dfa.states@.len() implies #[trigger] dfa_entry_ok(
        b,
        g1.dfa.states@,
        d,
    ) by {
        assert(dfa_entry_ok(a, g0.dfa.states@, d));
        let st = g1.dfa.states@[d];
        assert forall|t: int| 0 <= t < st.transform@.len() implies ((#[trigger] st.transform@[t]).1
            < g1.dfa.states@.len() && set_of(g1.dfa.states@[st.transform@[t].1 as int].nfa_nodes@)
            == next_set(b, set_of(st.nfa_nodes@), st.transform@[t].0)) by {
            assert(next_set(a, set_of(st.nfa_nodes@), st.transform@[t].0) == next_set(
                b,
                set_of(st.nfa_nodes@),
                st.transform@[t].0,
            ));
        }
    }
}

/// The characters-matched targets among the first `upto` seeds.
pub open spec fn char_targets_upto(
    nodes: Seq<NfaNode>,
    lst: Seq<usize>,
    c: char,
    upto: int,
) -> Set<usize> {
    Set::new(
        |t: usize|
            exists|k: int| 0 <= k < upto && k < lst.len() && #[trigger] char_step(
                nodes,
                lst[k],
                c,
                t,
            ),
    )
}

/// All character-matched targets of the seed list.
pub open spec fn all_char_targets(nodes: Seq<NfaNode>, lst: Seq<usize>, c: char) -> Set<usize> {
    char_targets_upto(nodes, lst, c, lst.len() as int)
}

/// Adding one more seed to a closure union.
proof fn lemma_closure_union(nodes: Seq<NfaNode>, seeds: Set<usize>, t: usize)
    ensures
        eps_closure_set(nodes, seeds.insert(t)) == eps_closure_set(nodes, seeds).union(
            eps_closure(nodes, t),
        ),
{
    assert(eps_closure_set(nodes, seeds.insert(t)) =~= eps_closure_set(nodes, seeds).union(
        eps_closure(nodes, t),
    )) by {
        assert forall|b: usize|
            eps_closure_set(nodes, seeds.insert(t)).contains(b) == (eps_closure_set(
                nodes,
                seeds,
            ).contains(b) || eps_closure(nodes, t).contains(b)) by {
            if eps_closure_set(nodes, seeds.insert(t)).contains(b) {
                let a = choose|a: usize| #[trigger] seeds.insert(t).contains(a) && eps_reach(
                    nodes,
                    a,
                    b,
                );
                if a != t {
                    assert(seeds.contains(a));
                }
            }
            if eps_closure_set(nodes, seeds).contains(b) {
                let a = choose|a: usize| #[trigger] seeds.contains(a) && eps_reach(nodes, a, b);
                assert(seeds.insert(t).contains(a));
            }
            if eps_closure(nodes, t).contains(b) {
                assert(seeds.insert(t).contains(t));
            }
        }
    }
}

/// A closed set stays closed in an arena of the same shape.
proof fn lemma_closed_transport(a: Seq<NfaNode>, b: Seq<NfaNode>, s: Set<usize>)
    requires
        same_shape(a, b),
        eps_closed(a, s),
    ensures
        eps_closed(b, s),
{
    assert forall|x: usize, y: usize| #[trigger] s.contains(x) && #[trigger] eps_step(
        b,
        x,
        y,
    ) implies s.contains(y) by {
        assert(eps_step(a, x, y) == eps_step(b, x, y));
    }
}

/// Consuming the edges of the seed at `idx` extends the target set by
/// exactly that seed's matching targets.
proof fn lemma_targets_step(
    nodes: Seq<NfaNode>,
    lst: Seq<usize>,
    c: char,
    idx: int,
    st: Set<usize>,
    targets0: Set<usize>,
    e1: Option<Edge>,
    e2: Option<Edge>,
)
    requires
        0 <= idx < lst.len(),
        lst[idx] < nodes.len(),
        e1 == nodes[lst[idx] as int].edge1,
        e2 == nodes[lst[idx] as int].edge2,
        targets0 == char_targets_upto(nodes, lst, c, idx),
        st == eps_closure_set(nodes, with_edge(nodes, with_edge(nodes, targets0, c, e1), c, e2)),
    ensures
        st == eps_closure_set(nodes, char_targets_upto(nodes, lst, c, idx + 1)),
{
    assert(with_edge(nodes, with_edge(nodes, targets0, c, e1), c, e2) =~= char_targets_upto(
        nodes,
        lst,
        c,
        idx + 1,
    )) by {
        assert forall|t: usize|
            with_edge(nodes, with_edge(nodes, targets0, c, e1), c, e2).contains(t)
                == char_targets_upto(nodes, lst, c, idx + 1).contains(t) by {
            if char_targets_upto(nodes, lst, c, idx + 1).contains(t) {
                let k = choose|k: int|
                    0 <= k < idx + 1 && k < lst.len() && #[trigger] char_step(nodes, lst[k], c, t);
                if k < idx {
                    assert(targets0.contains(t));
                }
            }
            if targets0.contains(t) {
                let k = choose|k: int|
                    0 <= k < idx && k < lst.len() && #[trigger] char_step(nodes, lst[k], c, t);
                assert(char_targets_upto(nodes, lst, c, idx + 1).contains(t));
            }
            if char_edge_matches(e1, c, t) || char_edge_matches(e2, c, t) {
                assert(char_step(nodes, lst[idx], c, t));
                assert(char_targets_upto(nodes, lst, c, idx + 1).contains(t));
            }
        }
    }
}

/// The target set once one optional edge of the current seed is taken into
/// account.
pub open spec fn with_edge(
    nodes: Seq<NfaNode>,
    targets: Set<usize>,
    c: char,
    e: Option<Edge>,
) -> Set<usize> {
    match e {
        Some(edge) => if edge.trans == Transform::Trans(c) {
            targets.insert(edge.to)
        } else {
            targets
        },
        None => targets,
    }
}

/// Whether this optional edge is a `c`-labeled edge to `t`.
pub open spec fn char_edge_matches(e: Option<Edge>, c: char, t: usize) -> bool {
    match e {
        Some(edge) => edge.trans == Transform::Trans(c) && edge.to == t,
        None => false,
    }
}

/// The closure of all matched targets is the subset-construction successor.
proof fn lemma_next_set_closure(nodes: Seq<NfaNode>, lst: Seq<usize>, c: char)
    ensures
        eps_closure_set(nodes, all_char_targets(nodes, lst, c)) == next_set(
            nodes,
            set_of(lst),
            c,
        ),
{
    assert(eps_closure_set(nodes, all_char_targets(nodes, lst, c)) =~= next_set(
        nodes,
        set_of(lst),
        c,
    )) by {
        assert forall|b: usize|
            eps_closure_set(nodes, all_char_targets(nodes, lst, c)).contains(b) == next_set(
                nodes,
                set_of(lst),
                c,
            ).contains(b) by {
            if eps_closure_set(nodes, all_char_targets(nodes, lst, c)).contains(b) {
                let t = choose|t: usize|
                    #[trigger] all_char_targets(nodes, lst, c).contains(t) && eps_reach(
                        nodes,
                        t,
                        b,
                    );
                let k = choose|k: int|
                    0 <= k < lst.len() && #[trigger] char_step(nodes, lst[k], c, t);
                assert(lst.contains(lst[k]));
                assert(set_of(lst).contains(lst[k]));
            }
            if next_set(nodes, set_of(lst), c).contains(b) {
                let (a, t) = choose|a: usize, t: usize|
                    #[trigger] set_of(lst).contains(a) && #[trigger] char_step(nodes, a, c, t)
                        && eps_reach(nodes, t, b);
                let k = choose|k: int| 0 <= k < lst.len() && lst[k] == a;
                assert(char_step(nodes, lst[k], c, t));
                assert(all_char_targets(nodes, lst, c).contains(t));
            }
        }
    }
}

/// A duplicate-free sequence of handles below `n` has at most `n` entries.
proof fn lemma_nodup_bounded(s: Seq<usize>, n: nat)
    requires
        s.no_duplicates(),
        forall|k: int| 0 <= k < s.len() ==> (#[trigger] s[k]) < n,
    ensures
        s.len() <= n,
    decreases n,
{
    if n == 0 {
        if s.len() > 0 {
            assert(s[0] < 0);
        }
    } else {
        let v = (n - 1) as usize;
        if s.contains(v) {
            let i = choose|i: int| 0 <= i < s.len() && s[i] == v;
            let s2 = s.remove(i);
            assert(s2.no_duplicates()) by {
                s.lemma_multiset_has_no_duplicates();
                broadcast use vstd::seq_lib::group_to_multiset_ensures;

                s2.lemma_multiset_has_no_duplicates_conv();
            }
            assert forall|k: int| 0 <= k < s2.len() implies (#[trigger] s2[k]) < (n - 1) as nat by {
                if k < i {
                    assert(s2[k] == s[k]);
                    assert(s[k] != v);
                } else {
                    assert(s2[k] == s[k + 1]);
                    assert(s[k + 1] != v);
                }
            }
            lemma_nodup_bounded(s2, (n - 1) as nat);
        } else {
            assert forall|k: int| 0 <= k < s.len() implies (#[trigger] s[k]) < (n - 1) as nat by {
                assert(s.contains(s[k]));
                assert(s[k] != v);
            }
            lemma_nodup_bounded(s, (n - 1) as nat);
        }
    }
}

/// Sort a node list ascending (insertion sort), keeping its multiset.
fn sort_nodes(list: &mut Vec<usize>)
    ensures
        final(list)@.to_multiset() == old(list)@.to_multiset(),
        forall|p: int, q: int|
            0 <= p < q < final(list)@.len() ==> final(list)@[p] <= final(list)@[q],
{
    let n = list.len();
    let mut i: usize = 1;
    while i < n
        invariant
            n == list@.len(),
            1 <= i,
            i <= n || i == 1,
            list@.to_multiset() == old(list)@.to_multiset(),
            forall|p: int, q: int| 0 <= p < q < i ==> list@[p] <= list@[q],
        decreases n - i,
    {
        let mut j: usize = i;
        while j > 0 && list[j - 1] > list[j]
            invariant
                n == list@.len(),
                j <= i < n,
                list@.to_multiset() == old(list)@.to_multiset(),
                forall|p: int, q: int| 0 <= p < q <= i && q != j ==> list@[p] <= list@[q],
                forall|q: int| j < q <= i ==> list@[j as int] <= list@[q],
            decreases j,
        {
            let a = list[j - 1];
            let b = list[j];
            let ghost before = list@;
            list[j - 1] = b;
            list[j] = a;
            proof {
                assert(list@ =~= before.update(j - 1, b).update(j as int, a));
                broadcast use vstd::seq_lib::group_to_multiset_ensures;

                lemma_swap_multiset(before, list@, j - 1, j as int);
            }
            j = j - 1;
        }
        i = i + 1;
    }
}

/// Swapping two entries keeps the multiset.
proof fn lemma_swap_multiset(a: Seq<usize>, b: Seq<usize>, p: int, q: int)
    requires
        0 <= p < q < a.len(),
        b == a.update(p, a[q]).update(q, a[p]),
    ensures
        a.to_multiset() == b.to_multiset(),
{
    broadcast use vstd::seq_lib::group_to_multiset_ensures;
    broadcast use vstd::seq_lib::to_multiset_update;

    let m1 = a.update(p, a[q]);
    assert(m1.to_multiset() == a.to_multiset().insert(a[q]).remove(a[p]));
    assert(m1[q] == a[q]);
    assert(b.to_multiset() == m1.to_multiset().insert(a[p]).remove(a[q]));
    assert(a.to_multiset().contains(a[p])) by {
        assert(a.contains(a[p]));
    }
    assert(a.to_multiset() =~= b.to_multiset());
}

/// Inside a DFS pass a step from any stamped node keeps us in the old set or
/// the new closure.
proof fn lemma_reach_step_sound(
    nodes: Seq<NfaNode>,
    s0: Set<usize>,
    node: usize,
    cur: usize,
    target: usize,
)
    requires
        eps_closed(nodes, s0),
        s0.contains(cur) || eps_reach(nodes, node, cur),
        eps_step(nodes, cur, target),
        !s0.contains(target),
    ensures
        eps_reach(nodes, node, target),
{
    if s0.contains(cur) {
        assert(s0.contains(target));
    }
    lemma_reach_step(nodes, node, cur, target);
}

} // verus!
