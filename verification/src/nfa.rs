use vstd::prelude::*;
use crate::SyntaxError;
use crate::postfix::spec_postfix;
use crate::postfix::to_suffix;

verus! {

/// Index of a node in the NFA arena.
pub type NfaNodeHandle = usize;

/// Label of an outgoing NFA edge: either a single-character transition or an
/// epsilon transition that consumes no input.
#[derive(Clone, Copy, Debug)]
pub enum Transform {
    Trans(char),
    Epsilon,
}

/// One outgoing edge of an NFA node.
#[derive(Clone, Copy, Debug)]
pub struct Edge {
    pub to: NfaNodeHandle,
    pub trans: Transform,
}

impl Edge {
    pub fn new(to: NfaNodeHandle, trans: Transform) -> (e: Edge)
        ensures
            e == (Edge { to, trans }),
    {
        Edge { to, trans }
    }
}

/// A node of the Thompson NFA. Every node has at most two outgoing edges.
/// `id` is the stamp of the last epsilon-closure pass that visited the node;
/// it carries no meaning for the language of the automaton.
#[derive(Clone, Copy, Debug)]
pub struct NfaNode {
    pub is_end: bool,
    pub edge1: Option<Edge>,
    pub edge2: Option<Edge>,
    pub id: usize,
}

impl NfaNode {
    pub fn new(is_end: bool, edge1: Option<Edge>, edge2: Option<Edge>) -> (n: NfaNode)
        ensures
            n == (NfaNode { is_end, edge1, edge2, id: 0 }),
    {
        NfaNode { is_end, edge1, edge2, id: 0 }
    }
}

/// A construction fragment: the entry and the exit node of a sub-automaton.
#[derive(Clone, Copy, Debug)]
pub struct NfaPaired {
    pub start: NfaNodeHandle,
    pub end: NfaNodeHandle,
}

/// The NFA arena. Nodes refer to each other by index, so the cycles created
/// by `*` and `+` are plain integers.
#[derive(Debug)]
pub struct Nfas {
    pub nodes: Vec<NfaNode>,
}

// ---------------------------------------------------------------------------
// The mathematical meaning of an arena: epsilon reachability and acceptance.
// These functions read only `is_end`, `edge1` and `edge2`; the `id` stamps do
// not influence them.
// ---------------------------------------------------------------------------

/// Does this optional edge stay inside an arena of `n` nodes?
pub open spec fn edge_in_range(e: Option<Edge>, n: nat) -> bool {
    match e {
        None => true,
        Some(edge) => edge.to < n,
    }
}

/// Every edge of every node points inside the arena.
pub open spec fn nfa_wf(nodes: Seq<NfaNode>) -> bool {
    forall|i: int|
        0 <= i < nodes.len() ==> edge_in_range(#[trigger] nodes[i].edge1, nodes.len())
            && edge_in_range(nodes[i].edge2, nodes.len())
}

/// Is this optional edge an epsilon edge to `b`?
pub open spec fn eps_edge_to(e: Option<Edge>, b: usize) -> bool {
    match e {
        Some(edge) => edge.to == b && edge.trans is Epsilon,
        None => false,
    }
}

/// Is this optional edge a `c`-labeled edge to `b`?
pub open spec fn char_edge_to(e: Option<Edge>, c: char, b: usize) -> bool {
    match e {
        Some(edge) => edge.to == b && edge.trans == Transform::Trans(c),
        None => false,
    }
}

/// One epsilon step from `a` to `b`.
pub open spec fn eps_step(nodes: Seq<NfaNode>, a: usize, b: usize) -> bool {
    a < nodes.len() && (eps_edge_to(nodes[a as int].edge1, b) || eps_edge_to(
        nodes[a as int].edge2,
        b,
    ))
}

/// `b` is reachable from `a` by at most `k` epsilon steps.
pub open spec fn eps_reach_k(nodes: Seq<NfaNode>, a: usize, b: usize, k: nat) -> bool
    decreases k,
{
    if k == 0 {
        a == b
    } else {
        a == b || exists|m: usize|
            #[trigger] eps_step(nodes, a, m) && eps_reach_k(nodes, m, b, (k - 1) as nat)
    }
}

/// `b` is reachable from `a` by zero or more epsilon steps.
pub open spec fn eps_reach(nodes: Seq<NfaNode>, a: usize, b: usize) -> bool {
    exists|k: nat| eps_reach_k(nodes, a, b, k)
}

/// The epsilon closure of a single node.
pub open spec fn eps_closure(nodes: Seq<NfaNode>, a: usize) -> Set<usize> {
    Set::new(|b: usize| eps_reach(nodes, a, b))
}

/// The epsilon closure of a set of nodes.
pub open spec fn eps_closure_set(nodes: Seq<NfaNode>, seeds: Set<usize>) -> Set<usize> {
    Set::new(|b: usize| exists|a: usize| #[trigger] seeds.contains(a) && eps_reach(nodes, a, b))
}

/// `a` has a `c`-labeled edge to `t`.
pub open spec fn char_step(nodes: Seq<NfaNode>, a: usize, c: char, t: usize) -> bool {
    a < nodes.len() && (char_edge_to(nodes[a as int].edge1, c, t) || char_edge_to(
        nodes[a as int].edge2,
        c,
    t))
}

/// A set is closed under epsilon steps.
pub open spec fn eps_closed(nodes: Seq<NfaNode>, s: Set<usize>) -> bool {
    forall|a: usize, b: usize|
        #[trigger] s.contains(a) && #[trigger] eps_step(nodes, a, b) ==> s.contains(b)
}

/// Subset construction, one character: every node with a matching
/// character-labeled edge contributes the epsilon closure of its target.
pub open spec fn next_set(nodes: Seq<NfaNode>, s: Set<usize>, c: char) -> Set<usize> {
    Set::new(
        |b: usize|
            exists|a: usize, t: usize|
                #[trigger] s.contains(a) && #[trigger] char_step(nodes, a, c, t) && eps_reach(
                    nodes,
                    t,
                    b,
                ),
    )
}

/// Subset construction over a whole string.
pub open spec fn run_sets(nodes: Seq<NfaNode>, s: Set<usize>, text: Seq<char>) -> Set<usize>
    decreases text.len(),
{
    if text.len() == 0 {
        s
    } else {
        run_sets(nodes, next_set(nodes, s, text[0]), text.drop_first())
    }
}

/// Full-string acceptance: starting from the epsilon closure of `begin`, after
/// consuming all of `text` some terminal node is in the reached set.
pub open spec fn accepts(nodes: Seq<NfaNode>, begin: usize, text: Seq<char>) -> bool {
    exists|a: usize|
        #[trigger] run_sets(nodes, eps_closure(nodes, begin), text).contains(a) && a < nodes.len()
            && nodes[a as int].is_end
}

// ---------------------------------------------------------------------------
// Arena construction. Each combinator's effect on the arena is stated
// exactly, as the sequence of nodes it leaves behind.
// ---------------------------------------------------------------------------

/// Arena after allocating one fresh node.
pub open spec fn spec_new_node(nodes: Seq<NfaNode>, is_end: bool) -> Seq<NfaNode> {
    nodes.push(NfaNode { is_end, edge1: None, edge2: None, id: 0 })
}

/// Shorthand for an epsilon edge to `b`.
pub open spec fn spec_eps(b: usize) -> Option<Edge> {
    Some(Edge { to: b, trans: Transform::Epsilon })
}

/// Replace only the first edge of the node at `i` and demote it from terminal.
pub open spec fn spec_relink(nodes: Seq<NfaNode>, i: usize, e: Option<Edge>) -> Seq<NfaNode> {
    nodes.update(
        i as int,
        NfaNode { is_end: false, edge1: e, edge2: nodes[i as int].edge2, id: nodes[i as int].id },
    )
}

/// Arena and fragment produced by a unit fragment for one transition label.
pub open spec fn spec_new_unit(nodes: Seq<NfaNode>, trans: Transform) -> (Seq<NfaNode>, NfaPaired) {
    let start = nodes.len() as usize;
    let end = (nodes.len() + 1) as usize;
    let n1 = nodes.push(NfaNode { is_end: false, edge1: Some(Edge { to: end, trans }), edge2: None, id: 0 });
    let n2 = n1.push(NfaNode { is_end: true, edge1: None, edge2: None, id: 0 });
    (n2, NfaPaired { start, end })
}

/// Arena and fragment produced by the union of two fragments.
pub open spec fn spec_union(nodes: Seq<NfaNode>, nfa1: NfaPaired, nfa2: NfaPaired) -> (
    Seq<NfaNode>,
    NfaPaired,
) {
    let start = nodes.len() as usize;
    let end = (nodes.len() + 1) as usize;
    let n1 = nodes.push(
        NfaNode { is_end: false, edge1: spec_eps(nfa1.start), edge2: spec_eps(nfa2.start), id: 0 },
    );
    let n2 = n1.push(NfaNode { is_end: true, edge1: None, edge2: None, id: 0 });
    let n3 = spec_relink(n2, nfa1.end, spec_eps(end));
    let n4 = spec_relink(n3, nfa2.end, spec_eps(end));
    (n4, NfaPaired { start, end })
}

/// Arena and fragment produced by concatenation: the left exit gains an
/// epsilon edge into the right entry and stops being terminal. No node is
/// retired, so fragment handles stay valid.
pub open spec fn spec_concat(nodes: Seq<NfaNode>, nfa1: NfaPaired, nfa2: NfaPaired) -> (
    Seq<NfaNode>,
    NfaPaired,
) {
    (spec_relink(nodes, nfa1.end, spec_eps(nfa2.start)), NfaPaired {
        start: nfa1.start,
        end: nfa2.end,
    })
}

/// Arena and fragment produced by the positive closure of a fragment.
pub open spec fn spec_into_positive(nodes: Seq<NfaNode>, nfa: NfaPaired) -> (
    Seq<NfaNode>,
    NfaPaired,
) {
    let start = nodes.len() as usize;
    let end = (nodes.len() + 1) as usize;
    let n1 = nodes.push(NfaNode { is_end: false, edge1: spec_eps(nfa.start), edge2: None, id: 0 });
    let n2 = n1.push(NfaNode { is_end: true, edge1: None, edge2: None, id: 0 });
    let n3 = n2.update(
        nfa.end as int,
        NfaNode { is_end: false, edge1: spec_eps(nfa.start), edge2: spec_eps(end), id: n2[nfa.end as int].id },
    );
    (n3, NfaPaired { start, end })
}

/// Arena and fragment produced by the Kleene closure: a positive closure plus
/// a skip edge from the new entry straight to the new exit.
pub open spec fn spec_into_kleene(nodes: Seq<NfaNode>, nfa: NfaPaired) -> (Seq<NfaNode>, NfaPaired) {
    let (n1, f) = spec_into_positive(nodes, nfa);
    let n2 = n1.update(
        f.start as int,
        NfaNode {
            is_end: n1[f.start as int].is_end,
            edge1: n1[f.start as int].edge1,
            edge2: spec_eps(f.end),
            id: n1[f.start as int].id,
        },
    );
    (n2, f)
}

/// Arena and fragment produced by the optional operator: the new entry may
/// step into the operand or skip straight to the new exit.
pub open spec fn spec_into_option(nodes: Seq<NfaNode>, nfa: NfaPaired) -> (Seq<NfaNode>, NfaPaired) {
    let start = nodes.len() as usize;
    let end = (nodes.len() + 1) as usize;
    let n1 = nodes.push(
        NfaNode { is_end: false, edge1: spec_eps(nfa.start), edge2: spec_eps(end), id: 0 },
    );
    let n2 = n1.push(NfaNode { is_end: true, edge1: None, edge2: None, id: 0 });
    let n3 = spec_relink(n2, nfa.end, spec_eps(end));
    (n3, NfaPaired { start, end })
}

/// One postfix token applied to the operand stack: unary operators consume one
/// fragment, binary operators two, and any other character pushes a unit
/// fragment. An operator that finds too few operands is a syntax error.
pub open spec fn spec_apply(nodes: Seq<NfaNode>, stack: Seq<NfaPaired>, c: char) -> Result<
    (Seq<NfaNode>, Seq<NfaPaired>),
    SyntaxError,
> {
    if c == '+' || c == '*' || c == '?' {
        if stack.len() < 1 {
            Err(SyntaxError::MissingOperand)
        } else {
            let f = stack.last();
            let (n2, r) = if c == '+' {
                spec_into_positive(nodes, f)
            } else if c == '*' {
                spec_into_kleene(nodes, f)
            } else {
                spec_into_option(nodes, f)
            };
            Ok((n2, stack.drop_last().push(r)))
        }
    } else if c == '|' || c == '.' {
        if stack.len() < 2 {
            Err(SyntaxError::MissingOperand)
        } else {
            let f2 = stack.last();
            let f1 = stack[stack.len() - 2];
            let (n2, r) = if c == '|' {
                spec_union(nodes, f1, f2)
            } else {
                spec_concat(nodes, f1, f2)
            };
            Ok((n2, stack.drop_last().drop_last().push(r)))
        }
    } else {
        let (n2, r) = spec_new_unit(nodes, Transform::Trans(c));
        Ok((n2, stack.push(r)))
    }
}

/// Fold a postfix token stream over the operand stack.
pub open spec fn spec_build_from(
    nodes: Seq<NfaNode>,
    stack: Seq<NfaPaired>,
    toks: Seq<char>,
) -> Result<(Seq<NfaNode>, Seq<NfaPaired>), SyntaxError>
    decreases toks.len(),
{
    if toks.len() == 0 {
        Ok((nodes, stack))
    } else {
        match spec_apply(nodes, stack, toks[0]) {
            Err(e) => Err(e),
            Ok((n2, s2)) => spec_build_from(n2, s2, toks.drop_first()),
        }
    }
}

/// The whole compilation of a pattern: its postfix form folded over an empty
/// arena. Exactly one fragment must remain at the end.
pub open spec fn spec_compile(pattern: Seq<char>) -> Result<(Seq<NfaNode>, NfaPaired), SyntaxError> {
    match spec_postfix(pattern) {
        None => Err(SyntaxError::UnbalancedParenthesis),
        Some(toks) => match spec_build_from(Seq::empty(), Seq::empty(), toks) {
            Err(e) => Err(e),
            Ok((nodes, stack)) => if stack.len() == 1 {
                Ok((nodes, stack[0]))
            } else {
                Err(SyntaxError::MalformedExpression)
            },
        },
    }
}

/// The arena is well formed, the stack's fragments point into it, and no node
/// has been stamped yet.
pub open spec fn build_inv(nodes: Seq<NfaNode>, stack: Seq<NfaPaired>) -> bool {
    &&& nfa_wf(nodes)
    &&& forall|k: int|
        0 <= k < stack.len() ==> (#[trigger] stack[k]).start < nodes.len() && stack[k].end
            < nodes.len()
    &&& forall|i: int| 0 <= i < nodes.len() ==> #[trigger] nodes[i].id == 0
}

/// Applying one token preserves `build_inv`.
proof fn lemma_apply_inv(nodes: Seq<NfaNode>, stack: Seq<NfaPaired>, c: char)
    requires
        build_inv(nodes, stack),
        spec_apply(nodes, stack, c) is Ok,
    ensures
        build_inv(spec_apply(nodes, stack, c)->Ok_0.0, spec_apply(nodes, stack, c)->Ok_0.1),
{
    let (n2, s2) = spec_apply(nodes, stack, c)->Ok_0;
    assert forall|i: int|
        0 <= i < n2.len() implies edge_in_range(#[trigger] n2[i].edge1, n2.len()) && edge_in_range(
        n2[i].edge2,
        n2.len(),
    ) && n2[i].id == 0 by {
        if i < nodes.len() {
            if n2[i] == nodes[i] {
                assert(edge_in_range(nodes[i].edge1, nodes.len()));
            }
        }
    }
    assert forall|k: int|
        0 <= k < s2.len() implies (#[trigger] s2[k]).start < n2.len() && s2[k].end < n2.len() by {
        if k < s2.len() - 1 {
            if c == '|' || c == '.' {
                assert(s2[k] == stack[k]);
            } else if c == '+' || c == '*' || c == '?' {
                assert(s2[k] == stack[k]);
            } else {
                assert(s2[k] == stack[k]);
            }
        }
    }
}

impl Nfas {
    pub fn new() -> (r: Nfas)
        ensures
            r.nodes@ =~= Seq::<NfaNode>::empty(),
    {
        Nfas { nodes: Vec::new() }
    }

    fn new_node(&mut self, is_end: bool) -> (handle: NfaNodeHandle)
        ensures
            final(self).nodes@ == spec_new_node(old(self).nodes@, is_end),
            handle == old(self).nodes@.len(),
    {
        let handle = self.nodes.len();
        self.nodes.push(NfaNode::new(is_end, None, None));
        handle
    }

    /// The basic component of Thompson's construction: one labeled edge from a
    /// fresh entry node to a fresh terminal exit node.
    pub fn new_unit(&mut self, trans: Transform) -> (r: NfaPaired)
        ensures
            (final(self).nodes@, r) == spec_new_unit(old(self).nodes@, trans),
    {
        let start = self.new_node(false);
        let end = self.new_node(true);
        self.nodes[start].edge1 = Some(Edge::new(end, trans));
        proof {
            assert(final(self).nodes@ =~= spec_new_unit(old(self).nodes@, trans).0);
        }
        NfaPaired { start, end }
    }

    /// Union of two fragments (`|`).
    pub fn union(&mut self, nfa1: NfaPaired, nfa2: NfaPaired) -> (r: NfaPaired)
        requires
            nfa1.end < old(self).nodes@.len(),
            nfa2.end < old(self).nodes@.len(),
        ensures
            (final(self).nodes@, r) == spec_union(old(self).nodes@, nfa1, nfa2),
    {
        let start = self.new_node(false);
        let end = self.new_node(true);
        self.nodes[start].edge1 = Some(Edge::new(nfa1.start, Transform::Epsilon));
        self.nodes[start].edge2 = Some(Edge::new(nfa2.start, Transform::Epsilon));
        self.nodes[nfa1.end].edge1 = Some(Edge::new(end, Transform::Epsilon));
        self.nodes[nfa2.end].edge1 = Some(Edge::new(end, Transform::Epsilon));
        self.nodes[nfa1.end].is_end = false;
        self.nodes[nfa2.end].is_end = false;
        self.nodes[end].is_end = true;
        proof {
            assert(final(self).nodes@ =~= spec_union(old(self).nodes@, nfa1, nfa2).0);
        }
        NfaPaired { start, end }
    }

    /// Concatenation of two fragments: the left exit flows into the right
    /// entry over a fresh epsilon edge.
    pub fn concat(&mut self, nfa1: NfaPaired, nfa2: NfaPaired) -> (r: NfaPaired)
        requires
            nfa1.end < old(self).nodes@.len(),
        ensures
            (final(self).nodes@, r) == spec_concat(old(self).nodes@, nfa1, nfa2),
    {
        self.nodes[nfa1.end].edge1 = Some(Edge::new(nfa2.start, Transform::Epsilon));
        self.nodes[nfa1.end].is_end = false;
        proof {
            assert(final(self).nodes@ =~= spec_concat(old(self).nodes@, nfa1, nfa2).0);
        }
        NfaPaired { start: nfa1.start, end: nfa2.end }
    }

    /// Positive closure of a fragment (`+`), with the loop-back edge.
    pub fn into_positive(&mut self, nfa: NfaPaired) -> (r: NfaPaired)
        requires
            nfa.end < old(self).nodes@.len(),
        ensures
            (final(self).nodes@, r) == spec_into_positive(old(self).nodes@, nfa),
    {
        let start = self.new_node(false);
        let end = self.new_node(true);
        self.nodes[start].edge1 = Some(Edge::new(nfa.start, Transform::Epsilon));
        self.nodes[nfa.end].edge1 = Some(Edge::new(nfa.start, Transform::Epsilon));
        self.nodes[nfa.end].edge2 = Some(Edge::new(end, Transform::Epsilon));
        self.nodes[nfa.end].is_end = false;
        proof {
            assert(final(self).nodes@ =~= spec_into_positive(old(self).nodes@, nfa).0);
        }
        NfaPaired { start, end }
    }

    /// Kleene closure of a fragment (`*`): a positive closure whose entry also
    /// skips straight to the exit.
    pub fn into_kleene(&mut self, nfa: NfaPaired) -> (r: NfaPaired)
        requires
            nfa.end < old(self).nodes@.len(),
        ensures
            (final(self).nodes@, r) == spec_into_kleene(old(self).nodes@, nfa),
    {
        let pos = self.into_positive(nfa);
        self.nodes[pos.start].edge2 = Some(Edge::new(pos.end, Transform::Epsilon));
        proof {
            assert(final(self).nodes@ =~= spec_into_kleene(old(self).nodes@, nfa).0);
        }
        NfaPaired { start: pos.start, end: pos.end }
    }

    /// Optional fragment (`?`): the entry reaches the operand and also the
    /// exit directly.
    pub fn into_option(&mut self, nfa: NfaPaired) -> (r: NfaPaired)
        requires
            nfa.end < old(self).nodes@.len(),
        ensures
            (final(self).nodes@, r) == spec_into_option(old(self).nodes@, nfa),
    {
        let start = self.new_node(false);
        let end = self.new_node(true);
        self.nodes[start].edge1 = Some(Edge::new(nfa.start, Transform::Epsilon));
        self.nodes[start].edge2 = Some(Edge::new(end, Transform::Epsilon));
        self.nodes[nfa.end].edge1 = Some(Edge::new(end, Transform::Epsilon));
        self.nodes[nfa.end].is_end = false;
        proof {
            assert(final(self).nodes@ =~= spec_into_option(old(self).nodes@, nfa).0);
        }
        NfaPaired { start, end }
    }

    /// Build the whole NFA for a pattern: convert to postfix order, then fold
    /// the token stream over a stack of fragments. The arena and the final
    /// fragment are pinned exactly by `spec_compile`, and every syntax error
    /// is returned as such, never raised as a panic.
    pub fn build_nfa(&mut self, regex_exp: &str) -> (r: Result<NfaPaired, SyntaxError>)
        requires
            old(self).nodes@.len() == 0,
        ensures
            match r {
                Ok(frag) => spec_compile(regex_exp@) == Ok::<_, SyntaxError>(
                    (final(self).nodes@, frag),
                ) && nfa_wf(final(self).nodes@) && frag.start < final(self).nodes@.len()
                    && frag.end < final(self).nodes@.len() && (forall|i: int|
                    0 <= i < final(self).nodes@.len() ==> final(self).nodes@[i].id == 0),
                Err(e) => spec_compile(regex_exp@) == Err::<(Seq<NfaNode>, NfaPaired), _>(e),
            },
    {
        let suffix = match to_suffix(regex_exp) {
            Ok(v) => v,
            Err(e) => {
                return Err(e);
            },
        };
        let ghost toks = suffix@;
        let mut oprands: Vec<NfaPaired> = Vec::new();
        let mut idx: usize = 0;
        proof {
            assert(toks.skip(0) =~= toks);
            assert(self.nodes@ =~= Seq::<NfaNode>::empty());
            assert(oprands@ =~= Seq::<NfaPaired>::empty());
        }
        while idx < suffix.len()
            invariant
                idx <= suffix.len(),
                toks == suffix@,
                spec_postfix(regex_exp@) == Some(toks),
                spec_build_from(self.nodes@, oprands@, toks.skip(idx as int)) == spec_build_from(
                    Seq::<NfaNode>::empty(),
                    Seq::<NfaPaired>::empty(),
                    toks,
                ),
                build_inv(self.nodes@, oprands@),
            decreases suffix.len() - idx,
        {
            let ghost nodes0 = self.nodes@;
            let ghost stack0 = oprands@;
            let ch = suffix[idx];
            proof {
                assert(toks.skip(idx as int)[0] == ch);
                assert(toks.skip(idx as int).drop_first() =~= toks.skip(idx as int + 1));
            }
            if ch == '+' {
                let nfa = match oprands.pop() {
                    Some(f) => f,
                    None => {
                        return Err(SyntaxError::MissingOperand);
                    },
                };
                let r = self.into_positive(nfa);
                oprands.push(r);
                proof {
                    assert(oprands@ =~= stack0.drop_last().push(r));
                    assert(spec_apply(nodes0, stack0, ch) == Ok::<
                        (Seq<NfaNode>, Seq<NfaPaired>),
                        SyntaxError,
                    >((self.nodes@, oprands@)));
                    lemma_apply_inv(nodes0, stack0, ch);
                }
            } else if ch == '*' {
                let nfa = match oprands.pop() {
                    Some(f) => f,
                    None => {
                        return Err(SyntaxError::MissingOperand);
                    },
                };
                let r = self.into_kleene(nfa);
                oprands.push(r);
                proof {
                    assert(oprands@ =~= stack0.drop_last().push(r));
                    assert(spec_apply(nodes0, stack0, ch) == Ok::<
                        (Seq<NfaNode>, Seq<NfaPaired>),
                        SyntaxError,
                    >((self.nodes@, oprands@)));
                    lemma_apply_inv(nodes0, stack0, ch);
                }
            } else if ch == '?' {
                let nfa = match oprands.pop() {
                    Some(f) => f,
                    None => {
                        return Err(SyntaxError::MissingOperand);
                    },
                };
                let r = self.into_option(nfa);
                oprands.push(r);
                proof {
                    assert(oprands@ =~= stack0.drop_last().push(r));
                    assert(spec_apply(nodes0, stack0, ch) == Ok::<
                        (Seq<NfaNode>, Seq<NfaPaired>),
                        SyntaxError,
                    >((self.nodes@, oprands@)));
                    lemma_apply_inv(nodes0, stack0, ch);
                }
            } else if ch == '|' || ch == '.' {
                if oprands.len() < 2 {
                    return Err(SyntaxError::MissingOperand);
                }
                let nfa2 = oprands.pop().unwrap();
                let nfa1 = oprands.pop().unwrap();
                let r = if ch == '|' {
                    self.union(nfa1, nfa2)
                } else {
                    self.concat(nfa1, nfa2)
                };
                oprands.push(r);
                proof {
                    assert(oprands@ =~= stack0.drop_last().drop_last().push(r));
                    assert(spec_apply(nodes0, stack0, ch) == Ok::<
                        (Seq<NfaNode>, Seq<NfaPaired>),
                        SyntaxError,
                    >((self.nodes@, oprands@)));
                    lemma_apply_inv(nodes0, stack0, ch);
                }
            } else {
                let r = self.new_unit(Transform::Trans(ch));
                oprands.push(r);
                proof {
                    assert(spec_apply(nodes0, stack0, ch) == Ok::<
                        (Seq<NfaNode>, Seq<NfaPaired>),
                        SyntaxError,
                    >((self.nodes@, oprands@)));
                    lemma_apply_inv(nodes0, stack0, ch);
                }
            }
            idx = idx + 1;
        }
        proof {
            assert(toks.skip(suffix@.len() as int) =~= Seq::<char>::empty());
        }
        if oprands.len() != 1 {
            return Err(SyntaxError::MalformedExpression);
        }
        let frag = oprands.pop().unwrap();
        Ok(frag)
    }

    /// A fragment of a single fresh node, entry and exit at once.
    pub fn init_nfa(&mut self) -> (r: NfaPaired)
        ensures
            final(self).nodes@ == spec_new_node(old(self).nodes@, false),
            r.start == old(self).nodes@.len() && r.end == old(self).nodes@.len(),
    {
        let init_node = self.new_node(false);
        NfaPaired { start: init_node, end: init_node }
    }
}

// ---------------------------------------------------------------------------
// Facts about epsilon reachability, and insensitivity of the semantics to the
// closure-pass stamps.
// ---------------------------------------------------------------------------

/// A set closed under epsilon steps swallows every epsilon path that starts
/// inside it.
proof fn lemma_closed_reach_k(nodes: Seq<NfaNode>, s: Set<usize>, x: usize, y: usize, k: nat)
    requires
        eps_closed(nodes, s),
        s.contains(x),
        eps_reach_k(nodes, x, y, k),
    ensures
        s.contains(y),
    decreases k,
{
    if k > 0 && x != y {
        let m = choose|m: usize| #[trigger] eps_step(nodes, x, m) && eps_reach_k(
            nodes,
            m,
            y,
            (k - 1) as nat,
        );
        assert(s.contains(m));
        lemma_closed_reach_k(nodes, s, m, y, (k - 1) as nat);
    }
}

/// The epsilon closure of a member is inside every closed superset.
pub proof fn lemma_closed_closure(nodes: Seq<NfaNode>, s: Set<usize>, x: usize)
    requires
        eps_closed(nodes, s),
        s.contains(x),
    ensures
        forall|y: usize| #[trigger] eps_reach(nodes, x, y) ==> s.contains(y),
{
    assert forall|y: usize| #[trigger] eps_reach(nodes, x, y) implies s.contains(y) by {
        let k = choose|k: nat| eps_reach_k(nodes, x, y, k);
        lemma_closed_reach_k(nodes, s, x, y, k);
    }
}

proof fn lemma_reach_k_append(nodes: Seq<NfaNode>, x: usize, m: usize, y: usize, k: nat)
    requires
        eps_reach_k(nodes, x, m, k),
        eps_step(nodes, m, y),
    ensures
        eps_reach_k(nodes, x, y, k + 1),
    decreases k,
{
    if k == 0 || x == m {
        assert(eps_reach_k(nodes, y, y, k)) by {
            if k > 0 {
                assert(y == y);
            }
        }
        assert(eps_step(nodes, x, y));
        assert(eps_reach_k(nodes, x, y, k + 1));
    } else {
        let m2 = choose|m2: usize| #[trigger] eps_step(nodes, x, m2) && eps_reach_k(
            nodes,
            m2,
            m,
            (k - 1) as nat,
        );
        lemma_reach_k_append(nodes, m2, m, y, (k - 1) as nat);
    }
}

/// Reachability absorbs one more epsilon step.
pub proof fn lemma_reach_step(nodes: Seq<NfaNode>, x: usize, m: usize, y: usize)
    requires
        eps_reach(nodes, x, m),
        eps_step(nodes, m, y),
    ensures
        eps_reach(nodes, x, y),
{
    let k = choose|k: nat| eps_reach_k(nodes, x, m, k);
    lemma_reach_k_append(nodes, x, m, y, k);
}

/// The closure of a set is closed.
pub proof fn lemma_closure_set_closed(nodes: Seq<NfaNode>, seeds: Set<usize>)
    ensures
        eps_closed(nodes, eps_closure_set(nodes, seeds)),
{
    let cl = eps_closure_set(nodes, seeds);
    assert forall|a: usize, b: usize| #[trigger] cl.contains(a) && #[trigger] eps_step(
        nodes,
        a,
        b,
    ) implies cl.contains(b) by {
        let sd = choose|sd: usize| #[trigger] seeds.contains(sd) && eps_reach(nodes, sd, a);
        lemma_reach_step(nodes, sd, a, b);
    }
}

/// Every node reaches itself.
pub proof fn lemma_reach_self(nodes: Seq<NfaNode>, x: usize)
    ensures
        eps_reach(nodes, x, x),
{
    assert(eps_reach_k(nodes, x, x, 0));
}

/// Two arenas that differ only in their stamps.
pub open spec fn same_shape(a: Seq<NfaNode>, b: Seq<NfaNode>) -> bool {
    a.len() == b.len() && forall|i: int|
        0 <= i < a.len() ==> (#[trigger] b[i]).is_end == a[i].is_end && b[i].edge1 == a[i].edge1
            && b[i].edge2 == a[i].edge2
}

proof fn lemma_same_shape_reach_k(a: Seq<NfaNode>, b: Seq<NfaNode>, x: usize, y: usize, k: nat)
    requires
        same_shape(a, b),
    ensures
        eps_reach_k(a, x, y, k) == eps_reach_k(b, x, y, k),
    decreases k,
{
    if k > 0 {
        if eps_reach_k(a, x, y, k) && x != y {
            let m = choose|m: usize| #[trigger] eps_step(a, x, m) && eps_reach_k(
                a,
                m,
                y,
                (k - 1) as nat,
            );
            lemma_same_shape_reach_k(a, b, m, y, (k - 1) as nat);
            assert(eps_step(b, x, m));
            assert(eps_reach_k(b, m, y, (k - 1) as nat));
            assert(eps_reach_k(b, x, y, k));
        }
        if eps_reach_k(b, x, y, k) && x != y {
            let m = choose|m: usize| #[trigger] eps_step(b, x, m) && eps_reach_k(
                b,
                m,
                y,
                (k - 1) as nat,
            );
            lemma_same_shape_reach_k(a, b, m, y, (k - 1) as nat);
            assert(eps_step(a, x, m));
            assert(eps_reach_k(a, m, y, (k - 1) as nat));
            assert(eps_reach_k(a, x, y, k));
        }
    }
}

/// The stamps influence neither reachability nor subset construction.
pub proof fn lemma_same_shape_sets(a: Seq<NfaNode>, b: Seq<NfaNode>)
    requires
        same_shape(a, b),
    ensures
        forall|x: usize, y: usize| #[trigger] eps_reach(a, x, y) == #[trigger] eps_reach(b, x, y),
        forall|x: usize| #[trigger] eps_closure(a, x) == #[trigger] eps_closure(b, x),
        forall|s: Set<usize>, c: char| #[trigger] next_set(a, s, c) == #[trigger] next_set(
            b,
            s,
            c,
        ),
{
    assert forall|x: usize, y: usize| #[trigger] eps_reach(a, x, y) == #[trigger] eps_reach(
        b,
        x,
        y,
    ) by {
        if eps_reach(a, x, y) {
            let k = choose|k: nat| eps_reach_k(a, x, y, k);
            lemma_same_shape_reach_k(a, b, x, y, k);
        }
        if eps_reach(b, x, y) {
            let k = choose|k: nat| eps_reach_k(b, x, y, k);
            lemma_same_shape_reach_k(a, b, x, y, k);
        }
    }
    assert forall|x: usize| #[trigger] eps_closure(a, x) == #[trigger] eps_closure(b, x) by {
        assert(eps_closure(a, x) =~= eps_closure(b, x));
    }
    assert forall|s: Set<usize>, c: char| #[trigger] next_set(a, s, c) == #[trigger] next_set(
        b,
        s,
        c,
    ) by {
        assert forall|y: usize|
            next_set(a, s, c).contains(y) == next_set(b, s, c).contains(y) by {
            if next_set(a, s, c).contains(y) {
                let (n, t) = choose|n: usize, t: usize|
                    #[trigger] s.contains(n) && #[trigger] char_step(a, n, c, t) && eps_reach(
                        a,
                        t,
                        y,
                    );
                assert(char_step(b, n, c, t));
                assert(eps_reach(b, t, y));
                assert(next_set(b, s, c).contains(y));
            }
            if next_set(b, s, c).contains(y) {
                let (n, t) = choose|n: usize, t: usize|
                    #[trigger] s.contains(n) && #[trigger] char_step(b, n, c, t) && eps_reach(
                        b,
                        t,
                        y,
                    );
                assert(char_step(a, n, c, t));
                assert(eps_reach(a, t, y));
                assert(next_set(a, s, c).contains(y));
            }
        }
        assert(next_set(a, s, c) =~= next_set(b, s, c));
    }
}

proof fn lemma_same_shape_run(a: Seq<NfaNode>, b: Seq<NfaNode>, s: Set<usize>, text: Seq<char>)
    requires
        same_shape(a, b),
    ensures
        run_sets(a, s, text) == run_sets(b, s, text),
    decreases text.len(),
{
    lemma_same_shape_sets(a, b);
    if text.len() > 0 {
        lemma_same_shape_run(a, b, next_set(a, s, text[0]), text.drop_first());
    }
}

/// Matching is a function of the automaton's shape alone: the transient
/// closure stamps and any cached DFA states cannot change its outcome.
pub proof fn lemma_match_deterministic(
    a: Seq<NfaNode>,
    b: Seq<NfaNode>,
    begin: usize,
    text: Seq<char>,
)
    requires
        same_shape(a, b),
    ensures
        accepts(a, begin, text) == accepts(b, begin, text),
{
    lemma_same_shape_sets(a, b);
    lemma_same_shape_run(a, b, eps_closure(a, begin), text);
    let ra = run_sets(a, eps_closure(a, begin), text);
    let rb = run_sets(b, eps_closure(b, begin), text);
    assert(rb == ra);
    if accepts(a, begin, text) {
        let w = choose|w: usize| #[trigger] ra.contains(w) && w < a.len() && a[w as int].is_end;
        assert(rb.contains(w) && w < b.len() && b[w as int].is_end);
    }
    if accepts(b, begin, text) {
        let w = choose|w: usize| #[trigger] rb.contains(w) && w < b.len() && b[w as int].is_end;
        assert(ra.contains(w) && w < a.len() && a[w as int].is_end);
    }
}

/// Consuming one more character at the end of the text steps the reached set
/// once.
pub proof fn lemma_run_snoc(nodes: Seq<NfaNode>, s: Set<usize>, text: Seq<char>, c: char)
    ensures
        run_sets(nodes, s, text.push(c)) == next_set(nodes, run_sets(nodes, s, text), c),
    decreases text.len(),
{
    if text.len() == 0 {
        assert(text.push(c)[0] == c);
        assert(text.push(c).drop_first() =~= Seq::<char>::empty());
        assert(run_sets(nodes, s, text.push(c)) == run_sets(
            nodes,
            next_set(nodes, s, c),
            Seq::<char>::empty(),
        ));
        assert(run_sets(nodes, s, text) == s);
    } else {
        assert(text.push(c)[0] == text[0]);
        assert(text.push(c).drop_first() =~= text.drop_first().push(c));
        lemma_run_snoc(nodes, next_set(nodes, s, text[0]), text.drop_first(), c);
        assert(run_sets(nodes, s, text.push(c)) == run_sets(
            nodes,
            next_set(nodes, s, text[0]),
            text.drop_first().push(c),
        ));
        assert(run_sets(nodes, s, text) == run_sets(
            nodes,
            next_set(nodes, s, text[0]),
            text.drop_first(),
        ));
    }
}

} // verus!
