//! Call-graph analysis and static memory allocation for the calling
//! convention that keeps the locals of non-recursive functions at fixed
//! addresses.
//!
//! The call graph maps every defined function to the names it calls.
//! Functions found on a cycle by a depth-first search are recursive and use
//! the stack; every other function gets fixed addresses for its parameters
//! and locals, after the globals.

use vstd::prelude::*;

use crate::ir::{IrOp, IrProgram};
use crate::maps::AssocMap;
use crate::text::{concat2, concat4};
use crate::types::CType;

verus! {

/// Default base address for variable allocation (upper RAM).
pub const DEFAULT_BASE_ADDR: u16 = 0x8000;

/// A set of names, kept in insertion order without repetition.
pub struct NameSet {
    names: Vec<String>,
}

impl View for NameSet {
    type V = Set<Seq<char>>;

    closed spec fn view(&self) -> Set<Seq<char>> {
        Set::new(|x: Seq<char>| exists|i: int| 0 <= i < self.names@.len() && self.names@[i]@ == x)
    }
}

impl NameSet {
    /// The names in insertion order.
    pub closed spec fn seq(&self) -> Seq<Seq<char>> {
        self.names@.map_values(|s: String| s@)
    }

    /// No name occurs twice.
    pub closed spec fn wf(&self) -> bool {
        forall|i: int, j: int| 0 <= i < j < self.names@.len() ==> self.names@[i]@ != self.names@[j]@
    }

    pub proof fn lemma_seq(&self)
        ensures
            forall|x: Seq<char>| #[trigger] self@.contains(x) <==> self.seq().contains(x),
    {
        assert forall|x: Seq<char>| #[trigger] self@.contains(x) <==> self.seq().contains(x) by {
            if self@.contains(x) {
                let i = choose|i: int| 0 <= i < self.names@.len() && self.names@[i]@ == x;
                assert(self.seq()[i] == x);
            }
            if self.seq().contains(x) {
                let i = choose|i: int| 0 <= i < self.seq().len() && self.seq()[i] == x;
                assert(self.names@[i]@ == x);
            }
        }
    }

    /// A well-formed set lists each of its names once, so it is finite and
    /// its length is its number of names.
    pub proof fn lemma_wf_size(&self)
        requires
            self.wf(),
        ensures
            self.seq().no_duplicates(),
            self@ == self.seq().to_set(),
            self@.finite(),
            self@.len() == self.seq().len(),
    {
        self.lemma_seq();
        assert(self@ =~= self.seq().to_set());
        vstd::seq_lib::seq_to_set_is_finite(self.seq());
        self.seq().unique_seq_to_set();
    }

    /// The empty set.
    pub fn new() -> (r: Self)
        ensures
            r.wf(),
            r@ == Set::<Seq<char>>::empty(),
            r.seq().len() == 0,
    {
        let r = NameSet { names: Vec::new() };
        assert(r@ =~= Set::<Seq<char>>::empty());
        r
    }

    /// The number of names.
    pub fn len(&self) -> (r: usize)
        ensures
            r == self.seq().len(),
    {
        self.names.len()
    }

    /// Whether the set is empty.
    pub fn is_empty(&self) -> (r: bool)
        ensures
            r == (self@ == Set::<Seq<char>>::empty()),
    {
        if self.names.len() == 0 {
            assert(self@ =~= Set::<Seq<char>>::empty());
            true
        } else {
            assert(self@.contains(self.names@[0]@));
            false
        }
    }

    /// The `i`-th name in insertion order.
    pub fn get(&self, i: usize) -> (r: &String)
        requires
            i < self.seq().len(),
        ensures
            r@ == self.seq()[i as int],
            self@.contains(r@),
    {
        &self.names[i]
    }

    /// Whether the set holds `s`.
    pub fn contains(&self, s: &str) -> (r: bool)
        ensures
            r == self@.contains(s@),
    {
        let owned = s.to_string();
        let mut i: usize = 0;
        while i < self.names.len()
            invariant
                i <= self.names@.len(),
                owned@ == s@,
                forall|k: int| 0 <= k < i ==> self.names@[k]@ != s@,
            decreases self.names@.len() - i,
        {
            if self.names[i] == owned {
                return true;
            }
            i += 1;
        }
        false
    }

    /// Add a name (no effect when it is there already).
    pub fn insert(&mut self, s: String)
        requires
            old(self).wf(),
        ensures
            final(self).wf(),
            final(self)@ == old(self)@.insert(s@),
            final(self).seq() == (if old(self)@.contains(s@) { old(self).seq() } else { old(self).seq().push(s@) }),
    {
        if !self.contains(s.as_str()) {
            let ghost old_names = self.names@;
            self.names.push(s);
            assert(self@ =~= old(self)@.insert(s@)) by {
                assert forall|x: Seq<char>| self@.contains(x) <==> old(self)@.insert(s@).contains(x) by {
                    if self@.contains(x) {
                        let i = choose|i: int| 0 <= i < self.names@.len() && self.names@[i]@ == x;
                        if i < old_names.len() {
                            assert(old_names[i]@ == x);
                        }
                    }
                    if old(self)@.contains(x) {
                        let i = choose|i: int| 0 <= i < old_names.len() && old_names[i]@ == x;
                        assert(self.names@[i]@ == x);
                    }
                    if x == s@ {
                        assert(self.names@[old_names.len() as int]@ == x);
                    }
                }
            }
            assert(self.seq() =~= old(self).seq().push(s@));
        } else {
            assert(old(self)@.insert(s@) =~= old(self)@);
        }
    }
}

/// The static call graph of a program.
pub struct CallGraph {
    /// Each defined function, in program order, with the names it calls.
    pub callees: AssocMap<String, NameSet>,
    /// Functions found on a cycle (direct or mutual recursion).
    pub recursive: NameSet,
    /// Functions that must use the stack calling convention.
    pub stack_mode: NameSet,
}

/// The result of the call-graph analysis of one program.
pub struct CallGraphAnalysis {
    pub graph: CallGraph,
    /// Fixed addresses of the parameters and locals of non-recursive
    /// functions, by label `_l_<function>_<variable>`.
    pub local_allocs: AssocMap<String, u16>,
    /// Fixed addresses of the globals, by label `_g_<variable>`.
    pub global_allocs: AssocMap<String, u16>,
    /// The first address after all allocations.
    pub next_addr: u16,
    /// Functions that make no calls.
    pub leaf_functions: NameSet,
}

/// The names called by the functions named `name`, over the whole program.
pub open spec fn called_by(program: IrProgram, name: Seq<char>, callee: Seq<char>) -> bool {
    exists|f: int, i: int| 0 <= f < program.functions@.len() && program.functions@[f].name@ == name
        && 0 <= i < program.functions@[f].body@.len()
        && #[trigger] call_target(program.functions@[f].body@[i].op) == Some(callee)
}

/// The name an operation calls, if it is a call.
pub open spec fn call_target(op: IrOp) -> Option<Seq<char>> {
    match op {
        IrOp::Call { func_name, .. } => Some(func_name@),
        _ => None,
    }
}

/// The function named `name` is defined in the program.
pub open spec fn defined(program: IrProgram, name: Seq<char>) -> bool {
    exists|f: int| 0 <= f < program.functions@.len() && #[trigger] program.functions@[f].name@ == name
}

/// The call graph of a program: every defined function maps to exactly the
/// names that the functions with its name call.
pub open spec fn is_call_graph(program: IrProgram, g: AssocMap<String, NameSet>) -> bool {
    &&& g.wf()
    &&& forall|n: Seq<char>| #[trigger] g@.contains_key(n) <==> defined(program, n)
    &&& forall|n: Seq<char>, c: Seq<char>| g@.contains_key(n) ==> (#[trigger] g@[n]@.contains(c) <==> called_by(program, n, c))
    &&& forall|n: Seq<char>| g@.contains_key(n) ==> (#[trigger] g@[n]).wf()
}

fn add_call(map: &mut AssocMap<String, NameSet>, from: &String, to: &String)
    requires
        old(map).wf(),
        old(map)@.contains_key(from@),
        forall|n: Seq<char>| old(map)@.contains_key(n) ==> (#[trigger] old(map)@[n]).wf(),
    ensures
        final(map).wf(),
        forall|n: Seq<char>| #[trigger] final(map)@.contains_key(n) <==> old(map)@.contains_key(n),
        forall|n: Seq<char>| final(map)@.contains_key(n) ==> (#[trigger] final(map)@[n]).wf(),
        forall|n: Seq<char>, c: Seq<char>| final(map)@.contains_key(n) ==> (#[trigger] final(map)@[n]@.contains(c)
            <==> old(map)@[n]@.contains(c) || (n == from@ && c == to@)),
{
    let mut set = NameSet::new();
    match map.get(from) {
        Some(s) => {
            set = NameSet { names: s.names.clone() };
            assert(set.names@ =~= s.names@);
        },
        None => {},
    }
    let ghost before = set@;
    set.insert(to.clone());
    map.insert(from.clone(), set);
    assert forall|n: Seq<char>| #[trigger] map@.contains_key(n) <==> old(map)@.contains_key(n) by {}
}

/// The call graph of a program (`build_callees`): an entry for every
/// defined function, in program order, holding the names it calls.
pub fn build_callees(program: &IrProgram) -> (r: AssocMap<String, NameSet>)
    ensures
        is_call_graph(*program, r),
{
    let mut map: AssocMap<String, NameSet> = AssocMap::new();
    let mut f: usize = 0;
    while f < program.functions.len()
        invariant
            f <= program.functions@.len(),
            map.wf(),
            forall|n: Seq<char>| #[trigger] map@.contains_key(n) <==> exists|g: int| 0 <= g < f && program.functions@[g].name@ == n,
            forall|n: Seq<char>| map@.contains_key(n) ==> (#[trigger] map@[n]).wf() && map@[n]@ == Set::<Seq<char>>::empty(),
        decreases program.functions@.len() - f,
    {
        let name = &program.functions[f].name;
        if !map.contains_key(name) {
            map.insert(name.clone(), NameSet::new());
        }
        proof {
            assert(program.functions@[f as int].name@ == name@);
        }
        f += 1;
    }
    f = 0;
    while f < program.functions.len()
        invariant
            f <= program.functions@.len(),
            map.wf(),
            forall|n: Seq<char>| #[trigger] map@.contains_key(n) <==> defined(*program, n),
            forall|n: Seq<char>| map@.contains_key(n) ==> (#[trigger] map@[n]).wf(),
            forall|n: Seq<char>, c: Seq<char>| map@.contains_key(n) ==> (#[trigger] map@[n]@.contains(c) <==>
                exists|g: int, i: int| 0 <= g < f && program.functions@[g].name@ == n
                    && 0 <= i < program.functions@[g].body@.len()
                    && #[trigger] call_target(program.functions@[g].body@[i].op) == Some(c)),
        decreases program.functions@.len() - f,
    {
        let func = &program.functions[f];
        assert(defined(*program, func.name@));
        let mut i: usize = 0;
        while i < func.body.len()
            invariant
                f < program.functions@.len(),
                *func == program.functions@[f as int],
                i <= func.body@.len(),
                map.wf(),
                map@.contains_key(func.name@),
                forall|n: Seq<char>| #[trigger] map@.contains_key(n) <==> defined(*program, n),
                forall|n: Seq<char>| map@.contains_key(n) ==> (#[trigger] map@[n]).wf(),
                forall|n: Seq<char>, c: Seq<char>| map@.contains_key(n) ==> (#[trigger] map@[n]@.contains(c) <==>
                    (exists|g: int, k: int| 0 <= g < f && program.functions@[g].name@ == n
                        && 0 <= k < program.functions@[g].body@.len()
                        && #[trigger] call_target(program.functions@[g].body@[k].op) == Some(c))
                    || (n == func.name@ && exists|k: int| 0 <= k < i && #[trigger] call_target(func.body@[k].op) == Some(c))),
            decreases func.body@.len() - i,
        {
            match &func.body[i].op {
                IrOp::Call { func_name, .. } => {
                    let ghost m0 = map@;
                    add_call(&mut map, &func.name, func_name);
                    assert(call_target(func.body@[i as int].op) == Some(func_name@));
                    assert forall|n: Seq<char>, c: Seq<char>| map@.contains_key(n) implies (#[trigger] map@[n]@.contains(c) <==>
                        (exists|g: int, k: int| 0 <= g < f && program.functions@[g].name@ == n
                            && 0 <= k < program.functions@[g].body@.len()
                            && #[trigger] call_target(program.functions@[g].body@[k].op) == Some(c))
                        || (n == func.name@ && exists|k: int| 0 <= k < i + 1 && #[trigger] call_target(func.body@[k].op) == Some(c))) by {
                        if n == func.name@ && exists|k: int| 0 <= k < i + 1 && #[trigger] call_target(func.body@[k].op) == Some(c) {
                            let k = choose|k: int| 0 <= k < i + 1 && #[trigger] call_target(func.body@[k].op) == Some(c);
                            if k < i {
                                assert(m0[n]@.contains(c));
                            }
                        }
                    }
                },
                _ => {
                    assert(call_target(func.body@[i as int].op) is None);
                    assert forall|n: Seq<char>, c: Seq<char>| map@.contains_key(n) implies (#[trigger] map@[n]@.contains(c) <==>
                        (exists|g: int, k: int| 0 <= g < f && program.functions@[g].name@ == n
                            && 0 <= k < program.functions@[g].body@.len()
                            && #[trigger] call_target(program.functions@[g].body@[k].op) == Some(c))
                        || (n == func.name@ && exists|k: int| 0 <= k < i + 1 && #[trigger] call_target(func.body@[k].op) == Some(c))) by {
                        if n == func.name@ && exists|k: int| 0 <= k < i + 1 && #[trigger] call_target(func.body@[k].op) == Some(c) {
                            let k = choose|k: int| 0 <= k < i + 1 && #[trigger] call_target(func.body@[k].op) == Some(c);
                            assert(k < i);
                        }
                    }
                },
            }
            i += 1;
        }
        assert forall|n: Seq<char>, c: Seq<char>| map@.contains_key(n) implies (#[trigger] map@[n]@.contains(c) <==>
            exists|g: int, k: int| 0 <= g < f + 1 && program.functions@[g].name@ == n
                && 0 <= k < program.functions@[g].body@.len()
                && #[trigger] call_target(program.functions@[g].body@[k].op) == Some(c)) by {
            if map@[n]@.contains(c) {
                if n == func.name@ && exists|k: int| 0 <= k < func.body@.len() && #[trigger] call_target(func.body@[k].op) == Some(c) {
                    let k = choose|k: int| 0 <= k < func.body@.len() && #[trigger] call_target(func.body@[k].op) == Some(c);
                    assert(program.functions@[f as int].body@[k] == func.body@[k]);
                }
            }
            if exists|g: int, k: int| 0 <= g < f + 1 && program.functions@[g].name@ == n
                && 0 <= k < program.functions@[g].body@.len()
                && #[trigger] call_target(program.functions@[g].body@[k].op) == Some(c) {
                let (g, k) = choose|g: int, k: int| 0 <= g < f + 1 && program.functions@[g].name@ == n
                    && 0 <= k < program.functions@[g].body@.len()
                    && #[trigger] call_target(program.functions@[g].body@[k].op) == Some(c);
                if g == f {
                    assert(call_target(func.body@[k].op) == Some(c));
                }
            }
        }
        f += 1;
    }
    map
}


/// `a` calls `b`, both defined.
pub open spec fn calls_edge(g: Map<Seq<char>, NameSet>, a: Seq<char>, b: Seq<char>) -> bool {
    g.contains_key(a) && g.contains_key(b) && g[a]@.contains(b)
}

/// Consecutive names of `s` are joined by calls.
pub open spec fn is_walk(g: Map<Seq<char>, NameSet>, s: Seq<Seq<char>>) -> bool {
    forall|i: int| 0 <= i < s.len() - 1 ==> #[trigger] step(g, s, i)
}

/// The `i`-th step of `s` is a call.
pub open spec fn step(g: Map<Seq<char>, NameSet>, s: Seq<Seq<char>>, i: int) -> bool {
    calls_edge(g, s[i], s[i + 1])
}

/// `n` lies on a cycle of calls.
pub open spec fn on_cycle(g: Map<Seq<char>, NameSet>, n: Seq<char>) -> bool {
    exists|s: Seq<Seq<char>>| s.len() >= 2 && s[0] == n && s[s.len() - 1] == n && #[trigger] is_walk(g, s)
}

proof fn lemma_walk_subrange(g: Map<Seq<char>, NameSet>, s: Seq<Seq<char>>, a: int, b: int)
    requires
        is_walk(g, s),
        0 <= a <= b <= s.len(),
    ensures
        is_walk(g, s.subrange(a, b)),
{
    let t = s.subrange(a, b);
    assert forall|i: int| 0 <= i < t.len() - 1 implies #[trigger] step(g, t, i) by {
        assert(step(g, s, a + i));
    }
}

proof fn lemma_walk_join(g: Map<Seq<char>, NameSet>, s: Seq<Seq<char>>, t: Seq<Seq<char>>)
    requires
        is_walk(g, s),
        is_walk(g, t),
        s.len() > 0,
        t.len() > 0,
        calls_edge(g, s[s.len() - 1], t[0]),
    ensures
        is_walk(g, s + t),
{
    let u = s + t;
    assert forall|i: int| 0 <= i < u.len() - 1 implies #[trigger] step(g, u, i) by {
        if i < s.len() - 1 {
            assert(step(g, s, i));
        } else if i == s.len() - 1 {
        } else {
            assert(step(g, t, i - s.len()));
        }
    }
}

/// The number of unvisited (white) nodes.
pub open spec fn white_count(c: Seq<u8>) -> nat
    decreases c.len(),
{
    if c.len() == 0 {
        0
    } else {
        white_count(c.drop_last()) + (if c.last() == 0 { 1nat } else { 0nat })
    }
}

proof fn lemma_white_count_update(c: Seq<u8>, i: int, v: u8)
    requires
        0 <= i < c.len(),
    ensures
        white_count(c.update(i, v)) + (if c[i] == 0 { 1int } else { 0int })
            == white_count(c) + (if v == 0 { 1int } else { 0int }),
    decreases c.len(),
{
    let u = c.update(i, v);
    if i == c.len() - 1 {
        assert(u.drop_last() =~= c.drop_last());
    } else {
        lemma_white_count_update(c.drop_last(), i, v);
        assert(u.drop_last() =~= c.drop_last().update(i, v));
    }
}

/// The names of a sequence of node indices.
pub open spec fn names_of(keys: Seq<Seq<char>>, p: Seq<usize>) -> Seq<Seq<char>> {
    p.map_values(|i: usize| keys[i as int])
}

/// The state the depth-first search keeps between visits.
pub open spec fn dfs_state(g: Map<Seq<char>, NameSet>, keys: Seq<Seq<char>>, adj: Seq<Vec<usize>>,
    colour: Seq<u8>, marked: Seq<bool>, path: Seq<usize>) -> bool {
    &&& adj.len() == keys.len() && colour.len() == keys.len() && marked.len() == keys.len()
    &&& forall|i: int, t: int| 0 <= i < adj.len() && 0 <= t < adj[i]@.len() ==> #[trigger] adj[i]@[t] < keys.len()
    &&& forall|i: int, j: usize| 0 <= i < keys.len() && j < keys.len() && #[trigger] adj[i]@.contains(j)
        ==> calls_edge(g, keys[i], keys[j as int])
    &&& forall|i: int| 0 <= i < colour.len() ==> #[trigger] colour[i] <= 2
    &&& forall|t: int| 0 <= t < path.len() ==> #[trigger] path[t] < keys.len() && colour[path[t] as int] == 1
    &&& forall|i: int| 0 <= i < colour.len() && #[trigger] colour[i] == 1 ==> path.contains(i as usize)
    &&& is_walk(g, names_of(keys, path))
    &&& forall|i: int| 0 <= i < marked.len() && #[trigger] marked[i] ==> on_cycle(g, keys[i])
    &&& forall|i: int| 0 <= i < colour.len() && colour[i] == 2 && #[trigger] adj[i]@.contains(i as usize) ==> marked[i]
}

proof fn lemma_mark_on_cycle(g: Map<Seq<char>, NameSet>, keys: Seq<Seq<char>>, path: Seq<usize>, k: int, t: int)
    requires
        is_walk(g, names_of(keys, path)),
        0 <= k <= t < path.len(),
        forall|x: int| 0 <= x < path.len() ==> #[trigger] path[x] < keys.len(),
        calls_edge(g, keys[path[path.len() - 1] as int], keys[path[k] as int]),
    ensures
        on_cycle(g, keys[path[t] as int]),
{
    let ns = names_of(keys, path);
    let a = ns.subrange(t, ns.len() as int);
    let b = ns.subrange(k, t + 1);
    lemma_walk_subrange(g, ns, t, ns.len() as int);
    lemma_walk_subrange(g, ns, k, t + 1);
    assert(a[a.len() - 1] == keys[path[path.len() - 1] as int]);
    assert(b[0] == keys[path[k] as int]);
    lemma_walk_join(g, a, b);
    let s = a + b;
    assert(s.len() >= 2);
    assert(s[0] == keys[path[t] as int]);
    assert(s[s.len() - 1] == keys[path[t] as int]);
    assert(is_walk(g, s));
}

/// Visit `node` and everything reachable from it that is unvisited,
/// marking the functions of every cycle closed by an edge back to the
/// current path.
fn dfs_visit(
    node: usize,
    adj: &Vec<Vec<usize>>,
    colour: &mut Vec<u8>,
    marked: &mut Vec<bool>,
    path: &mut Vec<usize>,
    Ghost(g): Ghost<Map<Seq<char>, NameSet>>,
    Ghost(keys): Ghost<Seq<Seq<char>>>,
)
    requires
        dfs_state(g, keys, adj@, old(colour)@, old(marked)@, old(path)@),
        node < keys.len(),
        old(colour)@[node as int] == 0,
        old(path)@.len() > 0 ==> calls_edge(g, keys[old(path)@[old(path)@.len() - 1] as int], keys[node as int]),
    ensures
        dfs_state(g, keys, adj@, final(colour)@, final(marked)@, final(path)@),
        final(path)@ == old(path)@,
        final(colour)@[node as int] == 2,
        forall|i: int| 0 <= i < old(colour)@.len() && old(colour)@[i] != 0 ==> #[trigger] final(colour)@[i] == old(colour)@[i],
        forall|i: int| 0 <= i < old(colour)@.len() && old(colour)@[i] == 0 ==> #[trigger] final(colour)@[i] != 1,
        white_count(final(colour)@) < white_count(old(colour)@),
        forall|i: int| 0 <= i < old(marked)@.len() && old(marked)@[i] ==> #[trigger] final(marked)@[i],
    decreases white_count(old(colour)@),
{
    let ghost w0 = white_count(colour@);
    let ghost c0 = colour@;
    proof {
        lemma_white_count_update(colour@, node as int, 1);
    }
    colour.set(node, 1);
    path.push(node);
    proof {
        let ns = names_of(keys, path@);
        let ns0 = names_of(keys, old(path)@);
        assert(ns =~= ns0.push(keys[node as int]));
        assert forall|i: int| 0 <= i < ns.len() - 1 implies #[trigger] step(g, ns, i) by {
            if i < ns.len() - 2 {
                assert(step(g, ns0, i));
            }
        }
        assert forall|i: int| 0 <= i < colour@.len() && #[trigger] colour@[i] == 1 implies path@.contains(i as usize) by {
            if i == node as int {
                assert(path@[path@.len() - 1] == node);
            } else {
                assert(old(colour)@[i] == 1);
                assert(old(path)@.contains(i as usize));
                let t = choose|t: int| 0 <= t < old(path)@.len() && old(path)@[t] == i as usize;
                assert(path@[t] == i as usize);
            }
        }
    }
    let mut t: usize = 0;
    let mut self_seen = false;
    while t < adj[node].len()
        invariant
            dfs_state(g, keys, adj@, colour@, marked@, path@),
            node < keys.len(),
            path@ == old(path)@.push(node),
            colour@[node as int] == 1,
            forall|i: int| 0 <= i < c0.len() && c0[i] != 0 ==> #[trigger] colour@[i] == c0[i],
            forall|i: int| 0 <= i < c0.len() && c0[i] == 0 && i != node ==> #[trigger] colour@[i] != 1,
            white_count(colour@) < w0,
            w0 == white_count(c0),
            c0 == old(colour)@,
            c0.len() == keys.len(),
            c0[node as int] == 0,
            self_seen ==> marked@[node as int],
            forall|i: int| 0 <= i < old(marked)@.len() && old(marked)@[i] ==> #[trigger] marked@[i],
            old(marked)@.len() == keys.len(),
            forall|u: int| 0 <= u < t ==> adj@[node as int]@[u] != node || self_seen,
        decreases adj@[node as int]@.len() - t,
    {
        let c = adj[node][t];
        assert(adj@[node as int]@[t as int] < keys.len());
        assert(adj@[node as int]@.contains(c));
        assert(calls_edge(g, keys[node as int], keys[c as int]));
        if colour[c] == 1 {
            // A back edge: every function from `c` to the top of the path
            // lies on a cycle.
            let mut k: usize = 0;
            let mut found = false;
            let ghost m_before = marked@;
            while k < path.len()
                invariant
                    dfs_state(g, keys, adj@, colour@, marked@, path@),
                    path@ == old(path)@.push(node),
                    c < keys.len(),
                    calls_edge(g, keys[node as int], keys[c as int]),
                    colour@[c as int] == 1,
                    found ==> exists|x: int| 0 <= x < k && path@[x] == c,
                    !found ==> forall|x: int| 0 <= x < k ==> path@[x] != c,
                    found && c == node ==> marked@[node as int] || exists|x: int| k <= x < path@.len() && path@[x] == node,
                    !found ==> marked@ == m_before,
                    colour@[node as int] == 1,
                    m_before.len() == marked@.len(),
                    forall|i: int| 0 <= i < m_before.len() && m_before[i] ==> #[trigger] marked@[i],
                decreases path@.len() - k,
            {
                if path[k] == c {
                    found = true;
                }
                if found {
                    proof {
                        let x = choose|x: int| 0 <= x <= k && path@[x] == c;
                        assert(path@[path@.len() - 1] == node);
                        lemma_mark_on_cycle(g, keys, path@, x, k as int);
                    }
                    marked.set(path[k], true);
                }
                k += 1;
            }
            if c == node {
                assert(path@[path@.len() - 1] == node);
                assert(path@.contains(node));
                self_seen = true;
            }
        } else if colour[c] == 0 {
            assert(path@[path@.len() - 1] == node);
            let ghost cur = colour@;
            dfs_visit(c, adj, colour, marked, path, Ghost(g), Ghost(keys));
            assert forall|i: int| 0 <= i < c0.len() && c0[i] != 0 implies #[trigger] colour@[i] == c0[i] by {
                assert(cur[i] == c0[i]);
                assert(cur.len() == c0.len());
                assert(cur[i] != 0);
                assert(colour@[i] == cur[i]);
            }
            assert forall|i: int| 0 <= i < c0.len() && c0[i] == 0 && i != node implies #[trigger] colour@[i] != 1 by {
                assert(cur[i] != 1);
            }
        }
        t += 1;
    }
    path.pop();
    proof {
        assert(path@ =~= old(path)@);
        lemma_white_count_update(colour@, node as int, 2);
    }
    colour.set(node, 2);
    proof {
        let ns = names_of(keys, path@);
        let ns1 = names_of(keys, path@.push(node));
        assert(ns =~= ns1.subrange(0, ns.len() as int));
        lemma_walk_subrange(g, ns1, 0, ns.len() as int);
    }
}


/// Node `i` has an edge to node `j` in the adjacency lists.
pub open spec fn idx_edge(adj: Seq<Vec<usize>>, i: int, j: int) -> bool {
    0 <= i < adj.len() && 0 <= j < adj.len() && adj[i]@.contains(j as usize)
}

/// The `k`-th step of the node sequence `p` is an edge.
pub open spec fn idx_step(adj: Seq<Vec<usize>>, p: Seq<int>, k: int) -> bool {
    idx_edge(adj, p[k], p[k + 1])
}

/// Consecutive nodes of `p` are joined by edges.
pub open spec fn idx_walk(adj: Seq<Vec<usize>>, p: Seq<int>) -> bool {
    forall|k: int| 0 <= k < p.len() - 1 ==> #[trigger] idx_step(adj, p, k)
}

/// A walk of one or more edges leads from `a` to `b`.
pub open spec fn reaches_idx(adj: Seq<Vec<usize>>, a: int, b: int) -> bool {
    exists|p: Seq<int>| p.len() >= 2 && p[0] == a && p[p.len() - 1] == b && #[trigger] idx_walk(adj, p)
}

/// The number of `false` entries.
pub open spec fn false_count(s: Seq<bool>) -> nat
    decreases s.len(),
{
    if s.len() == 0 {
        0
    } else {
        false_count(s.drop_last()) + (if s.last() { 0nat } else { 1nat })
    }
}

proof fn lemma_false_count_set(s: Seq<bool>, i: int)
    requires
        0 <= i < s.len(),
        !s[i],
    ensures
        false_count(s.update(i, true)) + 1 == false_count(s),
    decreases s.len(),
{
    let u = s.update(i, true);
    if i == s.len() - 1 {
        assert(u.drop_last() =~= s.drop_last());
    } else {
        lemma_false_count_set(s.drop_last(), i);
        assert(u.drop_last() =~= s.drop_last().update(i, true));
    }
}

/// A set of nodes that holds the successors of `start` and is closed under
/// edges holds the end of every walk from `start`.
proof fn lemma_closed_reach(adj: Seq<Vec<usize>>, reach: Seq<bool>, start: int, p: Seq<int>)
    requires
        p.len() >= 2,
        p[0] == start,
        idx_walk(adj, p),
        forall|j: int| 0 <= j < reach.len() && #[trigger] idx_edge(adj, start, j) ==> reach[j],
        forall|i: int, j: int| 0 <= i < reach.len() && 0 <= j < reach.len() && reach[i] && #[trigger] idx_edge(adj, i, j) ==> reach[j],
        forall|x: int| 0 <= x < p.len() ==> 0 <= #[trigger] p[x] < reach.len(),
    ensures
        reach[p[p.len() - 1]],
    decreases p.len(),
{
    assert(idx_step(adj, p, p.len() - 2));
    if p.len() == 2 {
        assert(idx_edge(adj, start, p[1]));
    } else {
        let q = p.drop_last();
        assert forall|k: int| 0 <= k < q.len() - 1 implies #[trigger] idx_step(adj, q, k) by {
            assert(idx_step(adj, p, k));
        }
        lemma_closed_reach(adj, reach, start, q);
        assert(idx_edge(adj, q[q.len() - 1], p[p.len() - 1]));
    }
}

/// Whether `v` holds `x`.
fn has_index(v: &Vec<usize>, x: usize) -> (r: bool)
    ensures
        r == v@.contains(x),
{
    let mut i: usize = 0;
    while i < v.len()
        invariant
            i <= v@.len(),
            forall|k: int| 0 <= k < i ==> v@[k] != x,
        decreases v@.len() - i,
    {
        if v[i] == x {
            assert(v@[i as int] == x);
            return true;
        }
        i += 1;
    }
    false
}

/// The nodes reachable from `start` by one or more edges.
fn reach_from(adj: &Vec<Vec<usize>>, start: usize, n: usize) -> (r: Vec<bool>)
    requires
        start < n,
        adj@.len() == n,
        forall|i: int, t: int| 0 <= i < adj@.len() && 0 <= t < adj@[i]@.len() ==> #[trigger] adj@[i]@[t] < n,
    ensures
        r@.len() == n,
        forall|j: int| 0 <= j < n ==> (#[trigger] r@[j] <==> reaches_idx(adj@, start as int, j)),
{
    let mut reach: Vec<bool> = Vec::new();
    let mut j: usize = 0;
    while j < n
        invariant
            j <= n,
            reach@.len() == j,
            start < n,
            adj@.len() == n,
            forall|k: int| 0 <= k < j ==> (#[trigger] reach@[k] <==> idx_edge(adj@, start as int, k)),
        decreases n - j,
    {
        reach.push(has_index(&adj[start], j));
        j += 1;
    }
    proof {
        assert forall|k: int| 0 <= k < n && #[trigger] reach@[k] implies reaches_idx(adj@, start as int, k) by {
            let p = seq![start as int, k];
            assert(idx_step(adj@, p, 0));
            assert(idx_walk(adj@, p));
        }
    }
    let mut again = true;
    while again
        invariant
            reach@.len() == n,
            adj@.len() == n,
            start < n,
            forall|i: int, t: int| 0 <= i < adj@.len() && 0 <= t < adj@[i]@.len() ==> #[trigger] adj@[i]@[t] < n,
            forall|k: int| 0 <= k < n && #[trigger] idx_edge(adj@, start as int, k) ==> reach@[k],
            forall|k: int| 0 <= k < n && #[trigger] reach@[k] ==> reaches_idx(adj@, start as int, k),
            !again ==> forall|i: int, k: int| 0 <= i < n && 0 <= k < n && reach@[i] && #[trigger] idx_edge(adj@, i, k) ==> reach@[k],
        decreases false_count(reach@) + (if again { 1nat } else { 0nat }),
    {
        let ghost f0 = false_count(reach@);
        let mut changed = false;
        let mut i: usize = 0;
        while i < n
            invariant
                i <= n,
                reach@.len() == n,
                adj@.len() == n,
                start < n,
                forall|a: int, t: int| 0 <= a < adj@.len() && 0 <= t < adj@[a]@.len() ==> #[trigger] adj@[a]@[t] < n,
                forall|k: int| 0 <= k < n && #[trigger] idx_edge(adj@, start as int, k) ==> reach@[k],
                forall|k: int| 0 <= k < n && #[trigger] reach@[k] ==> reaches_idx(adj@, start as int, k),
                changed ==> false_count(reach@) < f0,
                !changed ==> false_count(reach@) == f0,
                !changed ==> forall|a: int, k: int| 0 <= a < i && 0 <= k < n && reach@[a] && #[trigger] idx_edge(adj@, a, k) ==> reach@[k],
            decreases n - i,
        {
            if reach[i] {
                let mut t: usize = 0;
                while t < adj[i].len()
                    invariant
                        i < n,
                        t <= adj@[i as int]@.len(),
                        reach@.len() == n,
                        reach@[i as int],
                        adj@.len() == n,
                        forall|a: int, u: int| 0 <= a < adj@.len() && 0 <= u < adj@[a]@.len() ==> #[trigger] adj@[a]@[u] < n,
                        forall|k: int| 0 <= k < n && #[trigger] idx_edge(adj@, start as int, k) ==> reach@[k],
                        forall|k: int| 0 <= k < n && #[trigger] reach@[k] ==> reaches_idx(adj@, start as int, k),
                        changed ==> false_count(reach@) < f0,
                        !changed ==> false_count(reach@) == f0,
                        !changed ==> forall|a: int, k: int| 0 <= a < i && 0 <= k < n && reach@[a] && #[trigger] idx_edge(adj@, a, k) ==> reach@[k],
                        !changed ==> forall|u: int| 0 <= u < t ==> reach@[adj@[i as int]@[u] as int],
                    decreases adj@[i as int]@.len() - t,
                {
                    let k = adj[i][t];
                    if !reach[k] {
                        proof {
                            let p = choose|p: Seq<int>| p.len() >= 2 && p[0] == start as int && p[p.len() - 1] == i as int
                                && #[trigger] idx_walk(adj@, p);
                            let q = p.push(k as int);
                            assert(adj@[i as int]@[t as int] == k);
                            assert(idx_edge(adj@, i as int, k as int));
                            assert forall|x: int| 0 <= x < q.len() - 1 implies #[trigger] idx_step(adj@, q, x) by {
                                if x < p.len() - 1 {
                                    assert(idx_step(adj@, p, x));
                                }
                            }
                            assert(idx_walk(adj@, q));
                            lemma_false_count_set(reach@, k as int);
                        }
                        reach.set(k, true);
                        changed = true;
                    }
                    t += 1;
                }
                proof {
                    if !changed {
                        assert forall|a: int, k: int| 0 <= a < i + 1 && 0 <= k < n && reach@[a] && #[trigger] idx_edge(adj@, a, k) implies reach@[k] by {
                            if a == i {
                                let u = choose|u: int| 0 <= u < adj@[i as int]@.len() && #[trigger] adj@[i as int]@[u] == k as usize;
                            }
                        }
                    }
                }
            }
            i += 1;
        }
        again = changed;
    }
    proof {
        assert forall|k: int| 0 <= k < n implies (#[trigger] reach@[k] <==> reaches_idx(adj@, start as int, k)) by {
            if reaches_idx(adj@, start as int, k) {
                let p = choose|p: Seq<int>| p.len() >= 2 && p[0] == start as int && p[p.len() - 1] == k
                    && #[trigger] idx_walk(adj@, p);
                assert forall|x: int| 0 <= x < p.len() implies 0 <= #[trigger] p[x] < reach@.len() by {
                    if x > 0 {
                        assert(idx_step(adj@, p, x - 1));
                    }
                }
                lemma_closed_reach(adj@, reach@, start as int, p);
            }
        }
    }
    reach
}

/// A node that reaches itself names a function on a cycle of calls.
proof fn lemma_idx_cycle(g: Map<Seq<char>, NameSet>, ks: Seq<Seq<char>>, adj: Seq<Vec<usize>>, i: int)
    requires
        reaches_idx(adj, i, i),
        adj.len() == ks.len(),
        ks.len() <= usize::MAX,
        forall|a: int, j: usize| 0 <= a < ks.len() && j < ks.len() && #[trigger] adj[a]@.contains(j) ==> calls_edge(g, ks[a], ks[j as int]),
    ensures
        on_cycle(g, ks[i]),
{
    let p = choose|p: Seq<int>| p.len() >= 2 && p[0] == i && p[p.len() - 1] == i && #[trigger] idx_walk(adj, p);
    let ns = p.map_values(|x: int| ks[x]);
    assert forall|k: int| 0 <= k < ns.len() - 1 implies #[trigger] step(g, ns, k) by {
        assert(idx_step(adj, p, k));
        let a = p[k];
        let b = p[k + 1];
        assert(0 <= a < ks.len() && 0 <= b < ks.len());
        let j = b as usize;
        assert(j as int == b);
        assert(adj[a]@.contains(j));
        assert(calls_edge(g, ks[a], ks[j as int]));
        assert(ns[k] == ks[a] && ns[k + 1] == ks[b]);
    }
    assert(is_walk(g, ns));
}

/// A defined function on a cycle of calls is a node that reaches itself.
proof fn lemma_cycle_idx(g: Map<Seq<char>, NameSet>, ks: Seq<Seq<char>>, adj: Seq<Vec<usize>>, x: Seq<char>) -> (k: int)
    requires
        on_cycle(g, x),
        adj.len() == ks.len(),
        forall|y: Seq<char>| #[trigger] g.contains_key(y) ==> exists|k: int| 0 <= k < ks.len() && ks[k] == y,
        forall|a: int, j: int| 0 <= a < adj.len() && 0 <= j < ks.len() && #[trigger] calls_edge(g, ks[a], ks[j]) ==> adj[a]@.contains(j as usize),
    ensures
        0 <= k < ks.len(),
        ks[k] == x,
        reaches_idx(adj, k, k),
{
    let s = choose|s: Seq<Seq<char>>| s.len() >= 2 && s[0] == x && s[s.len() - 1] == x && #[trigger] is_walk(g, s);
    assert forall|t: int| 0 <= t < s.len() implies #[trigger] g.contains_key(s[t]) by {
        if t < s.len() - 1 {
            assert(step(g, s, t));
        } else {
            assert(step(g, s, t - 1));
        }
    }
    let p = Seq::new(s.len(), |t: int| choose|k: int| 0 <= k < ks.len() && ks[k] == s[t]);
    assert forall|t: int| 0 <= t < s.len() implies 0 <= #[trigger] p[t] < ks.len() && ks[p[t]] == s[t] by {
        assert(g.contains_key(s[t]));
    }
    assert forall|t: int| 0 <= t < p.len() - 1 implies #[trigger] idx_step(adj, p, t) by {
        assert(step(g, s, t));
        assert(0 <= p[t] < ks.len() && ks[p[t]] == s[t]);
        assert(0 <= p[t + 1] < ks.len() && ks[p[t + 1]] == s[t + 1]);
        assert(calls_edge(g, ks[p[t]], ks[p[t + 1]]));
    }
    assert(idx_walk(adj, p));
    let k0 = p[0];
    assert(0 <= p[p.len() - 1] < ks.len() && ks[p[p.len() - 1]] == x);
    assert(0 <= p[0] < ks.len() && ks[p[0]] == x);
    let q = p.update(p.len() - 1, k0);
    assert forall|t: int| 0 <= t < q.len() - 1 implies #[trigger] idx_step(adj, q, t) by {
        assert(idx_step(adj, p, t));
        if t + 1 == q.len() - 1 {
            assert(0 <= p[t + 1] < ks.len() && ks[p[t + 1]] == x);
        }
    }
    assert(idx_walk(adj, q));
    k0
}

/// The index of `name` in `keys`.
fn index_in(keys: &Vec<String>, name: &String) -> (r: Option<usize>)
    ensures
        r matches Some(j) ==> j < keys@.len() && keys@[j as int]@ == name@,
        r is None ==> forall|j: int| 0 <= j < keys@.len() ==> (#[trigger] keys@[j])@ != name@,
{
    let mut j: usize = 0;
    while j < keys.len()
        invariant
            j <= keys@.len(),
            forall|x: int| 0 <= x < j ==> (#[trigger] keys@[x])@ != name@,
        decreases keys@.len() - j,
    {
        if keys[j] == *name {
            return Some(j);
        }
        j += 1;
    }
    None
}

/// The functions that lie on a cycle of calls (`detect_recursion`): a
/// depth-first search from every function in turn marks the functions of
/// each cycle it closes by an edge back to its path, and every function it
/// left unmarked is then marked when it reaches itself.  Exactly the
/// defined functions that lie on a cycle are reported.
pub fn detect_recursion(callees: &AssocMap<String, NameSet>) -> (r: NameSet)
    requires
        callees.wf(),
        forall|n: Seq<char>| callees@.contains_key(n) ==> (#[trigger] callees@[n]).wf(),
    ensures
        r.wf(),
        forall|x: Seq<char>| #[trigger] r@.contains(x) ==> callees@.contains_key(x) && on_cycle(callees@, x),
        forall|x: Seq<char>| #[trigger] calls_edge(callees@, x, x) ==> r@.contains(x),
        forall|x: Seq<char>| callees@.contains_key(x) && #[trigger] on_cycle(callees@, x) ==> r@.contains(x),
{
    let ghost g = callees@;
    proof {
        callees.lemma_entries();
    }
    let n = callees.len();
    let mut keys: Vec<String> = Vec::new();
    let mut i: usize = 0;
    while i < n
        invariant
            n == callees.entries().len(),
            i <= n,
            keys@.len() == i,
            forall|k: int| 0 <= k < i ==> (#[trigger] keys@[k])@ == callees.entries()[k].0@,
        decreases n - i,
    {
        keys.push(callees.key_at(i).clone());
        i += 1;
    }
    let ghost ks = keys@.map_values(|s: String| s@);
    assert forall|k: int| 0 <= k < n implies #[trigger] g.contains_key(ks[k]) && g[ks[k]] == callees.entries()[k].1 by {
        assert(ks[k] == callees.entries()[k].0@);
    }
    let mut adj: Vec<Vec<usize>> = Vec::new();
    i = 0;
    while i < n
        invariant
            n == callees.entries().len(),
            n == keys@.len(),
            ks == keys@.map_values(|s: String| s@),
            distinct_names(ks),
            i <= n,
            adj@.len() == i,
            forall|k: int| 0 <= k < n ==> #[trigger] g.contains_key(ks[k]) && g[ks[k]] == callees.entries()[k].1,
            forall|k: int| 0 <= k < n ==> (#[trigger] g[ks[k]]).wf(),
            forall|a: int, t: int| 0 <= a < adj@.len() && 0 <= t < adj@[a]@.len() ==> #[trigger] adj@[a]@[t] < n,
            forall|a: int, j: usize| 0 <= a < adj@.len() && j < n && #[trigger] adj@[a]@.contains(j)
                ==> calls_edge(g, ks[a], ks[j as int]),
            forall|a: int| 0 <= a < adj@.len() && #[trigger] calls_edge(g, ks[a], ks[a]) ==> adj@[a]@.contains(a as usize),
            forall|a: int, j: int| 0 <= a < adj@.len() && 0 <= j < n && #[trigger] calls_edge(g, ks[a], ks[j]) ==> adj@[a]@.contains(j as usize),
        decreases n - i,
    {
        let set = callees.value_at(i);
        assert(g.contains_key(ks[i as int]));
        assert(*set == g[ks[i as int]]);
        let mut row: Vec<usize> = Vec::new();
        let mut t: usize = 0;
        while t < set.len()
            invariant
                n == keys@.len(),
                ks == keys@.map_values(|s: String| s@),
                distinct_names(ks),
                i < n,
                *set == g[ks[i as int]],
                g.contains_key(ks[i as int]),
                forall|k: int| 0 <= k < n ==> #[trigger] g.contains_key(ks[k]),
                forall|x: int| 0 <= x < row@.len() ==> #[trigger] row@[x] < n,
                forall|j: usize| j < n && #[trigger] row@.contains(j) ==> calls_edge(g, ks[i as int], ks[j as int]),
                forall|x: int| 0 <= x < t && set.seq()[x] == ks[i as int] ==> row@.contains(i),
                forall|x: int, jj: int| 0 <= x < t && 0 <= jj < n && #[trigger] set.seq()[x] == #[trigger] ks[jj] ==> row@.contains(jj as usize),
            decreases set.seq().len() - t,
        {
            let name = set.get(t);
            match index_in(&keys, name) {
                Some(j) => {
                    assert(ks[j as int] == name@);
                    assert(g.contains_key(ks[j as int]));
                    let ghost old_row = row@;
                    row.push(j);
                    assert forall|jj: usize| jj < n && #[trigger] row@.contains(jj) implies calls_edge(g, ks[i as int], ks[jj as int]) by {
                        if jj != j {
                            let x = choose|x: int| 0 <= x < row@.len() && row@[x] == jj;
                            assert(x < old_row.len());
                            assert(old_row[x] == jj);
                            assert(old_row.contains(jj));
                        }
                    }
                    assert forall|x: int| 0 <= x < t + 1 && set.seq()[x] == ks[i as int] implies row@.contains(i) by {
                        if x == t {
                            assert(ks[j as int] == ks[i as int]);
                            assert(j == i);
                            assert(row@[row@.len() - 1] == i);
                        } else {
                            assert(old_row.contains(i));
                            let y = choose|y: int| 0 <= y < old_row.len() && old_row[y] == i;
                            assert(row@[y] == i);
                        }
                    }
                    assert forall|x: int, jj: int| 0 <= x < t + 1 && 0 <= jj < n && #[trigger] set.seq()[x] == #[trigger] ks[jj] implies row@.contains(jj as usize) by {
                        if x == t {
                            assert(ks[j as int] == ks[jj]);
                            assert(jj == j);
                            assert(row@[row@.len() - 1] == j);
                        } else {
                            assert(old_row.contains(jj as usize));
                            let y = choose|y: int| 0 <= y < old_row.len() && old_row[y] == jj as usize;
                            assert(row@[y] == jj as usize);
                        }
                    }
                },
                None => {
                    assert forall|x: int| 0 <= x < t + 1 && set.seq()[x] == ks[i as int] implies row@.contains(i) by {
                        if x == t {
                            assert(keys@[i as int]@ == ks[i as int]);
                        }
                    }
                    assert forall|x: int, jj: int| 0 <= x < t + 1 && 0 <= jj < n && #[trigger] set.seq()[x] == #[trigger] ks[jj] implies row@.contains(jj as usize) by {
                        if x == t {
                            assert(keys@[jj]@ == ks[jj]);
                        }
                    }
                },
            }
            t += 1;
        }
        proof {
            set.lemma_seq();
            if calls_edge(g, ks[i as int], ks[i as int]) {
                assert(set.seq().contains(ks[i as int]));
            }
            assert forall|jj: int| 0 <= jj < n && #[trigger] calls_edge(g, ks[i as int], ks[jj]) implies row@.contains(jj as usize) by {
                assert(set.seq().contains(ks[jj]));
                let x = choose|x: int| 0 <= x < set.seq().len() && set.seq()[x] == ks[jj];
            }
        }
        let ghost adj0 = adj@;
        adj.push(row);
        proof {
            assert forall|a: int, j: int| 0 <= a < adj@.len() && 0 <= j < n && #[trigger] calls_edge(g, ks[a], ks[j]) implies adj@[a]@.contains(j as usize) by {
                if a < i {
                    assert(adj@[a] == adj0[a]);
                }
            }
        }
        assert forall|a: int, j: usize| 0 <= a < adj@.len() && j < n && #[trigger] adj@[a]@.contains(j)
            implies calls_edge(g, ks[a], ks[j as int]) by {
        }
        i += 1;
    }
    let mut colour: Vec<u8> = Vec::new();
    let mut marked: Vec<bool> = Vec::new();
    i = 0;
    while i < n
        invariant
            i <= n,
            colour@.len() == i,
            marked@.len() == i,
            forall|k: int| 0 <= k < i ==> #[trigger] colour@[k] == 0,
            forall|k: int| 0 <= k < i ==> !(#[trigger] marked@[k]),
        decreases n - i,
    {
        colour.push(0);
        marked.push(false);
        i += 1;
    }
    let mut path: Vec<usize> = Vec::new();
    proof {
        assert(names_of(ks, path@) =~= Seq::<Seq<char>>::empty());
        assert(is_walk(g, names_of(ks, path@)));
        assert forall|k: int| 0 <= k < colour@.len() implies #[trigger] colour@[k] <= 2 by {
            assert(colour@[k] == 0);
        }
        assert forall|k: int| 0 <= k < colour@.len() && #[trigger] colour@[k] == 1 implies path@.contains(k as usize) by {
            assert(colour@[k] == 0);
        }
        assert forall|k: int| 0 <= k < marked@.len() && #[trigger] marked@[k] implies on_cycle(g, ks[k]) by {
            assert(!marked@[k]);
        }
        assert forall|k: int| 0 <= k < colour@.len() && colour@[k] == 2 && #[trigger] adj@[k]@.contains(k as usize) implies marked@[k] by {
            assert(colour@[k] == 0);
        }
        assert(dfs_state(g, ks, adj@, colour@, marked@, path@));
    }
    i = 0;
    while i < n
        invariant
            n == keys@.len(),
            ks == keys@.map_values(|s: String| s@),
            ks.len() == n,
            i <= n,
            dfs_state(g, ks, adj@, colour@, marked@, path@),
            path@.len() == 0,
            forall|k: int| 0 <= k < i ==> #[trigger] colour@[k] == 2,
        decreases n - i,
    {
        if colour[i] == 0 {
            dfs_visit(i, &adj, &mut colour, &mut marked, &mut path, Ghost(g), Ghost(ks));
        } else {
            assert(colour@[i as int] != 1) by {
                if colour@[i as int] == 1 {
                    assert(path@.contains(i));
                }
            }
        }
        i += 1;
    }
    // Complete the marks: a function that reaches itself lies on a cycle
    // even when the search closed that cycle through a finished function.
    proof {
        assert(dfs_state(g, ks, adj@, colour@, marked@, path@));
        assert forall|k: int| 0 <= k < n && #[trigger] calls_edge(g, ks[k], ks[k]) implies marked@[k] by {
            assert(adj@[k]@.contains(k as usize));
            assert(colour@[k] == 2);
        }
    }
    i = 0;
    while i < n
        invariant
            n == keys@.len(),
            ks == keys@.map_values(|s: String| s@),
            i <= n,
            marked@.len() == n,
            adj@.len() == n,
            forall|a: int, t: int| 0 <= a < adj@.len() && 0 <= t < adj@[a]@.len() ==> #[trigger] adj@[a]@[t] < n,
            forall|a: int, j: usize| 0 <= a < n && j < n && #[trigger] adj@[a]@.contains(j) ==> calls_edge(g, ks[a], ks[j as int]),
            forall|k: int| 0 <= k < n && #[trigger] marked@[k] ==> on_cycle(g, ks[k]),
            forall|k: int| 0 <= k < i && #[trigger] reaches_idx(adj@, k, k) ==> marked@[k],
            forall|k: int| 0 <= k < n && #[trigger] calls_edge(g, ks[k], ks[k]) ==> marked@[k],
        decreases n - i,
    {
        if !marked[i] {
            let reach = reach_from(&adj, i, n);
            if reach[i] {
                proof {
                    lemma_idx_cycle(g, ks, adj@, i as int);
                }
                marked.set(i, true);
            }
        }
        i += 1;
    }
    let mut r = NameSet::new();
    i = 0;
    while i < n
        invariant
            n == keys@.len(),
            ks == keys@.map_values(|s: String| s@),
            i <= n,
            marked@.len() == n,
            r.wf(),
            forall|x: Seq<char>| #[trigger] r@.contains(x) ==> exists|k: int| 0 <= k < i && marked@[k] && ks[k] == x,
            forall|k: int| 0 <= k < i && #[trigger] marked@[k] ==> r@.contains(ks[k]),
        decreases n - i,
    {
        if marked[i] {
            assert(keys@[i as int]@ == ks[i as int]);
            r.insert(keys[i].clone());
        }
        i += 1;
    }
    proof {
        assert forall|x: Seq<char>| #[trigger] r@.contains(x) implies callees@.contains_key(x) && on_cycle(callees@, x) by {
            let k = choose|k: int| 0 <= k < n && marked@[k] && ks[k] == x;
            assert(marked@[k]);
            assert(g.contains_key(ks[k]));
        }
        assert forall|x: Seq<char>| #[trigger] calls_edge(callees@, x, x) implies r@.contains(x) by {
            let e = choose|e: int| 0 <= e < callees.entries().len() && callees.entries()[e].0@ == x;
            assert(ks[e] == x);
            assert(calls_edge(g, ks[e], ks[e]));
            assert(marked@[e]);
        }
        assert forall|y: Seq<char>| #[trigger] g.contains_key(y) implies exists|k: int| 0 <= k < ks.len() && ks[k] == y by {
            let e = choose|e: int| 0 <= e < callees.entries().len() && callees.entries()[e].0@ == y;
            assert(ks[e] == y);
        }
        assert forall|x: Seq<char>| callees@.contains_key(x) && #[trigger] on_cycle(callees@, x) implies r@.contains(x) by {
            let k = lemma_cycle_idx(g, ks, adj@, x);
            assert(marked@[k]);
        }
    }
    r
}

/// No name occurs twice.
pub open spec fn distinct_names(s: Seq<Seq<char>>) -> bool {
    forall|a: int, b: int| 0 <= a < b < s.len() ==> s[a] != s[b]
}


/// An address computed modulo the 16-bit address space.
pub open spec fn wrap16(x: int) -> int {
    x % 65536
}

proof fn lemma_wrapping_step(base: int, a: u16, b: u16)
    requires
        a as int == wrap16(base),
    ensures
        (if a + b > u16::MAX { (a + b - 65536) as u16 } else { (a + b) as u16 }) as int == wrap16(base + b),
{
    vstd::arithmetic::div_mod::lemma_add_mod_noop(base, b as int, 65536);
    vstd::arithmetic::div_mod::lemma_mod_bound(base, 65536);
    assert((b as int) % 65536 == b as int);
    let s = a as int + b as int;
    if s > 65535 {
        vstd::arithmetic::div_mod::lemma_mod_add_multiples_vanish(s - 65536, 65536);
        assert((s - 65536) % 65536 == s - 65536);
    } else {
        assert(s % 65536 == s);
    }
}

/// The number of bytes a variable of the type takes in static allocation:
/// its size (modulo the address space), or 2 when it has none.
pub open spec fn slot_size(ty: CType) -> u16 {
    match ty.spec_size() {
        Some(n) => (n % 65536) as u16,
        None => 2,
    }
}

/// Byte size used for a parameter in static allocation.
pub fn param_size(ty: &CType) -> (r: u16)
    ensures
        r == slot_size(*ty),
{
    match ty.size_of() {
        Some(n) => (n % 65536) as u16,
        None => 2,
    }
}

/// Byte size used for a local variable in static allocation.
pub fn var_size(ty: &CType) -> (r: u16)
    ensures
        r == slot_size(*ty),
{
    match ty.size_of() {
        Some(n) => (n % 65536) as u16,
        None => 2,
    }
}

/// The storage label of a global, `_g_<name>`.
pub open spec fn global_label(name: Seq<char>) -> Seq<char> {
    seq!['_', 'g', '_'] + name
}

/// The storage label of a local or parameter, `_l_<function>_<name>`.
pub open spec fn local_label(func: Seq<char>, name: Seq<char>) -> Seq<char> {
    seq!['_', 'l', '_'] + func + seq!['_'] + name
}

fn make_global_label(name: &str) -> (r: String)
    ensures
        r@ == global_label(name@),
{
    proof {
        reveal_strlit("_g_");
    }
    concat2("_g_", name)
}

fn make_local_label(func: &str, name: &str) -> (r: String)
    ensures
        r@ == local_label(func@, name@),
{
    proof {
        reveal_strlit("_l_");
        reveal_strlit("_");
    }
    concat4("_l_", func, "_", name)
}

/// The total size of the first `k` globals.
pub open spec fn globals_size(gs: Seq<crate::ir::GlobalVar>, k: int) -> int
    decreases k,
{
    if k <= 0 {
        0
    } else {
        globals_size(gs, k - 1) + slot_size(gs[k - 1].ty)
    }
}

/// Distinct names get distinct global labels.
proof fn lemma_global_label_injective(a: Seq<char>, b: Seq<char>)
    requires
        a != b,
    ensures
        global_label(a) != global_label(b),
{
    let x = global_label(a);
    let y = global_label(b);
    if x == y {
        assert(a =~= x.subrange(3, x.len() as int));
        assert(b =~= y.subrange(3, y.len() as int));
    }
}

proof fn lemma_globals_step(gs: Seq<crate::ir::GlobalVar>, k: int, base: int, before: Map<Seq<char>, u16>, after: Map<Seq<char>, u16>, addr: u16)
    requires
        0 <= k < gs.len(),
        after == before.insert(global_label(gs[k].name@), addr),
        addr as int == wrap16(base + globals_size(gs, k)),
        forall|x: int| 0 <= x < k && (forall|j: int| x < j < k ==> gs[j].name@ != gs[x].name@)
            ==> before[#[trigger] global_label(gs[x].name@)] as int == wrap16(base + globals_size(gs, x)),
    ensures
        forall|x: int| 0 <= x < k + 1 && (forall|j: int| x < j < k + 1 ==> gs[j].name@ != gs[x].name@)
            ==> after[#[trigger] global_label(gs[x].name@)] as int == wrap16(base + globals_size(gs, x)),
{
    assert forall|x: int| 0 <= x < k + 1 && (forall|j: int| x < j < k + 1 ==> gs[j].name@ != gs[x].name@)
        implies after[#[trigger] global_label(gs[x].name@)] as int == wrap16(base + globals_size(gs, x)) by {
        if x < k {
            assert(gs[k].name@ != gs[x].name@);
            lemma_global_label_injective(gs[k].name@, gs[x].name@);
            assert(forall|j: int| x < j < k ==> gs[j].name@ != gs[x].name@);
        }
    }
}

proof fn lemma_globals_keys(gs: Seq<crate::ir::GlobalVar>, k: int, before: Map<Seq<char>, u16>, after: Map<Seq<char>, u16>, addr: u16)
    requires
        0 <= k < gs.len(),
        after == before.insert(global_label(gs[k].name@), addr),
        forall|l: Seq<char>| #[trigger] before.contains_key(l) <==> exists|x: int| 0 <= x < k && l == global_label(gs[x].name@),
    ensures
        forall|l: Seq<char>| #[trigger] after.contains_key(l) <==> exists|x: int| 0 <= x < k + 1 && l == global_label(gs[x].name@),
{
    assert forall|l: Seq<char>| #[trigger] after.contains_key(l) implies exists|x: int| 0 <= x < k + 1 && l == global_label(gs[x].name@) by {
        if l != global_label(gs[k].name@) {
            assert(before.contains_key(l));
        }
    }
    assert forall|l: Seq<char>| (exists|x: int| 0 <= x < k + 1 && l == global_label(gs[x].name@)) implies #[trigger] after.contains_key(l) by {
        let x = choose|x: int| 0 <= x < k + 1 && l == global_label(gs[x].name@);
        if x < k {
            assert(before.contains_key(l));
        }
    }
}

/// Lay out the globals one after another from `base` (`allocate_globals`):
/// the global at position `k` gets `base` plus the sizes of those before
/// it (a later global of the same name takes the label over); returns the
/// labels' addresses and the first free address.
pub fn allocate_globals(program: &IrProgram, base: u16) -> (r: (AssocMap<String, u16>, u16))
    ensures
        r.0.wf(),
        r.1 as int == wrap16(base + globals_size(program.globals@, program.globals@.len() as int)),
        forall|l: Seq<char>| #[trigger] r.0@.contains_key(l) <==> exists|k: int| 0 <= k < program.globals@.len()
            && l == global_label(program.globals@[k].name@),
        forall|k: int| 0 <= k < program.globals@.len()
            && (forall|j: int| k < j < program.globals@.len() ==> program.globals@[j].name@ != program.globals@[k].name@)
            ==> r.0@[#[trigger] global_label(program.globals@[k].name@)] as int == wrap16(base + globals_size(program.globals@, k)),
{
    let mut allocs: AssocMap<String, u16> = AssocMap::new();
    let mut addr: u16 = base;
    let gs = &program.globals;
    proof {
        assert(wrap16(base as int) == base as int);
    }
    let mut k: usize = 0;
    while k < gs.len()
        invariant
            k <= gs@.len(),
            allocs.wf(),
            addr as int == wrap16(base + globals_size(gs@, k as int)),
            forall|l: Seq<char>| #[trigger] allocs@.contains_key(l) <==> exists|x: int| 0 <= x < k && l == global_label(gs@[x].name@),
            forall|x: int| 0 <= x < k && (forall|j: int| x < j < k ==> gs@[j].name@ != gs@[x].name@)
                ==> allocs@[#[trigger] global_label(gs@[x].name@)] as int == wrap16(base + globals_size(gs@, x)),
        decreases gs@.len() - k,
    {
        let label = make_global_label(gs[k].name.as_str());
        let ghost old_allocs = allocs@;
        allocs.insert(label, addr);
        let size = var_size(&gs[k].ty);
        proof {
            lemma_wrapping_step(base + globals_size(gs@, k as int), addr, size);
            lemma_globals_step(gs@, k as int, base as int, old_allocs, allocs@, addr);
            lemma_globals_keys(gs@, k as int, old_allocs, allocs@, addr);
        }
        addr = addr.wrapping_add(size);
        k += 1;
    }
    (allocs, addr)
}

/// `a + b` wrapped to 16 bits.
pub open spec fn wadd(a: u16, b: u16) -> u16 {
    if a + b > u16::MAX { (a + b - 65536) as u16 } else { (a + b) as u16 }
}

/// The slots of the first `n` parameters of function `name`, laid out from
/// the map `m` and the address `a`: each parameter's label gets the current
/// address, which then advances by the parameter's size.
pub open spec fn lay_params(name: Seq<char>, ps: Seq<crate::ir::IrParam>, n: int, m: Map<Seq<char>, u16>, a: u16)
    -> (Map<Seq<char>, u16>, u16)
    decreases n,
{
    if n <= 0 {
        (m, a)
    } else {
        let (m1, a1) = lay_params(name, ps, n - 1, m, a);
        (m1.insert(local_label(name, ps[n - 1].name@), a1), wadd(a1, slot_size(ps[n - 1].ty)))
    }
}

/// The slots of the first `n` locals of function `name`, after those in
/// `m` up to address `a`: a local whose label has no slot yet gets the
/// current address, which then advances by its size.
pub open spec fn lay_locals(name: Seq<char>, ls: Seq<(String, CType, i32)>, n: int, m: Map<Seq<char>, u16>, a: u16)
    -> (Map<Seq<char>, u16>, u16)
    decreases n,
{
    if n <= 0 {
        (m, a)
    } else {
        let (m1, a1) = lay_locals(name, ls, n - 1, m, a);
        let l = local_label(name, ls[n - 1].0@);
        if m1.contains_key(l) {
            (m1, a1)
        } else {
            (m1.insert(l, a1), wadd(a1, slot_size(ls[n - 1].1)))
        }
    }
}

/// The static slots of the first `n` functions, laid out from `start`: for
/// each function not in `stack`, its parameters, then its locals.  Also
/// the address after the last slot.
pub open spec fn lay_funcs(fs: Seq<crate::ir::IrFunction>, stack: Set<Seq<char>>, n: int, start: u16)
    -> (Map<Seq<char>, u16>, u16)
    decreases n,
{
    if n <= 0 {
        (Map::empty(), start)
    } else {
        let (m, a) = lay_funcs(fs, stack, n - 1, start);
        let f = fs[n - 1];
        if stack.contains(f.name@) {
            (m, a)
        } else {
            let (m1, a1) = lay_params(f.name@, f.params@, f.params@.len() as int, m, a);
            lay_locals(f.name@, f.locals@, f.locals@.len() as int, m1, a1)
        }
    }
}

/// The address after the globals, laid out from `base`.
pub open spec fn globals_end(gs: Seq<crate::ir::GlobalVar>, base: u16) -> u16 {
    wrap16(base + globals_size(gs, gs.len() as int)) as u16
}

/// Lay out, after `start`, the parameters and then the locals of every
/// function that is not in stack mode (`allocate_locals`); a local whose
/// label is already taken is skipped.  Every label allocated is that of a
/// parameter or local of such a function, and each of them has one.
pub fn allocate_locals(program: &IrProgram, stack_mode: &NameSet, start: u16) -> (r: (AssocMap<String, u16>, u16))
    ensures
        r.0.wf(),
        forall|l: Seq<char>| #[trigger] r.0@.contains_key(l) <==> local_slot(*program, stack_mode@, l),
        (r.0@, r.1) == lay_funcs(program.functions@, stack_mode@, program.functions@.len() as int, start),
{
    let mut allocs: AssocMap<String, u16> = AssocMap::new();
    let mut addr: u16 = start;
    let mut f: usize = 0;
    while f < program.functions.len()
        invariant
            f <= program.functions@.len(),
            allocs.wf(),
            forall|l: Seq<char>| #[trigger] allocs@.contains_key(l) <==> local_slot_upto(*program, stack_mode@, l, f as int),
            (allocs@, addr) == lay_funcs(program.functions@, stack_mode@, f as int, start),
        decreases program.functions@.len() - f,
    {
        let func = &program.functions[f];
        let in_stack = stack_mode.contains(func.name.as_str());
        let ghost m0 = allocs@;
        let ghost a0 = addr;
        if !in_stack {
            let mut p: usize = 0;
            while p < func.params.len()
                invariant
                    f < program.functions@.len(),
                    *func == program.functions@[f as int],
                    !stack_mode@.contains(func.name@),
                    p <= func.params@.len(),
                    allocs.wf(),
                    forall|l: Seq<char>| #[trigger] allocs@.contains_key(l) <==> local_slot_upto(*program, stack_mode@, l, f as int)
                        || exists|x: int| 0 <= x < p && l == local_label(func.name@, func.params@[x].name@),
                    (allocs@, addr) == lay_params(func.name@, func.params@, p as int, m0, a0),
                decreases func.params@.len() - p,
            {
                let label = make_local_label(func.name.as_str(), func.params[p].name.as_str());
                allocs.insert(label, addr);
                addr = addr.wrapping_add(param_size(&func.params[p].ty));
                p += 1;
            }
            let ghost m1 = allocs@;
            let ghost a1 = addr;
            let mut v: usize = 0;
            while v < func.locals.len()
                invariant
                    f < program.functions@.len(),
                    *func == program.functions@[f as int],
                    !stack_mode@.contains(func.name@),
                    v <= func.locals@.len(),
                    allocs.wf(),
                    forall|l: Seq<char>| #[trigger] allocs@.contains_key(l) <==> local_slot_upto(*program, stack_mode@, l, f as int)
                        || (exists|x: int| 0 <= x < func.params@.len() && l == local_label(func.name@, func.params@[x].name@))
                        || (exists|x: int| 0 <= x < v && l == local_label(func.name@, func.locals@[x].0@)),
                    (allocs@, addr) == lay_locals(func.name@, func.locals@, v as int, m1, a1),
                decreases func.locals@.len() - v,
            {
                let label = make_local_label(func.name.as_str(), func.locals[v].0.as_str());
                if !allocs.contains_key(&label) {
                    allocs.insert(label, addr);
                    addr = addr.wrapping_add(var_size(&func.locals[v].1));
                }
                v += 1;
            }
        }
        proof {
            assert forall|l: Seq<char>| #[trigger] allocs@.contains_key(l) <==> local_slot_upto(*program, stack_mode@, l, f + 1) by {
                if allocs@.contains_key(l) && !local_slot_upto(*program, stack_mode@, l, f as int) {
                    assert(slot_of(program.functions@[f as int], stack_mode@, l));
                }
                if local_slot_upto(*program, stack_mode@, l, f + 1) {
                    let g = choose|g: int| 0 <= g < f + 1 && #[trigger] slot_of(program.functions@[g], stack_mode@, l);
                    if g < f {
                        assert(local_slot_upto(*program, stack_mode@, l, f as int));
                    } else {
                        assert(program.functions@[g] == *func);
                        assert(!in_stack);
                    }
                }
            }
        }
        f += 1;
    }
    (allocs, addr)
}

/// `l` is the label of a parameter or local of `func`, which is not in
/// stack mode.
pub open spec fn slot_of(func: crate::ir::IrFunction, stack: Set<Seq<char>>, l: Seq<char>) -> bool {
    &&& !stack.contains(func.name@)
    &&& (exists|x: int| 0 <= x < func.params@.len() && l == local_label(func.name@, func.params@[x].name@))
        || (exists|x: int| 0 <= x < func.locals@.len() && l == local_label(func.name@, func.locals@[x].0@))
}

/// `l` is a slot of one of the first `n` functions.
pub open spec fn local_slot_upto(program: IrProgram, stack: Set<Seq<char>>, l: Seq<char>, n: int) -> bool {
    exists|f: int| 0 <= f < n && #[trigger] slot_of(program.functions@[f], stack, l)
}

/// `l` is a slot of a function of the program.
pub open spec fn local_slot(program: IrProgram, stack: Set<Seq<char>>, l: Seq<char>) -> bool {
    local_slot_upto(program, stack, l, program.functions@.len() as int)
}

impl NameSet {
    /// A copy of the set.
    pub fn copy(&self) -> (r: NameSet)
        requires
            self.wf(),
        ensures
            r.wf(),
            r@ == self@,
            r.seq() == self.seq(),
    {
        let mut names: Vec<String> = Vec::new();
        let mut i: usize = 0;
        while i < self.names.len()
            invariant
                i <= self.names@.len(),
                names@.len() == i,
                forall|k: int| 0 <= k < i ==> (#[trigger] names@[k])@ == self.names@[k]@,
            decreases self.names@.len() - i,
        {
            names.push(self.names[i].clone());
            i += 1;
        }
        let r = NameSet { names };
        assert(r.seq() =~= self.seq());
        proof {
            r.lemma_seq();
            self.lemma_seq();
        }
        assert(r@ =~= self@);
        r
    }
}

impl CallGraphAnalysis {
    /// The analysis' maps and sets are well formed.
    pub open spec fn wf(&self) -> bool {
        &&& self.graph.callees.wf()
        &&& self.local_allocs.wf()
        &&& self.global_allocs.wf()
    }

    /// Whether the function uses the stack calling convention.
    pub fn is_stack_mode(&self, func_name: &str) -> (r: bool)
        ensures
            r == self.graph.stack_mode@.contains(func_name@),
    {
        self.graph.stack_mode.contains(func_name)
    }

    /// Whether the function lies on a cycle of calls.
    pub fn is_recursive(&self, func_name: &str) -> (r: bool)
        ensures
            r == self.graph.recursive@.contains(func_name@),
    {
        self.graph.recursive.contains(func_name)
    }

    /// The fixed address of a parameter or local of a function.
    pub fn local_addr(&self, func: &str, var: &str) -> (r: Option<u16>)
        requires
            self.wf(),
        ensures
            r == (if self.local_allocs@.contains_key(local_label(func@, var@)) {
                Some(self.local_allocs@[local_label(func@, var@)])
            } else {
                None
            }),
    {
        let label = make_local_label(func, var);
        match self.local_allocs.get(&label) {
            Some(a) => Some(*a),
            None => None,
        }
    }

    /// The fixed address of a global.
    pub fn global_addr(&self, var: &str) -> (r: Option<u16>)
        requires
            self.wf(),
        ensures
            r == (if self.global_allocs@.contains_key(global_label(var@)) {
                Some(self.global_allocs@[global_label(var@)])
            } else {
                None
            }),
    {
        let label = make_global_label(var);
        match self.global_allocs.get(&label) {
            Some(a) => Some(*a),
            None => None,
        }
    }

    /// Whether the function makes no calls.
    pub fn is_leaf(&self, func_name: &str) -> (r: bool)
        ensures
            r == self.leaf_functions@.contains(func_name@),
    {
        self.leaf_functions.contains(func_name)
    }
}

impl CallGraph {
    /// The names a defined function calls, or `None` for a name that is
    /// not defined.
    pub fn callees_of(&self, func_name: &str) -> (r: Option<&NameSet>)
        requires
            self.callees.wf(),
        ensures
            match r {
                Some(s) => self.callees@.contains_key(func_name@) && *s == self.callees@[func_name@],
                None => !self.callees@.contains_key(func_name@),
            },
    {
        let key = func_name.to_string();
        self.callees.get(&key)
    }
}

/// The defined functions that call nothing.
fn leaf_functions_of(callees: &AssocMap<String, NameSet>) -> (r: NameSet)
    requires
        callees.wf(),
    ensures
        r.wf(),
        forall|x: Seq<char>| #[trigger] r@.contains(x) <==> callees@.contains_key(x)
            && callees@[x]@ == Set::<Seq<char>>::empty(),
{
    proof {
        callees.lemma_entries();
    }
    let mut r = NameSet::new();
    let mut i: usize = 0;
    while i < callees.len()
        invariant
            callees.wf(),
            i <= callees.entries().len(),
            r.wf(),
            forall|x: Seq<char>| #[trigger] r@.contains(x) <==> exists|k: int| 0 <= k < i && callees.entries()[k].0@ == x
                && callees.entries()[k].1@ == Set::<Seq<char>>::empty(),
        decreases callees.entries().len() - i,
    {
        if callees.value_at(i).is_empty() {
            r.insert(callees.key_at(i).clone());
        }
        i += 1;
    }
    proof {
        callees.lemma_entries();
        assert forall|x: Seq<char>| #[trigger] r@.contains(x) <==> callees@.contains_key(x)
            && callees@[x]@ == Set::<Seq<char>>::empty() by {
            if callees@.contains_key(x) {
                let k = choose|k: int| 0 <= k < callees.entries().len() && callees.entries()[k].0@ == x;
                assert(callees@[callees.entries()[k].0@] == callees.entries()[k].1);
            }
            if r@.contains(x) {
                let k = choose|k: int| 0 <= k < callees.entries().len() && callees.entries()[k].0@ == x
                    && callees.entries()[k].1@ == Set::<Seq<char>>::empty();
                assert(callees@[callees.entries()[k].0@] == callees.entries()[k].1);
            }
        }
    }
    r
}

/// Analyse a program (`analyze`): its call graph, the recursive functions
/// (which use the stack), the leaf functions, and the fixed addresses of
/// the globals from `base_addr` (default [`DEFAULT_BASE_ADDR`]) followed by
/// those of the parameters and locals of the other functions.
pub fn analyze(program: &IrProgram, base_addr: Option<u16>) -> (r: CallGraphAnalysis)
    ensures
        r.wf(),
        is_call_graph(*program, r.graph.callees),
        forall|x: Seq<char>| #[trigger] r.graph.recursive@.contains(x) ==> defined(*program, x)
            && on_cycle(r.graph.callees@, x),
        forall|x: Seq<char>| #[trigger] calls_edge(r.graph.callees@, x, x) ==> r.graph.recursive@.contains(x),
        forall|x: Seq<char>| r.graph.callees@.contains_key(x) && #[trigger] on_cycle(r.graph.callees@, x)
            ==> r.graph.recursive@.contains(x),
        r.graph.stack_mode@ == r.graph.recursive@,
        forall|x: Seq<char>| #[trigger] r.leaf_functions@.contains(x) <==> defined(*program, x)
            && r.graph.callees@[x]@ == Set::<Seq<char>>::empty(),
        forall|l: Seq<char>| #[trigger] r.global_allocs@.contains_key(l) <==> exists|k: int| 0 <= k < program.globals@.len()
            && l == global_label(program.globals@[k].name@),
        forall|k: int| 0 <= k < program.globals@.len()
            && (forall|j: int| k < j < program.globals@.len() ==> program.globals@[j].name@ != program.globals@[k].name@)
            ==> r.global_allocs@[#[trigger] global_label(program.globals@[k].name@)] as int
                == wrap16(base_addr.unwrap_or(DEFAULT_BASE_ADDR) + globals_size(program.globals@, k)),
        forall|l: Seq<char>| #[trigger] r.local_allocs@.contains_key(l) <==> local_slot(*program, r.graph.stack_mode@, l),
        (r.local_allocs@, r.next_addr) == lay_funcs(program.functions@, r.graph.stack_mode@, program.functions@.len() as int,
            globals_end(program.globals@, base_addr.unwrap_or(DEFAULT_BASE_ADDR))),
        program.globals@.len() == 0 && program.functions@.len() == 0 ==> r.next_addr == base_addr.unwrap_or(DEFAULT_BASE_ADDR),
{
    let base = match base_addr {
        Some(b) => b,
        None => DEFAULT_BASE_ADDR,
    };
    let callees = build_callees(program);
    let recursive = detect_recursion(&callees);
    let stack_mode = recursive.copy();
    let leaf_functions = leaf_functions_of(&callees);
    let (global_allocs, after_globals) = allocate_globals(program, base);
    let (local_allocs, next_addr) = allocate_locals(program, &stack_mode, after_globals);
    proof {
        if program.globals@.len() == 0 {
            assert(globals_size(program.globals@, 0) == 0);
            assert(wrap16(base as int) == base as int);
        }
        assert(after_globals == globals_end(program.globals@, base));
    }
    let r = CallGraphAnalysis {
        graph: CallGraph { callees, recursive, stack_mode },
        local_allocs,
        global_allocs,
        next_addr,
        leaf_functions,
    };
    r
}

/// The bytes of the first `n` parameters.
pub open spec fn psum(ps: Seq<crate::ir::IrParam>, n: int) -> int
    decreases n,
{
    if n <= 0 {
        0
    } else {
        psum(ps, n - 1) + slot_size(ps[n - 1].ty)
    }
}

/// The bytes of the first `n` locals.
pub open spec fn lsum(ls: Seq<(String, CType, i32)>, n: int) -> int
    decreases n,
{
    if n <= 0 {
        0
    } else {
        lsum(ls, n - 1) + slot_size(ls[n - 1].1)
    }
}

/// The number of static slots a function declares: its parameters, then
/// its locals.
pub open spec fn slot_count(f: crate::ir::IrFunction) -> int {
    (f.params@.len() + f.locals@.len()) as int
}

/// The label of the `k`-th slot of `f`.
pub open spec fn slot_label(f: crate::ir::IrFunction, k: int) -> Seq<char> {
    if k < f.params@.len() {
        local_label(f.name@, f.params@[k].name@)
    } else {
        local_label(f.name@, f.locals@[k - f.params@.len()].0@)
    }
}

/// The size of the `k`-th slot of `f`.
pub open spec fn slot_bytes(f: crate::ir::IrFunction, k: int) -> int {
    if k < f.params@.len() {
        slot_size(f.params@[k].ty) as int
    } else {
        slot_size(f.locals@[k - f.params@.len()].1) as int
    }
}

/// The bytes of the slots of `f` before its `k`-th.
pub open spec fn slot_offset(f: crate::ir::IrFunction, k: int) -> int {
    if k <= f.params@.len() {
        psum(f.params@, k)
    } else {
        psum(f.params@, f.params@.len() as int) + lsum(f.locals@, k - f.params@.len())
    }
}

/// The `k`-th slot of the `i`-th function exists and is static.
pub open spec fn is_slot(fs: Seq<crate::ir::IrFunction>, stack: Set<Seq<char>>, i: int, k: int) -> bool {
    0 <= i < fs.len() && !stack.contains(fs[i].name@) && 0 <= k < slot_count(fs[i])
}

/// The bytes of the static slots of the first `n` functions.
pub open spec fn static_total(fs: Seq<crate::ir::IrFunction>, stack: Set<Seq<char>>, n: int) -> int
    decreases n,
{
    if n <= 0 {
        0
    } else {
        static_total(fs, stack, n - 1) + if stack.contains(fs[n - 1].name@) {
            0
        } else {
            slot_offset(fs[n - 1], slot_count(fs[n - 1]))
        }
    }
}

/// No two static slots share a label.
pub open spec fn slot_labels_distinct(fs: Seq<crate::ir::IrFunction>, stack: Set<Seq<char>>) -> bool {
    forall|i1: int, k1: int, i2: int, k2: int| is_slot(fs, stack, i1, k1) && is_slot(fs, stack, i2, k2)
        && (i1 != i2 || k1 != k2) ==> #[trigger] slot_label(fs[i1], k1) != #[trigger] slot_label(fs[i2], k2)
}

proof fn lemma_psum_mono(ps: Seq<crate::ir::IrParam>, j: int, n: int)
    requires
        j <= n,
    ensures
        psum(ps, j) <= psum(ps, n),
        0 <= psum(ps, n),
    decreases n,
{
    if n > 0 {
        if j < n {
            lemma_psum_mono(ps, j, n - 1);
        } else {
            lemma_psum_mono(ps, n - 1, n - 1);
        }
    }
}

proof fn lemma_lsum_mono(ls: Seq<(String, CType, i32)>, j: int, n: int)
    requires
        j <= n,
    ensures
        lsum(ls, j) <= lsum(ls, n),
        0 <= lsum(ls, n),
    decreases n,
{
    if n > 0 {
        if j < n {
            lemma_lsum_mono(ls, j, n - 1);
        } else {
            lemma_lsum_mono(ls, n - 1, n - 1);
        }
    }
}

proof fn lemma_total_mono(fs: Seq<crate::ir::IrFunction>, stack: Set<Seq<char>>, j: int, n: int)
    requires
        0 <= j <= n,
    ensures
        static_total(fs, stack, j) <= static_total(fs, stack, n),
    decreases n,
{
    if n > j {
        lemma_total_mono(fs, stack, j, n - 1);
        let f = fs[n - 1];
        lemma_psum_mono(f.params@, 0, f.params@.len() as int);
        lemma_lsum_mono(f.locals@, 0, f.locals@.len() as int);
    }
}

proof fn lemma_lay_params(name: Seq<char>, ps: Seq<crate::ir::IrParam>, n: int, m: Map<Seq<char>, u16>, a: u16)
    requires
        0 <= n <= ps.len(),
        a + psum(ps, n) <= 0xffff,
        forall|j1: int, j2: int| 0 <= j1 < j2 < n ==> local_label(name, ps[j1].name@) != local_label(name, ps[j2].name@),
    ensures
        lay_params(name, ps, n, m, a).1 == a + psum(ps, n),
        forall|l: Seq<char>| #[trigger] lay_params(name, ps, n, m, a).0.contains_key(l) <==> m.contains_key(l)
            || exists|j: int| 0 <= j < n && local_label(name, ps[j].name@) == l,
        forall|j: int| 0 <= j < n ==> lay_params(name, ps, n, m, a).0[#[trigger] local_label(name, ps[j].name@)] == a + psum(ps, j),
        forall|l: Seq<char>| m.contains_key(l) && (forall|j: int| 0 <= j < n ==> local_label(name, ps[j].name@) != l)
            ==> #[trigger] lay_params(name, ps, n, m, a).0[l] == m[l],
    decreases n,
{
    if n > 0 {
        lemma_psum_mono(ps, n - 1, n);
        lemma_lay_params(name, ps, n - 1, m, a);
        let (m1, a1) = lay_params(name, ps, n - 1, m, a);
        let l = local_label(name, ps[n - 1].name@);
        assert(a1 + slot_size(ps[n - 1].ty) <= 0xffff);
        let r = lay_params(name, ps, n, m, a).0;
        assert(r == m1.insert(l, a1));
        assert forall|x: Seq<char>| #[trigger] r.contains_key(x) <==> m.contains_key(x)
            || exists|j: int| 0 <= j < n && local_label(name, ps[j].name@) == x by {
            if exists|j: int| 0 <= j < n && local_label(name, ps[j].name@) == x {
                let j = choose|j: int| 0 <= j < n && local_label(name, ps[j].name@) == x;
                if j < n - 1 {
                    assert(m1.contains_key(x));
                }
            }
            if m1.contains_key(x) && !m.contains_key(x) {
                let j = choose|j: int| 0 <= j < n - 1 && local_label(name, ps[j].name@) == x;
                assert(0 <= j < n);
            }
        }
        assert forall|j: int| 0 <= j < n implies r[#[trigger] local_label(name, ps[j].name@)] == a + psum(ps, j) by {
            if j < n - 1 {
                assert(local_label(name, ps[j].name@) != l);
            }
        }
    }
}

proof fn lemma_lay_locals(name: Seq<char>, ls: Seq<(String, CType, i32)>, n: int, m: Map<Seq<char>, u16>, a: u16)
    requires
        0 <= n <= ls.len(),
        a + lsum(ls, n) <= 0xffff,
        forall|j1: int, j2: int| 0 <= j1 < j2 < n ==> local_label(name, ls[j1].0@) != local_label(name, ls[j2].0@),
        forall|j: int| 0 <= j < n ==> !m.contains_key(#[trigger] local_label(name, ls[j].0@)),
    ensures
        lay_locals(name, ls, n, m, a).1 == a + lsum(ls, n),
        forall|l: Seq<char>| #[trigger] lay_locals(name, ls, n, m, a).0.contains_key(l) <==> m.contains_key(l)
            || exists|j: int| 0 <= j < n && local_label(name, ls[j].0@) == l,
        forall|j: int| 0 <= j < n ==> lay_locals(name, ls, n, m, a).0[#[trigger] local_label(name, ls[j].0@)] == a + lsum(ls, j),
        forall|l: Seq<char>| m.contains_key(l) ==> #[trigger] lay_locals(name, ls, n, m, a).0[l] == m[l],
    decreases n,
{
    if n > 0 {
        lemma_lsum_mono(ls, n - 1, n);
        lemma_lay_locals(name, ls, n - 1, m, a);
        let (m1, a1) = lay_locals(name, ls, n - 1, m, a);
        let l = local_label(name, ls[n - 1].0@);
        assert(!m1.contains_key(l)) by {
            if m1.contains_key(l) {
                if !m.contains_key(l) {
                    let j = choose|j: int| 0 <= j < n - 1 && local_label(name, ls[j].0@) == l;
                }
            }
        }
        assert(a1 + slot_size(ls[n - 1].1) <= 0xffff);
        let r = lay_locals(name, ls, n, m, a).0;
        assert(r == m1.insert(l, a1));
        assert forall|x: Seq<char>| #[trigger] r.contains_key(x) <==> m.contains_key(x)
            || exists|j: int| 0 <= j < n && local_label(name, ls[j].0@) == x by {
            if exists|j: int| 0 <= j < n && local_label(name, ls[j].0@) == x {
                let j = choose|j: int| 0 <= j < n && local_label(name, ls[j].0@) == x;
                if j < n - 1 {
                    assert(m1.contains_key(x));
                }
            }
            if m1.contains_key(x) && !m.contains_key(x) {
                let j = choose|j: int| 0 <= j < n - 1 && local_label(name, ls[j].0@) == x;
                assert(0 <= j < n);
            }
        }
        assert forall|j: int| 0 <= j < n implies r[#[trigger] local_label(name, ls[j].0@)] == a + lsum(ls, j) by {
            if j < n - 1 {
                assert(local_label(name, ls[j].0@) != l);
            }
        }
        assert forall|x: Seq<char>| m.contains_key(x) implies #[trigger] r[x] == m[x] by {
            assert(x != l);
        }
    }
}

proof fn lemma_offset_step(f: crate::ir::IrFunction, k: int)
    requires
        0 <= k < slot_count(f),
    ensures
        slot_offset(f, k + 1) == slot_offset(f, k) + slot_bytes(f, k),
        0 <= slot_bytes(f, k),
{
}

proof fn lemma_offset_mono(f: crate::ir::IrFunction, j: int, k: int)
    requires
        0 <= j <= k <= slot_count(f),
    ensures
        slot_offset(f, j) <= slot_offset(f, k),
        0 <= slot_offset(f, j),
    decreases k,
{
    if k > j {
        lemma_offset_mono(f, j, k - 1);
        lemma_offset_step(f, k - 1);
    } else {
        if k <= f.params@.len() {
            lemma_psum_mono(f.params@, 0, k);
        } else {
            lemma_psum_mono(f.params@, 0, f.params@.len() as int);
            lemma_lsum_mono(f.locals@, 0, k - f.params@.len());
        }
    }
}

proof fn lemma_lay_funcs(fs: Seq<crate::ir::IrFunction>, stack: Set<Seq<char>>, n: int, start: u16)
    requires
        0 <= n <= fs.len(),
        slot_labels_distinct(fs, stack),
        start + static_total(fs, stack, fs.len() as int) <= 0xffff,
    ensures
        lay_funcs(fs, stack, n, start).1 == start + static_total(fs, stack, n),
        forall|i: int, k: int| i < n && #[trigger] is_slot(fs, stack, i, k) ==>
            lay_funcs(fs, stack, n, start).0.contains_key(slot_label(fs[i], k))
            && lay_funcs(fs, stack, n, start).0[slot_label(fs[i], k)] == start + static_total(fs, stack, i) + slot_offset(fs[i], k),
        forall|l: Seq<char>| #[trigger] lay_funcs(fs, stack, n, start).0.contains_key(l) ==>
            exists|i: int, k: int| i < n && is_slot(fs, stack, i, k) && slot_label(fs[i], k) == l,
    decreases n,
{
    if n > 0 {
        lemma_lay_funcs(fs, stack, n - 1, start);
        lemma_total_mono(fs, stack, n, fs.len() as int);
        let (m, a) = lay_funcs(fs, stack, n - 1, start);
        let f = fs[n - 1];
        if !stack.contains(f.name@) {
            let pl = f.params@.len() as int;
            let ll = f.locals@.len() as int;
            lemma_offset_mono(f, pl, slot_count(f));
            lemma_offset_mono(f, 0, pl);
            assert(slot_offset(f, slot_count(f)) == psum(f.params@, pl) + lsum(f.locals@, ll));
            assert(slot_offset(f, pl) == psum(f.params@, pl));
            assert forall|j1: int, j2: int| 0 <= j1 < j2 < pl implies local_label(f.name@, f.params@[j1].name@)
                != local_label(f.name@, f.params@[j2].name@) by {
                assert(is_slot(fs, stack, n - 1, j1) && is_slot(fs, stack, n - 1, j2));
                assert(slot_label(fs[n - 1], j1) != slot_label(fs[n - 1], j2));
            }
            lemma_lay_params(f.name@, f.params@, pl, m, a);
            let (m1, a1) = lay_params(f.name@, f.params@, pl, m, a);
            assert forall|j1: int, j2: int| 0 <= j1 < j2 < ll implies local_label(f.name@, f.locals@[j1].0@)
                != local_label(f.name@, f.locals@[j2].0@) by {
                assert(is_slot(fs, stack, n - 1, pl + j1) && is_slot(fs, stack, n - 1, pl + j2));
                assert(slot_label(fs[n - 1], pl + j1) != slot_label(fs[n - 1], pl + j2));
            }
            assert forall|j: int| 0 <= j < ll implies !m1.contains_key(#[trigger] local_label(f.name@, f.locals@[j].0@)) by {
                let l = local_label(f.name@, f.locals@[j].0@);
                assert(slot_label(fs[n - 1], pl + j) == l);
                assert(is_slot(fs, stack, n - 1, pl + j));
                if m.contains_key(l) {
                    let (i, k) = choose|i: int, k: int| i < n - 1 && is_slot(fs, stack, i, k) && slot_label(fs[i], k) == l;
                    assert(slot_label(fs[i], k) != slot_label(fs[n - 1], pl + j));
                }
                if exists|q: int| 0 <= q < pl && local_label(f.name@, f.params@[q].name@) == l {
                    let q = choose|q: int| 0 <= q < pl && local_label(f.name@, f.params@[q].name@) == l;
                    assert(is_slot(fs, stack, n - 1, q));
                    assert(slot_label(fs[n - 1], q) != slot_label(fs[n - 1], pl + j));
                }
            }
            lemma_lay_locals(f.name@, f.locals@, ll, m1, a1);
            let r = lay_funcs(fs, stack, n, start).0;
            assert(lay_funcs(fs, stack, n, start) == lay_locals(f.name@, f.locals@, ll, m1, a1));
            assert forall|i: int, k: int| i < n && #[trigger] is_slot(fs, stack, i, k) implies
                r.contains_key(slot_label(fs[i], k))
                && r[slot_label(fs[i], k)] == start + static_total(fs, stack, i) + slot_offset(fs[i], k) by {
                let l = slot_label(fs[i], k);
                if i < n - 1 {
                    assert(m.contains_key(l));
                    assert forall|q: int| 0 <= q < pl implies local_label(f.name@, f.params@[q].name@) != l by {
                        assert(is_slot(fs, stack, n - 1, q));
                        assert(slot_label(fs[n - 1], q) != slot_label(fs[i], k));
                    }
                    assert(m1[l] == m[l]);
                    assert(m1.contains_key(l));
                } else if k < pl {
                    assert(l == local_label(f.name@, f.params@[k].name@));
                    assert(m1.contains_key(l));
                } else {
                    assert(l == local_label(f.name@, f.locals@[k - pl].0@));
                }
            }
            assert forall|l: Seq<char>| #[trigger] r.contains_key(l) implies
                exists|i: int, k: int| i < n && is_slot(fs, stack, i, k) && slot_label(fs[i], k) == l by {
                if m.contains_key(l) {
                    let (i, k) = choose|i: int, k: int| i < n - 1 && is_slot(fs, stack, i, k) && slot_label(fs[i], k) == l;
                    assert(i < n && is_slot(fs, stack, i, k) && slot_label(fs[i], k) == l);
                } else if m1.contains_key(l) {
                    let q = choose|q: int| 0 <= q < pl && local_label(f.name@, f.params@[q].name@) == l;
                    assert(is_slot(fs, stack, n - 1, q) && slot_label(fs[n - 1], q) == l);
                } else {
                    let j = choose|j: int| 0 <= j < ll && local_label(f.name@, f.locals@[j].0@) == l;
                    assert(is_slot(fs, stack, n - 1, pl + j) && slot_label(fs[n - 1], pl + j) == l);
                }
            }
        } else {
            assert forall|i: int, k: int| i < n && #[trigger] is_slot(fs, stack, i, k) implies i < n - 1 by {}
            let r = lay_funcs(fs, stack, n, start).0;
            assert forall|l: Seq<char>| #[trigger] r.contains_key(l) implies
                exists|i: int, k: int| i < n && is_slot(fs, stack, i, k) && slot_label(fs[i], k) == l by {
                let (i, k) = choose|i: int, k: int| i < n - 1 && is_slot(fs, stack, i, k) && slot_label(fs[i], k) == l;
                assert(i < n && is_slot(fs, stack, i, k) && slot_label(fs[i], k) == l);
            }
        }
    }
}

proof fn lemma_slot_before(fs: Seq<crate::ir::IrFunction>, stack: Set<Seq<char>>, i1: int, k1: int, i2: int, k2: int)
    requires
        is_slot(fs, stack, i1, k1),
        is_slot(fs, stack, i2, k2),
        i1 < i2 || (i1 == i2 && k1 < k2),
    ensures
        static_total(fs, stack, i1) + slot_offset(fs[i1], k1) + slot_bytes(fs[i1], k1)
            <= static_total(fs, stack, i2) + slot_offset(fs[i2], k2),
{
    lemma_offset_step(fs[i1], k1);
    lemma_offset_mono(fs[i2], 0, k2);
    if i1 == i2 {
        lemma_offset_mono(fs[i1], k1 + 1, k2);
    } else {
        lemma_offset_mono(fs[i1], k1 + 1, slot_count(fs[i1]));
        assert(static_total(fs, stack, i1 + 1) == static_total(fs, stack, i1) + slot_offset(fs[i1], slot_count(fs[i1])));
        lemma_total_mono(fs, stack, i1 + 1, i2);
    }
}

/// The static slots of distinct parameters and locals never overlap: where
/// every static slot has a label of its own and the slots fit below the top
/// of memory, the slot of each lies at or after `start` and ends by the
/// address after the last one, which is `start` plus their total size, and
/// any two of them occupy disjoint address ranges.
pub proof fn law_static_slots_disjoint(fs: Seq<crate::ir::IrFunction>, stack: Set<Seq<char>>, start: u16,
    i1: int, k1: int, i2: int, k2: int)
    requires
        slot_labels_distinct(fs, stack),
        start + static_total(fs, stack, fs.len() as int) <= 0xffff,
        is_slot(fs, stack, i1, k1),
        is_slot(fs, stack, i2, k2),
        i1 != i2 || k1 != k2,
    ensures
        ({
            let (m, next) = lay_funcs(fs, stack, fs.len() as int, start);
            let l1 = slot_label(fs[i1], k1);
            let l2 = slot_label(fs[i2], k2);
            &&& m.contains_key(l1) && m.contains_key(l2)
            &&& start <= m[l1]
            &&& m[l1] + slot_bytes(fs[i1], k1) <= next
            &&& next == start + static_total(fs, stack, fs.len() as int)
            &&& m[l1] + slot_bytes(fs[i1], k1) <= m[l2] || m[l2] + slot_bytes(fs[i2], k2) <= m[l1]
        }),
{
    let n = fs.len() as int;
    lemma_lay_funcs(fs, stack, n, start);
    assert(is_slot(fs, stack, i1, k1) && is_slot(fs, stack, i2, k2));
    lemma_offset_mono(fs[i1], 0, k1);
    lemma_total_mono(fs, stack, 0, i1);
    lemma_offset_step(fs[i1], k1);
    lemma_offset_mono(fs[i1], k1 + 1, slot_count(fs[i1]));
    assert(static_total(fs, stack, i1 + 1) == static_total(fs, stack, i1) + slot_offset(fs[i1], slot_count(fs[i1])));
    lemma_total_mono(fs, stack, i1 + 1, n);
    if i1 < i2 || (i1 == i2 && k1 < k2) {
        lemma_slot_before(fs, stack, i1, k1, i2, k2);
    } else {
        lemma_slot_before(fs, stack, i2, k2, i1, k1);
    }
}

} // verus!
