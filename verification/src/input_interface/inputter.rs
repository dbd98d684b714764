//! Key sequences to commands: a trie of input nodes per mode, walked byte
//! by byte as input arrives.
use vstd::prelude::*;

use std::collections::HashMap;

verus! {

broadcast use vstd::std_specs::hash::group_hash_axioms;

/// A command and its arguments, as text.
pub type HookView = (Seq<char>, Seq<Seq<char>>);

/// A node of the trie: its edges by input byte, and the command it ends, if
/// any.
pub type NodeView = (Map<u8, usize>, Option<HookView>);

pub struct InputNode {
    node_map: HashMap<u8, usize>,
    hook: Option<(String, Vec<String>)>,
}

/// The texts of a list of strings.
pub open spec fn texts(v: Seq<String>) -> Seq<Seq<char>> {
    v.map_values(|s: String| s@)
}

/// The texts of a list of string slices.
pub open spec fn str_texts(v: Seq<&str>) -> Seq<Seq<char>> {
    v.map_values(|s: &str| s@)
}

impl View for InputNode {
    type V = NodeView;

    closed spec fn view(&self) -> NodeView {
        (
            self.node_map@,
            match self.hook {
                Some(h) => Some((h.0@, texts(h.1@))),
                None => None,
            },
        )
    }
}

/// A copy of a list of strings.
pub(crate) fn copy_strings(v: &Vec<String>) -> (r: Vec<String>)
    ensures
        texts(r@) == texts(v@),
{
    let mut out: Vec<String> = Vec::new();
    let mut i: usize = 0;
    while i < v.len()
        invariant
            i <= v@.len(),
            texts(out@) =~= texts(v@.subrange(0, i as int)),
        decreases v@.len() - i,
    {
        let ghost before = out@;
        out.push(v[i].clone());
        proof {
            assert(out@ == before.push(v@[i as int]));
            assert(texts(out@) =~= texts(before).push(v@[i as int]@));
            assert(v@.subrange(0, i + 1) =~= v@.subrange(0, i as int).push(v@[i as int]));
            assert(texts(v@.subrange(0, i + 1)) =~= texts(v@.subrange(0, i as int)).push(v@[i as int]@));
        }
        i += 1;
    }
    proof {
        assert(v@.subrange(0, v@.len() as int) =~= v@);
    }
    out
}

impl InputNode {
    pub fn new() -> (r: InputNode)
        ensures
            r@ == (Map::<u8, usize>::empty(), None::<HookView>),
    {
        InputNode { node_map: HashMap::new(), hook: None }
    }

    /// The node the edge for `byte` leads to.
    pub fn get_next(&self, byte: u8) -> (r: Option<usize>)
        ensures
            r == if self@.0.contains_key(byte) {
                Some(self@.0[byte])
            } else {
                None::<usize>
            },
    {
        match self.node_map.get(&byte) {
            Some(index) => Some(*index),
            None => None,
        }
    }

    /// Makes this node end the command `hook` with arguments `args`.
    pub fn assign_hook(&mut self, hook: &str, args: &[&str])
        ensures
            final(self)@ == (old(self)@.0, Some((hook@, str_texts(args@)))),
    {
        let mut argsvec: Vec<String> = Vec::new();
        let mut i: usize = 0;
        while i < args.len()
            invariant
                i <= args@.len(),
                texts(argsvec@) =~= str_texts(args@.subrange(0, i as int)),
            decreases args@.len() - i,
        {
            let ghost before = argsvec@;
            argsvec.push(args[i].to_owned());
            proof {
                assert(texts(argsvec@) =~= texts(before).push(args@[i as int]@));
                assert(args@.subrange(0, i + 1) =~= args@.subrange(0, i as int).push(args@[i as int]));
                assert(str_texts(args@.subrange(0, i + 1)) =~= str_texts(args@.subrange(0, i as int)).push(
                    args@[i as int]@,
                ));
            }
            i += 1;
        }
        proof {
            assert(args@.subrange(0, args@.len() as int) =~= args@);
        }
        self.hook = Some((hook.to_owned(), argsvec));
    }

    /// The command this node ends, if any.
    pub fn get_hook(&self) -> (r: Option<(String, Vec<String>)>)
        ensures
            match r {
                Some(h) => self@.1 == Some((h.0@, texts(h.1@))),
                None => self@.1 is None,
            },
    {
        match &self.hook {
            Some((funcref, argsvec)) => Some((funcref.clone(), copy_strings(argsvec))),
            None => None,
        }
    }

    /// Adds (or moves) the edge for `byte` to lead to `node_id`.
    pub fn link_byte(&mut self, byte: u8, node_id: usize)
        ensures
            final(self)@ == (old(self)@.0.insert(byte, node_id), old(self)@.1),
    {
        self.node_map.insert(byte, node_id);
    }
}


/// The root node of mode `name`, if it has one (the first entry, scanning
/// from `i`).
pub open spec fn root_from(roots: Seq<(Seq<char>, usize)>, name: Seq<char>, i: nat) -> Option<usize>
    decreases roots.len() - i,
{
    if i >= roots.len() {
        None
    } else if roots[i as int].0 == name {
        Some(roots[i as int].1)
    } else {
        root_from(roots, name, i + 1)
    }
}

pub open spec fn root_of(roots: Seq<(Seq<char>, usize)>, name: Seq<char>) -> Option<usize> {
    root_from(roots, name, 0)
}

/// Every edge leads to a node of the trie.
pub open spec fn edges_inside(nodes: Seq<NodeView>) -> bool {
    forall|i: int, b: u8|
        0 <= i < nodes.len() && #[trigger] nodes[i].0.contains_key(b) ==> nodes[i].0[b] < nodes.len()
}

pub open spec fn empty_node() -> NodeView {
    (Map::<u8, usize>::empty(), None::<HookView>)
}

/// The trie with mode `name` given a root: as it is if the mode has one,
/// else with a new empty node as its root. Gives nodes, roots and the root.
pub open spec fn with_mode(nodes: Seq<NodeView>, roots: Seq<(Seq<char>, usize)>, name: Seq<char>) -> (
    Seq<NodeView>,
    Seq<(Seq<char>, usize)>,
    usize,
) {
    match root_of(roots, name) {
        Some(r) => (nodes, roots, r),
        None => (nodes.push(empty_node()), roots.push((name, nodes.len() as usize)), nodes.len() as usize),
    }
}

/// The trie with the path for `bytes` from node `cur` completed: edges
/// that exist are followed, missing ones lead to new empty nodes. Gives the
/// nodes and the node the path ends at.
pub open spec fn extend_path(nodes: Seq<NodeView>, cur: usize, bytes: Seq<u8>) -> (Seq<NodeView>, usize)
    decreases bytes.len(),
{
    if bytes.len() == 0 {
        (nodes, cur)
    } else {
        let b = bytes[0];
        if nodes[cur as int].0.contains_key(b) {
            extend_path(nodes, nodes[cur as int].0[b], bytes.drop_first())
        } else {
            let id = nodes.len() as usize;
            let grown = nodes.update(cur as int, (nodes[cur as int].0.insert(b, id), nodes[cur as int].1)).push(
                empty_node(),
            );
            extend_path(grown, id, bytes.drop_first())
        }
    }
}

/// Where following the edges for `bytes` from node `cur` leads.
pub open spec fn follow(nodes: Seq<NodeView>, cur: usize, bytes: Seq<u8>) -> Option<usize>
    decreases bytes.len(),
{
    if bytes.len() == 0 {
        Some(cur)
    } else if nodes[cur as int].0.contains_key(bytes[0]) {
        follow(nodes, nodes[cur as int].0[bytes[0]], bytes.drop_first())
    } else {
        None
    }
}

/// A node is ready to give its command when it has one and the next
/// buffered byte does not continue a longer path.
pub open spec fn hook_ready(node: NodeView, buffer: Seq<u8>) -> bool {
    node.1 is Some && !(buffer.len() > 0 && node.0.contains_key(buffer[0]))
}

/// The buffer and active node once buffered bytes have been read until a
/// node is ready to give its command or the buffer is empty; a byte with no
/// edge returns to `home`, the context's root.
pub open spec fn drain(nodes: Seq<NodeView>, home: usize, buffer: Seq<u8>, active: usize) -> (Seq<u8>, usize)
    decreases buffer.len(),
{
    if buffer.len() == 0 || hook_ready(nodes[active as int], buffer) {
        (buffer, active)
    } else {
        let b = buffer[0];
        let next = if nodes[active as int].0.contains_key(b) {
            nodes[active as int].0[b]
        } else {
            home
        };
        drain(nodes, home, buffer.drop_first(), next)
    }
}

pub struct Inputter {
    context: String,
    killed: bool,
    input_nodes: Vec<InputNode>,
    active_node: usize,
    mode_roots: Vec<(String, usize)>,
    input_buffer: Vec<u8>,
}

impl Inputter {
    pub closed spec fn nodes(&self) -> Seq<NodeView> {
        self.input_nodes@.map_values(|n: InputNode| n@)
    }

    pub closed spec fn roots(&self) -> Seq<(Seq<char>, usize)> {
        self.mode_roots@.map_values(|r: (String, usize)| (r.0@, r.1))
    }

    pub closed spec fn context(&self) -> Seq<char> {
        self.context@
    }

    pub closed spec fn active(&self) -> usize {
        self.active_node
    }

    pub closed spec fn buffer(&self) -> Seq<u8> {
        self.input_buffer@
    }

    pub closed spec fn alive(&self) -> bool {
        !self.killed
    }

    /// Trie, roots, context, active node, buffer and liveness are as in
    /// `other`.
    pub open spec fn same_view(&self, other: &Inputter) -> bool {
        &&& self.nodes() == other.nodes()
        &&& self.roots() == other.roots()
        &&& self.context() == other.context()
        &&& self.active() == other.active()
        &&& self.buffer() == other.buffer()
        &&& self.alive() == other.alive()
    }

    /// `after` is `self` once `fetch_hook` has run and returned `r`: the
    /// buffered bytes are read (`drain`) until a node is ready to give its
    /// command; that command is returned and the walk goes back to the
    /// context's root, or, with no command there, nothing is returned and
    /// the walk stays where it got to.
    pub open spec fn fetched_as(&self, after: &Inputter, r: Option<(String, Vec<String>)>) -> bool {
        let d = drain(self.nodes(), self.home(), self.buffer(), self.active());
        &&& after.nodes() == self.nodes()
        &&& after.roots() == self.roots()
        &&& after.context() == self.context()
        &&& after.alive() == self.alive()
        &&& after.buffer() == d.0
        &&& match self.nodes()[d.1 as int].1 {
            Some(h) => r matches Some(x) && (x.0@, texts(x.1@)) == h && after.active() == self.home(),
            None => r is None && after.active() == d.1,
        }
    }

    /// The root of the active context.
    pub open spec fn home(&self) -> usize {
        root_of(self.roots(), self.context())->Some_0
    }

    /// The trie's edges and roots stay inside it, modes have one root each,
    /// and the active context has a root.
    pub open spec fn wf(&self) -> bool {
        &&& self.trie_wf()
        &&& self.active() < self.nodes().len()
        &&& root_of(self.roots(), self.context()) is Some
    }

    /// The trie's edges and roots stay inside it.
    pub open spec fn trie_wf(&self) -> bool {
        &&& edges_inside(self.nodes())
        &&& forall|i: int| 0 <= i < self.roots().len() ==> #[trigger] self.roots()[i].1 < self.nodes().len()
    }

    proof fn lemma_root_from_bound(roots: Seq<(Seq<char>, usize)>, name: Seq<char>, i: nat, n: nat)
        requires
            forall|k: int| 0 <= k < roots.len() ==> #[trigger] roots[k].1 < n,
        ensures
            root_from(roots, name, i) matches Some(r) ==> r < n,
        decreases roots.len() - i,
    {
        if i < roots.len() && roots[i as int].0 != name {
            Self::lemma_root_from_bound(roots, name, i + 1, n);
        }
    }

    proof fn lemma_root_from_push(
        roots: Seq<(Seq<char>, usize)>,
        name: Seq<char>,
        entry: (Seq<char>, usize),
        i: nat,
    )
        requires
            root_from(roots, name, i) is Some,
            i <= roots.len(),
        ensures
            root_from(roots.push(entry), name, i) == root_from(roots, name, i),
        decreases roots.len() - i,
    {
        if i < roots.len() && roots[i as int].0 != name {
            Self::lemma_root_from_push(roots, name, entry, i + 1);
        }
    }

    proof fn lemma_root_from_new(roots: Seq<(Seq<char>, usize)>, name: Seq<char>, r: usize, i: nat)
        requires
            root_from(roots, name, i) is None,
            i <= roots.len(),
        ensures
            root_from(roots.push((name, r)), name, i) == Some(r),
        decreases roots.len() - i,
    {
        if i < roots.len() {
            Self::lemma_root_from_new(roots, name, r, i + 1);
        }
    }

    /// The root node of mode `mode`, made (as a new empty node) if the
    /// mode has none yet.
    fn get_mode_root(&mut self, mode: &str) -> (r: usize)
        requires
            edges_inside(old(self).nodes()),
            forall|i: int| 0 <= i < old(self).roots().len() ==> #[trigger] old(self).roots()[i].1 < old(self).nodes().len(),
        ensures
            ({
                let m = with_mode(old(self).nodes(), old(self).roots(), mode@);
                &&& final(self).nodes() == m.0
                &&& final(self).roots() == m.1
                &&& r == m.2
            }),
            r < final(self).nodes().len(),
            edges_inside(final(self).nodes()),
            old(self).active() < old(self).nodes().len() ==> final(self).active() < final(self).nodes().len(),
            final(self).nodes().len() >= old(self).nodes().len(),
            forall|i: int| 0 <= i < final(self).roots().len() ==> #[trigger] final(self).roots()[i].1 < final(self).nodes().len(),
            final(self).context() == old(self).context(),
            final(self).active() == old(self).active(),
            final(self).buffer() == old(self).buffer(),
            final(self).alive() == old(self).alive(),
            root_of(old(self).roots(), old(self).context()) is Some ==> root_of(final(self).roots(), final(self).context())
                == root_of(old(self).roots(), old(self).context()),
    {
        let name = mode.to_owned();
        let ghost roots0 = self.roots();
        let mut i: usize = 0;
        while i < self.mode_roots.len()
            invariant
                i <= self.mode_roots@.len(),
                *self == *old(self),
                edges_inside(self.nodes()),
                forall|k: int| 0 <= k < self.roots().len() ==> #[trigger] self.roots()[k].1 < self.nodes().len(),
                self.roots() == roots0,
                name@ == mode@,
                root_from(roots0, mode@, i as nat) == root_from(roots0, mode@, 0),
            decreases self.mode_roots@.len() - i,
        {
            proof {
                assert(self.roots()[i as int] == (self.mode_roots@[i as int].0@, self.mode_roots@[i as int].1));
            }
            if self.mode_roots[i].0 == name {
                let r = self.mode_roots[i].1;
                proof {
                    Self::lemma_root_from_bound(roots0, mode@, 0, self.nodes().len());
                }
                return r;
            }
            i += 1;
        }
        let id = self.input_nodes.len();
        let ghost nodes0 = self.nodes();
        proof {
            if root_of(roots0, self.context()) is Some {
                Self::lemma_root_from_push(roots0, self.context(), (mode@, id), 0);
            }
            Self::lemma_root_from_new(roots0, mode@, id, 0);
        }
        self.mode_roots.push((name, id));
        self.input_nodes.push(InputNode::new());
        proof {
            assert(self.nodes() =~= nodes0.push(empty_node()));
            assert(self.roots() =~= roots0.push((mode@, id)));
        }
        id
    }
}


impl Inputter {
    /// An inputter in context `DEFAULT`, whose root is its only node.
    pub fn new() -> (r: Inputter)
        ensures
            r.wf(),
            r.alive(),
            r.context() == "DEFAULT"@,
            r.nodes() == seq![empty_node()],
            r.roots() == seq![("DEFAULT"@, 0usize)],
            r.active() == 0,
            r.buffer() == Seq::<u8>::empty(),
    {
        let mut output = Inputter {
            context: String::new(),
            killed: false,
            input_nodes: Vec::new(),
            active_node: 0,
            mode_roots: Vec::new(),
            input_buffer: Vec::new(),
        };
        proof {
            assert(output.nodes() =~= Seq::<NodeView>::empty());
            assert(output.roots() =~= Seq::<(Seq<char>, usize)>::empty());
            assert(output.buffer() =~= Seq::<u8>::empty());
        }
        output.set_context("DEFAULT");
        proof {
            assert(root_of(Seq::<(Seq<char>, usize)>::empty(), "DEFAULT"@) is None);
        }
        output
    }

    pub fn kill(&mut self)
        ensures
            !final(self).alive(),
            final(self).nodes() == old(self).nodes(),
            final(self).roots() == old(self).roots(),
            final(self).context() == old(self).context(),
            final(self).active() == old(self).active(),
            final(self).buffer() == old(self).buffer(),
    {
        self.killed = true;
    }

    pub fn is_alive(&self) -> (r: bool)
        ensures
            r == self.alive(),
    {
        !self.killed
    }

    /// How many nodes the trie has.
    pub fn node_count(&self) -> (r: usize)
        ensures
            r == self.nodes().len(),
    {
        self.input_nodes.len()
    }

    /// Queues a byte of input.
    pub fn input(&mut self, next_byte: u8)
        ensures
            final(self).buffer() == old(self).buffer().push(next_byte),
            final(self).nodes() == old(self).nodes(),
            final(self).roots() == old(self).roots(),
            final(self).context() == old(self).context(),
            final(self).active() == old(self).active(),
            final(self).alive() == old(self).alive(),
    {
        self.input_buffer.push(next_byte);
    }

    /// Switches to context `new_context` (giving it a root if it has none)
    /// and goes to its root.
    pub fn set_context(&mut self, new_context: &str)
        requires
            old(self).trie_wf(),
        ensures
            final(self).wf(),
            ({
                let m = with_mode(old(self).nodes(), old(self).roots(), new_context@);
                &&& final(self).nodes() == m.0
                &&& final(self).roots() == m.1
                &&& final(self).active() == m.2
            }),
            final(self).context() == new_context@,
            final(self).buffer() == old(self).buffer(),
            final(self).alive() == old(self).alive(),
    {
        self.context = new_context.to_owned();
        let root = self.get_mode_root(new_context);
        self.active_node = root;
        proof {
            let m = with_mode(old(self).nodes(), old(self).roots(), new_context@);
            match root_of(old(self).roots(), new_context@) {
                Some(r) => {},
                None => {
                    Self::lemma_root_from_new(old(self).roots(), new_context@, m.2, 0);
                },
            }
        }
    }

    /// The root of the active context.
    fn get_context_root(&mut self) -> (r: usize)
        requires
            old(self).wf(),
        ensures
            final(self).same_view(&*old(self)),
            r == old(self).home(),
    {
        let context = self.context.clone();
        let ghost before = *self;
        let r = self.get_mode_root(context.as_str());
        proof {
            assert(self.nodes() == before.nodes());
            assert(self.roots() == before.roots());
        }
        r
    }

    /// Whether the next buffered byte continues a path from the active
    /// node.
    fn path_continues(&mut self) -> (r: bool)
        requires
            old(self).wf(),
        ensures
            *final(self) == *old(self),
            r == (old(self).buffer().len() > 0 && old(self).nodes()[old(self).active() as int].0.contains_key(
                old(self).buffer()[0],
            )),
    {
        let mut output = false;
        if self.input_buffer.len() > 0 {
            let test_byte = self.input_buffer[0];
            proof {
                assert(self.nodes()[self.active_node as int] == self.input_nodes@[self.active_node as int]@);
            }
            match self.input_nodes[self.active_node].get_next(test_byte) {
                Some(_) => {
                    output = true;
                },
                None => {},
            }
        }
        output
    }

    /// Whether the active node has a command and the buffer will not
    /// continue past it.
    fn hook_ready(&mut self) -> (r: bool)
        requires
            old(self).wf(),
        ensures
            *final(self) == *old(self),
            r == hook_ready(old(self).nodes()[old(self).active() as int], old(self).buffer()),
    {
        proof {
            assert(self.nodes()[self.active_node as int] == self.input_nodes@[self.active_node as int]@);
        }
        let hook_result = self.input_nodes[self.active_node].get_hook();
        hook_result.is_some() && !self.path_continues()
    }

    /// Reads buffered input until the active node has a command that no
    /// further buffered byte continues, or the input runs out; a byte with
    /// no edge returns to the context's root. Gives that command (going back
    /// to the root), or nothing.
    pub fn fetch_hook(&mut self) -> (r: Option<(String, Vec<String>)>)
        requires
            old(self).wf(),
        ensures
            final(self).wf(),
            old(self).fetched_as(&*final(self), r),
    {
        let ghost nodes0 = self.nodes();
        let ghost home = self.home();
        let ghost goal = drain(self.nodes(), home, self.buffer(), self.active());
        proof {
            Self::lemma_root_from_bound(self.roots(), self.context(), 0, self.nodes().len());
        }
        while self.input_buffer.len() > 0 && !self.hook_ready()
            invariant
                self.wf(),
                self.nodes() == nodes0,
                nodes0 == old(self).nodes(),
                self.roots() == old(self).roots(),
                self.context() == old(self).context(),
                self.alive() == old(self).alive(),
                home == self.home() < nodes0.len(),
                drain(nodes0, home, self.buffer(), self.active()) == goal,
            decreases self.input_buffer@.len(),
        {
            let ghost buf = self.buffer();
            let working_byte = self.input_buffer.remove(0);
            proof {
                assert(self.buffer() =~= buf.drop_first());
                assert(self.nodes()[self.active_node as int] == self.input_nodes@[self.active_node as int]@);
            }
            let next = self.input_nodes[self.active_node].get_next(working_byte);
            match next {
                Some(node_id) => {
                    self.active_node = node_id;
                },
                None => {
                    self.active_node = self.get_context_root();
                },
            }
        }
        proof {
            assert(self.nodes()[self.active_node as int] == self.input_nodes@[self.active_node as int]@);
        }
        let hook_result = self.input_nodes[self.active_node].get_hook();
        match hook_result {
            Some(hook) => {
                self.active_node = self.get_context_root();
                Some(hook)
            },
            None => None,
        }
    }
}


/// `after` keeps every node and edge of `before`.
pub open spec fn keeps_edges(before: Seq<NodeView>, after: Seq<NodeView>) -> bool {
    &&& after.len() >= before.len()
    &&& forall|i: int, b: u8|
        0 <= i < before.len() && #[trigger] before[i].0.contains_key(b) ==> after[i].0.contains_key(b)
            && after[i].0[b] == before[i].0[b]
}

/// Completing a path keeps the trie's edges, stays inside it, and the
/// completed path leads where it ends.
proof fn lemma_extend_path(nodes: Seq<NodeView>, cur: usize, bytes: Seq<u8>)
    requires
        edges_inside(nodes),
        cur < nodes.len(),
        nodes.len() + bytes.len() <= usize::MAX,
    ensures
        ({
            let e = extend_path(nodes, cur, bytes);
            &&& edges_inside(e.0)
            &&& e.1 < e.0.len()
            &&& keeps_edges(nodes, e.0)
            &&& e.0.len() <= nodes.len() + bytes.len()
            &&& follow(e.0, cur, bytes) == Some(e.1)
        }),
    decreases bytes.len(),
{
    if bytes.len() > 0 {
        let b = bytes[0];
        let rest = bytes.drop_first();
        if nodes[cur as int].0.contains_key(b) {
            let next = nodes[cur as int].0[b];
            lemma_extend_path(nodes, next, rest);
        } else {
            let id = nodes.len() as usize;
            let grown = nodes.update(cur as int, (nodes[cur as int].0.insert(b, id), nodes[cur as int].1)).push(
                empty_node(),
            );
            assert(edges_inside(grown)) by {
                assert forall|i: int, c: u8|
                    0 <= i < grown.len() && #[trigger] grown[i].0.contains_key(c) implies grown[i].0[c]
                    < grown.len() by {
                    if i == cur as int {
                        if c != b {
                            assert(nodes[i].0.contains_key(c));
                        }
                    } else if i < nodes.len() {
                        assert(grown[i] == nodes[i]);
                    }
                }
            }
            lemma_extend_path(grown, id, rest);
            let e = extend_path(grown, id, rest);
            assert(keeps_edges(nodes, e.0)) by {
                assert forall|i: int, c: u8|
                    0 <= i < nodes.len() && #[trigger] nodes[i].0.contains_key(c) implies e.0[i].0.contains_key(c)
                    && e.0[i].0[c] == nodes[i].0[c] by {
                    assert(grown[i].0.contains_key(c));
                }
            }
            assert(grown[cur as int].0.contains_key(b));
        }
    }
}

/// Following a path reads only the edges.
proof fn lemma_follow_edges(a: Seq<NodeView>, b: Seq<NodeView>, cur: usize, bytes: Seq<u8>)
    requires
        a.len() == b.len(),
        forall|i: int| 0 <= i < a.len() ==> (#[trigger] a[i]).0 == b[i].0,
        cur < a.len(),
        edges_inside(a),
    ensures
        follow(a, cur, bytes) == follow(b, cur, bytes),
    decreases bytes.len(),
{
    if bytes.len() > 0 && a[cur as int].0.contains_key(bytes[0]) {
        assert(a[cur as int].0 == b[cur as int].0);
        lemma_follow_edges(a, b, a[cur as int].0[bytes[0]], bytes.drop_first());
    } else if bytes.len() > 0 {
        assert(a[cur as int].0 == b[cur as int].0);
    }
}

impl Inputter {
    /// Makes the bytes `command_vec`, typed in mode `mode`, give the
    /// command `hook` with `args`: the path from the mode's root (made if
    /// missing) is completed with new nodes where needed, and its last node
    /// gets the command.
    pub fn assign_mode_command(&mut self, mode: &str, command_vec: &[u8], hook: &str, args: &[&str])
        requires
            old(self).trie_wf(),
            old(self).nodes().len() + command_vec@.len() + 1 < usize::MAX,
        ensures
            final(self).trie_wf(),
            old(self).wf() ==> final(self).wf(),
            ({
                let m = with_mode(old(self).nodes(), old(self).roots(), mode@);
                let e = extend_path(m.0, m.2, command_vec@);
                &&& final(self).nodes() == e.0.update(
                    e.1 as int,
                    (e.0[e.1 as int].0, Some((hook@, str_texts(args@)))),
                )
                &&& final(self).roots() == m.1
                &&& follow(final(self).nodes(), m.2, command_vec@) == Some(e.1)
                &&& final(self).nodes()[e.1 as int].1 == Some((hook@, str_texts(args@)))
            }),
            final(self).context() == old(self).context(),
            final(self).active() == old(self).active(),
            final(self).buffer() == old(self).buffer(),
            final(self).alive() == old(self).alive(),
    {
        let root = self.get_mode_root(mode);
        let ghost m_nodes = self.nodes();
        let ghost cmd = command_vec@;
        proof {
            lemma_extend_path(m_nodes, root, cmd);
            assert(cmd.subrange(0, cmd.len() as int) =~= cmd);
        }
        let ghost goal = extend_path(m_nodes, root, cmd);
        let mut current_node_index = root;
        let mut i: usize = 0;
        while i < command_vec.len()
            invariant
                i <= cmd.len(),
                cmd == command_vec@,
                self.trie_wf(),
                current_node_index < self.nodes().len(),
                self.nodes().len() + (cmd.len() - i) <= m_nodes.len() + cmd.len(),
                m_nodes.len() + cmd.len() < usize::MAX,
                extend_path(self.nodes(), current_node_index, cmd.subrange(i as int, cmd.len() as int)) == goal,
                self.roots() == with_mode(old(self).nodes(), old(self).roots(), mode@).1,
                self.context() == old(self).context(),
                self.active() == old(self).active(),
                old(self).active() < old(self).nodes().len() ==> self.active() < self.nodes().len(),
                old(self).wf() ==> root_of(self.roots(), self.context()) is Some,
                self.buffer() == old(self).buffer(),
                self.alive() == old(self).alive(),
            decreases cmd.len() - i,
        {
            let byte = command_vec[i];
            let ghost nodes_before = self.nodes();
            proof {
                let sub = cmd.subrange(i as int, cmd.len() as int);
                assert(sub[0] == byte);
                assert(sub.drop_first() =~= cmd.subrange(i + 1, cmd.len() as int));
                assert(self.nodes()[current_node_index as int] == self.input_nodes@[current_node_index as int]@);
            }
            match self.input_nodes[current_node_index].get_next(byte) {
                Some(index) => {
                    current_node_index = index;
                },
                None => {
                    let new_id = self.input_nodes.len();
                    let mut node = self.input_nodes.remove(current_node_index);
                    node.link_byte(byte, new_id);
                    self.input_nodes.insert(current_node_index, node);
                    self.input_nodes.push(InputNode::new());
                    proof {
                        let grown = nodes_before.update(
                            current_node_index as int,
                            (nodes_before[current_node_index as int].0.insert(byte, new_id), nodes_before[current_node_index as int].1),
                        ).push(empty_node());
                        assert(self.nodes() =~= grown);
                        assert(edges_inside(grown)) by {
                            assert forall|q: int, c: u8|
                                0 <= q < grown.len() && #[trigger] grown[q].0.contains_key(c) implies grown[q].0[c]
                                < grown.len() by {
                                if q == current_node_index as int {
                                    if c != byte {
                                        assert(nodes_before[q].0.contains_key(c));
                                    }
                                } else if q < nodes_before.len() {
                                    assert(grown[q] == nodes_before[q]);
                                }
                            }
                        }
                    }
                    current_node_index = new_id;
                },
            }
            i += 1;
        }
        let ghost ended = self.nodes();
        proof {
            assert(cmd.subrange(i as int, cmd.len() as int).len() == 0);
            assert(goal == (ended, current_node_index));
        }
        let mut node = self.input_nodes.remove(current_node_index);
        node.assign_hook(hook, args);
        self.input_nodes.insert(current_node_index, node);
        proof {
            let updated = ended.update(
                current_node_index as int,
                (ended[current_node_index as int].0, Some((hook@, str_texts(args@)))),
            );
            assert(self.nodes() =~= updated);
            lemma_follow_edges(ended, updated, root, cmd);
        }
    }
}


/// Typing, from node `cur`, bytes whose path exists in the trie reads all
/// of them and ends at the path's end, even where the path passes nodes
/// that have commands of their own.
pub proof fn typed_path_reaches_its_end(nodes: Seq<NodeView>, home: usize, cur: usize, bytes: Seq<u8>)
    requires
        edges_inside(nodes),
        cur < nodes.len(),
        follow(nodes, cur, bytes) is Some,
    ensures
        drain(nodes, home, bytes, cur) == (Seq::<u8>::empty(), follow(nodes, cur, bytes)->Some_0),
    decreases bytes.len(),
{
    if bytes.len() > 0 {
        let next = nodes[cur as int].0[bytes[0]];
        assert(!hook_ready(nodes[cur as int], bytes));
        typed_path_reaches_its_end(nodes, home, next, bytes.drop_first());
    }
}

/// Typing, in the active mode and from its root, the keys bound there to a
/// command (`assign_mode_command` makes `follow` from the mode's root end
/// at a node with the command) gives that command, with nothing left
/// buffered, and goes back to the root.
pub proof fn typing_bound_keys_gives_their_command(
    typed: Inputter,
    fetched: Inputter,
    r: Option<(String, Vec<String>)>,
    hook: HookView,
)
    requires
        typed.wf(),
        typed.active() == typed.home(),
        follow(typed.nodes(), typed.home(), typed.buffer()) matches Some(t) && typed.nodes()[t as int].1 == Some(
            hook,
        ),
        typed.fetched_as(&fetched, r),
    ensures
        r matches Some(x) && (x.0@, texts(x.1@)) == hook,
        fetched.buffer() == Seq::<u8>::empty(),
        fetched.active() == typed.home(),
{
    Inputter::lemma_root_from_bound(typed.roots(), typed.context(), 0, typed.nodes().len());
    typed_path_reaches_its_end(typed.nodes(), typed.home(), typed.home(), typed.buffer());
}

} // verus!
