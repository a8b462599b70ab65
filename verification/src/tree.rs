//! The syntax tree of a Nix file, as plain values.
//!
//! A `Green` is an immutable node or token of the lossless syntax tree; its
//! view is the mathematical `Tree`.  Kinds are the raw numbers of the syntax
//! kinds of the Nix grammar.
use vstd::prelude::*;
use vstd::string::StringExecFns;

verus! {

/// Raw kind of a `with e; body` expression.
pub const NODE_WITH: u16 = 81;

/// Raw kind of an attribute path such as `a.b.c`.
pub const NODE_KEY: u16 = 56;

/// Raw kind of one identifier inside an attribute path or expression.
pub const NODE_IDENT: u16 = 59;

/// Raw kind of a list `[ ... ]`.
pub const NODE_LIST: u16 = 69;

/// Raw kind of the root node of a parsed file.
pub const NODE_ROOT: u16 = 76;

/// Raw kind of an attribute set `{ ... }`.
pub const NODE_ATTR_SET: u16 = 77;

/// Raw kind of a binding `key = value;`.
pub const NODE_KEY_VALUE: u16 = 78;

/// The mathematical syntax tree: a node with its kind and its children
/// (nodes and tokens, in order), or a token with its kind and its text.
pub enum Tree {
    Node(u16, Seq<Tree>),
    Token(u16, Seq<char>),
}

/// An element of a syntax tree held in memory.
pub enum Green {
    Node { kind: u16, children: Vec<Green> },
    Token { kind: u16, text: String },
}

/// The views of a sequence of elements.
pub open spec fn views(s: Seq<Green>) -> Seq<Tree>
    decreases s,
{
    if s.len() == 0 {
        Seq::empty()
    } else {
        views(s.drop_last()).push(s.last().view())
    }
}

impl View for Green {
    type V = Tree;

    open spec fn view(&self) -> Tree
        decreases self,
    {
        match self {
            Green::Token { kind, text } => Tree::Token(*kind, text@),
            Green::Node { kind, children } => Tree::Node(*kind, views(children@)),
        }
    }
}

pub proof fn lemma_views(s: Seq<Green>)
    ensures
        views(s).len() == s.len(),
        forall|i: int| 0 <= i < s.len() ==> #[trigger] views(s)[i] == s[i]@,
    decreases s.len(),
{
    if s.len() > 0 {
        lemma_views(s.drop_last());
        assert(views(s) == views(s.drop_last()).push(s.last()@));
    } else {
        assert(views(s) == Seq::<Tree>::empty());
    }
}

/// Kind of an element.
pub open spec fn tkind(t: Tree) -> u16 {
    match t {
        Tree::Node(k, _) => k,
        Tree::Token(k, _) => k,
    }
}

pub open spec fn is_node(t: Tree) -> bool {
    t is Node
}

/// Children of an element (none for a token).
pub open spec fn kids(t: Tree) -> Seq<Tree> {
    match t {
        Tree::Node(_, cs) => cs,
        Tree::Token(_, _) => Seq::empty(),
    }
}

/// Is `t` a node of kind `k`?
pub open spec fn is_node_of(t: Tree, k: u16) -> bool {
    t is Node && tkind(t) == k
}

/// The source text an element spans: its tokens' texts in order.
pub open spec fn text(t: Tree) -> Seq<char>
    decreases t,
{
    match t {
        Tree::Token(_, s) => s,
        Tree::Node(_, cs) => texts(cs),
    }
}

/// The texts of a sequence of elements, concatenated.
pub open spec fn texts(cs: Seq<Tree>) -> Seq<char>
    decreases cs,
{
    if cs.len() == 0 {
        Seq::empty()
    } else {
        texts(cs.drop_last()) + text(cs.last())
    }
}

/// Replaces the children of a node, keeping its kind.
pub open spec fn with_kids(t: Tree, cs: Seq<Tree>) -> Tree {
    Tree::Node(tkind(t), cs)
}

/// The events of a pre-order walk over an element, tokens included.
pub enum Ev {
    EnterNode(u16),
    LeaveNode,
    EnterToken(u16, Seq<char>),
    LeaveToken,
}

pub open spec fn walk(t: Tree) -> Seq<Ev>
    decreases t,
{
    match t {
        Tree::Token(k, s) => seq![Ev::EnterToken(k, s), Ev::LeaveToken],
        Tree::Node(k, cs) => seq![Ev::EnterNode(k)] + walks(cs) + seq![Ev::LeaveNode],
    }
}

pub open spec fn walks(cs: Seq<Tree>) -> Seq<Ev>
    decreases cs,
{
    if cs.len() == 0 {
        Seq::empty()
    } else {
        walk(cs[0]) + walks(cs.drop_first())
    }
}

/// One event of a walk, held in memory.
pub enum WalkEvent {
    EnterNode(u16),
    LeaveNode,
    EnterToken(u16, String),
    LeaveToken,
}

impl View for WalkEvent {
    type V = Ev;

    open spec fn view(&self) -> Ev {
        match self {
            WalkEvent::EnterNode(k) => Ev::EnterNode(*k),
            WalkEvent::LeaveNode => Ev::LeaveNode,
            WalkEvent::EnterToken(k, s) => Ev::EnterToken(*k, s@),
            WalkEvent::LeaveToken => Ev::LeaveToken,
        }
    }
}

pub open spec fn evs(s: Seq<WalkEvent>) -> Seq<Ev> {
    s.map_values(|e: WalkEvent| e@)
}

pub proof fn lemma_walk_nonempty(t: Tree)
    ensures
        walk(t).len() >= 2,
        walk(t)[0] !is LeaveNode,
{
    match t {
        Tree::Token(k, s) => {},
        Tree::Node(k, cs) => {},
    }
}

pub proof fn lemma_walks_unfold(cs: Seq<Tree>, i: int)
    requires
        0 <= i < cs.len(),
    ensures
        walks(cs.skip(i)) == walk(cs[i]) + walks(cs.skip(i + 1)),
{
    assert(cs.skip(i).drop_first() =~= cs.skip(i + 1));
    assert(cs.skip(i)[0] == cs[i]);
}

/// Builds the element whose walk starts at `pos`.
pub fn build_at(ev: &Vec<WalkEvent>, pos: usize, Ghost(t): Ghost<Tree>, Ghost(rest): Ghost<Seq<Ev>>) -> (res: (Green, usize))
    requires
        pos <= ev.len(),
        evs(ev@).skip(pos as int) == walk(t) + rest,
    ensures
        res.0@ == t,
        res.1 == pos + walk(t).len(),
        res.1 <= ev.len(),
    decreases t,
{
    proof {
        lemma_walk_nonempty(t);
        assert(evs(ev@).skip(pos as int).len() == ev.len() - pos);
        assert(evs(ev@).skip(pos as int)[0] == walk(t)[0]);
        assert(evs(ev@)[pos as int] == ev@[pos as int]@);
    }
    match &ev[pos] {
        WalkEvent::EnterToken(k, s) => {
            let g = Green::Token { kind: *k, text: s.clone() };
            proof {
                match t {
                    Tree::Token(k2, s2) => {},
                    Tree::Node(k2, cs) => {
                        assert(walk(t)[0] == Ev::EnterNode(k2));
                    },
                }
            }
            (g, pos + 2)
        },
        WalkEvent::EnterNode(k) => {
            let ghost cs = kids(t);
            proof {
                match t {
                    Tree::Token(k2, s2) => {
                        assert(walk(t)[0] == Ev::EnterToken(k2, s2));
                    },
                    Tree::Node(k2, cs2) => {},
                }
                assert(walk(t) == seq![Ev::EnterNode(*k)] + walks(cs) + seq![Ev::LeaveNode]);
                assert(cs.skip(0) =~= cs);
                assert(evs(ev@).skip(pos + 1) =~= evs(ev@).skip(pos as int).skip(1));
                assert((walk(t) + rest).skip(1) =~= walks(cs) + seq![Ev::LeaveNode] + rest);
                assert(evs(ev@).skip(pos + 1) =~= walks(cs.skip(0)) + seq![Ev::LeaveNode] + rest);
            }
            let mut out: Vec<Green> = Vec::new();
            let mut p: usize = pos + 1;
            let ghost mut i: int = 0;
            loop
                invariant
                    t is Node,
                    cs == kids(t),
                    0 <= i <= cs.len(),
                    p <= ev.len(),
                    evs(ev@).skip(p as int) == walks(cs.skip(i)) + seq![Ev::LeaveNode] + rest,
                    out.len() == i,
                    forall|j: int| 0 <= j < i ==> #[trigger] out@[j]@ == cs[j],
                    p + walks(cs.skip(i)).len() == pos + walk(t).len() - 1,
                ensures
                    i == cs.len(),
                    p + 1 == pos + walk(t).len(),
                    p + 1 <= ev.len(),
                    out.len() == i,
                    forall|j: int| 0 <= j < i ==> #[trigger] out@[j]@ == cs[j],
                decreases cs.len() - i,
            {
                proof {
                    assert(evs(ev@).skip(p as int).len() == ev.len() - p);
                    assert(evs(ev@).skip(p as int)[0] == evs(ev@)[p as int]);
                    assert(evs(ev@)[p as int] == ev@[p as int]@);
                    if i < cs.len() {
                        lemma_walks_unfold(cs, i);
                        lemma_walk_nonempty(cs[i]);
                        assert(evs(ev@).skip(p as int)[0] == walk(cs[i])[0]);
                    } else {
                        assert(cs.skip(i) =~= Seq::<Tree>::empty());
                        assert(walks(cs.skip(i)) == Seq::<Ev>::empty());
                        assert(evs(ev@).skip(p as int)[0] == Ev::LeaveNode);
                    }
                }
                if let WalkEvent::LeaveNode = &ev[p] {
                    proof {
                        assert(cs.skip(i) =~= Seq::<Tree>::empty());
                    }
                    break;
                }
                let ghost c = cs[i];
                let ghost rest2 = walks(cs.skip(i + 1)) + seq![Ev::LeaveNode] + rest;
                proof {
                    assert(evs(ev@).skip(p as int) =~= walk(c) + rest2);
                }
                let (g, np) = build_at(ev, p, Ghost(c), Ghost(rest2));
                proof {
                    assert(evs(ev@).skip(np as int) =~= evs(ev@).skip(p as int).skip(walk(c).len() as int));
                    assert((walk(c) + rest2).skip(walk(c).len() as int) =~= rest2);
                }
                out.push(g);
                p = np;
                proof {
                    i = i + 1;
                }
            }
            proof {
                assert(i == cs.len());
                lemma_views(out@);
                assert(views(out@) =~= cs);
            }
            (Green::Node { kind: *k, children: out }, p + 1)
        },
        WalkEvent::LeaveNode => {
            proof {
                assert(false);
            }
            (Green::Token { kind: 0, text: String::new() }, pos)
        },
        WalkEvent::LeaveToken => {
            proof {
                match t {
                    Tree::Token(k2, s2) => {
                        assert(walk(t)[0] == Ev::EnterToken(k2, s2));
                    },
                    Tree::Node(k2, cs2) => {
                        assert(walk(t)[0] == Ev::EnterNode(k2));
                    },
                }
            }
            (Green::Token { kind: 0, text: String::new() }, pos)
        },
    }
}


pub proof fn lemma_texts_push(cs: Seq<Tree>, i: int)
    requires
        0 <= i < cs.len(),
    ensures
        texts(cs.take(i + 1)) == texts(cs.take(i)) + text(cs[i]),
{
    assert(cs.take(i + 1).drop_last() =~= cs.take(i));
}

impl Green {
    /// The raw kind of this element.
    pub fn kind(&self) -> (k: u16)
        ensures
            k == tkind(self@),
    {
        match self {
            Green::Node { kind, .. } => *kind,
            Green::Token { kind, .. } => *kind,
        }
    }

    pub fn is_node(&self) -> (b: bool)
        ensures
            b == is_node(self@),
    {
        match self {
            Green::Node { .. } => true,
            Green::Token { .. } => false,
        }
    }

    /// Number of children (nodes and tokens); 0 for a token.
    pub fn len(&self) -> (n: usize)
        ensures
            n == kids(self@).len(),
    {
        match self {
            Green::Node { children, .. } => {
                proof {
                    lemma_views(children@);
                }
                children.len()
            },
            Green::Token { .. } => 0,
        }
    }

    /// The `i`-th child (node or token).
    pub fn child(&self, i: usize) -> (c: &Green)
        requires
            i < kids(self@).len(),
        ensures
            c@ == kids(self@)[i as int],
    {
        match self {
            Green::Node { children, .. } => {
                proof {
                    lemma_views(children@);
                }
                &children[i]
            },
            Green::Token { .. } => {
                proof {
                    assert(false);
                }
                self
            },
        }
    }

    /// Appends the text this element spans to `out`.
    #[verifier::loop_isolation(false)]
    pub fn append_text(&self, out: &mut String)
        ensures
            final(out)@ == old(out)@ + text(self@),
        decreases self,
    {
        match self {
            Green::Token { text, .. } => {
                out.append(text.as_str());
            },
            Green::Node { children, .. } => {
                proof {
                    lemma_views(children@);
                }
                let ghost cs = views(children@);
                let ghost start = out@;
                let mut i: usize = 0;
                while i < children.len()
                    invariant
                        i <= children.len(),
                        out@ == start + texts(cs.take(i as int)),
                    decreases children.len() - i,
                {
                    proof {
                        vstd::std_specs::vec::axiom_vec_index_decreases(*children, i as int);
                        lemma_texts_push(cs, i as int);
                    }
                    children[i].append_text(out);
                    i = i + 1;
                }
                proof {
                    assert(cs.take(i as int) =~= cs);
                }
            },
        }
    }

    /// The text this element spans.
    pub fn to_text(&self) -> (s: String)
        ensures
            s@ == text(self@),
    {
        let mut s = String::new();
        self.append_text(&mut s);
        proof {
            assert(Seq::<char>::empty() + text(self@) =~= text(self@));
        }
        s
    }

    /// A copy of this element.
    #[verifier::loop_isolation(false)]
    pub fn deep_clone(&self) -> (r: Green)
        ensures
            r@ == self@,
        decreases self,
    {
        match self {
            Green::Token { kind, text } => Green::Token { kind: *kind, text: text.clone() },
            Green::Node { kind, children } => {
                let mut out: Vec<Green> = Vec::new();
                let mut i: usize = 0;
                while i < children.len()
                    invariant
                        i <= children.len(),
                        out.len() == i,
                        forall|j: int| 0 <= j < i ==> #[trigger] out@[j]@ == children@[j]@,
                    decreases children.len() - i,
                {
                    proof {
                        vstd::std_specs::vec::axiom_vec_index_decreases(*children, i as int);
                    }
                    let c = children[i].deep_clone();
                    out.push(c);
                    i = i + 1;
                }
                proof {
                    lemma_views(out@);
                    lemma_views(children@);
                    assert(views(out@) =~= views(children@));
                }
                Green::Node { kind: *kind, children: out }
            },
        }
    }

    /// Structural equality: same kinds, same texts, same children.
    #[verifier::loop_isolation(false)]
    pub fn same(&self, other: &Green) -> (b: bool)
        ensures
            b == (self@ == other@),
        decreases self,
    {
        match (self, other) {
            (Green::Token { kind: k1, text: t1 }, Green::Token { kind: k2, text: t2 }) => {
                let same_text = t1.eq(t2);
                *k1 == *k2 && same_text
            },
            (Green::Node { kind: k1, children: c1 }, Green::Node { kind: k2, children: c2 }) => {
                proof {
                    lemma_views(c1@);
                    lemma_views(c2@);
                }
                if *k1 != *k2 || c1.len() != c2.len() {
                    proof {
                        assert(views(c1@).len() != views(c2@).len() || *k1 != *k2);
                    }
                    return false;
                }
                let mut i: usize = 0;
                while i < c1.len()
                    invariant
                        i <= c1.len(),
                        c1.len() == c2.len(),
                        forall|j: int| 0 <= j < i ==> #[trigger] c1@[j]@ == c2@[j]@,
                    decreases c1.len() - i,
                {
                    proof {
                        vstd::std_specs::vec::axiom_vec_index_decreases(*c1, i as int);
                    }
                    if !c1[i].same(&c2[i]) {
                        proof {
                            assert(views(c1@)[i as int] != views(c2@)[i as int]);
                        }
                        return false;
                    }
                    i = i + 1;
                }
                proof {
                    assert(views(c1@) =~= views(c2@));
                }
                true
            },
            _ => false,
        }
    }
}


/// Machine indices as mathematical integers.
pub open spec fn ints(v: Seq<usize>) -> Seq<int> {
    v.map_values(|x: usize| x as int)
}

/// Positions of the child nodes (tokens left out) among the children.
pub open spec fn node_pos(cs: Seq<Tree>) -> Seq<int>
    decreases cs.len(),
{
    if cs.len() == 0 {
        Seq::empty()
    } else {
        let p = node_pos(cs.drop_last());
        if cs.last() is Node {
            p.push(cs.len() - 1)
        } else {
            p
        }
    }
}

pub proof fn lemma_node_pos(cs: Seq<Tree>)
    ensures
        node_pos(cs).len() <= cs.len(),
        forall|m: int| 0 <= m < node_pos(cs).len() ==> {
            &&& #[trigger] node_pos(cs)[m] < cs.len()
            &&& 0 <= node_pos(cs)[m]
            &&& cs[node_pos(cs)[m]] is Node
        },
        forall|m1: int, m2: int| 0 <= m1 < m2 < node_pos(cs).len() ==> node_pos(cs)[m1] < node_pos(cs)[m2],
        forall|i: int| 0 <= i < cs.len() && cs[i] is Node ==> exists|m: int| 0 <= m < node_pos(cs).len() && node_pos(cs)[m] == i,
    decreases cs.len(),
{
    if cs.len() > 0 {
        lemma_node_pos(cs.drop_last());
        let p = node_pos(cs.drop_last());
        assert forall|i: int| 0 <= i < cs.len() && cs[i] is Node implies exists|m: int| 0 <= m < node_pos(cs).len() && node_pos(cs)[m] == i by {
            if i < cs.len() - 1 {
                assert(cs.drop_last()[i] == cs[i]);
                let m = choose|m: int| 0 <= m < p.len() && p[m] == i;
                assert(node_pos(cs)[m] == i);
            } else {
                assert(cs.last() is Node);
                assert(node_pos(cs) == p.push(cs.len() - 1));
                assert(node_pos(cs)[p.len() as int] == i);
            }
        }
    }
}

impl Green {
    /// Positions of the child nodes of this element.
    pub fn node_positions(&self) -> (ps: Vec<usize>)
        ensures
            ints(ps@) == node_pos(kids(self@)),
    {
        let n = self.len();
        let mut ps: Vec<usize> = Vec::new();
        let mut i: usize = 0;
        let ghost cs = kids(self@);
        while i < n
            invariant
                n == cs.len(),
                cs == kids(self@),
                i <= n,
                ints(ps@) == node_pos(cs.take(i as int)),
            decreases n - i,
        {
            proof {
                assert(cs.take(i + 1).drop_last() =~= cs.take(i as int));
                assert(cs.take(i + 1).last() == cs[i as int]);
            }
            let ghost old_ps = ps@;
            if self.child(i).is_node() {
                ps.push(i);
                proof {
                    assert(ints(ps@) =~= ints(old_ps).push(i as int));
                }
            }
            i = i + 1;
        }
        proof {
            assert(cs.take(n as int) =~= cs);
        }
        ps
    }
}


/// The first child at or after `j` that is a node equal to `x`.
pub open spec fn first_node_eq_from(cs: Seq<Tree>, x: Tree, j: int) -> Option<int>
    decreases cs.len() - j,
{
    if j < 0 || j >= cs.len() {
        None
    } else if cs[j] is Node && cs[j] == x {
        Some(j)
    } else {
        first_node_eq_from(cs, x, j + 1)
    }
}

pub proof fn lemma_first_node_eq_from(cs: Seq<Tree>, x: Tree, j: int, k: int)
    requires
        0 <= j <= k < cs.len(),
        cs[k] is Node,
        cs[k] == x,
    ensures
        first_node_eq_from(cs, x, j) matches Some(i) && j <= i <= k && cs[i] == x,
    decreases k - j,
{
    if !(cs[j] is Node && cs[j] == x) {
        lemma_first_node_eq_from(cs, x, j + 1, k);
    }
}

impl Green {
    /// Copies of the children of this element.
    pub fn children_clone(&self) -> (v: Vec<Green>)
        ensures
            views(v@) == kids(self@),
            v@.len() == kids(self@).len(),
    {
        let n = self.len();
        let mut v: Vec<Green> = Vec::new();
        let mut i: usize = 0;
        while i < n
            invariant
                n == kids(self@).len(),
                i <= n,
                v@.len() == i,
                forall|j: int| 0 <= j < i ==> #[trigger] v@[j]@ == kids(self@)[j],
            decreases n - i,
        {
            v.push(self.child(i).deep_clone());
            i = i + 1;
        }
        proof {
            lemma_views(v@);
            assert(views(v@) =~= kids(self@));
        }
        v
    }

    /// A node of the kind of this element with the given children.
    pub fn with_children(&self, children: Vec<Green>) -> (g: Green)
        ensures
            g@ == with_kids(self@, views(children@)),
    {
        Green::Node { kind: self.kind(), children }
    }

    /// The first child that is a node equal to `x`.
    pub fn first_node_eq(&self, x: &Green) -> (r: Option<usize>)
        ensures
            r matches Some(i) ==> first_node_eq_from(kids(self@), x@, 0) == Some(i as int),
            r is None ==> first_node_eq_from(kids(self@), x@, 0) is None,
    {
        let n = self.len();
        let mut i: usize = 0;
        while i < n
            invariant
                n == kids(self@).len(),
                i <= n,
                first_node_eq_from(kids(self@), x@, 0) == first_node_eq_from(kids(self@), x@, i as int),
            decreases n - i,
        {
            let c = self.child(i);
            if c.is_node() && c.same(x) {
                return Some(i);
            }
            i = i + 1;
        }
        None
    }
}

pub proof fn lemma_views_insert(v: Seq<Green>, i: int, g: Green)
    requires
        0 <= i <= v.len(),
    ensures
        views(v.insert(i, g)) == views(v).insert(i, g@),
{
    lemma_views(v);
    lemma_views(v.insert(i, g));
    assert(views(v.insert(i, g)) =~= views(v).insert(i, g@));
}

pub proof fn lemma_views_remove(v: Seq<Green>, i: int)
    requires
        0 <= i < v.len(),
    ensures
        views(v.remove(i)) == views(v).remove(i),
{
    lemma_views(v);
    lemma_views(v.remove(i));
    assert(views(v.remove(i)) =~= views(v).remove(i));
}

pub proof fn lemma_views_update(v: Seq<Green>, i: int, g: Green)
    requires
        0 <= i < v.len(),
    ensures
        views(v.update(i, g)) == views(v).update(i, g@),
{
    lemma_views(v);
    lemma_views(v.update(i, g));
    assert(views(v.update(i, g)) =~= views(v).update(i, g@));
}

} // verus!
