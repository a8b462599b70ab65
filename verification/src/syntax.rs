//! Parsing a Nix file into a syntax tree, and positions ("cursors") in a tree.
use vstd::prelude::*;
use crate::strings::{inserted, occurs_in, replaced};
use crate::tree::{ints, build_at, evs, with_kids, is_node_of, kids, text, texts, tkind, walk, walks, Ev, Green, Tree, WalkEvent, NODE_ROOT};

verus! {

/// The syntax tree that the Nix parser of the `rnix` crate builds for a text.
pub uninterp spec fn nix_tree(text: Seq<char>) -> Tree;

/// The texts of the tokens entered by a walk, concatenated.
pub open spec fn event_text(es: Seq<Ev>) -> Seq<char>
    decreases es.len(),
{
    if es.len() == 0 {
        Seq::empty()
    } else {
        event_text(es.drop_last()) + match es.last() {
            Ev::EnterToken(_, s) => s,
            _ => Seq::empty(),
        }
    }
}

/// Parses `src` with `rnix::parse` and walks the root of the result in
/// pre-order, tokens included (`preorder_with_tokens`), turning each event
/// into a plain value.  Trusted: the events are the walk of the tree named
/// `nix_tree(src)`; the walk starts at the root node, whose kind is
/// `NODE_ROOT` (rnix's parser always opens one); and the tokens it enters
/// spell `src` exactly, as rnix documents: printing the tree gives back
/// the parsed text, every character of it.
#[verifier::external_body]
fn rnix_walk(src: &str) -> (ev: Vec<WalkEvent>)
    ensures
        evs(ev@) == walk(nix_tree(src@)),
        ev@.len() > 0 && ev@[0]@ == Ev::EnterNode(NODE_ROOT),
        event_text(evs(ev@)) == src@,
{
    rnix::parse(src).node().preorder_with_tokens().map(|e| match e {
        rnix::WalkEvent::Enter(rnix::NodeOrToken::Node(n)) => WalkEvent::EnterNode(n.kind() as u16),
        rnix::WalkEvent::Enter(rnix::NodeOrToken::Token(t)) => WalkEvent::EnterToken(t.kind() as u16, t.text().to_string()),
        rnix::WalkEvent::Leave(rnix::NodeOrToken::Node(_)) => WalkEvent::LeaveNode,
        rnix::WalkEvent::Leave(rnix::NodeOrToken::Token(_)) => WalkEvent::LeaveToken,
    }).collect()
}

pub proof fn lemma_event_text_concat(a: Seq<Ev>, b: Seq<Ev>)
    ensures
        event_text(a + b) == event_text(a) + event_text(b),
    decreases b.len(),
{
    if b.len() == 0 {
        assert(a + b =~= a);
        assert(event_text(b) == Seq::<char>::empty());
        assert(event_text(a) + event_text(b) =~= event_text(a));
    } else {
        lemma_event_text_concat(a, b.drop_last());
        assert((a + b).drop_last() =~= a + b.drop_last());
        assert((a + b).last() == b.last());
        assert(event_text(a) + event_text(b.drop_last()) + event_text(seq![b.last()]).subrange(0, 0)
            == event_text(a) + event_text(b.drop_last()));
    }
}

pub proof fn lemma_texts_front(cs: Seq<Tree>)
    requires
        cs.len() > 0,
    ensures
        texts(cs) == text(cs[0]) + texts(cs.drop_first()),
    decreases cs.len(),
{
    if cs.len() == 1 {
        assert(cs.drop_last() =~= Seq::<Tree>::empty());
        assert(cs.drop_first() =~= Seq::<Tree>::empty());
        assert(texts(Seq::<Tree>::empty()) == Seq::<char>::empty());
        assert(texts(cs) =~= text(cs[0]));
        assert(text(cs[0]) + texts(cs.drop_first()) =~= text(cs[0]));
    } else {
        lemma_texts_front(cs.drop_last());
        assert(cs.drop_last().drop_first() =~= cs.drop_first().drop_last());
        assert(cs.drop_first().last() == cs.last());
        assert(texts(cs) =~= text(cs[0]) + texts(cs.drop_first()));
    }
}

pub proof fn lemma_event_text_walk(t: Tree)
    ensures
        event_text(walk(t)) == text(t),
    decreases t,
{
    match t {
        Tree::Token(k, s) => {
            assert(event_text(Seq::<Ev>::empty()) =~= Seq::<char>::empty());
            assert(walk(t).drop_last() =~= seq![Ev::EnterToken(k, s)]);
            assert(seq![Ev::EnterToken(k, s)].drop_last() =~= Seq::<Ev>::empty());
            assert(event_text(seq![Ev::EnterToken(k, s)]) =~= s);
            assert(event_text(walk(t)) =~= s);
        },
        Tree::Node(k, cs) => {
            assert(event_text(Seq::<Ev>::empty()) =~= Seq::<char>::empty());
            lemma_event_text_walks(cs);
            lemma_event_text_concat(seq![Ev::EnterNode(k)], walks(cs));
            lemma_event_text_concat(seq![Ev::EnterNode(k)] + walks(cs), seq![Ev::LeaveNode]);
            assert(seq![Ev::EnterNode(k)].drop_last() =~= Seq::<Ev>::empty());
            assert(event_text(seq![Ev::EnterNode(k)]) =~= Seq::<char>::empty());
            assert(seq![Ev::LeaveNode].drop_last() =~= Seq::<Ev>::empty());
            assert(event_text(seq![Ev::LeaveNode]) =~= Seq::<char>::empty());
            assert(event_text(walk(t)) =~= texts(cs));
        },
    }
}

pub proof fn lemma_event_text_walks(cs: Seq<Tree>)
    ensures
        event_text(walks(cs)) == texts(cs),
    decreases cs,
{
    if cs.len() == 0 {
        assert(walks(cs) == Seq::<Ev>::empty());
        assert(texts(cs) == Seq::<char>::empty());
    } else {
        lemma_event_text_walk(cs[0]);
        lemma_event_text_walks(cs.drop_first());
        lemma_event_text_concat(walk(cs[0]), walks(cs.drop_first()));
        lemma_texts_front(cs);
    }
}

/// Parses a Nix text and returns its syntax tree, whose root is a
/// `NODE_ROOT` node and whose text is `src` itself.
pub fn parse_tree(src: &str) -> (g: Green)
    ensures
        g@ == nix_tree(src@),
        is_node_of(g@, NODE_ROOT),
        text(g@) == src@,
{
    let ev = rnix_walk(src);
    let ghost t = nix_tree(src@);
    proof {
        assert(evs(ev@).skip(0) =~= walk(t) + Seq::<Ev>::empty());
        lemma_event_text_walk(t);
        assert(evs(ev@)[0] == ev@[0]@);
        match t {
            Tree::Token(k, s) => {
                assert(walk(t)[0] == Ev::EnterToken(k, s));
            },
            Tree::Node(k, cs) => {
                assert(walk(t)[0] == Ev::EnterNode(k));
            },
        }
    }
    let (g, _) = build_at(&ev, 0, Ghost(t), Ghost(Seq::empty()));
    g
}

/// The element reached from `t` by following the child indices of `p`.
pub open spec fn subtree(t: Tree, p: Seq<int>) -> Tree
    decreases p.len(),
{
    if p.len() == 0 {
        t
    } else {
        subtree(kids(t)[p[0]], p.drop_first())
    }
}

/// Every index of `p` names an existing child.
pub open spec fn valid_path(t: Tree, p: Seq<int>) -> bool
    decreases p.len(),
{
    p.len() == 0 || (0 <= p[0] < kids(t).len() && valid_path(kids(t)[p[0]], p.drop_first()))
}

/// `t` with the element at `p` replaced by `n`.
pub open spec fn replace_at(t: Tree, p: Seq<int>, n: Tree) -> Tree
    decreases p.len(),
{
    if p.len() == 0 {
        n
    } else {
        with_kids(t, kids(t).update(p[0], replace_at(kids(t)[p[0]], p.drop_first(), n)))
    }
}

pub proof fn lemma_path_push(t: Tree, p: Seq<int>, j: int)
    requires
        valid_path(t, p),
    ensures
        subtree(t, p.push(j)) == kids(subtree(t, p))[j],
        valid_path(t, p.push(j)) == (0 <= j < kids(subtree(t, p)).len()),
    decreases p.len(),
{
    if p.len() == 0 {
        assert(p.push(j)[0] == j);
        assert(p.push(j).drop_first() =~= Seq::<int>::empty());
        assert(subtree(kids(t)[j], Seq::<int>::empty()) == kids(t)[j]);
        assert(valid_path(kids(t)[j], Seq::<int>::empty()));
    } else {
        assert(p.push(j)[0] == p[0]);
        lemma_path_push(kids(t)[p[0]], p.drop_first(), j);
        assert(p.push(j).drop_first() =~= p.drop_first().push(j));
    }
}

pub proof fn lemma_path_concat(t: Tree, p: Seq<int>, q: Seq<int>)
    requires
        valid_path(t, p),
        valid_path(subtree(t, p), q),
    ensures
        valid_path(t, p + q),
        subtree(t, p + q) == subtree(subtree(t, p), q),
    decreases p.len(),
{
    if p.len() == 0 {
        assert(p + q =~= q);
    } else {
        lemma_path_concat(kids(t)[p[0]], p.drop_first(), q);
        assert((p + q).drop_first() =~= p.drop_first() + q);
        assert((p + q)[0] == p[0]);
    }
}

/// Descending along a non-empty path reaches a smaller tree.
pub proof fn lemma_subtree_decreases(t: Tree, p: Seq<int>)
    requires
        valid_path(t, p),
        p.len() > 0,
    ensures
        decreases_to!(t => subtree(t, p)),
    decreases p.len(),
{
    let c = kids(t)[p[0]];
    match t {
        Tree::Node(k, cs) => {
            assert(decreases_to!(t => cs[p[0]]));
        },
        Tree::Token(_, _) => {},
    }
    if p.len() > 1 {
        lemma_subtree_decreases(c, p.drop_first());
    } else {
        assert(p.drop_first() =~= Seq::<int>::empty());
    }
}

/// A position in a syntax tree: the tree and the path from its root.
pub struct Cursor {
    pub root: Tree,
    pub path: Seq<int>,
}

impl Cursor {
    /// The element at the position.
    pub open spec fn at(self) -> Tree {
        subtree(self.root, self.path)
    }

    /// The position names a node of the tree.
    pub open spec fn wf(self) -> bool {
        valid_path(self.root, self.path) && self.at() is Node
    }

    /// The position of the `j`-th child.
    pub open spec fn child(self, j: int) -> Cursor {
        Cursor { root: self.root, path: self.path.push(j) }
    }

    /// The whole tree, with the node at this position given new children.
    pub open spec fn with_kids(self, cs: Seq<Tree>) -> Tree {
        replace_at(self.root, self.path, Tree::Node(tkind(self.at()), cs))
    }
}

/// The root position of a tree.
pub open spec fn root_cursor(t: Tree) -> Cursor {
    Cursor { root: t, path: Seq::empty() }
}

/// A node of a syntax tree together with the tree it belongs to, so that
/// replacing it yields a new tree.
pub struct SyntaxNode {
    root: Green,
    path: Vec<usize>,
}

impl View for SyntaxNode {
    type V = Cursor;

    closed spec fn view(&self) -> Cursor {
        Cursor { root: self.root@, path: ints(self.path@) }
    }
}

impl SyntaxNode {
    #[verifier::type_invariant]
    spec fn inv(self) -> bool {
        self@.wf()
    }

    /// The root node of a parsed text.
    pub fn new_root(g: Green) -> (n: SyntaxNode)
        requires
            g@ is Node,
        ensures
            n@ == root_cursor(g@),
    {
        let n = SyntaxNode { root: g, path: Vec::new() };
        proof {
            assert(n@.path =~= Seq::<int>::empty());
        }
        n
    }

    /// The green element at this position.
    pub fn green(&self) -> (g: &Green)
        ensures
            g@ == self@.at(),
            g@ is Node,
            self@.wf(),
    {
        proof {
            use_type_invariant(self);
        }
        let mut cur: &Green = &self.root;
        let mut i: usize = 0;
        proof {
            assert(self@.path.skip(0) =~= self@.path);
        }
        while i < self.path.len()
            invariant
                i <= self.path.len(),
                valid_path(cur@, self@.path.skip(i as int)),
                subtree(cur@, self@.path.skip(i as int)) == self@.at(),
                self@.path == ints(self.path@),
            decreases self.path.len() - i,
        {
            let ghost p = self@.path.skip(i as int);
            proof {
                assert(p[0] == self.path@[i as int] as int);
                assert(p.drop_first() =~= self@.path.skip(i + 1));
            }
            cur = cur.child(self.path[i]);
            i = i + 1;
        }
        proof {
            assert(self@.path.skip(i as int) =~= Seq::<int>::empty());
        }
        cur
    }

    pub fn kind(&self) -> (k: u16)
        ensures
            k == tkind(self@.at()),
    {
        self.green().kind()
    }

    /// The text this node spans.
    pub fn to_text(&self) -> (s: String)
        ensures
            s@ == text(self@.at()),
    {
        self.green().to_text()
    }

    /// The node at the end of the relative path `rel` from this node.
    pub fn descend(&self, rel: &Vec<usize>) -> (c: SyntaxNode)
        requires
            valid_path(self@.at(), ints(rel@)),
            subtree(self@.at(), ints(rel@)) is Node,
        ensures
            c@ == (Cursor { root: self@.root, path: self@.path + ints(rel@) }),
            c@.at() == subtree(self@.at(), ints(rel@)),
    {
        proof {
            use_type_invariant(self);
            lemma_path_concat(self@.root, self@.path, ints(rel@));
        }
        let mut path = self.path.clone();
        let mut r = rel.clone();
        path.append(&mut r);
        proof {
            assert(ints(path@) =~= self@.path + ints(rel@));
        }
        SyntaxNode { root: self.root.deep_clone(), path }
    }

    /// The node at the `j`-th child position.
    pub fn child_node(&self, j: usize) -> (c: SyntaxNode)
        requires
            j < kids(self@.at()).len(),
            kids(self@.at())[j as int] is Node,
        ensures
            c@ == self@.child(j as int),
            c@.at() == kids(self@.at())[j as int],
    {
        proof {
            use_type_invariant(self);
            lemma_path_push(self@.root, self@.path, j as int);
        }
        let mut path = self.path.clone();
        path.push(j);
        proof {
            assert(ints(path@) =~= self@.path.push(j as int));
        }
        SyntaxNode { root: self.root.deep_clone(), path }
    }
}


impl SyntaxNode {
    /// Is this the root of its tree?
    pub fn is_root(&self) -> (b: bool)
        ensures
            b == (self@.path.len() == 0),
    {
        self.path.len() == 0
    }

    /// Do the two nodes belong to equal trees?
    pub fn same_tree(&self, other: &SyntaxNode) -> (b: bool)
        ensures
            b == (self@.root == other@.root),
    {
        self.root.same(&other.root)
    }

    /// The node that holds this one, and the position of this one among its
    /// children.
    pub fn parent(&self) -> (r: (SyntaxNode, usize))
        requires
            self@.path.len() > 0,
        ensures
            r.0@ == (Cursor { root: self@.root, path: self@.path.drop_last() }),
            r.1 as int == self@.path.last(),
            r.1 < kids(r.0@.at()).len(),
            kids(r.0@.at())[r.1 as int] == self@.at(),
    {
        proof {
            use_type_invariant(self);
            lemma_path_prefix(self@.root, self@.path);
        }
        let mut path = self.path.clone();
        let j = match path.pop() {
            Some(j) => j,
            None => 0,
        };
        proof {
            assert(ints(path@) =~= self@.path.drop_last());
            assert(self@.path =~= self@.path.drop_last().push(j as int));
            lemma_path_push(self@.root, self@.path.drop_last(), j as int);
        }
        (SyntaxNode { root: self.root.deep_clone(), path }, j)
    }
}

/// A path whose last step names a child leads, without that step, to a
/// node.
pub proof fn lemma_path_prefix(t: Tree, p: Seq<int>)
    requires
        valid_path(t, p),
        p.len() > 0,
    ensures
        valid_path(t, p.drop_last()),
        subtree(t, p.drop_last()) is Node,
    decreases p.len(),
{
    if p.len() == 1 {
        assert(p.drop_last() =~= Seq::<int>::empty());
        match t {
            Tree::Node(_, _) => {},
            Tree::Token(_, _) => {},
        }
    } else {
        lemma_path_prefix(kids(t)[p[0]], p.drop_first());
        assert(p.drop_last().drop_first() =~= p.drop_first().drop_last());
        assert(p.drop_last()[0] == p[0]);
    }
}

/// `g` with the element at `path[i..]` replaced by `rep`.
fn rebuild(g: &Green, path: &Vec<usize>, i: usize, rep: Green) -> (r: Green)
    requires
        i <= path.len(),
        valid_path(g@, ints(path@).skip(i as int)),
    ensures
        r@ == replace_at(g@, ints(path@).skip(i as int), rep@),
    decreases path.len() - i,
{
    let ghost p = ints(path@).skip(i as int);
    if i == path.len() {
        proof {
            assert(p =~= Seq::<int>::empty());
        }
        return rep;
    }
    proof {
        assert(p[0] == path@[i as int] as int);
        assert(p.drop_first() =~= ints(path@).skip(i + 1));
    }
    let j = path[i];
    let sub = rebuild(g.child(j), path, i + 1, rep);
    let mut cs = g.children_clone();
    proof {
        crate::tree::lemma_views_update(cs@, j as int, sub);
    }
    cs.set(j, sub);
    g.with_children(cs)
}

impl SyntaxNode {
    /// The tree with this node replaced by `replacement`, which keeps the
    /// kind of this node (rowan's `replace_with`).
    pub fn replace_with(&self, replacement: Green) -> (r: Green)
        requires
            replacement@ is Node,
        ensures
            r@ == replace_at(self@.root, self@.path, replacement@),
    {
        proof {
            use_type_invariant(self);
            assert(ints(self.path@).skip(0) =~= ints(self.path@));
        }
        rebuild(&self.root, &self.path, 0, replacement)
    }
}


// ---------------------------------------------------------------- text of edits

pub proof fn lemma_texts_concat(a: Seq<Tree>, b: Seq<Tree>)
    ensures
        texts(a + b) == texts(a) + texts(b),
    decreases b.len(),
{
    if b.len() == 0 {
        assert(a + b =~= a);
        assert(texts(b) == Seq::<char>::empty());
        assert(texts(a) + texts(b) =~= texts(a));
    } else {
        lemma_texts_concat(a, b.drop_last());
        assert((a + b).drop_last() =~= a + b.drop_last());
        assert((a + b).last() == b.last());
        assert(texts(a + b) =~= texts(a) + texts(b));
    }
}

pub proof fn lemma_texts_one(x: Tree)
    ensures
        texts(seq![x]) == text(x),
{
    assert(seq![x].drop_last() =~= Seq::<Tree>::empty());
    assert(texts(Seq::<Tree>::empty()) == Seq::<char>::empty());
    assert(texts(seq![x]) =~= text(x));
}

/// The texts of the children split around child `i`.
pub proof fn lemma_texts_split(cs: Seq<Tree>, i: int)
    requires
        0 <= i < cs.len(),
    ensures
        texts(cs) == texts(cs.take(i)) + text(cs[i]) + texts(cs.skip(i + 1)),
        texts(cs.remove(i)) == texts(cs.take(i)) + texts(cs.skip(i + 1)),
        forall|x: Tree| #[trigger] texts(cs.update(i, x)) == texts(cs.take(i)) + text(x) + texts(cs.skip(i + 1)),
{
    assert(cs =~= cs.take(i) + seq![cs[i]] + cs.skip(i + 1));
    lemma_texts_concat(cs.take(i) + seq![cs[i]], cs.skip(i + 1));
    lemma_texts_concat(cs.take(i), seq![cs[i]]);
    lemma_texts_one(cs[i]);
    assert(cs.remove(i) =~= cs.take(i) + cs.skip(i + 1));
    lemma_texts_concat(cs.take(i), cs.skip(i + 1));
    assert forall|x: Tree| #[trigger] texts(cs.update(i, x)) == texts(cs.take(i)) + text(x) + texts(cs.skip(i + 1)) by {
        assert(cs.update(i, x) =~= cs.take(i) + seq![x] + cs.skip(i + 1));
        lemma_texts_concat(cs.take(i) + seq![x], cs.skip(i + 1));
        lemma_texts_concat(cs.take(i), seq![x]);
        lemma_texts_one(x);
    }
}

/// The texts of the children with `x` inserted at `i`.
pub proof fn lemma_texts_insert(cs: Seq<Tree>, i: int, x: Tree)
    requires
        0 <= i <= cs.len(),
    ensures
        texts(cs) == texts(cs.take(i)) + texts(cs.skip(i)),
        texts(cs.insert(i, x)) == texts(cs.take(i)) + text(x) + texts(cs.skip(i)),
{
    assert(cs =~= cs.take(i) + cs.skip(i));
    lemma_texts_concat(cs.take(i), cs.skip(i));
    assert(cs.insert(i, x) =~= cs.take(i) + seq![x] + cs.skip(i));
    lemma_texts_concat(cs.take(i) + seq![x], cs.skip(i));
    lemma_texts_concat(cs.take(i), seq![x]);
    lemma_texts_one(x);
}

/// The text before the element at `p`.
pub open spec fn pre_text(t: Tree, p: Seq<int>) -> Seq<char>
    decreases p.len(),
{
    if p.len() == 0 {
        Seq::empty()
    } else {
        texts(kids(t).take(p[0])) + pre_text(kids(t)[p[0]], p.drop_first())
    }
}

/// The text after the element at `p`.
pub open spec fn post_text(t: Tree, p: Seq<int>) -> Seq<char>
    decreases p.len(),
{
    if p.len() == 0 {
        Seq::empty()
    } else {
        post_text(kids(t)[p[0]], p.drop_first()) + texts(kids(t).skip(p[0] + 1))
    }
}

/// The text of a tree is the text before an element, the element's, and
/// the text after it; replacing the element replaces only its part.
pub proof fn lemma_text_path(t: Tree, p: Seq<int>, n: Tree)
    requires
        valid_path(t, p),
    ensures
        text(t) == pre_text(t, p) + text(subtree(t, p)) + post_text(t, p),
        text(replace_at(t, p, n)) == pre_text(t, p) + text(n) + post_text(t, p),
    decreases p.len(),
{
    if p.len() == 0 {
        assert(pre_text(t, p) == Seq::<char>::empty());
        assert(post_text(t, p) == Seq::<char>::empty());
        assert(text(t) =~= pre_text(t, p) + text(subtree(t, p)) + post_text(t, p));
        assert(text(n) =~= pre_text(t, p) + text(n) + post_text(t, p));
    } else {
        let cs = kids(t);
        let i = p[0];
        let c = cs[i];
        lemma_text_path(c, p.drop_first(), n);
        lemma_texts_split(cs, i);
        let r = replace_at(c, p.drop_first(), n);
        assert(texts(cs.update(i, r)) == texts(cs.take(i)) + text(r) + texts(cs.skip(i + 1)));
        match t {
            Tree::Node(k, cs0) => {
                assert(text(t) == texts(cs));
                assert(replace_at(t, p, n) == Tree::Node(k, cs.update(i, r)));
                assert(text(replace_at(t, p, n)) == texts(cs.update(i, r)));
            },
            Tree::Token(_, _) => {},
        }
        assert(text(t) =~= pre_text(t, p) + text(subtree(t, p)) + post_text(t, p));
        assert(text(replace_at(t, p, n)) =~= pre_text(t, p) + text(n) + post_text(t, p));
    }
}

/// Giving the node at `c` new children changes only the text of its
/// children.
pub proof fn lemma_with_kids_text(c: Cursor, cs2: Seq<Tree>)
    requires
        c.wf(),
    ensures
        text(c.root) == pre_text(c.root, c.path) + texts(kids(c.at())) + post_text(c.root, c.path),
        text(c.with_kids(cs2)) == pre_text(c.root, c.path) + texts(cs2) + post_text(c.root, c.path),
{
    lemma_text_path(c.root, c.path, Tree::Node(tkind(c.at()), cs2));
    match c.at() {
        Tree::Node(k, cs) => {},
        Tree::Token(_, _) => {},
    }
}

/// Putting a child in at `i` puts its text in the text of the tree, and
/// changes nothing else.
pub proof fn lemma_insert_kid_text(c: Cursor, i: int, x: Tree)
    requires
        c.wf(),
        0 <= i <= kids(c.at()).len(),
    ensures
        inserted(text(c.root), text(x), text(c.with_kids(kids(c.at()).insert(i, x)))),
{
    let cs = kids(c.at());
    lemma_with_kids_text(c, cs.insert(i, x));
    lemma_texts_insert(cs, i, x);
    let p = pre_text(c.root, c.path);
    let q = post_text(c.root, c.path);
    let a = texts(cs.take(i));
    let b = texts(cs.skip(i));
    let f = text(c.root);
    let s = text(c.with_kids(cs.insert(i, x)));
    let n = (p + a).len() as int;
    assert(f =~= (p + a) + (b + q));
    assert(f.take(n) =~= p + a);
    assert(f.skip(n) =~= b + q);
    assert(s =~= f.take(n) + text(x) + f.skip(n));
}

/// Taking child `i` out takes its text out of the text of the tree, and
/// changes nothing else.
pub proof fn lemma_remove_kid_text(c: Cursor, i: int)
    requires
        c.wf(),
        0 <= i < kids(c.at()).len(),
    ensures
        inserted(text(c.with_kids(kids(c.at()).remove(i))), text(kids(c.at())[i]), text(c.root)),
{
    let cs = kids(c.at());
    lemma_with_kids_text(c, cs.remove(i));
    lemma_texts_split(cs, i);
    let p = pre_text(c.root, c.path);
    let q = post_text(c.root, c.path);
    let a = texts(cs.take(i));
    let b = texts(cs.skip(i + 1));
    let f = text(c.root);
    let s = text(c.with_kids(cs.remove(i)));
    let n = (p + a).len() as int;
    assert(s =~= (p + a) + (b + q));
    assert(s.take(n) =~= p + a);
    assert(s.skip(n) =~= b + q);
    assert(f =~= s.take(n) + text(cs[i]) + s.skip(n));
}

/// Taking element `i` out of a sequence takes its text out of the texts.
pub proof fn lemma_texts_remove(cs: Seq<Tree>, i: int)
    requires
        0 <= i < cs.len(),
    ensures
        inserted(texts(cs.remove(i)), text(cs[i]), texts(cs)),
{
    lemma_texts_split(cs, i);
    let a = texts(cs.take(i));
    let b = texts(cs.skip(i + 1));
    let s = texts(cs.remove(i));
    let n = a.len() as int;
    assert(s =~= a + b);
    assert(s.take(n) =~= a);
    assert(s.skip(n) =~= b);
    assert(texts(cs) =~= s.take(n) + text(cs[i]) + s.skip(n));
}

/// Putting `x` in place of child `i` replaces the child's text by the text
/// of `x`, and changes nothing else.
pub proof fn lemma_update_kid_text(c: Cursor, i: int, x: Tree)
    requires
        c.wf(),
        0 <= i < kids(c.at()).len(),
    ensures
        replaced(text(c.root), text(kids(c.at())[i]), text(x), text(c.with_kids(kids(c.at()).update(i, x)))),
{
    let cs = kids(c.at());
    lemma_with_kids_text(c, cs.update(i, x));
    lemma_texts_split(cs, i);
    assert(texts(cs.update(i, x)) == texts(cs.take(i)) + text(x) + texts(cs.skip(i + 1)));
    let p = pre_text(c.root, c.path);
    let q = post_text(c.root, c.path);
    let a = texts(cs.take(i));
    let b = texts(cs.skip(i + 1));
    let o = text(cs[i]);
    let f = text(c.root);
    let s = text(c.with_kids(cs.update(i, x)));
    let n = (p + a).len() as int;
    let m = n + o.len();
    assert(f =~= (p + a) + o + (b + q));
    assert(f.take(n) =~= p + a);
    assert(f.subrange(n, m) =~= o);
    assert(f.skip(m) =~= b + q);
    assert(s =~= f.take(n) + text(x) + f.skip(m));
}

/// The text of an element occurs in the texts of a sequence holding it.
pub proof fn lemma_texts_kid_occurs(cs: Seq<Tree>, i: int)
    requires
        0 <= i < cs.len(),
    ensures
        occurs_in(text(cs[i]), texts(cs)),
{
    lemma_texts_split(cs, i);
    let a = texts(cs.take(i));
    let o = text(cs[i]);
    let f = texts(cs);
    assert(f.subrange(a.len() as int, (a.len() + o.len()) as int) =~= o);
}

/// The text of the element at a position occurs in the text of the tree.
pub proof fn lemma_at_occurs(t: Tree, p: Seq<int>)
    requires
        valid_path(t, p),
    ensures
        occurs_in(text(subtree(t, p)), text(t)),
{
    lemma_text_path(t, p, subtree(t, p));
    let a = pre_text(t, p);
    let o = text(subtree(t, p));
    let f = text(t);
    assert(f.subrange(a.len() as int, (a.len() + o.len()) as int) =~= o);
}

/// The text of a child of a node occurs in the text of the tree.
pub proof fn lemma_kid_occurs(c: Cursor, i: int)
    requires
        c.wf(),
        0 <= i < kids(c.at()).len(),
    ensures
        occurs_in(text(kids(c.at())[i]), text(c.root)),
{
    let cs = kids(c.at());
    lemma_with_kids_text(c, cs);
    lemma_texts_split(cs, i);
    let p = pre_text(c.root, c.path);
    let q = post_text(c.root, c.path);
    let a = texts(cs.take(i));
    let b = texts(cs.skip(i + 1));
    let o = text(cs[i]);
    let f = text(c.root);
    let n = (p + a).len() as int;
    let m = n + o.len();
    assert(f =~= (p + a) + o + (b + q));
    assert(f.subrange(n, m) =~= o);
}

} // verus!
