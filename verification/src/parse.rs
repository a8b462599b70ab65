//! Finding attributes in the syntax tree of a Nix file.
use vstd::prelude::*;
use crate::strings::{first_match, join_dot, split_dot, strs};
use crate::syntax::{lemma_path_concat, lemma_path_push, lemma_subtree_decreases, nix_tree, subtree, valid_path, Cursor, SyntaxNode};
use crate::tree::{ints, is_node_of, kids, node_pos, lemma_node_pos, text, tkind, Green, Tree, NODE_ATTR_SET, NODE_IDENT, NODE_KEY, NODE_KEY_VALUE};

verus! {

/// The texts of the `NODE_IDENT` children, in order: the parts of an
/// attribute path such as `a.b.c` (parts written as strings are left out).
pub open spec fn ident_texts(cs: Seq<Tree>) -> Seq<Seq<char>>
    decreases cs.len(),
{
    if cs.len() == 0 {
        Seq::empty()
    } else {
        let p = ident_texts(cs.drop_last());
        if is_node_of(cs.last(), NODE_IDENT) {
            p.push(text(cs.last()))
        } else {
            p
        }
    }
}

/// The first child at or after `j` that is a node of kind `k`.
pub open spec fn first_kind_from(cs: Seq<Tree>, k: u16, j: int) -> Option<int>
    decreases cs.len() - j,
{
    if j < 0 || j >= cs.len() {
        None
    } else if is_node_of(cs[j], k) {
        Some(j)
    } else {
        first_kind_from(cs, k, j + 1)
    }
}

/// Path from a node to the attribute set that `getcfgbase` picks: the node
/// itself if it is one, else its first child that is one, else the first
/// such set found under its children, in order.
pub open spec fn cfg_rel(t: Tree) -> Option<Seq<int>>
    decreases t, 1int,
{
    match t {
        Tree::Token(_, _) => None,
        Tree::Node(k, cs) => {
            if k == NODE_ATTR_SET {
                Some(Seq::empty())
            } else {
                match first_kind_from(cs, NODE_ATTR_SET, 0) {
                    Some(j) => Some(seq![j]),
                    None => cfg_search(cs, 0),
                }
            }
        },
    }
}

pub open spec fn cfg_search(cs: Seq<Tree>, j: int) -> Option<Seq<int>>
    decreases cs, cs.len() - j,
{
    if j < 0 || j >= cs.len() {
        None
    } else if cs[j] is Node && cfg_rel(cs[j]) is Some {
        Some(seq![j] + cfg_rel(cs[j])->0)
    } else {
        cfg_search(cs, j + 1)
    }
}

/// The attribute set that `getcfgbase` finds from a position.
pub open spec fn cfgbase(c: Cursor) -> Option<Cursor> {
    match cfg_rel(c.at()) {
        Some(r) => Some(Cursor { root: c.root, path: c.path + r }),
        None => None,
    }
}

pub proof fn lemma_first_kind_from(cs: Seq<Tree>, k: u16, j: int)
    ensures
        first_kind_from(cs, k, j) matches Some(i) ==> j <= i < cs.len() && is_node_of(cs[i], k),
    decreases cs.len() - j,
{
    if 0 <= j < cs.len() && !is_node_of(cs[j], k) {
        lemma_first_kind_from(cs, k, j + 1);
    }
}

pub proof fn lemma_cfg_rel(t: Tree)
    ensures
        cfg_rel(t) matches Some(r) ==> valid_path(t, r) && is_node_of(subtree(t, r), NODE_ATTR_SET),
    decreases t, 1int,
{
    match t {
        Tree::Token(_, _) => {},
        Tree::Node(k, cs) => {
            if k != NODE_ATTR_SET {
                lemma_first_kind_from(cs, NODE_ATTR_SET, 0);
                match first_kind_from(cs, NODE_ATTR_SET, 0) {
                    Some(j) => {
                        let r = seq![j];
                        assert(cfg_rel(t) == Some(r));
                        assert(r.drop_first() =~= Seq::<int>::empty());
                        assert(valid_path(cs[j], r.drop_first()));
                        assert(valid_path(t, r));
                        assert(subtree(t, r) == subtree(cs[j], Seq::<int>::empty()));
                    },
                    None => {
                        lemma_cfg_search(cs, 0);
                        assert(cfg_rel(t) == cfg_search(cs, 0));
                        if let Some(r) = cfg_search(cs, 0) {
                            assert(valid_path(t, r));
                            assert(subtree(t, r) == subtree(cs[r[0]], r.drop_first()));
                        }
                    },
                }
            }
        },
    }
}

pub proof fn lemma_cfg_search(cs: Seq<Tree>, j: int)
    ensures
        cfg_search(cs, j) matches Some(r) ==> r.len() > 0 && 0 <= r[0] < cs.len()
            && valid_path(cs[r[0]], r.drop_first())
            && is_node_of(subtree(cs[r[0]], r.drop_first()), NODE_ATTR_SET),
    decreases cs, cs.len() - j,
{
    if 0 <= j < cs.len() {
        if cs[j] is Node && cfg_rel(cs[j]) is Some {
            lemma_cfg_rel(cs[j]);
            let r = seq![j] + cfg_rel(cs[j])->0;
            assert(r.drop_first() =~= cfg_rel(cs[j])->0);
        } else {
            lemma_cfg_search(cs, j + 1);
        }
    }
}

pub proof fn lemma_cfg_rel_root(t: Tree)
    requires
        t is Node,
    ensures
        cfg_rel(t) matches Some(r) ==> valid_path(t, r) && is_node_of(subtree(t, r), NODE_ATTR_SET),
        cfg_rel(t) == (match t {
            Tree::Node(k, cs) => if k == NODE_ATTR_SET { Some(Seq::<int>::empty()) } else {
                match first_kind_from(cs, NODE_ATTR_SET, 0) {
                    Some(j) => Some(seq![j]),
                    None => cfg_search(cs, 0),
                }
            },
            _ => None,
        }),
{
    lemma_cfg_rel(t);
}

pub proof fn lemma_cfgbase(c: Cursor)
    requires
        c.wf(),
    ensures
        cfgbase(c) matches Some(b) ==> b.wf() && b.root == c.root && is_node_of(b.at(), NODE_ATTR_SET),
{
    lemma_cfg_rel(c.at());
    if let Some(r) = cfg_rel(c.at()) {
        lemma_path_concat(c.root, c.path, r);
    }
}

/// `cfg_rel`, computed.
pub(crate) fn cfg_rel_exec(g: &Green) -> (r: Option<Vec<usize>>)
    ensures
        r matches Some(v) ==> cfg_rel(g@) == Some(ints(v@)),
        r is None ==> cfg_rel(g@) is None,
    decreases g@, 1int,
{
    proof {
        lemma_cfg_rel(g@);
    }
    if !g.is_node() {
        return None;
    }
    proof {
        lemma_cfg_rel_root(g@);
    }
    if g.kind() == NODE_ATTR_SET {
        let v: Vec<usize> = Vec::new();
        proof {
            assert(ints(v@) =~= Seq::<int>::empty());
        }
        return Some(v);
    }
    let n = g.len();
    let ghost cs = kids(g@);
    let mut i: usize = 0;
    while i < n
        invariant
            g@ is Node,
            tkind(g@) != NODE_ATTR_SET,
            n == cs.len(),
            cs == kids(g@),
            i <= n,
            first_kind_from(cs, NODE_ATTR_SET, 0) == first_kind_from(cs, NODE_ATTR_SET, i as int),
        decreases n - i,
    {
        let c = g.child(i);
        if c.is_node() && c.kind() == NODE_ATTR_SET {
            let mut v: Vec<usize> = Vec::new();
            v.push(i);
            proof {
                assert(ints(v@) =~= seq![i as int]);
                assert(is_node_of(cs[i as int], NODE_ATTR_SET));
                assert(first_kind_from(cs, NODE_ATTR_SET, i as int) == Some(i as int));
                assert(tkind(g@) != NODE_ATTR_SET);
                assert(cfg_rel(g@) == Some(seq![i as int]));
            }
            return Some(v);
        }
        i = i + 1;
    }
    let mut i: usize = 0;
    while i < n
        invariant
            g@ is Node,
            tkind(g@) != NODE_ATTR_SET,
            n == cs.len(),
            cs == kids(g@),
            i <= n,
            first_kind_from(cs, NODE_ATTR_SET, 0) is None,
            cfg_rel(g@) == cfg_search(cs, i as int),
        decreases n - i,
    {
        let c = g.child(i);
        if c.is_node() {
            proof {
                assert(decreases_to!(g@ => cs[i as int]));
            }
            match cfg_rel_exec(c) {
                Some(sub) => {
                    let mut v: Vec<usize> = Vec::new();
                    v.push(i);
                    let mut sub = sub;
                    v.append(&mut sub);
                    proof {
                        assert(ints(v@) =~= seq![i as int] + cfg_rel(c@)->0);
                    }
                    return Some(v);
                },
                None => {},
            }
        }
        i = i + 1;
    }
    None
}

/// The attribute set that holds the configuration: the node itself if it
/// is an attribute set, else the first one found below it.
pub fn getcfgbase(node: &SyntaxNode) -> (r: Option<SyntaxNode>)
    ensures
        r matches Some(b) ==> cfgbase(node@) == Some(b@) && is_node_of(b@.at(), NODE_ATTR_SET) && b@.root == node@.root,
        r is None ==> cfgbase(node@) is None,
{
    let g = node.green();
    proof {
        lemma_cfg_rel(node@.at());
        lemma_cfgbase(node@);
    }
    match cfg_rel_exec(g) {
        Some(rel) => Some(node.descend(&rel)),
        None => None,
    }
}

/// The texts of the `NODE_IDENT` children of an element.
pub fn ident_texts_exec(g: &Green) -> (key: Vec<String>)
    ensures
        strs(key@) == ident_texts(kids(g@)),
{
    let n = g.len();
    let ghost cs = kids(g@);
    let mut key: Vec<String> = Vec::new();
    let mut i: usize = 0;
    while i < n
        invariant
            n == cs.len(),
            cs == kids(g@),
            i <= n,
            strs(key@) == ident_texts(cs.take(i as int)),
        decreases n - i,
    {
        proof {
            assert(cs.take(i + 1).drop_last() =~= cs.take(i as int));
            assert(cs.take(i + 1).last() == cs[i as int]);
        }
        let c = g.child(i);
        if c.is_node() && c.kind() == NODE_IDENT {
            key.push(c.to_text());
            proof {
                assert(strs(key@) =~= ident_texts(cs.take(i as int)).push(text(cs[i as int])));
            }
        }
        i = i + 1;
    }
    proof {
        assert(cs.take(n as int) =~= cs);
    }
    key
}

/// The parts of the attribute path held by a `NODE_KEY` node: the texts
/// of its identifier children, in order.
pub fn getkey(node: &SyntaxNode) -> (key: Vec<String>)
    ensures
        strs(key@) == ident_texts(kids(node@.at())),
{
    ident_texts_exec(node.green())
}


/// A pair of texts: the key and the value of one binding.
pub open spec fn pairs(v: Seq<(String, String)>) -> Seq<(Seq<char>, Seq<char>)> {
    v.map_values(|e: (String, String)| (e.0@, e.1@))
}

/// The bindings of an attribute set, as `findattr` lists them: for each
/// child node, the text up to the end of its second-to-last child node
/// (the key) and the text of its last child node (the value).  `None` when
/// a child has fewer than two child nodes (there is then no child before
/// the last to be the key).
pub open spec fn set_entries(x: Tree, m: int, acc: Seq<(Seq<char>, Seq<char>)>) -> Option<Seq<(Seq<char>, Seq<char>)>>
    decreases node_pos(kids(x)).len() - m,
{
    let ps = node_pos(kids(x));
    if m < 0 || m >= ps.len() {
        Some(acc)
    } else {
        let n = kids(x)[ps[m]];
        let qs = node_pos(kids(n));
        if qs.len() < 2 {
            None
        } else {
            let k = kids(n)[qs[qs.len() - 2]];
            let v = kids(n)[qs.last()];
            match first_match(text(n), text(k)) {
                None => None,
                Some(f) => set_entries(x, m + 1, acc.push((text(n).take(f + text(k).len()), text(v)))),
            }
        }
    }
}

/// The outcome of looking at one key of the scanned attribute set.
pub enum Scan {
    /// The attribute was found at this position.
    Found(Cursor),
    /// Keep scanning, with these collected bindings.
    Go(Seq<(Seq<char>, Seq<char>)>),
    /// The lookup is undefined here.
    Abort,
}

/// The lines of the rebuilt attribute set, `  key = value;`, separated by
/// line breaks.
pub open spec fn entry_lines(acc: Seq<(Seq<char>, Seq<char>)>) -> Seq<char>
    decreases acc.len(),
{
    if acc.len() == 0 {
        Seq::empty()
    } else if acc.len() == 1 {
        "  "@ + acc[0].0 + " = "@ + acc[0].1 + ";"@
    } else {
        entry_lines(acc.drop_last()) + "\n"@ + "  "@ + acc.last().0 + " = "@ + acc.last().1 + ";"@
    }
}

/// The Nix text that `findattr` writes to gather the bindings below `name`
/// into one attribute set.
pub open spec fn synth_text(name: Seq<char>, acc: Seq<(Seq<char>, Seq<char>)>) -> Seq<char> {
    if acc.len() == 1 {
        "{"@ + name + " = { "@ + acc[0].0 + " = "@ + acc[0].1 + "; }; }"@
    } else {
        "{ "@ + name + " = {\n"@ + entry_lines(acc) + "\n}; }"@
    }
}

/// The end of `findattr`: no binding collected gives `None`; else the
/// binding of the first attribute set of the parsed `synth_text`.
pub open spec fn fa_finish(name: Seq<char>, acc: Seq<(Seq<char>, Seq<char>)>) -> Option<Option<Cursor>> {
    if acc.len() == 0 {
        Some(None)
    } else {
        let t = nix_tree(synth_text(name, acc));
        let ps = node_pos(kids(t));
        if ps.len() == 0 {
            Some(None)
        } else {
            let x = kids(t)[ps[0]];
            let qs = node_pos(kids(x));
            if !is_node_of(x, NODE_ATTR_SET) || qs.len() == 0 {
                Some(None)
            } else if is_node_of(kids(x)[qs[0]], NODE_KEY_VALUE) {
                Some(Some(Cursor { root: t, path: seq![ps[0], qs[0]] }))
            } else {
                Some(None)
            }
        }
    }
}

/// The position reached from `base` through child `j`, then `rel`.
pub open spec fn sub_cursor(base: Cursor, j: int, rel: Seq<int>) -> Cursor {
    Cursor { root: base.root, path: base.path.push(j) + rel }
}

/// What `findattr` does with the binding at child `j` of `base` whose key
/// has the parts `key`, looking for the path `qkey`.
pub open spec fn fa_pair(base: Cursor, qkey: Seq<Seq<char>>, j: int, key: Seq<Seq<char>>, acc: Seq<(Seq<char>, Seq<char>)>) -> Scan
    decreases base.at(), 0int, 0int, 0int,
{
    let child = kids(base.at())[j];
    let qs = node_pos(kids(child));
    if qkey == key {
        if first_kind_from(kids(child), NODE_ATTR_SET, 0) is Some {
            let x = kids(child)[qs.last()];
            if is_node_of(x, NODE_ATTR_SET) {
                match set_entries(x, 0, acc) {
                    Some(a) => Scan::Go(a),
                    None => Scan::Abort,
                }
            } else {
                Scan::Go(acc)
            }
        } else {
            Scan::Found(base.child(j))
        }
    } else if qkey.len() > key.len() {
        if key == qkey.take(key.len() as int) {
            match cfg_rel(child) {
                Some(rel) => {
                    if valid_path(base.root, base.path) && 0 <= j < kids(base.at()).len() {
                        let nb = sub_cursor(base, j, rel);
                        proof {
                            lemma_fa_pair_decreases(base, j, rel);
                        }
                        match findattr_spec(nb, join_dot(qkey.skip(key.len() as int))) {
                            None => Scan::Abort,
                            Some(Some(x)) => Scan::Found(x),
                            Some(None) => Scan::Go(acc),
                        }
                    } else {
                        Scan::Go(acc)
                    }
                },
                None => Scan::Go(acc),
            }
        } else {
            Scan::Go(acc)
        }
    } else if qkey.len() < key.len() && qkey == key.take(qkey.len() as int) {
        if qs.len() > 0 {
            Scan::Go(acc.push((join_dot(key.skip(qkey.len() as int)), text(kids(child)[qs.last()]))))
        } else {
            Scan::Go(acc)
        }
    } else {
        Scan::Go(acc)
    }
}

/// `findattr`'s walk over the keys of the bindings of `base`, from the
/// `m2`-th child node of its `m`-th child node on.
pub open spec fn fa_scan(base: Cursor, qkey: Seq<Seq<char>>, name: Seq<char>, m: int, m2: int, acc: Seq<(Seq<char>, Seq<char>)>) -> Option<Option<Cursor>>
    decreases base.at(), 1int,
        node_pos(kids(base.at())).len() - m,
        node_pos(kids(kids(base.at())[node_pos(kids(base.at()))[m]])).len() - m2,
{
    let ps = node_pos(kids(base.at()));
    if m < 0 || m >= ps.len() {
        fa_finish(name, acc)
    } else {
        let j = ps[m];
        let child = kids(base.at())[j];
        let qs = node_pos(kids(child));
        if !is_node_of(child, NODE_KEY_VALUE) || m2 < 0 || m2 >= qs.len() {
            fa_scan(base, qkey, name, m + 1, 0, acc)
        } else {
            let sub = kids(child)[qs[m2]];
            if is_node_of(sub, NODE_KEY) {
                match fa_pair(base, qkey, j, ident_texts(kids(sub)), acc) {
                    Scan::Found(x) => Some(Some(x)),
                    Scan::Abort => None,
                    Scan::Go(a) => fa_scan(base, qkey, name, m, m2 + 1, a),
                }
            } else {
                fa_scan(base, qkey, name, m, m2 + 1, acc)
            }
        }
    }
}

/// What `findattr` returns for `name` in the attribute set at `base`:
/// `None` where it is undefined, else its result.
pub open spec fn findattr_spec(base: Cursor, name: Seq<char>) -> Option<Option<Cursor>>
    decreases base.at(), 2int, 0int, 0int,
{
    fa_scan(base, split_dot(name), name, 0, 0, Seq::empty())
}

/// Some binding of the attribute set at `base` matches the path `name`:
/// its key path is `name`'s parts or extends them, or its key path is a
/// proper prefix of them and the attribute set of the binding holds a
/// binding matching the rest of the path.
pub open spec fn has_match(base: Cursor, name: Seq<char>) -> bool
    decreases base.at(), 2int, 0int, 0int,
{
    match_scan(base, split_dot(name), 0, 0)
}

/// `has_match` for the keys from the `m2`-th child node of the `m`-th child
/// node of `base` on.
pub open spec fn match_scan(base: Cursor, qkey: Seq<Seq<char>>, m: int, m2: int) -> bool
    decreases base.at(), 1int,
        node_pos(kids(base.at())).len() - m,
        node_pos(kids(kids(base.at())[node_pos(kids(base.at()))[m]])).len() - m2,
{
    let ps = node_pos(kids(base.at()));
    if m < 0 || m >= ps.len() {
        false
    } else {
        let j = ps[m];
        let child = kids(base.at())[j];
        let qs = node_pos(kids(child));
        if !is_node_of(child, NODE_KEY_VALUE) || m2 < 0 || m2 >= qs.len() {
            match_scan(base, qkey, m + 1, 0)
        } else {
            let sub = kids(child)[qs[m2]];
            if is_node_of(sub, NODE_KEY) {
                match_pair(base, qkey, j, ident_texts(kids(sub))) || match_scan(base, qkey, m, m2 + 1)
            } else {
                match_scan(base, qkey, m, m2 + 1)
            }
        }
    }
}

/// Does the key path `key` of the binding at child `j` of `base` match the
/// path `qkey`?
pub open spec fn match_pair(base: Cursor, qkey: Seq<Seq<char>>, j: int, key: Seq<Seq<char>>) -> bool
    decreases base.at(), 0int, 0int, 0int,
{
    let child = kids(base.at())[j];
    if qkey == key {
        true
    } else if qkey.len() > key.len() {
        if key == qkey.take(key.len() as int) {
            match cfg_rel(child) {
                Some(rel) => if valid_path(base.root, base.path) && 0 <= j < kids(base.at()).len() {
                    proof {
                        lemma_fa_pair_decreases(base, j, rel);
                    }
                    has_match(sub_cursor(base, j, rel), join_dot(qkey.skip(key.len() as int)))
                } else {
                    false
                },
                None => false,
            }
        } else {
            false
        }
    } else {
        qkey == key.take(qkey.len() as int)
    }
}

/// Where no binding matches the path, `findattr` finds nothing: it finds a
/// binding only where one matches.
pub proof fn findattr_needs_match(base: Cursor, name: Seq<char>)
    requires
        !has_match(base, name),
    ensures
        findattr_spec(base, name) == Some(None::<Cursor>),
    decreases base.at(), 2int, 0int, 0int,
{
    lemma_scan_no_match(base, split_dot(name), name, 0, 0);
}

proof fn lemma_scan_no_match(base: Cursor, qkey: Seq<Seq<char>>, name: Seq<char>, m: int, m2: int)
    requires
        !match_scan(base, qkey, m, m2),
    ensures
        fa_scan(base, qkey, name, m, m2, Seq::empty()) == Some(None::<Cursor>),
    decreases base.at(), 1int,
        node_pos(kids(base.at())).len() - m,
        node_pos(kids(kids(base.at())[node_pos(kids(base.at()))[m]])).len() - m2,
{
    let ps = node_pos(kids(base.at()));
    if m < 0 || m >= ps.len() {
    } else {
        let j = ps[m];
        let child = kids(base.at())[j];
        let qs = node_pos(kids(child));
        if !is_node_of(child, NODE_KEY_VALUE) || m2 < 0 || m2 >= qs.len() {
            lemma_scan_no_match(base, qkey, name, m + 1, 0);
        } else {
            let sub = kids(child)[qs[m2]];
            if is_node_of(sub, NODE_KEY) {
                lemma_pair_no_match(base, qkey, j, ident_texts(kids(sub)));
            }
            lemma_scan_no_match(base, qkey, name, m, m2 + 1);
        }
    }
}

proof fn lemma_pair_no_match(base: Cursor, qkey: Seq<Seq<char>>, j: int, key: Seq<Seq<char>>)
    requires
        !match_pair(base, qkey, j, key),
    ensures
        fa_pair(base, qkey, j, key, Seq::empty()) == Scan::Go(Seq::<(Seq<char>, Seq<char>)>::empty()),
    decreases base.at(), 0int, 0int, 0int,
{
    let child = kids(base.at())[j];
    if qkey.len() > key.len() && key == qkey.take(key.len() as int) {
        if let Some(rel) = cfg_rel(child) {
            if valid_path(base.root, base.path) && 0 <= j < kids(base.at()).len() {
                lemma_fa_pair_decreases(base, j, rel);
                findattr_needs_match(sub_cursor(base, j, rel), join_dot(qkey.skip(key.len() as int)));
            }
        }
    }
}

pub proof fn lemma_fa_pair_decreases(base: Cursor, j: int, rel: Seq<int>)
    requires
        valid_path(base.root, base.path),
        0 <= j < kids(base.at()).len(),
    ensures
        cfg_rel(kids(base.at())[j]) == Some(rel) ==>
            decreases_to!(base.at() => sub_cursor(base, j, rel).at()),
{
    if cfg_rel(kids(base.at())[j]) == Some(rel) {
        lemma_cfg_rel(kids(base.at())[j]);
        lemma_path_push(base.root, base.path, j);
        lemma_path_concat(base.root, base.path.push(j), rel);
        let q = seq![j] + rel;
        assert(q[0] == j);
        assert(q.drop_first() =~= rel);
        assert(valid_path(base.at(), q));
        lemma_path_concat(base.root, base.path, q);
        assert(base.path.push(j) + rel =~= base.path + q);
        assert(subtree(base.at(), q) == subtree(kids(base.at())[j], rel));
        lemma_subtree_decreases(base.at(), q);
    }
}


/// `set_entries`, computed: the bindings of the attribute set `x` appended
/// to `acc`, or `None` where it is undefined.
fn set_entries_exec(x: &Green, init: Vec<(String, String)>) -> (r: Option<Vec<(String, String)>>)
    ensures
        r matches Some(v) ==> set_entries(x@, 0, pairs(init@)) == Some(pairs(v@)),
        r is None ==> set_entries(x@, 0, pairs(init@)) is None,
{
    let ps = x.node_positions();
    proof {
        lemma_node_pos(kids(x@));
    }
    let ghost total = set_entries(x@, 0, pairs(init@));
    let mut acc = init;
    let mut m: usize = 0;
    while m < ps.len()
        invariant
            total == set_entries(x@, 0, pairs(init@)),
            ints(ps@) == node_pos(kids(x@)),
            m <= ps.len(),
            set_entries(x@, m as int, pairs(acc@)) == total,
            forall|i: int| 0 <= i < node_pos(kids(x@)).len() ==> {
                &&& 0 <= #[trigger] node_pos(kids(x@))[i] < kids(x@).len()
                &&& kids(x@)[node_pos(kids(x@))[i]] is Node
            },
        decreases ps.len() - m,
    {
        proof {
            assert(ints(ps@)[m as int] == ps@[m as int] as int);
        }
        let n = x.child(ps[m]);
        let qs = n.node_positions();
        proof {
            lemma_node_pos(kids(n@));
        }
        if qs.len() < 2 {
            proof {
                let ns = node_pos(kids(x@));
                assert(ns[m as int] == ps@[m as int] as int);
                assert(kids(x@)[ns[m as int]] == n@);
                assert(node_pos(kids(n@)).len() < 2);
                assert(set_entries(x@, m as int, pairs(acc@)) is None);
            }
            return None;
        }
        proof {
            assert(ints(qs@)[qs.len() - 2] == qs@[qs.len() - 2] as int);
            assert(ints(qs@)[qs.len() - 1] == qs@[qs.len() - 1] as int);
        }
        let k = n.child(qs[qs.len() - 2]);
        let v = n.child(qs[qs.len() - 1]);
        let nt = n.to_text();
        let kt = k.to_text();
        let nc = crate::strings::to_chars(nt.as_str());
        let kc = crate::strings::to_chars(kt.as_str());
        match crate::strings::find_chars(&nc, &kc) {
            None => {
                return None;
            },
            Some(f) => {
                proof {
                    crate::strings::lemma_match_from_bounds(nc@, kc@, 0);
                    assert(crate::strings::match_from(nc@, kc@, 0) == Some(f as int));
                    assert(f + kc.len() <= nc.len());
                }
                let key = crate::strings::prefix_string(&nc, f + kc.len());
                let ghost old_acc = acc@;
                acc.push((key, v.to_text()));
                proof {
                    assert(pairs(acc@) =~= pairs(old_acc).push((text(n@).take(f + text(k@).len()), text(v@))));
                }
            },
        }
        m = m + 1;
    }
    Some(acc)
}

/// The positions seen from the result of `findattr`.
pub open spec fn ocur(r: Option<Option<SyntaxNode>>) -> Option<Option<Cursor>> {
    match r {
        None => None,
        Some(None) => Some(None),
        Some(Some(n)) => Some(Some(n@)),
    }
}

/// `synth_text`, computed.
fn synth_text_exec(name: &str, acc: &Vec<(String, String)>) -> (s: String)
    requires
        acc.len() > 0,
    ensures
        s@ == synth_text(name@, pairs(acc@)),
{
    let ghost a = pairs(acc@);
    let mut s = String::new();
    if acc.len() == 1 {
        s.append("{");
        s.append(name);
        s.append(" = { ");
        s.append(acc[0].0.as_str());
        s.append(" = ");
        s.append(acc[0].1.as_str());
        s.append("; }; }");
        proof {
            assert(s@ =~= synth_text(name@, a));
        }
    } else {
        s.append("{ ");
        s.append(name);
        s.append(" = {\n");
        let ghost pre = s@;
        let mut i: usize = 0;
        while i < acc.len()
            invariant
                a == pairs(acc@),
                i <= acc.len(),
                s@ == pre + entry_lines(a.take(i as int)),
            decreases acc.len() - i,
        {
            let ghost t = a.take(i + 1);
            proof {
                assert(t.drop_last() =~= a.take(i as int));
                assert(t.last() == (acc@[i as int].0@, acc@[i as int].1@));
            }
            if i > 0 {
                s.append("\n");
            }
            s.append("  ");
            s.append(acc[i].0.as_str());
            s.append(" = ");
            s.append(acc[i].1.as_str());
            s.append(";");
            proof {
                if i == 0 {
                    assert(a.take(0) =~= Seq::<(Seq<char>, Seq<char>)>::empty());
                    assert(entry_lines(a.take(0)) =~= Seq::<char>::empty());
                    assert(s@ =~= pre + entry_lines(t));
                } else {
                    assert(s@ =~= pre + entry_lines(t));
                }
            }
            i = i + 1;
        }
        s.append("\n}; }");
        proof {
            assert(a.take(acc.len() as int) =~= a);
            assert(s@ =~= synth_text(name@, a));
        }
    }
    s
}

/// `fa_finish`, computed.
fn fa_finish_exec(name: &str, acc: &Vec<(String, String)>) -> (r: Option<Option<SyntaxNode>>)
    ensures
        ocur(r) == fa_finish(name@, pairs(acc@)),
        r matches Some(Some(x)) ==> is_node_of(x@.at(), NODE_KEY_VALUE),
{
    if acc.len() == 0 {
        return Some(None);
    }
    let s = synth_text_exec(name, acc);
    let g = crate::syntax::parse_tree(s.as_str());
    let ps = g.node_positions();
    proof {
        lemma_node_pos(kids(g@));
    }
    if ps.len() == 0 {
        return Some(None);
    }
    proof {
        assert(ints(ps@)[0] == ps@[0] as int);
    }
    let x = g.child(ps[0]);
    let qs = x.node_positions();
    proof {
        lemma_node_pos(kids(x@));
    }
    if !(x.is_node() && x.kind() == NODE_ATTR_SET) || qs.len() == 0 {
        return Some(None);
    }
    proof {
        assert(ints(qs@)[0] == qs@[0] as int);
    }
    let y = x.child(qs[0]);
    if y.is_node() && y.kind() == NODE_KEY_VALUE {
        let root = SyntaxNode::new_root(g);
        let xn = root.child_node(ps[0]);
        let yn = xn.child_node(qs[0]);
        proof {
            assert(yn@.path =~= seq![ps@[0] as int, qs@[0] as int]);
        }
        Some(Some(yn))
    } else {
        Some(None)
    }
}


/// The first child at or after `from` that is a node of kind `k`.
pub fn first_kind_exec(g: &Green, k: u16) -> (r: Option<usize>)
    ensures
        r matches Some(i) ==> first_kind_from(kids(g@), k, 0) == Some(i as int),
        r is None ==> first_kind_from(kids(g@), k, 0) is None,
{
    let n = g.len();
    let mut i: usize = 0;
    while i < n
        invariant
            n == kids(g@).len(),
            i <= n,
            first_kind_from(kids(g@), k, 0) == first_kind_from(kids(g@), k, i as int),
        decreases n - i,
    {
        let c = g.child(i);
        if c.is_node() && c.kind() == k {
            return Some(i);
        }
        i = i + 1;
    }
    None
}

/// `findattr_spec`, computed.
pub(crate) fn findattr_run(base: &SyntaxNode, name: &str) -> (r: Option<Option<SyntaxNode>>)
    ensures
        ocur(r) == findattr_spec(base@, name@),
        r matches Some(Some(x)) ==> is_node_of(x@.at(), NODE_KEY_VALUE),
    decreases base@.at(),
{
    let qkey = crate::strings::split_dot_exec(name);
    let g = base.green();
    let ps = g.node_positions();
    proof {
        lemma_node_pos(kids(g@));
    }
    let ghost qk = split_dot(name@);
    let ghost total = findattr_spec(base@, name@);
    let mut acc: Vec<(String, String)> = Vec::new();
    proof {
        assert(pairs(acc@) =~= Seq::<(Seq<char>, Seq<char>)>::empty());
    }
    let mut m: usize = 0;
    while m < ps.len()
        invariant
            total == findattr_spec(base@, name@),
            qk == split_dot(name@),
            strs(qkey@) == qk,
            g@ == base@.at(),
            base@.wf(),
            ints(ps@) == node_pos(kids(g@)),
            forall|i: int| 0 <= i < node_pos(kids(g@)).len() ==> {
                &&& 0 <= #[trigger] node_pos(kids(g@))[i] < kids(g@).len()
                &&& kids(g@)[node_pos(kids(g@))[i]] is Node
            },
            m <= ps.len(),
            fa_scan(base@, qk, name@, m as int, 0, pairs(acc@)) == total,
        decreases ps.len() - m,
    {
        proof {
            assert(ints(ps@)[m as int] == ps@[m as int] as int);
        }
        let j = ps[m];
        let child = g.child(j);
        if child.is_node() && child.kind() == NODE_KEY_VALUE {
            let qs = child.node_positions();
            proof {
                lemma_node_pos(kids(child@));
            }
            let mut m2: usize = 0;
            while m2 < qs.len()
                invariant
                    total == findattr_spec(base@, name@),
                    qk == split_dot(name@),
                    strs(qkey@) == qk,
                    g@ == base@.at(),
                    base@.wf(),
                    ints(ps@) == node_pos(kids(g@)),
                    m < ps.len(),
                    j == ps@[m as int],
                    0 <= j < kids(g@).len(),
                    child@ == kids(g@)[j as int],
                    is_node_of(child@, NODE_KEY_VALUE),
                    ints(qs@) == node_pos(kids(child@)),
                    forall|i: int| 0 <= i < node_pos(kids(child@)).len() ==> {
                        &&& 0 <= #[trigger] node_pos(kids(child@))[i] < kids(child@).len()
                        &&& kids(child@)[node_pos(kids(child@))[i]] is Node
                    },
                    m2 <= qs.len(),
                    fa_scan(base@, qk, name@, m as int, m2 as int, pairs(acc@)) == total,
                decreases qs.len() - m2,
            {
                proof {
                    assert(ints(qs@)[m2 as int] == qs@[m2 as int] as int);
                }
                let sub = child.child(qs[m2]);
                if sub.is_node() && sub.kind() == NODE_KEY {
                    let key = ident_texts_exec(sub);
                    let ghost kv = ident_texts(kids(sub@));
                    let ghost a0 = pairs(acc@);
                    proof {
                        assert(fa_scan(base@, qk, name@, m as int, m2 as int, a0) == match fa_pair(base@, qk, j as int, kv, a0) {
                            Scan::Found(x) => Some(Some(x)),
                            Scan::Abort => None,
                            Scan::Go(a) => fa_scan(base@, qk, name@, m as int, m2 + 1, a),
                        });
                    }
                    if crate::strings::strs_eq(&qkey, &key) {
                        match first_kind_exec(child, NODE_ATTR_SET) {
                            Some(_) => {
                                proof {
                                    lemma_first_kind_from(kids(child@), NODE_ATTR_SET, 0);
                                    assert(qs.len() > 0) by {
                                        let i = first_kind_from(kids(child@), NODE_ATTR_SET, 0)->0;
                                        let mm = choose|mm: int| 0 <= mm < node_pos(kids(child@)).len() && node_pos(kids(child@))[mm] == i;
                                    }
                                    assert(ints(qs@)[qs.len() - 1] == qs@[qs.len() - 1] as int);
                                }
                                let x = child.child(qs[qs.len() - 1]);
                                if x.is_node() && x.kind() == NODE_ATTR_SET {
                                    match set_entries_exec(x, acc) {
                                        Some(a) => {
                                            acc = a;
                                        },
                                        None => {
                                            return None;
                                        },
                                    }
                                }
                            },
                            None => {
                                return Some(Some(base.child_node(j)));
                            },
                        }
                    } else if qkey.len() > key.len() {
                        let is_prefix = crate::strings::strs_range_eq(&key, 0, &qkey, 0, key.len());
                        proof {
                            assert(strs(key@).subrange(0, key.len() as int) =~= strs(key@));
                            assert(strs(qkey@).subrange(0, key.len() as int) =~= qk.take(key.len() as int));
                        }
                        if is_prefix {
                            proof {
                                lemma_cfg_rel(child@);
                            }
                            match cfg_rel_exec(child) {
                                Some(rel) => {
                                    let cn = base.child_node(j);
                                    let nb = cn.descend(&rel);
                                    let subkey = crate::strings::join_dot_from(&qkey, key.len());
                                    proof {
                                        lemma_fa_pair_decreases(base@, j as int, ints(rel@));
                                        assert(nb@ == sub_cursor(base@, j as int, ints(rel@)));
                                        assert(strs(qkey@).skip(key.len() as int) == qk.skip(kv.len() as int));
                                    }
                                    match findattr_run(&nb, subkey.as_str()) {
                                        None => {
                                            return None;
                                        },
                                        Some(Some(x)) => {
                                            return Some(Some(x));
                                        },
                                        Some(None) => {},
                                    }
                                },
                                None => {},
                            }
                        }
                    } else if qkey.len() < key.len() {
                        let is_prefix = crate::strings::strs_range_eq(&qkey, 0, &key, 0, qkey.len());
                        proof {
                            assert(strs(qkey@).subrange(0, qkey.len() as int) =~= qk);
                            assert(strs(key@).subrange(0, qkey.len() as int) =~= kv.take(qkey.len() as int));
                        }
                        if is_prefix {
                            proof {
                                assert(ints(qs@)[qs.len() - 1] == qs@[qs.len() - 1] as int);
                            }
                            let x = child.child(qs[qs.len() - 1]);
                            let k2 = crate::strings::join_dot_from(&key, qkey.len());
                            let ghost old_acc = acc@;
                            acc.push((k2, x.to_text()));
                            proof {
                                assert(pairs(acc@) =~= pairs(old_acc).push((join_dot(kv.skip(qk.len() as int)), text(x@))));
                            }
                        }
                    }
                }
                m2 = m2 + 1;
            }
        }
        m = m + 1;
    }
    fa_finish_exec(name, &acc)
}

/// The binding of attribute `name` (a dot-separated path) in the attribute
/// set `configbase`: a binding whose key is the path itself; or one found
/// in the attribute set bound to a prefix of the path; else, when bindings
/// below the path exist, one new binding gathering them, parsed from a text
/// written for it.  Defined where `findattr_spec` is.
pub fn findattr(configbase: &SyntaxNode, name: &str) -> (r: Option<SyntaxNode>)
    requires
        findattr_spec(configbase@, name@) is Some,
    ensures
        Some(match r { Some(n) => Some(n@), None => None }) == findattr_spec(configbase@, name@),
        r matches Some(n) ==> is_node_of(n@.at(), NODE_KEY_VALUE),
{
    match findattr_run(configbase, name) {
        Some(r) => r,
        None => None,
    }
}

/// `findattr` where it is defined, `None` elsewhere.
pub fn try_findattr(configbase: &SyntaxNode, name: &str) -> (r: Option<Option<SyntaxNode>>)
    ensures
        ocur(r) == findattr_spec(configbase@, name@),
        r matches Some(Some(n)) ==> is_node_of(n@.at(), NODE_KEY_VALUE),
{
    match findattr_run(configbase, name) {
        Some(_) => Some(findattr(configbase, name)),
        None => None,
    }
}


// ---------------------------------------------------------------- collecting

/// The keys `pre.k` for the keys `k` of `cm`, bound to the same values.
pub open spec fn prefixed(cm: Map<Seq<char>, Seq<char>>, pre: Seq<char>) -> Map<Seq<char>, Seq<char>> {
    Map::new(
        |key: Seq<char>| is_dotted(key, pre) && cm.contains_key(key.skip(pre.len() as int + 1)),
        |key: Seq<char>| cm[key.skip(pre.len() as int + 1)],
    )
}

/// Is `key` the text `pre`, a dot, and more?
pub open spec fn is_dotted(key: Seq<char>, pre: Seq<char>) -> bool {
    key.len() > pre.len() && key.take(pre.len() as int) == pre && key[pre.len() as int] == '.'
}

/// The bindings `collectattrs` gathers from the children `cs[j..]` of an
/// attribute set into `m`: each binding maps the text of its key to the
/// text of its value, and a value that is an attribute set contributes its
/// own bindings under `key.`; `None` where it is undefined (a binding
/// with fewer than two child nodes).
pub open spec fn collect_scan(cs: Seq<Tree>, j: int, m: Map<Seq<char>, Seq<char>>) -> Option<Map<Seq<char>, Seq<char>>>
    decreases cs, cs.len() - j,
{
    if j < 0 || j >= cs.len() {
        Some(m)
    } else if is_node_of(cs[j], NODE_KEY_VALUE) {
        let ps = node_pos(kids(cs[j]));
        if ps.len() < 2 {
            None
        } else {
            let nk = kids(cs[j])[ps[0]];
            let v = kids(cs[j])[ps[1]];
            if is_node_of(nk, NODE_KEY) {
                if is_node_of(v, NODE_ATTR_SET) {
                    proof {
                        lemma_node_pos(kids(cs[j]));
                        match cs[j] {
                            Tree::Node(_, cs2) => {
                                assert(decreases_to!(cs => cs2[ps[1]]));
                            },
                            Tree::Token(_, _) => {},
                        }
                    }
                    match collect_of(v) {
                        None => None,
                        Some(cm) => collect_scan(cs, j + 1, m.union_prefer_right(prefixed(cm, text(nk)))),
                    }
                } else {
                    collect_scan(cs, j + 1, m.insert(text(nk), text(v)))
                }
            } else {
                collect_scan(cs, j + 1, m)
            }
        }
    } else {
        collect_scan(cs, j + 1, m)
    }
}

/// The bindings gathered from an attribute set.
pub open spec fn collect_of(t: Tree) -> Option<Map<Seq<char>, Seq<char>>>
    decreases t, 1int,
{
    match t {
        Tree::Node(_, cs) => collect_scan(cs, 0, Map::empty()),
        Tree::Token(_, _) => Some(Map::empty()),
    }
}

pub proof fn lemma_prefixed_insert(cm: Map<Seq<char>, Seq<char>>, pre: Seq<char>, k: Seq<char>, v: Seq<char>)
    ensures
        prefixed(cm.insert(k, v), pre) == prefixed(cm, pre).insert(pre + seq!['.'] + k, v),
{
    let key0 = pre + seq!['.'] + k;
    assert(key0.take(pre.len() as int) =~= pre);
    assert(key0.skip(pre.len() as int + 1) =~= k);
    assert forall|key: Seq<char>| is_dotted(key, pre) && key.skip(pre.len() as int + 1) == k implies key == key0 by {
        assert(key =~= key.take(pre.len() as int) + seq![key[pre.len() as int]] + key.skip(pre.len() as int + 1));
    }
    assert(prefixed(cm.insert(k, v), pre) =~= prefixed(cm, pre).insert(key0, v));
}

pub proof fn lemma_union_insert(a: Map<Seq<char>, Seq<char>>, b: Map<Seq<char>, Seq<char>>, k: Seq<char>, v: Seq<char>)
    ensures
        a.union_prefer_right(b.insert(k, v)) == a.union_prefer_right(b).insert(k, v),
{
    assert(a.union_prefer_right(b.insert(k, v)) =~= a.union_prefer_right(b).insert(k, v));
}

/// `collect_scan` from child 0 of `g` into `map`; `false` where it is
/// undefined.
fn collect_into(g: &Green, map: &mut crate::attrmap::AttrMap) -> (ok: bool)
    ensures
        ok ==> collect_scan(kids(g@), 0, old(map)@) == Some(final(map)@),
        !ok ==> collect_scan(kids(g@), 0, old(map)@) is None,
    decreases g@,
{
    let n = g.len();
    let ghost cs = kids(g@);
    let ghost total = collect_scan(cs, 0, map@);
    let mut j: usize = 0;
    while j < n
        invariant
            n == cs.len(),
            cs == kids(g@),
            j <= n,
            total == collect_scan(cs, 0, old(map)@),
            collect_scan(cs, j as int, map@) == total,
        decreases n - j,
    {
        let c = g.child(j);
        if c.is_node() && c.kind() == NODE_KEY_VALUE {
            let ps = c.node_positions();
            proof {
                lemma_node_pos(kids(c@));
            }
            if ps.len() < 2 {
                return false;
            }
            proof {
                assert(ints(ps@)[0] == ps@[0] as int);
                assert(ints(ps@)[1] == ps@[1] as int);
            }
            let nk = c.child(ps[0]);
            let v = c.child(ps[1]);
            if nk.is_node() && nk.kind() == NODE_KEY {
                if v.is_node() && v.kind() == NODE_ATTR_SET {
                    let mut childmap = crate::attrmap::AttrMap::new();
                    proof {
                        match c@ {
                            Tree::Node(_, cs2) => {
                                assert(decreases_to!(g@ => cs2[ps@[1] as int]));
                            },
                            Tree::Token(_, _) => {},
                        }
                    }
                    let ok = collect_into(v, &mut childmap);
                    proof {
                        assert(collect_of(v@) == collect_scan(kids(v@), 0, Map::empty()));
                    }
                    if !ok {
                        return false;
                    }
                    let pre = nk.to_text();
                    let ghost m0 = map@;
                    let cnt = childmap.entry_count();
                    let mut i: usize = 0;
                    while i < cnt
                        invariant
                            cnt == childmap.pairs().len(),
                            i <= cnt,
                            crate::attrmap::keys_unique(childmap.pairs()),
                            map@ == m0.union_prefer_right(prefixed(crate::attrmap::map_of(childmap.pairs().take(i as int)), pre@)),
                        decreases cnt - i,
                    {
                        let (k, val) = childmap.entry(i);
                        let mut key = pre.clone();
                        key.append(".");
                        key.append(k.as_str());
                        proof {
                            reveal_strlit(".");
                            let p = childmap.pairs();
                            assert(p.take(i + 1).drop_last() =~= p.take(i as int));
                            lemma_prefixed_insert(crate::attrmap::map_of(p.take(i as int)), pre@, p[i as int].0@, p[i as int].1@);
                            lemma_union_insert(m0, prefixed(crate::attrmap::map_of(p.take(i as int)), pre@), pre@ + seq!['.'] + p[i as int].0@, p[i as int].1@);
                            assert(key@ =~= pre@ + seq!['.'] + k@);
                        }
                        map.insert(key, val.clone());
                        i = i + 1;
                    }
                    proof {
                        assert(childmap.pairs().take(cnt as int) =~= childmap.pairs());
                        assert(map@ == m0.union_prefer_right(prefixed(childmap@, pre@)));
                        assert(collect_scan(cs, j as int, m0) == collect_scan(cs, j + 1, map@));
                    }
                } else {
                    map.insert(nk.to_text(), v.to_text());
                }
            }
        }
        j = j + 1;
    }
    true
}

/// Adds to `map` the bindings of the attribute set `configbase`: each key
/// text bound to its value text, nested attribute sets flattened into
/// dotted keys.
pub fn collectattrs(configbase: &SyntaxNode, map: &mut crate::attrmap::AttrMap)
    requires
        collect_scan(kids(configbase@.at()), 0, old(map)@) is Some,
    ensures
        collect_scan(kids(configbase@.at()), 0, old(map)@) == Some(final(map)@),
{
    let ok = collect_into(configbase.green(), map);
}

/// Whether the collection is defined does not depend on the map it
/// starts from.
pub proof fn lemma_collect_defined(cs: Seq<Tree>, j: int, m1: Map<Seq<char>, Seq<char>>, m2: Map<Seq<char>, Seq<char>>)
    ensures
        (collect_scan(cs, j, m1) is Some) == (collect_scan(cs, j, m2) is Some),
    decreases cs.len() - j,
{
    if 0 <= j < cs.len() && is_node_of(cs[j], NODE_KEY_VALUE) {
        let ps = node_pos(kids(cs[j]));
        if ps.len() >= 2 {
            let nk = kids(cs[j])[ps[0]];
            let v = kids(cs[j])[ps[1]];
            if is_node_of(nk, NODE_KEY) {
                if is_node_of(v, NODE_ATTR_SET) {
                    if let Some(cm) = collect_of(v) {
                        lemma_collect_defined(
                            cs,
                            j + 1,
                            m1.union_prefer_right(prefixed(cm, text(nk))),
                            m2.union_prefer_right(prefixed(cm, text(nk))),
                        );
                    }
                } else {
                    lemma_collect_defined(cs, j + 1, m1.insert(text(nk), text(v)), m2.insert(text(nk), text(v)));
                }
            } else {
                lemma_collect_defined(cs, j + 1, m1, m2);
            }
        }
    } else if 0 <= j < cs.len() {
        lemma_collect_defined(cs, j + 1, m1, m2);
    }
}

/// `collectattrs` where it is defined (and then `true`); elsewhere `false`,
/// with `map` left as it was.
pub fn try_collectattrs(configbase: &SyntaxNode, map: &mut crate::attrmap::AttrMap) -> (r: bool)
    ensures
        r ==> collect_scan(kids(configbase@.at()), 0, old(map)@) == Some(final(map)@),
        !r ==> collect_scan(kids(configbase@.at()), 0, old(map)@) is None && final(map)@ == old(map)@,
{
    let mut scratch = crate::attrmap::AttrMap::new();
    let ok = collect_into(configbase.green(), &mut scratch);
    proof {
        lemma_collect_defined(kids(configbase@.at()), 0, Map::empty(), map@);
    }
    if ok {
        collectattrs(configbase, map);
        true
    } else {
        false
    }
}

/// What `get_collection` returns for the text `f`, `None` where it is undefined.
pub open spec fn get_collection_spec(f: Seq<char>) -> Option<Result<Map<Seq<char>, Seq<char>>, crate::read::ReadError>> {
    match crate::read::file_base(f) {
        None => Some(Err(crate::read::ReadError::ParseError)),
        Some(b) => match collect_scan(kids(b.at()), 0, Map::empty()) {
            None => None,
            Some(m) => Some(Ok(m)),
        },
    }
}

pub open spec fn mview(r: Result<crate::attrmap::AttrMap, crate::read::ReadError>) -> Result<Map<Seq<char>, Seq<char>>, crate::read::ReadError> {
    match r {
        Ok(m) => Ok(m@),
        Err(e) => Err(e),
    }
}

fn get_collection_run(f: &String) -> (r: Option<Result<crate::attrmap::AttrMap, crate::read::ReadError>>)
    ensures
        match r {
            Some(x) => get_collection_spec(f@) == Some(mview(x)),
            None => get_collection_spec(f@) is None,
        },
{
    let base = match crate::read::config_base(f.as_str()) {
        Some(b) => b,
        None => {
            return Some(Err(crate::read::ReadError::ParseError));
        },
    };
    let mut map = crate::attrmap::AttrMap::new();
    if collect_into(base.green(), &mut map) {
        Some(Ok(map))
    } else {
        None
    }
}

/// All bindings of the configuration in the Nix text `f`, nested attribute
/// sets flattened into dotted keys.
pub fn get_collection(f: String) -> (r: Result<crate::attrmap::AttrMap, crate::read::ReadError>)
    requires
        get_collection_spec(f@) is Some,
    ensures
        get_collection_spec(f@) == Some(mview(r)),
{
    match get_collection_run(&f) {
        Some(r) => r,
        None => Err(crate::read::ReadError::NoAttr),
    }
}

/// `get_collection` where it is defined, `None` elsewhere.
pub fn try_get_collection(f: String) -> (r: Option<Result<crate::attrmap::AttrMap, crate::read::ReadError>>)
    ensures
        match r {
            Some(x) => get_collection_spec(f@) == Some(mview(x)),
            None => get_collection_spec(f@) is None,
        },
{
    if get_collection_run(&f).is_some() {
        Some(get_collection(f))
    } else {
        None
    }
}

} // verus!
