//! What the reads and edits do, stated over the syntax tree itself.
use vstd::prelude::*;
use crate::read::{arr_scan, arr_vals, found_binding, getarrvals_spec, node_texts, ReadError};
use crate::tree::{is_node_of, kids, lemma_node_pos, node_pos, text, with_kids, Tree, NODE_LIST, NODE_WITH};
use crate::parse::{cfg_rel, fa_finish, fa_pair, fa_scan, findattr_spec, ident_texts, lemma_cfg_rel, lemma_fa_pair_decreases, sub_cursor, Scan};
use crate::read::file_base;
use crate::strings::{inserted, split_dot};
use crate::syntax::{
    lemma_path_concat, lemma_path_prefix, lemma_path_push, lemma_remove_kid_text, nix_tree, root_cursor, subtree,
    valid_path, Cursor,
};
use crate::tree::{first_node_eq_from, NODE_KEY, NODE_KEY_VALUE};
use crate::write::{
    deref_spec, edit_binding, edit_target, element_text, first_close_from, is_nl_token, list_insert, ob_pair,
    ob_scan, own_binding_spec, rm_aux_spec, rm_fold, rm_indices, WriteError,
};

verus! {

/// The texts of all child nodes of a sequence, in order.
pub open spec fn child_node_texts(cs: Seq<Tree>) -> Seq<Seq<char>> {
    Seq::new(node_pos(cs).len(), |i: int| text(cs[node_pos(cs)[i]]))
}

proof fn lemma_node_texts_all(cs: Seq<Tree>)
    ensures
        node_texts(cs) == child_node_texts(cs),
    decreases cs.len(),
{
    if cs.len() > 0 {
        let p = cs.drop_last();
        lemma_node_texts_all(p);
        lemma_node_pos(p);
        assert forall|i: int| 0 <= i < node_pos(p).len() implies cs[#[trigger] node_pos(p)[i]] == p[node_pos(p)[i]] by {}
        assert(node_texts(cs) =~= child_node_texts(cs));
    } else {
        assert(node_texts(cs) =~= child_node_texts(cs));
    }
}

proof fn lemma_arr_scan_to(cs: Seq<Tree>, a: int, j: int)
    requires
        0 <= a <= j < cs.len(),
        forall|i: int| 0 <= i < j ==> !is_node_of(#[trigger] cs[i], NODE_WITH) && !is_node_of(cs[i], NODE_LIST),
    ensures
        arr_scan(cs, a) == arr_scan(cs, j),
    decreases j - a,
{
    if a < j {
        lemma_arr_scan_to(cs, a + 1, j);
    }
}

/// Reading a list gives the texts of all its child nodes, in order,
/// whatever their kinds: where the binding found for `q` holds a list
/// before any other list or `with` scope.
pub proof fn getarrvals_reads_every_element(f: Seq<char>, q: Seq<char>, x: crate::syntax::Cursor, j: int)
    requires
        found_binding(f, q) == Some(x),
        0 <= j < kids(x.at()).len(),
        is_node_of(kids(x.at())[j], NODE_LIST),
        forall|i: int| 0 <= i < j ==> !is_node_of(#[trigger] kids(x.at())[i], NODE_WITH)
            && !is_node_of(kids(x.at())[i], NODE_LIST),
    ensures
        getarrvals_spec(f, q) == Some(Ok::<Seq<Seq<char>>, ReadError>(child_node_texts(kids(kids(x.at())[j])))),
{
    let cs = kids(x.at());
    lemma_arr_scan_to(cs, 0, j);
    lemma_node_texts_all(kids(cs[j]));
    match x.at() {
        Tree::Node(_, c) => {
            assert(arr_vals(x.at()) == arr_scan(c, 0));
        },
        Tree::Token(_, _) => {},
    }
}

/// Through a `with` scope, reading a list gives the texts of all its child
/// nodes, in order: where the binding found for `q` holds `with e; [ ... ]`
/// before any other list or `with` scope.
pub proof fn getarrvals_reads_through_with(f: Seq<char>, q: Seq<char>, x: Cursor, j: int, k: int)
    requires
        found_binding(f, q) == Some(x),
        0 <= j < kids(x.at()).len(),
        is_node_of(kids(x.at())[j], NODE_WITH),
        forall|i: int| 0 <= i < j ==> !is_node_of(#[trigger] kids(x.at())[i], NODE_WITH)
            && !is_node_of(kids(x.at())[i], NODE_LIST),
        0 <= k < kids(kids(x.at())[j]).len(),
        is_node_of(kids(kids(x.at())[j])[k], NODE_LIST),
        forall|i: int| 0 <= i < k ==> !is_node_of(#[trigger] kids(kids(x.at())[j])[i], NODE_WITH)
            && !is_node_of(kids(kids(x.at())[j])[i], NODE_LIST),
    ensures
        getarrvals_spec(f, q) == Some(Ok::<Seq<Seq<char>>, ReadError>(child_node_texts(kids(kids(kids(x.at())[j])[k])))),
{
    let cs = kids(x.at());
    let w = cs[j];
    lemma_arr_scan_to(cs, 0, j);
    lemma_arr_scan_to(kids(w), 0, k);
    lemma_node_texts_all(kids(kids(w)[k]));
    match w {
        Tree::Node(_, c) => {
            assert(arr_vals(w) == arr_scan(c, 0));
        },
        Tree::Token(_, _) => {},
    }
    match x.at() {
        Tree::Node(_, c) => {
            assert(arr_vals(x.at()) == arr_scan(c, 0));
        },
        Tree::Token(_, _) => {},
    }
}

/// An element is added inside the list: after the opening bracket, at the
/// closing bracket, or just before it where the token before the bracket
/// holds a line break.
pub proof fn list_insert_stays_inside(l: Tree, e: Seq<char>, i: int)
    requires
        l is Node,
        0 < i < kids(l).len(),
        text(kids(l)[0]) == seq!['['],
        text(kids(l)[i]) == seq![']'],
        forall|k: int| 0 <= k < i ==> text(#[trigger] kids(l)[k]) != seq![']'],
        kids(l)[i - 1] is Token,
    ensures
        list_insert(l, e) matches Some(l2) && exists|p: int| 1 <= p && i - 1 <= p <= i
            && (p == i - 1) == text(kids(l)[i - 1]).contains('\n')
            && l2 == with_kids(l, #[trigger] kids(l).insert(p, nix_tree(element_text(e)))),
{
    let cs = kids(l);
    lemma_first_close_to(cs, 0, i);
    assert(first_close_from(cs, 0) == Some(i));
    if i == 1 {
        assert(!text(cs[0]).contains('\n')) by {
            if text(cs[0]).contains('\n') {
                let k = choose|k: int| 0 <= k < text(cs[0]).len() && text(cs[0])[k] == '\n';
                assert(text(cs[0])[k] == '[');
            }
        }
    }
    let i2 = if text(cs[i - 1]).contains('\n') { i - 1 } else { i };
    assert(list_insert(l, e) == Some(with_kids(l, cs.insert(i2, nix_tree(element_text(e))))));
}

proof fn lemma_first_close_to(cs: Seq<Tree>, a: int, i: int)
    requires
        0 <= a <= i < cs.len(),
        text(cs[i]) == seq![']'],
        forall|k: int| 0 <= k < i ==> text(#[trigger] cs[k]) != seq![']'],
    ensures
        first_close_from(cs, a) == Some(i),
    decreases i - a,
{
    if a < i {
        lemma_first_close_to(cs, a + 1, i);
    }
}

/// A binding in a tree: a position below the root, valid, naming a
/// `key = value;` node.
pub open spec fn binding_at(x: Cursor) -> bool {
    x.path.len() > 0 && valid_path(x.root, x.path) && is_node_of(x.at(), NODE_KEY_VALUE)
}

proof fn lemma_child_binding(base: Cursor, j: int)
    requires
        valid_path(base.root, base.path),
        0 <= j < kids(base.at()).len(),
        is_node_of(kids(base.at())[j], NODE_KEY_VALUE),
    ensures
        binding_at(base.child(j)),
{
    lemma_path_push(base.root, base.path, j);
}

proof fn lemma_sub_valid(base: Cursor, j: int, rel: Seq<int>)
    requires
        valid_path(base.root, base.path),
        0 <= j < kids(base.at()).len(),
        cfg_rel(kids(base.at())[j]) == Some(rel),
    ensures
        valid_path(base.root, sub_cursor(base, j, rel).path),
{
    lemma_cfg_rel(kids(base.at())[j]);
    lemma_path_push(base.root, base.path, j);
    lemma_path_concat(base.root, base.path.push(j), rel);
}

proof fn lemma_finish_binding(name: Seq<char>, acc: Seq<(Seq<char>, Seq<char>)>)
    ensures
        fa_finish(name, acc) matches Some(Some(x)) ==> binding_at(x),
{
    if acc.len() > 0 {
        let t = nix_tree(crate::parse::synth_text(name, acc));
        let ps = node_pos(kids(t));
        lemma_node_pos(kids(t));
        if ps.len() > 0 {
            let x = kids(t)[ps[0]];
            let qs = node_pos(kids(x));
            lemma_node_pos(kids(x));
            if is_node_of(x, crate::tree::NODE_ATTR_SET) && qs.len() > 0 {
                let p = seq![ps[0], qs[0]];
                assert(p.drop_first() =~= seq![qs[0]]);
                assert(seq![qs[0]].drop_first() =~= Seq::<int>::empty());
                assert(0 <= ps[0] < kids(t).len());
                assert(0 <= qs[0] < kids(x).len());
                assert(valid_path(kids(x)[qs[0]], Seq::<int>::empty()));
                assert(valid_path(x, seq![qs[0]]));
                assert(valid_path(t, p));
                assert(subtree(x, seq![qs[0]]) == subtree(kids(x)[qs[0]], Seq::<int>::empty()));
                assert(subtree(t, p) == subtree(x, seq![qs[0]]));
            }
        }
    }
}

proof fn lemma_fa_binding(base: Cursor, name: Seq<char>)
    requires
        valid_path(base.root, base.path),
    ensures
        findattr_spec(base, name) matches Some(Some(x)) ==> binding_at(x),
    decreases base.at(), 2int, 0int, 0int,
{
    lemma_fa_scan_binding(base, split_dot(name), name, 0, 0, Seq::empty());
}

proof fn lemma_fa_scan_binding(base: Cursor, qk: Seq<Seq<char>>, name: Seq<char>, m: int, m2: int, acc: Seq<(Seq<char>, Seq<char>)>)
    requires
        valid_path(base.root, base.path),
    ensures
        fa_scan(base, qk, name, m, m2, acc) matches Some(Some(x)) ==> binding_at(x),
    decreases base.at(), 1int,
        node_pos(kids(base.at())).len() - m,
        node_pos(kids(kids(base.at())[node_pos(kids(base.at()))[m]])).len() - m2,
{
    let ps = node_pos(kids(base.at()));
    lemma_node_pos(kids(base.at()));
    if m < 0 || m >= ps.len() {
        lemma_finish_binding(name, acc);
    } else {
        let j = ps[m];
        let child = kids(base.at())[j];
        let qs = node_pos(kids(child));
        if !is_node_of(child, NODE_KEY_VALUE) || m2 < 0 || m2 >= qs.len() {
            lemma_fa_scan_binding(base, qk, name, m + 1, 0, acc);
        } else {
            let sub = kids(child)[qs[m2]];
            if is_node_of(sub, NODE_KEY) {
                lemma_fa_pair_binding(base, qk, j, ident_texts(kids(sub)), acc);
                match fa_pair(base, qk, j, ident_texts(kids(sub)), acc) {
                    Scan::Go(a) => {
                        lemma_fa_scan_binding(base, qk, name, m, m2 + 1, a);
                    },
                    _ => {},
                }
            } else {
                lemma_fa_scan_binding(base, qk, name, m, m2 + 1, acc);
            }
        }
    }
}

proof fn lemma_fa_pair_binding(base: Cursor, qk: Seq<Seq<char>>, j: int, key: Seq<Seq<char>>, acc: Seq<(Seq<char>, Seq<char>)>)
    requires
        valid_path(base.root, base.path),
        0 <= j < kids(base.at()).len(),
        is_node_of(kids(base.at())[j], NODE_KEY_VALUE),
    ensures
        fa_pair(base, qk, j, key, acc) matches Scan::Found(x) ==> binding_at(x),
    decreases base.at(), 0int, 0int, 0int,
{
    let child = kids(base.at())[j];
    lemma_child_binding(base, j);
    if qk != key && qk.len() > key.len() && key == qk.take(key.len() as int) {
        if let Some(rel) = cfg_rel(child) {
            lemma_fa_pair_decreases(base, j, rel);
            lemma_sub_valid(base, j, rel);
            lemma_fa_binding(sub_cursor(base, j, rel), crate::strings::join_dot(qk.skip(key.len() as int)));
        }
    }
}

proof fn lemma_ob_binding(base: Cursor, qk: Seq<Seq<char>>)
    requires
        valid_path(base.root, base.path),
    ensures
        own_binding_spec(base, qk) matches Some(y) ==> binding_at(y) && y.root == base.root,
    decreases base.at(), 2int, 0int, 0int,
{
    lemma_ob_scan_binding(base, qk, 0, 0);
}

proof fn lemma_ob_scan_binding(base: Cursor, qk: Seq<Seq<char>>, m: int, m2: int)
    requires
        valid_path(base.root, base.path),
    ensures
        ob_scan(base, qk, m, m2) matches Some(y) ==> binding_at(y) && y.root == base.root,
    decreases base.at(), 1int,
        node_pos(kids(base.at())).len() - m,
        node_pos(kids(kids(base.at())[node_pos(kids(base.at()))[m]])).len() - m2,
{
    let ps = node_pos(kids(base.at()));
    lemma_node_pos(kids(base.at()));
    if 0 <= m < ps.len() {
        let j = ps[m];
        let child = kids(base.at())[j];
        let qs = node_pos(kids(child));
        if !is_node_of(child, NODE_KEY_VALUE) || m2 < 0 || m2 >= qs.len() {
            lemma_ob_scan_binding(base, qk, m + 1, 0);
        } else {
            let sub = kids(child)[qs[m2]];
            if is_node_of(sub, NODE_KEY) {
                lemma_ob_pair_binding(base, qk, j, ident_texts(kids(sub)));
            }
            lemma_ob_scan_binding(base, qk, m, m2 + 1);
        }
    }
}

proof fn lemma_ob_pair_binding(base: Cursor, qk: Seq<Seq<char>>, j: int, key: Seq<Seq<char>>)
    requires
        valid_path(base.root, base.path),
        0 <= j < kids(base.at()).len(),
        is_node_of(kids(base.at())[j], NODE_KEY_VALUE),
    ensures
        ob_pair(base, qk, j, key) matches Some(y) ==> binding_at(y) && y.root == base.root,
    decreases base.at(), 0int, 0int, 0int,
{
    let child = kids(base.at())[j];
    lemma_child_binding(base, j);
    if qk != key && qk.len() > key.len() && key == qk.take(key.len() as int) {
        if let Some(rel) = cfg_rel(child) {
            lemma_fa_pair_decreases(base, j, rel);
            lemma_sub_valid(base, j, rel);
            lemma_ob_binding(sub_cursor(base, j, rel), qk.skip(key.len() as int));
        }
    }
}

/// `deref` reports a missing attribute exactly where `findattr` finds
/// nothing.
pub proof fn deref_reports_missing_exactly(f: Seq<char>, q: Seq<char>)
    requires
        file_base(f) is Some,
        findattr_spec(file_base(f)->0, q) is Some,
    ensures
        (deref_spec(f, q) == Some(Err::<Seq<char>, WriteError>(WriteError::NoAttr)))
            == (findattr_spec(file_base(f)->0, q) == Some(None::<Cursor>)),
{
}

/// Where the binding that `deref` edits lies in the file's own tree, `deref`
/// succeeds, and its result is the file's text with exactly that binding's
/// text taken out.
pub proof fn deref_removes_the_binding(f: Seq<char>, q: Seq<char>, y: Cursor)
    requires
        edit_binding(f, q) == Some(y),
    ensures
        deref_spec(f, q) matches Some(Ok(s)) && inserted(s, text(y.at()), text(nix_tree(f))),
{
    let t = nix_tree(f);
    let b = file_base(f)->0;
    match t {
        Tree::Token(_, _) => {
            assert(cfg_rel(root_cursor(t).at()) is None);
        },
        Tree::Node(_, _) => {},
    }
    crate::parse::lemma_cfgbase(root_cursor(t));
    lemma_fa_binding(b, q);
    let x = findattr_spec(b, q)->0->0;
    if x.root != b.root {
        lemma_ob_binding(b, split_dot(q));
    }
    assert(binding_at(y) && y.root == t);
    let pp = Cursor { root: y.root, path: y.path.drop_last() };
    lemma_path_prefix(y.root, y.path);
    assert(y.path =~= y.path.drop_last().push(y.path.last()));
    lemma_path_push(y.root, y.path.drop_last(), y.path.last());
    lemma_remove_kid_text(pp, y.path.last());
}

/// A child node whose text is one of `items`.
pub open spec fn listed(t: Tree, items: Seq<Seq<char>>) -> bool {
    t is Node && items.contains(text(t))
}

/// No two listed child nodes are equal.
pub open spec fn listed_distinct(cs: Seq<Tree>, items: Seq<Seq<char>>) -> bool {
    forall|a: int, b: int| 0 <= a < b < cs.len() && listed(#[trigger] cs[a], items) && listed(#[trigger] cs[b], items)
        ==> cs[a] != cs[b]
}

/// The positions are increasing and name listed children, and every
/// listed child before `j` is among them.
pub open spec fn listed_positions(cs: Seq<Tree>, items: Seq<Seq<char>>, idx: Seq<int>, j: int) -> bool {
    &&& forall|a: int, b: int| 0 <= a < b < idx.len() ==> #[trigger] idx[a] < #[trigger] idx[b]
    &&& forall|t: int| 0 <= t < idx.len() ==> 0 <= #[trigger] idx[t] < j && listed(cs[idx[t]], items)
    &&& forall|i: int| 0 <= i < j && listed(#[trigger] cs[i], items) ==> exists|t: int| 0 <= t < idx.len() && idx[t] == i
}

proof fn lemma_rm_indices_exact(cs: Seq<Tree>, items: Seq<Seq<char>>, j: int, acc: Seq<int>)
    requires
        listed_distinct(cs, items),
        0 <= j <= cs.len(),
        listed_positions(cs, items, acc, j),
    ensures
        rm_indices(cs, items, j, acc) matches Some(idx) && listed_positions(cs, items, idx, cs.len() as int),
    decreases cs.len() - j,
{
    if j < cs.len() {
        if cs[j] is Node && items.contains(text(cs[j])) {
            crate::tree::lemma_first_node_eq_from(cs, cs[j], 0, j);
            let i = first_node_eq_from(cs, cs[j], 0)->0;
            if i != j {
                assert(listed(cs[i], items) && listed(cs[j], items));
            }
            let acc2 = acc.push(j);
            assert(acc2[acc.len() as int] == j);
            assert forall|i2: int| 0 <= i2 < j + 1 && listed(#[trigger] cs[i2], items) implies exists|t: int| 0 <= t < acc2.len() && acc2[t] == i2 by {
                if i2 < j {
                    let t = choose|t: int| 0 <= t < acc.len() && acc[t] == i2;
                    assert(acc2[t] == i2);
                } else {
                    assert(acc2[acc.len() as int] == i2);
                }
            }
            assert(listed_positions(cs, items, acc2, j + 1));
            lemma_rm_indices_exact(cs, items, j + 1, acc2);
        } else {
            assert forall|i2: int| 0 <= i2 < j + 1 && listed(#[trigger] cs[i2], items) implies exists|t: int| 0 <= t < acc.len() && acc[t] == i2 by {
            }
            lemma_rm_indices_exact(cs, items, j + 1, acc);
        }
    }
}

/// No child in `s` is listed.
pub open spec fn none_listed(s: Seq<Tree>, items: Seq<Seq<char>>) -> bool {
    forall|k: int| 0 <= k < s.len() ==> !listed(#[trigger] s[k], items)
}

/// The child nodes of `s` whose texts are not among `items`, in order.
pub open spec fn unlisted_nodes(s: Seq<Tree>, items: Seq<Seq<char>>) -> Seq<Tree>
    decreases s.len(),
{
    if s.len() == 0 {
        Seq::empty()
    } else {
        let p = unlisted_nodes(s.drop_last(), items);
        if s.last() is Node && !listed(s.last(), items) {
            p.push(s.last())
        } else {
            p
        }
    }
}

proof fn lemma_unlisted_concat(a: Seq<Tree>, b: Seq<Tree>, items: Seq<Seq<char>>)
    ensures
        unlisted_nodes(a + b, items) == unlisted_nodes(a, items) + unlisted_nodes(b, items),
    decreases b.len(),
{
    if b.len() == 0 {
        assert(a + b =~= a);
        assert(unlisted_nodes(b, items) =~= Seq::<Tree>::empty());
        assert(unlisted_nodes(a, items) + unlisted_nodes(b, items) =~= unlisted_nodes(a, items));
    } else {
        lemma_unlisted_concat(a, b.drop_last(), items);
        assert((a + b).drop_last() =~= a + b.drop_last());
        assert((a + b).last() == b.last());
        assert(unlisted_nodes(a + b, items) =~= unlisted_nodes(a, items) + unlisted_nodes(b, items));
    }
}

proof fn lemma_unlisted_one(t: Tree, items: Seq<Seq<char>>)
    requires
        !(t is Node) || listed(t, items),
    ensures
        unlisted_nodes(seq![t], items) == Seq::<Tree>::empty(),
{
    assert(seq![t].drop_last() =~= Seq::<Tree>::empty());
    assert(seq![t].last() == t);
    assert(unlisted_nodes(Seq::<Tree>::empty(), items) == Seq::<Tree>::empty());
}

proof fn lemma_step_prefix(cs: Seq<Tree>, items: Seq<Seq<char>>, r: Seq<Tree>, p: int, acc: int, i: int)
    requires
        0 <= acc <= p <= i < cs.len(),
        i - acc < r.len(),
        r.skip(p - acc) == cs.skip(p),
        unlisted_nodes(r.take(p - acc), items) == unlisted_nodes(cs.take(p), items),
        listed(cs[i], items),
    ensures
        r[i - acc] == cs[i],
        unlisted_nodes(r.remove(i - acc).take(i - acc), items) == unlisted_nodes(cs.take(i + 1), items),
{
    let a = i - acc;
    let d = p - acc;
    assert(r.skip(d)[a - d] == cs.skip(p)[a - d]);
    assert(r.skip(d).take(a - d) =~= cs.subrange(p, i)) by {
        assert forall|u: int| 0 <= u < a - d implies r.skip(d).take(a - d)[u] == cs.subrange(p, i)[u] by {
            assert(r.skip(d)[u] == cs.skip(p)[u]);
        }
    }
    assert(r.remove(a).take(a) =~= r.take(d) + cs.subrange(p, i));
    assert(cs.take(i) =~= cs.take(p) + cs.subrange(p, i));
    assert(cs.take(i + 1) =~= cs.take(i) + seq![cs[i]]);
    lemma_unlisted_concat(r.take(d), cs.subrange(p, i), items);
    lemma_unlisted_concat(cs.take(p), cs.subrange(p, i), items);
    lemma_unlisted_concat(cs.take(i), seq![cs[i]], items);
    lemma_unlisted_one(cs[i], items);
    assert(unlisted_nodes(cs.take(i), items) + Seq::<Tree>::empty() =~= unlisted_nodes(cs.take(i), items));
}

proof fn lemma_token_drop(r1: Seq<Tree>, a: int, items: Seq<Seq<char>>)
    requires
        0 < a <= r1.len(),
        !(r1[a - 1] is Node),
    ensures
        unlisted_nodes(r1.remove(a - 1).take(a - 1), items) == unlisted_nodes(r1.take(a), items),
{
    assert(r1.remove(a - 1).take(a - 1) =~= r1.take(a - 1));
    assert(r1.take(a) =~= r1.take(a - 1) + seq![r1[a - 1]]);
    lemma_unlisted_concat(r1.take(a - 1), seq![r1[a - 1]], items);
    lemma_unlisted_one(r1[a - 1], items);
    assert(unlisted_nodes(r1.take(a - 1), items) + Seq::<Tree>::empty() =~= unlisted_nodes(r1.take(a - 1), items));
}

proof fn lemma_end_kept(cs: Seq<Tree>, items: Seq<Seq<char>>, r: Seq<Tree>, p: int, acc: int)
    requires
        0 <= acc <= p <= cs.len(),
        p - acc <= r.len(),
        r.skip(p - acc) == cs.skip(p),
        unlisted_nodes(r.take(p - acc), items) == unlisted_nodes(cs.take(p), items),
    ensures
        unlisted_nodes(r, items) == unlisted_nodes(cs, items),
{
    assert(r =~= r.take(p - acc) + r.skip(p - acc));
    assert(cs =~= cs.take(p) + cs.skip(p));
    lemma_unlisted_concat(r.take(p - acc), r.skip(p - acc), items);
    lemma_unlisted_concat(cs.take(p), cs.skip(p), items);
}

proof fn lemma_rm_fold_clean(cs: Seq<Tree>, items: Seq<Seq<char>>, idx: Seq<int>, r: Seq<Tree>, k: int, acc: int, p: int)
    requires
        listed_positions(cs, items, idx, cs.len() as int),
        0 <= k <= idx.len(),
        k == 0 ==> p == 0,
        k > 0 ==> p == idx[k - 1] + 1,
        0 <= acc <= p <= cs.len(),
        p - acc <= r.len(),
        r.skip(p - acc) == cs.skip(p),
        none_listed(r.take(p - acc), items),
        unlisted_nodes(r.take(p - acc), items) == unlisted_nodes(cs.take(p), items),
    ensures
        rm_fold(r, idx, k, acc) matches Some(r2) ==> none_listed(r2, items)
            && unlisted_nodes(r2, items) == unlisted_nodes(cs, items),
    decreases idx.len() - k,
{
    assert(r.skip(p - acc).len() == r.len() - (p - acc));
    assert(cs.skip(p).len() == cs.len() - p);
    assert(r.len() - (p - acc) == cs.len() - p);
    if k >= idx.len() {
        lemma_end_kept(cs, items, r, p, acc);
        assert forall|u: int| 0 <= u < r.len() implies !listed(#[trigger] r[u], items) by {
            if u < p - acc {
                assert(r[u] == r.take(p - acc)[u]);
            } else {
                let c = p + (u - (p - acc));
                assert(r[u] == r.skip(p - acc)[u - (p - acc)]);
                assert(r[u] == cs[c]);
                if listed(cs[c], items) {
                    let t = choose|t: int| 0 <= t < idx.len() && idx[t] == c;
                    if k > 0 {
                        assert(t <= k - 1);
                        if t < k - 1 {
                            assert(idx[t] < idx[k - 1]);
                        }
                    }
                }
            }
        }
    } else {
        let i = idx[k];
        if k > 0 {
            assert(idx[k - 1] < idx[k]);
        }
        let a = i - acc;
        if 0 <= a < r.len() {
            let r1 = r.remove(a);
            assert forall|u: int| 0 <= u < a implies !listed(#[trigger] r1.take(a)[u], items) by {
                assert(r1.take(a)[u] == r[u]);
                if u < p - acc {
                    assert(r[u] == r.take(p - acc)[u]);
                } else {
                    let c = p + (u - (p - acc));
                    assert(r[u] == r.skip(p - acc)[u - (p - acc)]);
                    assert(r[u] == cs[c]);
                    if listed(cs[c], items) {
                        let t = choose|t: int| 0 <= t < idx.len() && idx[t] == c;
                        if t >= k {
                            if t > k {
                                assert(idx[k] < idx[t]);
                            }
                        } else {
                            if t < k - 1 {
                                assert(idx[t] < idx[k - 1]);
                            }
                        }
                    }
                }
            }
            assert(r1.skip(a) =~= cs.skip(i + 1)) by {
                assert forall|u: int| 0 <= u < r1.skip(a).len() implies r1.skip(a)[u] == cs.skip(i + 1)[u] by {
                    assert(r1.skip(a)[u] == r[a + 1 + u]);
                    assert(r.skip(p - acc)[a + 1 + u - (p - acc)] == cs.skip(p)[a + 1 + u - (p - acc)]);
                    assert(cs.skip(p)[a + 1 + u - (p - acc)] == cs[i + 1 + u]);
                    assert(cs.skip(i + 1)[u] == cs[i + 1 + u]);
                }
            }
            lemma_step_prefix(cs, items, r, p, acc, i);
            if 0 <= a - 1 < r1.len() {
                if is_nl_token(r1[a - 1]) {
                    lemma_token_drop(r1, a, items);
                    let r2 = r1.remove(a - 1);
                    assert(r2.take(a - 1) =~= r1.take(a).take(a - 1));
                    assert(r2.skip(a - 1) =~= r1.skip(a));
                    lemma_rm_fold_clean(cs, items, idx, r2, k + 1, acc + 2, i + 1);
                } else {
                    lemma_rm_fold_clean(cs, items, idx, r1, k + 1, acc + 1, i + 1);
                }
            }
        }
    }
}

/// Removing listed elements from a list whose listed elements are pairwise
/// different leaves none of them: every child node whose text is one of
/// `items` is taken out, whatever its kind, and every other child node is
/// kept, in order.
pub proof fn rmarr_removes_every_listed(cs: Seq<Tree>, items: Seq<Seq<char>>)
    requires
        listed_distinct(cs, items),
    ensures
        rm_indices(cs, items, 0, Seq::empty()) is Some,
        rm_fold(cs, rm_indices(cs, items, 0, Seq::empty())->0, 0, 0) matches Some(r) ==> none_listed(r, items)
            && unlisted_nodes(r, items) == unlisted_nodes(cs, items),
{
    lemma_rm_indices_exact(cs, items, 0, Seq::empty());
    let idx = rm_indices(cs, items, 0, Seq::empty())->0;
    assert(cs.skip(0) =~= cs);
    assert(none_listed(cs.take(0), items));
    lemma_rm_fold_clean(cs, items, idx, cs, 0, 0, 0);
}

proof fn lemma_subtree_replace(t: Tree, p: Seq<int>, n: Tree)
    requires
        valid_path(t, p),
    ensures
        subtree(crate::syntax::replace_at(t, p, n), p) == n,
    decreases p.len(),
{
    if p.len() > 0 {
        lemma_subtree_replace(kids(t)[p[0]], p.drop_first(), n);
        match t {
            Tree::Node(_, cs) => {},
            Tree::Token(_, _) => {},
        }
    }
}

proof fn lemma_first_list_or_with(cs: Seq<Tree>, a: int, j: int)
    requires
        0 <= a <= j < cs.len(),
        is_node_of(cs[j], NODE_LIST),
        forall|i: int| 0 <= i < j ==> !is_node_of(#[trigger] cs[i], NODE_WITH) && !is_node_of(cs[i], NODE_LIST),
    ensures
        crate::write::first_kind2_from(cs, NODE_WITH, NODE_LIST, a) == Some(j),
    decreases j - a,
{
    if a < j {
        lemma_first_list_or_with(cs, a + 1, j);
    }
}

/// In a binding that holds a list (before any other list or `with` scope)
/// whose listed elements are pairwise different, `rmarr` leaves no child
/// node whose text is one of `items`: each listed element is removed,
/// whatever its kind, and the other child nodes stay, in order.
pub proof fn rmarr_leaves_no_listed_element(x: Cursor, items: Seq<Seq<char>>, j: int)
    requires
        x.wf(),
        0 <= j < kids(x.at()).len(),
        is_node_of(kids(x.at())[j], NODE_LIST),
        forall|i: int| 0 <= i < j ==> !is_node_of(#[trigger] kids(x.at())[i], NODE_WITH)
            && !is_node_of(kids(x.at())[i], NODE_LIST),
        listed_distinct(kids(kids(x.at())[j]), items),
    ensures
        rm_aux_spec(x, items) matches Some(Some(t)) ==> none_listed(kids(subtree(t, x.path.push(j))), items)
            && unlisted_nodes(kids(subtree(t, x.path.push(j))), items) == unlisted_nodes(kids(kids(x.at())[j]), items),
{
    let cs = kids(x.at());
    let l = cs[j];
    lemma_first_list_or_with(cs, 0, j);
    rmarr_removes_every_listed(kids(l), items);
    lemma_path_push(x.root, x.path, j);
    if let Some(idx) = rm_indices(kids(l), items, 0, Seq::empty()) {
        if let Some(r) = rm_fold(kids(l), idx, 0, 0) {
            lemma_subtree_replace(x.root, x.path.push(j), with_kids(l, r));
        }
    }
}

// ---------------------------------------------------------------- findattr's descent

/// No character of `b` is a dot.
pub open spec fn no_dot(b: Seq<char>) -> bool {
    forall|k: int| 0 <= k < b.len() ==> b[k] != '.'
}

proof fn lemma_split_dot_parts(s: Seq<char>)
    ensures
        forall|i: int| 0 <= i < split_dot(s).len() ==> no_dot(#[trigger] split_dot(s)[i]),
    decreases s.len(),
{
    if s.len() > 0 {
        lemma_split_dot_parts(s.drop_last());
        crate::strings::lemma_split_dot_nonempty(s.drop_last());
        let p = split_dot(s.drop_last());
        if s.last() != '.' {
            assert forall|i: int| 0 <= i < split_dot(s).len() implies no_dot(#[trigger] split_dot(s)[i]) by {
                if i == p.len() - 1 {
                    let x = p.last().push(s.last());
                    assert forall|k: int| 0 <= k < x.len() implies x[k] != '.' by {
                        if k < p.last().len() {
                            assert(x[k] == p.last()[k]);
                        }
                    }
                }
            }
        } else {
            assert forall|i: int| 0 <= i < split_dot(s).len() implies no_dot(#[trigger] split_dot(s)[i]) by {
                if i < p.len() {
                    assert(split_dot(s)[i] == p[i]);
                }
            }
        }
    }
}

proof fn lemma_split_single(b: Seq<char>)
    requires
        no_dot(b),
    ensures
        split_dot(b) == seq![b],
    decreases b.len(),
{
    if b.len() > 0 {
        lemma_split_single(b.drop_last());
        assert(b.drop_last().push(b.last()) =~= b);
        assert(split_dot(b) =~= seq![b]);
    } else {
        assert(b =~= Seq::<char>::empty());
        assert(split_dot(b) =~= seq![b]);
    }
}

proof fn lemma_split_after_dot(a: Seq<char>, b: Seq<char>)
    requires
        no_dot(b),
    ensures
        split_dot(a + seq!['.'] + b) == split_dot(a).push(b),
    decreases b.len(),
{
    let s = a + seq!['.'] + b;
    if b.len() == 0 {
        assert(b =~= Seq::<char>::empty());
        assert(s =~= a.push('.'));
        assert(s.drop_last() =~= a);
        assert(s.last() == '.');
    } else {
        lemma_split_after_dot(a, b.drop_last());
        assert(s.drop_last() =~= a + seq!['.'] + b.drop_last());
        assert(b.drop_last().push(b.last()) =~= b);
        assert(split_dot(s) =~= split_dot(a).push(b));
    }
}

proof fn lemma_split_join(p: Seq<Seq<char>>)
    requires
        p.len() >= 1,
        forall|i: int| 0 <= i < p.len() ==> no_dot(#[trigger] p[i]),
    ensures
        split_dot(crate::strings::join_dot(p)) == p,
    decreases p.len(),
{
    if p.len() == 1 {
        lemma_split_single(p[0]);
        assert(p =~= seq![p[0]]);
    } else {
        lemma_split_join(p.drop_last());
        lemma_split_after_dot(crate::strings::join_dot(p.drop_last()), p.last());
        assert(p.drop_last().push(p.last()) =~= p);
    }
}

/// Are the key path `key` and the path `qk` related: equal, or one a
/// proper prefix of the other?
pub open spec fn related(key: Seq<Seq<char>>, qk: Seq<Seq<char>>) -> bool {
    key == qk || (qk.len() > key.len() && key == qk.take(key.len() as int))
        || (qk.len() < key.len() && qk == key.take(qk.len() as int))
}

/// `t` is no binding, or none of its key paths is related to `qk`.
pub open spec fn unrelated_binding(t: Tree, qk: Seq<Seq<char>>) -> bool {
    is_node_of(t, NODE_KEY_VALUE) ==> forall|c: int| 0 <= c < kids(t).len() && is_node_of(#[trigger] kids(t)[c], NODE_KEY)
        ==> !related(ident_texts(kids(kids(t)[c])), qk)
}

/// `t` is a binding `key = value;`: two child nodes, the key path `key`
/// and a value that is no key path.
pub open spec fn simple_binding(t: Tree, key: Seq<Seq<char>>) -> bool {
    &&& is_node_of(t, NODE_KEY_VALUE)
    &&& node_pos(kids(t)).len() == 2
    &&& is_node_of(kids(t)[node_pos(kids(t))[0]], NODE_KEY)
    &&& ident_texts(kids(kids(t)[node_pos(kids(t))[0]])) == key
    &&& !is_node_of(kids(t)[node_pos(kids(t))[1]], NODE_KEY)
}

/// The value of a simple binding.
pub open spec fn binding_value(t: Tree) -> Tree {
    kids(t)[node_pos(kids(t))[1]]
}

proof fn lemma_scan_skip_keys(base: Cursor, qk: Seq<Seq<char>>, name: Seq<char>, m: int, m2: int, acc: Seq<(Seq<char>, Seq<char>)>)
    requires
        0 <= m < node_pos(kids(base.at())).len(),
        0 <= m2,
        unrelated_binding(kids(base.at())[node_pos(kids(base.at()))[m]], qk),
    ensures
        fa_scan(base, qk, name, m, m2, acc) == fa_scan(base, qk, name, m + 1, 0, acc),
    decreases node_pos(kids(kids(base.at())[node_pos(kids(base.at()))[m]])).len() - m2,
{
    let ps = node_pos(kids(base.at()));
    let child = kids(base.at())[ps[m]];
    let qs = node_pos(kids(child));
    lemma_node_pos(kids(child));
    if is_node_of(child, NODE_KEY_VALUE) && m2 < qs.len() {
        let sub = kids(child)[qs[m2]];
        if is_node_of(sub, NODE_KEY) {
            assert(0 <= qs[m2] < kids(child).len());
            assert(is_node_of(kids(child)[qs[m2]], NODE_KEY));
            let key = ident_texts(kids(sub));
            assert(!related(key, qk));
            assert(fa_pair(base, qk, ps[m], key, acc) == Scan::Go(acc));
            assert(fa_scan(base, qk, name, m, m2, acc) == fa_scan(base, qk, name, m, m2 + 1, acc));
        } else {
            assert(fa_scan(base, qk, name, m, m2, acc) == fa_scan(base, qk, name, m, m2 + 1, acc));
        }
        lemma_scan_skip_keys(base, qk, name, m, m2 + 1, acc);
    } else {
        assert(fa_scan(base, qk, name, m, m2, acc) == fa_scan(base, qk, name, m + 1, 0, acc));
    }
}

proof fn lemma_scan_skip_to(base: Cursor, qk: Seq<Seq<char>>, name: Seq<char>, a: int, m: int, acc: Seq<(Seq<char>, Seq<char>)>)
    requires
        0 <= a <= m < node_pos(kids(base.at())).len(),
        forall|m1: int| a <= m1 < m ==> unrelated_binding(#[trigger] kids(base.at())[node_pos(kids(base.at()))[m1]], qk),
    ensures
        fa_scan(base, qk, name, a, 0, acc) == fa_scan(base, qk, name, m, 0, acc),
    decreases m - a,
{
    if a < m {
        lemma_scan_skip_keys(base, qk, name, a, 0, acc);
        lemma_scan_skip_to(base, qk, name, a + 1, m, acc);
    }
}

/// The bindings before child `j` of the set at `base` are unrelated to `qk`.
pub open spec fn unrelated_before(base: Cursor, j: int, qk: Seq<Seq<char>>) -> bool {
    forall|i: int| 0 <= i < j ==> unrelated_binding(#[trigger] kids(base.at())[i], qk)
}

proof fn lemma_index_of_node(cs: Seq<Tree>, j: int) -> (m: int)
    requires
        0 <= j < cs.len(),
        cs[j] is Node,
    ensures
        0 <= m < node_pos(cs).len(),
        node_pos(cs)[m] == j,
        forall|m1: int| 0 <= m1 < m ==> #[trigger] node_pos(cs)[m1] < j,
{
    lemma_node_pos(cs);
    let m = choose|m: int| 0 <= m < node_pos(cs).len() && node_pos(cs)[m] == j;
    assert forall|m1: int| 0 <= m1 < m implies #[trigger] node_pos(cs)[m1] < j by {}
    m
}

proof fn lemma_simple_no_set(t: Tree, key: Seq<Seq<char>>, a: int)
    requires
        simple_binding(t, key),
        !is_node_of(binding_value(t), crate::tree::NODE_ATTR_SET),
        0 <= a,
    ensures
        crate::parse::first_kind_from(kids(t), crate::tree::NODE_ATTR_SET, a) is None,
    decreases kids(t).len() - a,
{
    let cs = kids(t);
    lemma_node_pos(cs);
    if a < cs.len() {
        if cs[a] is Node {
            let m = choose|m: int| 0 <= m < node_pos(cs).len() && node_pos(cs)[m] == a;
            assert(m == 0 || m == 1);
        }
        lemma_simple_no_set(t, key, a + 1);
    }
}

proof fn lemma_simple_set(t: Tree, key: Seq<Seq<char>>, a: int)
    requires
        simple_binding(t, key),
        is_node_of(binding_value(t), crate::tree::NODE_ATTR_SET),
        0 <= a <= node_pos(kids(t))[1],
    ensures
        crate::parse::first_kind_from(kids(t), crate::tree::NODE_ATTR_SET, a) == Some(node_pos(kids(t))[1]),
    decreases kids(t).len() - a,
{
    let cs = kids(t);
    lemma_node_pos(cs);
    assert(node_pos(cs)[0] < node_pos(cs)[1]);
    if a < node_pos(cs)[1] {
        if cs[a] is Node {
            let m = choose|m: int| 0 <= m < node_pos(cs).len() && node_pos(cs)[m] == a;
            assert(m == 0);
        }
        lemma_simple_set(t, key, a + 1);
    }
}

/// `findattr` finds a binding of exactly the path, whose value is no
/// attribute set, when no binding before it is related to the path.
pub proof fn findattr_finds_exact(base: Cursor, name: Seq<char>, i: int)
    requires
        base.wf(),
        0 <= i < kids(base.at()).len(),
        simple_binding(kids(base.at())[i], split_dot(name)),
        !is_node_of(binding_value(kids(base.at())[i]), crate::tree::NODE_ATTR_SET),
        unrelated_before(base, i, split_dot(name)),
    ensures
        findattr_spec(base, name) == Some(Some(base.child(i))),
{
    let cs = kids(base.at());
    let qk = split_dot(name);
    let ib = cs[i];
    let m = lemma_index_of_node(cs, i);
    lemma_node_pos(cs);
    assert forall|m1: int| 0 <= m1 < m implies unrelated_binding(#[trigger] cs[node_pos(cs)[m1]], qk) by {
        assert(node_pos(cs)[m1] < i);
    }
    lemma_scan_skip_to(base, qk, name, 0, m, Seq::empty());
    lemma_simple_no_set(ib, qk, 0);
    let qs = node_pos(kids(ib));
    assert(node_pos(cs)[m] == i);
    assert(fa_pair(base, qk, i, qk, Seq::empty()) == Scan::Found(base.child(i)));
    assert(ident_texts(kids(kids(ib)[qs[0]])) == qk);
    assert(fa_scan(base, qk, name, m, 0, Seq::empty()) == Some(Some(base.child(i))));
    assert(findattr_spec(base, name) == fa_scan(base, qk, name, 0, 0, Seq::empty()));
}

/// `findattr` descends into the attribute set of a binding whose key path
/// is a proper prefix of the path, whatever the number of parts of that
/// key: where the set at `base` holds `key = { ... };` before any other
/// binding related to the path, and that set holds a binding of exactly
/// the rest of the path, whose value is no attribute set, before any other
/// binding related to the rest, `findattr` finds that inner binding.
pub proof fn findattr_descends(base: Cursor, name: Seq<char>, key: Seq<Seq<char>>, j: int, i: int)
    requires
        base.wf(),
        0 <= j < kids(base.at()).len(),
        simple_binding(kids(base.at())[j], key),
        is_node_of(binding_value(kids(base.at())[j]), crate::tree::NODE_ATTR_SET),
        key.len() < split_dot(name).len(),
        key == split_dot(name).take(key.len() as int),
        unrelated_before(base, j, split_dot(name)),
        0 <= i < kids(binding_value(kids(base.at())[j])).len(),
        simple_binding(kids(binding_value(kids(base.at())[j]))[i], split_dot(name).skip(key.len() as int)),
        !is_node_of(binding_value(kids(binding_value(kids(base.at())[j]))[i]), crate::tree::NODE_ATTR_SET),
        unrelated_before(
            Cursor { root: base.root, path: base.path.push(j).push(node_pos(kids(kids(base.at())[j]))[1]) },
            i,
            split_dot(name).skip(key.len() as int),
        ),
    ensures
        findattr_spec(base, name) == Some(Some(Cursor {
            root: base.root,
            path: base.path.push(j).push(node_pos(kids(kids(base.at())[j]))[1]).push(i),
        })),
{
    let cs = kids(base.at());
    let qk = split_dot(name);
    let o = cs[j];
    let si = node_pos(kids(o))[1];
    let rest = qk.skip(key.len() as int);
    let m = lemma_index_of_node(cs, j);
    lemma_node_pos(cs);
    lemma_node_pos(kids(o));
    assert forall|m1: int| 0 <= m1 < m implies unrelated_binding(#[trigger] cs[node_pos(cs)[m1]], qk) by {
        assert(node_pos(cs)[m1] < j);
    }
    lemma_scan_skip_to(base, qk, name, 0, m, Seq::empty());
    // the set of the outer binding
    lemma_simple_set(o, key, 0);
    assert(cfg_rel(o) == Some(seq![si]));
    lemma_path_push(base.root, base.path, j);
    lemma_path_push(base.root, base.path.push(j), si);
    let nb = sub_cursor(base, j, seq![si]);
    assert(nb.path =~= base.path.push(j).push(si));
    assert(nb.wf());
    // the rest of the path, as text, splits back into its parts
    lemma_split_dot_parts(name);
    assert forall|t: int| 0 <= t < rest.len() implies no_dot(#[trigger] rest[t]) by {
        assert(rest[t] == qk[key.len() + t]);
    }
    lemma_split_join(rest);
    let name2 = crate::strings::join_dot(rest);
    assert(nb == Cursor { root: base.root, path: base.path.push(j).push(si) });
    findattr_finds_exact(nb, name2, i);
    // the key of the outer binding is its first child node
    let kq = node_pos(kids(o))[0];
    assert(ident_texts(kids(kids(o)[kq])) == key);
    assert(key != qk);
    lemma_fa_pair_decreases(base, j, seq![si]);
    assert(fa_pair(base, qk, j, key, Seq::empty()) == Scan::Found(nb.child(i)));
}

proof fn lemma_simple_value(t: Tree, key: Seq<Seq<char>>, a: int)
    requires
        simple_binding(t, key),
        0 <= a <= node_pos(kids(t))[1],
    ensures
        crate::read::first_not_kind_from(kids(t), NODE_KEY, a) == Some(node_pos(kids(t))[1]),
    decreases kids(t).len() - a,
{
    let cs = kids(t);
    lemma_node_pos(cs);
    assert(node_pos(cs)[0] < node_pos(cs)[1]);
    if a < node_pos(cs)[1] {
        if cs[a] is Node {
            let m = choose|m: int| 0 <= m < node_pos(cs).len() && node_pos(cs)[m] == a;
            assert(m == 0);
        }
        lemma_simple_value(t, key, a + 1);
    }
}

/// So `readvalue` reads, through such a binding `key = { ... };`, the value
/// text of the inner binding.
pub proof fn readvalue_descends(f: Seq<char>, q: Seq<char>, key: Seq<Seq<char>>, j: int, i: int)
    requires
        file_base(f) is Some,
        ({
            let base = file_base(f)->0;
            &&& 0 <= j < kids(base.at()).len()
            &&& simple_binding(kids(base.at())[j], key)
            &&& is_node_of(binding_value(kids(base.at())[j]), crate::tree::NODE_ATTR_SET)
            &&& key.len() < split_dot(q).len()
            &&& key == split_dot(q).take(key.len() as int)
            &&& unrelated_before(base, j, split_dot(q))
            &&& 0 <= i < kids(binding_value(kids(base.at())[j])).len()
            &&& simple_binding(kids(binding_value(kids(base.at())[j]))[i], split_dot(q).skip(key.len() as int))
            &&& !is_node_of(binding_value(kids(binding_value(kids(base.at())[j]))[i]), crate::tree::NODE_ATTR_SET)
            &&& unrelated_before(
                Cursor { root: base.root, path: base.path.push(j).push(node_pos(kids(kids(base.at())[j]))[1]) },
                i,
                split_dot(q).skip(key.len() as int),
            )
        }),
    ensures
        crate::read::readvalue_spec(f, q) == Some(Ok::<Seq<char>, ReadError>(text(binding_value(
            kids(binding_value(kids(file_base(f)->0.at())[j]))[i],
        )))),
{
    let t = nix_tree(f);
    let base = file_base(f)->0;
    match t {
        Tree::Token(_, _) => {
            assert(cfg_rel(root_cursor(t).at()) is None);
        },
        Tree::Node(_, _) => {},
    }
    crate::parse::lemma_cfgbase(root_cursor(t));
    findattr_descends(base, q, key, j, i);
    let o = kids(base.at())[j];
    let si = node_pos(kids(o))[1];
    let x = Cursor { root: base.root, path: base.path.push(j).push(si).push(i) };
    lemma_node_pos(kids(o));
    lemma_node_pos(kids(kids(binding_value(o))[i]));
    lemma_path_push(base.root, base.path, j);
    lemma_path_push(base.root, base.path.push(j), si);
    lemma_path_push(base.root, base.path.push(j).push(si), i);
    let ib = kids(binding_value(o))[i];
    assert(x.at() == ib);
    lemma_simple_value(ib, split_dot(q).skip(key.len() as int), 0);
}

} // verus!
