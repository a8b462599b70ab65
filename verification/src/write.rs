//! Writing attribute values, adding and removing list elements, and
//! deleting attributes in a Nix file.
use vstd::prelude::*;
use vstd::string::StringExecFns;
use crate::parse::{
    cfg_rel, cfg_rel_exec, findattr_run, findattr_spec, ident_texts, ident_texts_exec, lemma_cfg_rel,
    lemma_fa_pair_decreases, ocur, sub_cursor,
};
use crate::read::{
    attr_missing, binding_in_file, config_base, file_base, found_binding, findvalue, first_not_kind_from,
    readvalue_spec,
};
use crate::strings::{
    inserted, inserted_each, lemma_inserted_each_push, lemma_removed_each_context, lemma_removed_each_push,
    lemma_replaced_inserted_each, lemma_replaced_same, occurs_in, removed_each, replaced, split_dot,
    split_dot_exec, strs,
};
use crate::syntax::{
    lemma_insert_kid_text, lemma_kid_occurs, lemma_remove_kid_text, lemma_update_kid_text, nix_tree,
    parse_tree, replace_at, root_cursor, valid_path, Cursor, SyntaxNode,
};
use crate::tree::{
    first_node_eq_from, ints, is_node_of, kids, lemma_node_pos, node_pos, text, texts, with_kids, Green,
    Tree, NODE_ATTR_SET, NODE_KEY, NODE_KEY_VALUE, NODE_LIST, NODE_WITH,
};

verus! {

/// Why a write failed.
#[derive(Debug, Clone, Copy, PartialEq, Eq, Structural)]
pub enum WriteError {
    /// The file holds no attribute set.
    ParseError,
    /// The attribute is not there.
    NoAttr,
    /// The attribute holds no list.
    ArrayError,
}

pub open spec fn wview(r: Result<String, WriteError>) -> Result<Seq<char>, WriteError> {
    match r {
        Ok(s) => Ok(s@),
        Err(e) => Err(e),
    }
}

/// The root of the file obtained by printing `t` and parsing it again.
pub open spec fn reparse(t: Tree) -> Tree {
    nix_tree(text(t))
}

/// `n` is the root of the tree obtained by printing `t` and parsing it
/// again, and spans the same text as `t`.
pub open spec fn tree_result(n: SyntaxNode, t: Tree) -> bool {
    n@.root == reparse(t) && n@.path.len() == 0 && text(n@.at()) == text(t)
}

/// Prints `t` and parses the text again; the text is kept.
fn reparse_exec(t: &Green) -> (r: SyntaxNode)
    ensures
        r@.root == reparse(t@),
        r@.path.len() == 0,
        text(r@.at()) == text(t@),
{
    let s = t.to_text();
    SyntaxNode::new_root(parse_tree(s.as_str()))
}

// ---------------------------------------------------------------- modvalue

/// The text of the value that `write` puts in for the value text `v`: the
/// first child node of the parsed `v`.
pub open spec fn parsed_value(v: Seq<char>) -> Seq<char> {
    text(kids(nix_tree(v))[crate::tree::node_pos(kids(nix_tree(v)))[0]])
}

/// What `modvalue` returns for the binding at `node` and the value text
/// `val`: the tree (which is then printed and parsed again) where the first child node of the binding that
/// is not its key is replaced by the first child node of the parsed `val`;
/// `Some(None)` when the binding has no such child; `None` where it is undefined
/// (the parsed `val` has no child node).
pub open spec fn modvalue_spec(node: Cursor, val: Seq<char>) -> Option<Option<Tree>> {
    let cs = kids(node.at());
    match first_not_kind_from(cs, NODE_KEY, 0) {
        None => Some(None),
        Some(ci) => {
            let vt = nix_tree(val);
            let vps = crate::tree::node_pos(kids(vt));
            if vps.len() == 0 {
                None
            } else {
                let rep = kids(vt)[vps[0]];
                match first_node_eq_from(cs, cs[ci], 0) {
                    None => None,
                    Some(i) => Some(Some(node.with_kids(cs.update(i, rep)))),
                }
            }
        },
    }
}

#[verifier::loop_isolation(false)]
fn modvalue(node: &SyntaxNode, val: &str) -> (r: Option<Option<SyntaxNode>>)
    ensures
        match r {
            None => modvalue_spec(node@, val@) is None,
            Some(None) => modvalue_spec(node@, val@) == Some(None::<Tree>),
            Some(Some(n)) => modvalue_spec(node@, val@) matches Some(Some(t)) && tree_result(n, t),
        },
        r matches Some(Some(n)) ==> findvalue(node@.at()) matches Some(old) && replaced(
            text(node@.root),
            text(old),
            parsed_value(val@),
            text(n@.at()),
        ) && occurs_in(parsed_value(val@), val@),
{
    let g = node.green();
    let n = g.len();
    let mut ci: usize = 0;
    while ci < n
        invariant
            n == kids(g@).len(),
            ci <= n,
            first_not_kind_from(kids(g@), NODE_KEY, 0) == first_not_kind_from(kids(g@), NODE_KEY, ci as int),
        decreases n - ci,
    {
        let c = g.child(ci);
        if c.is_node() && c.kind() != NODE_KEY {
            let vt = parse_tree(val);
            let vps = vt.node_positions();
            if vps.len() == 0 {
                return None;
            }
            proof {
                crate::tree::lemma_node_pos(kids(vt@));
                assert(crate::tree::ints(vps@)[0] == vps@[0] as int);
                crate::tree::lemma_first_node_eq_from(kids(g@), c@, 0, ci as int);
            }
            proof {
                lemma_kid_occurs(root_cursor(vt@), vps@[0] as int);
                assert(root_cursor(vt@).at() == vt@);
            }
            let rep = vt.child(vps[0]).deep_clone();
            let i = match g.first_node_eq(c) {
                Some(i) => i,
                None => {
                    return None;
                },
            };
            let mut cs = g.children_clone();
            proof {
                crate::tree::lemma_views_update(cs@, i as int, rep);
            }
            cs.set(i, rep);
            proof {
                lemma_first_node_eq_bound(kids(g@), c@, 0);
                lemma_update_kid_text(node@, i as int, rep@);
            }
            let replaced = g.with_children(cs);
            let out = node.replace_with(replaced);
            return Some(Some(reparse_exec(&out)));
        }
        ci = ci + 1;
    }
    Some(None)
}

// ---------------------------------------------------------------- matchval

/// Does some `NODE_KEY` child at or after `m` of a binding start with the
/// parts `qq`?
pub open spec fn key_match_from(cs: Seq<Tree>, qq: Seq<Seq<char>>, m: int) -> bool
    decreases cs.len() - m,
{
    if m < 0 || m >= cs.len() {
        false
    } else if is_node_of(cs[m], NODE_KEY) && ident_texts(kids(cs[m])).len() >= qq.len()
        && ident_texts(kids(cs[m])).take(qq.len() as int) == qq {
        true
    } else {
        key_match_from(cs, qq, m + 1)
    }
}

/// The first binding at or after child `j` whose key starts with `qq`.
pub open spec fn mv_scan(cs: Seq<Tree>, qq: Seq<Seq<char>>, j: int) -> Option<int>
    decreases cs.len() - j,
{
    if j < 0 || j >= cs.len() {
        None
    } else if is_node_of(cs[j], NODE_KEY_VALUE) && key_match_from(kids(cs[j]), qq, 0) {
        Some(j)
    } else {
        mv_scan(cs, qq, j + 1)
    }
}

/// The binding whose key starts with the longest prefix of `q` (of at
/// most `acc` parts) that some key starts with: `matchval`.
pub open spec fn matchval_spec(cs: Seq<Tree>, q: Seq<char>, acc: nat) -> Option<int>
    decreases acc,
{
    if acc == 0 {
        None
    } else {
        match mv_scan(cs, split_dot(q).take(acc as int), 0) {
            Some(j) => Some(j),
            None => if acc == 1 {
                None
            } else {
                matchval_spec(cs, q, (acc - 1) as nat)
            },
        }
    }
}

pub proof fn lemma_mv_scan(cs: Seq<Tree>, qq: Seq<Seq<char>>, j: int)
    ensures
        mv_scan(cs, qq, j) matches Some(i) ==> 0 <= j <= i < cs.len() && is_node_of(cs[i], NODE_KEY_VALUE),
    decreases cs.len() - j,
{
    if 0 <= j < cs.len() && !(is_node_of(cs[j], NODE_KEY_VALUE) && key_match_from(kids(cs[j]), qq, 0)) {
        lemma_mv_scan(cs, qq, j + 1);
    }
}

pub proof fn lemma_matchval(cs: Seq<Tree>, q: Seq<char>, acc: nat)
    ensures
        matchval_spec(cs, q, acc) matches Some(i) ==> 0 <= i < cs.len() && is_node_of(cs[i], NODE_KEY_VALUE),
    decreases acc,
{
    if acc > 0 {
        lemma_mv_scan(cs, split_dot(q).take(acc as int), 0);
        if acc > 1 {
            lemma_matchval(cs, q, (acc - 1) as nat);
        }
    }
}

fn key_match_exec(g: &Green, qkey: &Vec<String>, n: usize) -> (r: bool)
    requires
        n <= qkey.len(),
    ensures
        r == key_match_from(kids(g@), strs(qkey@).take(n as int), 0),
{
    let ghost qq = strs(qkey@).take(n as int);
    let len = g.len();
    let mut m: usize = 0;
    while m < len
        invariant
            len == kids(g@).len(),
            n <= qkey.len(),
            qq == strs(qkey@).take(n as int),
            m <= len,
            key_match_from(kids(g@), qq, 0) == key_match_from(kids(g@), qq, m as int),
        decreases len - m,
    {
        let c = g.child(m);
        if c.is_node() && c.kind() == NODE_KEY {
            let key = ident_texts_exec(c);
            if key.len() >= n {
                let same = crate::strings::strs_range_eq(&key, 0, qkey, 0, n);
                proof {
                    assert(strs(key@).subrange(0, n as int) =~= strs(key@).take(n as int));
                    assert(strs(qkey@).subrange(0, n as int) =~= qq);
                }
                if same {
                    return true;
                }
            }
        }
        m = m + 1;
    }
    false
}

#[verifier::loop_isolation(false)]
fn matchval(configbase: &Green, qkey: &Vec<String>, acc: usize, Ghost(q): Ghost<Seq<char>>) -> (r: Option<usize>)
    requires
        strs(qkey@) == split_dot(q),
        acc <= qkey.len(),
    ensures
        r matches Some(i) ==> matchval_spec(kids(configbase@), q, acc as nat) == Some(i as int),
        r is None ==> matchval_spec(kids(configbase@), q, acc as nat) is None,
    decreases acc,
{
    if acc == 0 {
        return None;
    }
    let n = configbase.len();
    let ghost cs = kids(configbase@);
    let ghost qq = split_dot(q).take(acc as int);
    let mut j: usize = 0;
    while j < n
        invariant
            n == cs.len(),
            cs == kids(configbase@),
            qq == split_dot(q).take(acc as int),
            strs(qkey@) == split_dot(q),
            acc <= qkey.len(),
            j <= n,
            mv_scan(cs, qq, 0) == mv_scan(cs, qq, j as int),
        decreases n - j,
    {
        let c = configbase.child(j);
        if c.is_node() && c.kind() == NODE_KEY_VALUE && key_match_exec(c, qkey, acc) {
            return Some(j);
        }
        j = j + 1;
    }
    if acc == 1 {
        None
    } else {
        matchval(configbase, qkey, acc - 1, Ghost(q))
    }
}

// ---------------------------------------------------------------- addvalue

/// Does a token hold a line break?
pub open spec fn is_nl_token(t: Tree) -> bool {
    t is Token && text(t).contains('\n')
}

/// The first token at or after `j` that holds a line break.
pub open spec fn first_nl_from(cs: Seq<Tree>, j: int) -> Option<int>
    decreases cs.len() - j,
{
    if j < 0 || j >= cs.len() {
        None
    } else if is_nl_token(cs[j]) {
        Some(j)
    } else {
        first_nl_from(cs, j + 1)
    }
}

/// The first token at or after `j` equal to `x`.
pub open spec fn first_tok_eq_from(cs: Seq<Tree>, x: Tree, j: int) -> Option<int>
    decreases cs.len() - j,
{
    if j < 0 || j >= cs.len() {
        None
    } else if cs[j] is Token && cs[j] == x {
        Some(j)
    } else {
        first_tok_eq_from(cs, x, j + 1)
    }
}

/// The child position where `addvalue` inserts the new binding: after the
/// first line break that follows the binding `matchval` picks, else before
/// the last two children (the closing brace and what precedes it).
/// `None` where it is undefined (fewer than two children).
pub open spec fn insert_index(cs: Seq<Tree>, q: Seq<char>) -> Option<int> {
    if cs.len() < 2 {
        None
    } else {
        match matchval_spec(cs, q, split_dot(q).len()) {
            None => Some(cs.len() - 2),
            Some(xj) => match first_node_eq_from(cs, cs[xj], 0) {
                None => None,
                Some(i) => {
                    let cas = cs.skip(i);
                    match first_nl_from(cas, 0) {
                        None => Some(cs.len() - 2),
                        Some(p) => match first_tok_eq_from(cas, cas[p], 0) {
                            None => None,
                            Some(k) => Some(i + k),
                        },
                    }
                },
            },
        }
    }
}

/// The text of the binding `addvalue` inserts.
pub open spec fn binding_text(q: Seq<char>, val: Seq<char>) -> Seq<char> {
    "\n  "@ + q + " = "@ + val + ";"@
}

/// What `addvalue` returns: the tree (which is then printed and
/// parsed again) where the parsed text
/// `binding_text(q, val)` is inserted among the children of `base` at
/// `insert_index`; `None` where that is undefined.
pub open spec fn addvalue_spec(base: Cursor, q: Seq<char>, val: Seq<char>) -> Option<Tree> {
    let cs = kids(base.at());
    match insert_index(cs, q) {
        None => None,
        Some(index) => Some(base.with_kids(cs.insert(index, nix_tree(binding_text(q, val))))),
    }
}

pub proof fn lemma_first_nl_from(cs: Seq<Tree>, j: int)
    ensures
        first_nl_from(cs, j) matches Some(p) ==> 0 <= j <= p < cs.len() && is_nl_token(cs[p]),
    decreases cs.len() - j,
{
    if 0 <= j < cs.len() && !is_nl_token(cs[j]) {
        lemma_first_nl_from(cs, j + 1);
    }
}

pub proof fn lemma_first_tok_eq_from(cs: Seq<Tree>, x: Tree, j: int)
    ensures
        first_tok_eq_from(cs, x, j) matches Some(p) ==> 0 <= j <= p < cs.len(),
    decreases cs.len() - j,
{
    if 0 <= j < cs.len() && !(cs[j] is Token && cs[j] == x) {
        lemma_first_tok_eq_from(cs, x, j + 1);
    }
}

#[verifier::loop_isolation(false)]
fn insert_index_exec(g: &Green, q: &str) -> (r: Option<usize>)
    ensures
        r matches Some(i) ==> insert_index(kids(g@), q@) == Some(i as int),
        r is None ==> insert_index(kids(g@), q@) is None,
{
    let n = g.len();
    let ghost cs = kids(g@);
    if n < 2 {
        return None;
    }
    let qkey = split_dot_exec(q);
    proof {
        crate::strings::lemma_split_dot_nonempty(q@);
        lemma_matchval(cs, q@, split_dot(q@).len());
    }
    match matchval(g, &qkey, qkey.len(), Ghost(q@)) {
        None => Some(n - 2),
        Some(xj) => {
            let x = g.child(xj);
            proof {
                crate::tree::lemma_first_node_eq_from(cs, cs[xj as int], 0, xj as int);
            }
            let i = match g.first_node_eq(x) {
                Some(i) => i,
                None => {
                    return None;
                },
            };
            let ghost cas = cs.skip(i as int);
            let mut p: usize = i;
            while p < n
                invariant
                    n == cs.len(),
                    cs == kids(g@),
                    i <= p <= n,
                    cas == cs.skip(i as int),
                    first_nl_from(cas, 0) == first_nl_from(cas, p - i),
                decreases n - p,
            {
                let c = g.child(p);
                proof {
                    assert(cas[p - i] == cs[p as int]);
                }
                if !c.is_node() && crate::strings::has_newline(c.to_text().as_str()) {
                    let mut k: usize = i;
                    proof {
                        lemma_first_tok_eq_from(cas, cas[p - i], 0);
                    }
                    while k < n
                        invariant
                            n == cs.len(),
                            cs == kids(g@),
                            i <= p < n,
                            i <= k <= n,
                            cas == cs.skip(i as int),
                            c@ == cs[p as int],
                            first_nl_from(cas, 0) == Some(p - i),
                            first_tok_eq_from(cas, cas[p - i], 0) == first_tok_eq_from(cas, cas[p - i], k - i),
                        decreases n - k,
                    {
                        let d = g.child(k);
                        proof {
                            assert(cas[k - i] == cs[k as int]);
                        }
                        if !d.is_node() && d.same(c) {
                            return Some(k);
                        }
                        k = k + 1;
                    }
                    return None;
                }
                p = p + 1;
            }
            Some(n - 2)
        },
    }
}

fn addvalue(configbase: &SyntaxNode, query: &str, val: &str) -> (r: Option<SyntaxNode>)
    ensures
        match r {
            None => addvalue_spec(configbase@, query@, val@) is None,
            Some(n) => addvalue_spec(configbase@, query@, val@) matches Some(t) && tree_result(n, t),
        },
        r matches Some(n) ==> inserted(text(configbase@.root), binding_text(query@, val@), text(n@.at())),
{
    let g = configbase.green();
    let index = match insert_index_exec(g, query) {
        Some(i) => i,
        None => {
            return None;
        },
    };
    let mut s = String::new();
    s.append("\n  ");
    s.append(query);
    s.append(" = ");
    s.append(val);
    s.append(";");
    let input = parse_tree(s.as_str());
    proof {
        assert(s@ =~= binding_text(query@, val@));
        lemma_insert_index_bound(kids(g@), query@);
    }
    let mut cs = g.children_clone();
    proof {
        crate::tree::lemma_views_insert(cs@, index as int, input);
    }
    cs.insert(index, input);
    proof {
        lemma_insert_kid_text(configbase@, index as int, input@);
    }
    let new = g.with_children(cs);
    let out = configbase.replace_with(new);
    Some(reparse_exec(&out))
}

pub proof fn lemma_insert_index_bound(cs: Seq<Tree>, q: Seq<char>)
    ensures
        insert_index(cs, q) matches Some(i) ==> 0 <= i <= cs.len(),
{
    if cs.len() >= 2 {
        if let Some(xj) = matchval_spec(cs, q, split_dot(q).len()) {
            lemma_matchval(cs, q, split_dot(q).len());
            crate::tree::lemma_first_node_eq_from(cs, cs[xj], 0, xj);
            if let Some(i) = first_node_eq_from(cs, cs[xj], 0) {
                let cas = cs.skip(i);
                lemma_first_nl_from(cas, 0);
                if let Some(p) = first_nl_from(cas, 0) {
                    lemma_first_tok_eq_from(cas, cas[p], 0);
                }
            }
        }
    }
}

// ---------------------------------------------------------------- findattrset

/// What `findattrset` makes of the binding at child `j` of `base` whose key
/// has the parts `key`, looking for the attribute set bound to the path
/// `qkey`, with `ind` the indentation reached so far: the set itself when
/// the key is the path and the binding's last child node is an attribute
/// set (two more spaces of indentation); the search in the attribute set of
/// the binding when the key is a proper prefix of the path; else nothing.
pub open spec fn fs_pair(base: Cursor, qkey: Seq<Seq<char>>, ind: Seq<char>, j: int, key: Seq<Seq<char>>) -> Option<(Cursor, Seq<char>)>
    decreases base.at(), 0int, 0int, 0int,
{
    let child = kids(base.at())[j];
    let qs = node_pos(kids(child));
    if qkey == key {
        if qs.len() > 0 && is_node_of(kids(child)[qs.last()], NODE_ATTR_SET) {
            Some((base.child(j).child(qs.last()), ind + "  "@))
        } else {
            None
        }
    } else if qkey.len() > key.len() && key == qkey.take(key.len() as int) {
        match cfg_rel(child) {
            Some(rel) => if valid_path(base.root, base.path) && 0 <= j < kids(base.at()).len() {
                proof {
                    lemma_fa_pair_decreases(base, j, rel);
                }
                findattrset_spec(sub_cursor(base, j, rel), qkey.skip(key.len() as int), ind + "  "@)
            } else {
                None
            },
            None => None,
        }
    } else {
        None
    }
}

/// The walk of `findattrset` over the keys of the bindings of `base`, from
/// the `m2`-th child node of its `m`-th child node on; the first key that
/// leads to the set decides.
pub open spec fn fs_scan(base: Cursor, qkey: Seq<Seq<char>>, ind: Seq<char>, m: int, m2: int) -> Option<(Cursor, Seq<char>)>
    decreases base.at(), 1int,
        node_pos(kids(base.at())).len() - m,
        node_pos(kids(kids(base.at())[node_pos(kids(base.at()))[m]])).len() - m2,
{
    let ps = node_pos(kids(base.at()));
    if m < 0 || m >= ps.len() {
        None
    } else {
        let j = ps[m];
        let child = kids(base.at())[j];
        let qs = node_pos(kids(child));
        if !is_node_of(child, NODE_KEY_VALUE) || m2 < 0 || m2 >= qs.len() {
            fs_scan(base, qkey, ind, m + 1, 0)
        } else {
            let sub = kids(child)[qs[m2]];
            if is_node_of(sub, NODE_KEY) {
                match fs_pair(base, qkey, ind, j, ident_texts(kids(sub))) {
                    Some(r) => Some(r),
                    None => fs_scan(base, qkey, ind, m, m2 + 1),
                }
            } else {
                fs_scan(base, qkey, ind, m, m2 + 1)
            }
        }
    }
}

/// The attribute set bound to the path `qkey` below the attribute set at
/// `base` (through nested bindings), with the indentation of its bindings:
/// `ind` and two spaces for each level.
pub open spec fn findattrset_spec(base: Cursor, qkey: Seq<Seq<char>>, ind: Seq<char>) -> Option<(Cursor, Seq<char>)>
    decreases base.at(), 2int, 0int, 0int,
{
    fs_scan(base, qkey, ind, 0, 0)
}

/// `findattrset_spec` for the parts `qkey[from..]`, computed; the set found
/// lies in the same tree as `base`.
fn findattrset(base: &SyntaxNode, qkey: &Vec<String>, from: usize, ind: String) -> (r: Option<(SyntaxNode, String)>)
    requires
        from <= qkey.len(),
    ensures
        match r {
            Some((n, i)) => findattrset_spec(base@, strs(qkey@).skip(from as int), ind@) == Some((n@, i@))
                && n@.root == base@.root,
            None => findattrset_spec(base@, strs(qkey@).skip(from as int), ind@) is None,
        },
    decreases base@.at(),
{
    let ghost qk = strs(qkey@).skip(from as int);
    let nq = qkey.len() - from;
    let g = base.green();
    let ps = g.node_positions();
    proof {
        lemma_node_pos(kids(g@));
    }
    let ghost total = findattrset_spec(base@, qk, ind@);
    let mut m: usize = 0;
    while m < ps.len()
        invariant
            from <= qkey.len(),
            nq == qkey.len() - from,
            qk == strs(qkey@).skip(from as int),
            total == findattrset_spec(base@, qk, ind@),
            g@ == base@.at(),
            base@.wf(),
            ints(ps@) == node_pos(kids(g@)),
            forall|i: int| 0 <= i < node_pos(kids(g@)).len() ==> {
                &&& 0 <= #[trigger] node_pos(kids(g@))[i] < kids(g@).len()
                &&& kids(g@)[node_pos(kids(g@))[i]] is Node
            },
            m <= ps.len(),
            fs_scan(base@, qk, ind@, m as int, 0) == total,
        decreases ps.len() - m,
    {
        proof {
            assert(ints(ps@)[m as int] == ps@[m as int] as int);
        }
        let j = ps[m];
        let child = g.child(j);
        if child.is_node() && child.kind() == NODE_KEY_VALUE {
            let qs = child.node_positions();
            proof {
                lemma_node_pos(kids(child@));
            }
            let mut m2: usize = 0;
            while m2 < qs.len()
                invariant
                    from <= qkey.len(),
                    nq == qkey.len() - from,
                    qk == strs(qkey@).skip(from as int),
                    total == findattrset_spec(base@, qk, ind@),
                    g@ == base@.at(),
                    base@.wf(),
                    ints(ps@) == node_pos(kids(g@)),
                    m < ps.len(),
                    j == ps@[m as int],
                    0 <= j < kids(g@).len(),
                    child@ == kids(g@)[j as int],
                    is_node_of(child@, NODE_KEY_VALUE),
                    ints(qs@) == node_pos(kids(child@)),
                    forall|i: int| 0 <= i < node_pos(kids(child@)).len() ==> {
                        &&& 0 <= #[trigger] node_pos(kids(child@))[i] < kids(child@).len()
                        &&& kids(child@)[node_pos(kids(child@))[i]] is Node
                    },
                    m2 <= qs.len(),
                    fs_scan(base@, qk, ind@, m as int, m2 as int) == total,
                decreases qs.len() - m2,
            {
                proof {
                    assert(ints(qs@)[m2 as int] == qs@[m2 as int] as int);
                }
                let sub = child.child(qs[m2]);
                if sub.is_node() && sub.kind() == NODE_KEY {
                    let key = ident_texts_exec(sub);
                    let ghost kv = ident_texts(kids(sub@));
                    proof {
                        assert(fs_scan(base@, qk, ind@, m as int, m2 as int) == match fs_pair(base@, qk, ind@, j as int, kv) {
                            Some(r) => Some(r),
                            None => fs_scan(base@, qk, ind@, m as int, m2 + 1),
                        });
                        assert(strs(qkey@).subrange(from as int, from + nq) =~= qk);
                        assert(strs(key@).subrange(0, key.len() as int) =~= kv);
                    }
                    if nq == key.len() && crate::strings::strs_range_eq(qkey, from, &key, 0, nq) {
                        if qs.len() > 0 {
                            proof {
                                assert(ints(qs@)[qs.len() - 1] == qs@[qs.len() - 1] as int);
                            }
                            let last = qs[qs.len() - 1];
                            let x = child.child(last);
                            if x.is_node() && x.kind() == NODE_ATTR_SET {
                                let cn = base.child_node(j);
                                let sn = cn.child_node(last);
                                let mut i2 = ind.clone();
                                i2.append("  ");
                                return Some((sn, i2));
                            }
                        }
                    } else if nq > key.len() {
                        let is_prefix = crate::strings::strs_range_eq(&key, 0, qkey, from, key.len());
                        proof {
                            assert(strs(qkey@).subrange(from as int, from + key.len()) =~= qk.take(key.len() as int));
                        }
                        if is_prefix {
                            proof {
                                lemma_cfg_rel(child@);
                            }
                            match cfg_rel_exec(child) {
                                Some(rel) => {
                                    let cn = base.child_node(j);
                                    let nb = cn.descend(&rel);
                                    let mut i2 = ind.clone();
                                    i2.append("  ");
                                    proof {
                                        lemma_fa_pair_decreases(base@, j as int, ints(rel@));
                                        assert(nb@ == sub_cursor(base@, j as int, ints(rel@)));
                                        assert(strs(qkey@).skip(from + key.len()) =~= qk.skip(kv.len() as int));
                                    }
                                    match findattrset(&nb, qkey, from + key.len(), i2) {
                                        Some(r) => {
                                            return Some(r);
                                        },
                                        None => {},
                                    }
                                },
                                None => {},
                            }
                        }
                    }
                }
                m2 = m2 + 1;
            }
        }
        m = m + 1;
    }
    None
}

// ---------------------------------------------------------------- own bindings

/// What the search for the file's own binding of the path `qkey` makes of
/// the binding at child `j` of `base` whose key has the parts `key`: the
/// binding itself when the key is the path; the search in the attribute set
/// of the binding when the key is a proper prefix of the path; else
/// nothing.
pub open spec fn ob_pair(base: Cursor, qkey: Seq<Seq<char>>, j: int, key: Seq<Seq<char>>) -> Option<Cursor>
    decreases base.at(), 0int, 0int, 0int,
{
    let child = kids(base.at())[j];
    if qkey == key {
        Some(base.child(j))
    } else if qkey.len() > key.len() && key == qkey.take(key.len() as int) {
        match cfg_rel(child) {
            Some(rel) => if valid_path(base.root, base.path) && 0 <= j < kids(base.at()).len() {
                proof {
                    lemma_fa_pair_decreases(base, j, rel);
                }
                own_binding_spec(sub_cursor(base, j, rel), qkey.skip(key.len() as int))
            } else {
                None
            },
            None => None,
        }
    } else {
        None
    }
}

/// The walk of the search for the file's own binding over the keys of the
/// bindings of `base`, from the `m2`-th child node of its `m`-th child node
/// on; the first key that leads to a binding decides.
pub open spec fn ob_scan(base: Cursor, qkey: Seq<Seq<char>>, m: int, m2: int) -> Option<Cursor>
    decreases base.at(), 1int,
        node_pos(kids(base.at())).len() - m,
        node_pos(kids(kids(base.at())[node_pos(kids(base.at()))[m]])).len() - m2,
{
    let ps = node_pos(kids(base.at()));
    if m < 0 || m >= ps.len() {
        None
    } else {
        let j = ps[m];
        let child = kids(base.at())[j];
        let qs = node_pos(kids(child));
        if !is_node_of(child, NODE_KEY_VALUE) || m2 < 0 || m2 >= qs.len() {
            ob_scan(base, qkey, m + 1, 0)
        } else {
            let sub = kids(child)[qs[m2]];
            if is_node_of(sub, NODE_KEY) {
                match ob_pair(base, qkey, j, ident_texts(kids(sub))) {
                    Some(r) => Some(r),
                    None => ob_scan(base, qkey, m, m2 + 1),
                }
            } else {
                ob_scan(base, qkey, m, m2 + 1)
            }
        }
    }
}

/// The binding of the path `qkey` that the attribute set at `base` holds
/// itself, directly or in the attribute sets of bindings whose keys are
/// prefixes of the path (no bindings gathered from several places).
pub open spec fn own_binding_spec(base: Cursor, qkey: Seq<Seq<char>>) -> Option<Cursor>
    decreases base.at(), 2int, 0int, 0int,
{
    ob_scan(base, qkey, 0, 0)
}

/// `own_binding_spec` for the parts `qkey[from..]`, computed; the binding
/// found lies in the same tree as `base`.
fn own_binding(base: &SyntaxNode, qkey: &Vec<String>, from: usize) -> (r: Option<SyntaxNode>)
    requires
        from <= qkey.len(),
    ensures
        match r {
            Some(n) => own_binding_spec(base@, strs(qkey@).skip(from as int)) == Some(n@)
                && n@.root == base@.root && is_node_of(n@.at(), NODE_KEY_VALUE),
            None => own_binding_spec(base@, strs(qkey@).skip(from as int)) is None,
        },
    decreases base@.at(),
{
    let ghost qk = strs(qkey@).skip(from as int);
    let nq = qkey.len() - from;
    let g = base.green();
    let ps = g.node_positions();
    proof {
        lemma_node_pos(kids(g@));
    }
    let ghost total = own_binding_spec(base@, qk);
    let mut m: usize = 0;
    while m < ps.len()
        invariant
            from <= qkey.len(),
            nq == qkey.len() - from,
            qk == strs(qkey@).skip(from as int),
            total == own_binding_spec(base@, qk),
            g@ == base@.at(),
            base@.wf(),
            ints(ps@) == node_pos(kids(g@)),
            forall|i: int| 0 <= i < node_pos(kids(g@)).len() ==> {
                &&& 0 <= #[trigger] node_pos(kids(g@))[i] < kids(g@).len()
                &&& kids(g@)[node_pos(kids(g@))[i]] is Node
            },
            m <= ps.len(),
            ob_scan(base@, qk, m as int, 0) == total,
        decreases ps.len() - m,
    {
        proof {
            assert(ints(ps@)[m as int] == ps@[m as int] as int);
        }
        let j = ps[m];
        let child = g.child(j);
        if child.is_node() && child.kind() == NODE_KEY_VALUE {
            let qs = child.node_positions();
            proof {
                lemma_node_pos(kids(child@));
            }
            let mut m2: usize = 0;
            while m2 < qs.len()
                invariant
                    from <= qkey.len(),
                    nq == qkey.len() - from,
                    qk == strs(qkey@).skip(from as int),
                    total == own_binding_spec(base@, qk),
                    g@ == base@.at(),
                    base@.wf(),
                    ints(ps@) == node_pos(kids(g@)),
                    m < ps.len(),
                    j == ps@[m as int],
                    0 <= j < kids(g@).len(),
                    child@ == kids(g@)[j as int],
                    is_node_of(child@, NODE_KEY_VALUE),
                    ints(qs@) == node_pos(kids(child@)),
                    forall|i: int| 0 <= i < node_pos(kids(child@)).len() ==> {
                        &&& 0 <= #[trigger] node_pos(kids(child@))[i] < kids(child@).len()
                        &&& kids(child@)[node_pos(kids(child@))[i]] is Node
                    },
                    m2 <= qs.len(),
                    ob_scan(base@, qk, m as int, m2 as int) == total,
                decreases qs.len() - m2,
            {
                proof {
                    assert(ints(qs@)[m2 as int] == qs@[m2 as int] as int);
                }
                let sub = child.child(qs[m2]);
                if sub.is_node() && sub.kind() == NODE_KEY {
                    let key = ident_texts_exec(sub);
                    let ghost kv = ident_texts(kids(sub@));
                    proof {
                        assert(ob_scan(base@, qk, m as int, m2 as int) == match ob_pair(base@, qk, j as int, kv) {
                            Some(r) => Some(r),
                            None => ob_scan(base@, qk, m as int, m2 + 1),
                        });
                        assert(strs(qkey@).subrange(from as int, from + nq) =~= qk);
                        assert(strs(key@).subrange(0, key.len() as int) =~= kv);
                    }
                    if nq == key.len() && crate::strings::strs_range_eq(qkey, from, &key, 0, nq) {
                        return Some(base.child_node(j));
                    } else if nq > key.len() {
                        let is_prefix = crate::strings::strs_range_eq(&key, 0, qkey, from, key.len());
                        proof {
                            assert(strs(qkey@).subrange(from as int, from + key.len()) =~= qk.take(key.len() as int));
                        }
                        if is_prefix {
                            proof {
                                lemma_cfg_rel(child@);
                            }
                            match cfg_rel_exec(child) {
                                Some(rel) => {
                                    let cn = base.child_node(j);
                                    let nb = cn.descend(&rel);
                                    proof {
                                        lemma_fa_pair_decreases(base@, j as int, ints(rel@));
                                        assert(nb@ == sub_cursor(base@, j as int, ints(rel@)));
                                        assert(strs(qkey@).skip(from + key.len()) =~= qk.skip(kv.len() as int));
                                    }
                                    match own_binding(&nb, qkey, from + key.len()) {
                                        Some(r) => {
                                            return Some(r);
                                        },
                                        None => {},
                                    }
                                },
                                None => {},
                            }
                        }
                    }
                }
                m2 = m2 + 1;
            }
        }
        m = m + 1;
    }
    None
}

/// Where `write` puts a missing attribute of a path of two parts or more:
/// the attribute set bound to all its parts but the last, with the
/// indentation of its bindings.
pub open spec fn insert_target(base: Cursor, q: Seq<char>) -> Option<(Cursor, Seq<char>)> {
    let parts = split_dot(q);
    if parts.len() < 2 {
        None
    } else {
        findattrset_spec(base, parts.drop_last(), Seq::empty())
    }
}

/// `insert_target`, computed: the set and the key text of the new binding
/// in it (the indentation, then the last part of the path).
fn insert_target_exec(base: &SyntaxNode, q: &str) -> (r: Option<(SyntaxNode, String)>)
    ensures
        match r {
            Some((n, k)) => insert_target(base@, q@) matches Some((c, ind)) && c == n@
                && k@ == ind + split_dot(q@).last() && n@.root == base@.root,
            None => insert_target(base@, q@) is None,
        },
{
    let parts = split_dot_exec(q);
    let ghost ps = strs(parts@);
    if parts.len() < 2 {
        return None;
    }
    let n = parts.len();
    let mut prefix: Vec<String> = Vec::new();
    let mut i: usize = 0;
    while i < n - 1
        invariant
            n == parts.len(),
            n >= 2,
            ps == strs(parts@),
            i <= n - 1,
            strs(prefix@) == ps.take(i as int),
        decreases n - 1 - i,
    {
        let ghost old_prefix = prefix@;
        let part = String::from_str(parts[i].as_str());
        prefix.push(part);
        proof {
            assert(part@ == ps[i as int]);
            assert(strs(prefix@) =~= strs(old_prefix).push(part@));
            assert(strs(prefix@) =~= ps.take(i + 1));
        }
        i = i + 1;
    }
    proof {
        assert(ps.take(n - 1) =~= ps.drop_last());
        assert(strs(prefix@).skip(0) =~= strs(prefix@));
    }
    let ind0 = String::new();
    proof {
        assert(ind0@ =~= Seq::<char>::empty());
    }
    match findattrset(base, &prefix, 0, ind0) {
        Some((s, ind)) => {
            let mut k = ind;
            k.append(parts[n - 1].as_str());
            proof {
                assert(ps.last() == parts@[n - 1]@);
            }
            Some((s, k))
        },
        None => None,
    }
}

// ---------------------------------------------------------------- write

/// The binding that `write` and `deref` edit for attribute `q` in the
/// attribute set at `b`: the binding that `findattr` finds, when it lies in
/// the file's own tree; when `findattr` gathers bindings from several places
/// into a binding of its own, the file's own binding of the path if there
/// is one, else that gathered binding itself.  `Some(None)` when `findattr`
/// finds nothing; `None` where it is undefined.
pub open spec fn edit_target(b: Cursor, q: Seq<char>) -> Option<Option<Cursor>> {
    match findattr_spec(b, q) {
        None => None,
        Some(None) => Some(None),
        Some(Some(x)) => if x.root == b.root {
            Some(Some(x))
        } else {
            match own_binding_spec(b, split_dot(q)) {
                Some(y) => Some(Some(y)),
                None => Some(Some(x)),
            }
        },
    }
}

/// The binding of the file `f` that `write` and `deref` edit for `q`, when
/// it lies in the file's own tree.
pub open spec fn edit_binding(f: Seq<char>, q: Seq<char>) -> Option<Cursor> {
    match file_base(f) {
        Some(b) => match edit_target(b, q) {
            Some(Some(y)) => if y.root == b.root {
                Some(y)
            } else {
                None
            },
            _ => None,
        },
        None => None,
    }
}

/// `write` adds a binding for `q` to `f`: the file holds an attribute set,
/// and `findattr` finds nothing for `q` in it.
pub open spec fn adds_binding(f: Seq<char>, q: Seq<char>) -> bool {
    file_base(f) matches Some(b) && edit_target(b, q) == Some(None::<Cursor>)
}

/// `edit_target`, computed from the binding `x` that `findattr` found.
fn resolve_target(base: &SyntaxNode, q: &str, x: SyntaxNode) -> (r: SyntaxNode)
    requires
        findattr_spec(base@, q@) == Some(Some(x@)),
        is_node_of(x@.at(), NODE_KEY_VALUE),
    ensures
        edit_target(base@, q@) == Some(Some(r@)),
        is_node_of(r@.at(), NODE_KEY_VALUE),
{
    if x.same_tree(base) {
        x
    } else {
        let parts = split_dot_exec(q);
        proof {
            assert(strs(parts@).skip(0) =~= strs(parts@));
        }
        match own_binding(base, &parts, 0) {
            Some(y) => y,
            None => x,
        }
    }
}

/// What `write` returns for attribute `q` set to the value text `v` in `f`,
/// `None` where it is undefined: the text of the tree where the value of the
/// binding `edit_target` picks is replaced, or, when there is none, the text
/// of the file where a new binding is inserted: at the end of the attribute
/// set bound to all parts of the path but the last, when there is one,
/// keyed by the last part and indented two more spaces for each level of
/// nesting; else among the top-level bindings.  Where the file holds no
/// binding of the path itself, only bindings of longer paths that `findattr`
/// gathers into one binding of its own (`{ a.b = 1; a.c = 2; }` for `a`),
/// the edited binding is that gathered one, and the text returned is the
/// text written for it, `{ a = 3; }`, not the file.
pub open spec fn write_spec(f: Seq<char>, q: Seq<char>, v: Seq<char>) -> Option<Result<Seq<char>, WriteError>> {
    match file_base(f) {
        None => Some(Err(WriteError::ParseError)),
        Some(b) => match edit_target(b, q) {
            None => None,
            Some(Some(x)) => match modvalue_spec(x, v) {
                Some(Some(t)) => Some(Ok(text(t))),
                _ => None,
            },
            Some(None) => match insert_target(b, q) {
                Some((s, ind)) => match addvalue_spec(s, ind + split_dot(q).last(), v) {
                    Some(t) => Some(Ok(text(t))),
                    None => None,
                },
                None => match addvalue_spec(b, q, v) {
                    Some(t) => Some(Ok(text(t))),
                    None => None,
                },
            },
        },
    }
}

/// The key text of the binding that `write` adds for the missing attribute
/// `q` of `f`.
pub open spec fn new_key(f: Seq<char>, q: Seq<char>) -> Seq<char> {
    match file_base(f) {
        Some(b) => match insert_target(b, q) {
            Some((_, ind)) => ind + split_dot(q).last(),
            None => q,
        },
        None => q,
    }
}

fn write_run(f: &str, query: &str, val: &str) -> (r: Option<Result<String, WriteError>>)
    ensures
        match r {
            Some(x) => write_spec(f@, query@, val@) == Some(wview(x)),
            None => write_spec(f@, query@, val@) is None,
        },
        r matches Some(Ok(s)) ==> (adds_binding(f@, query@) ==> inserted(f@, binding_text(new_key(f@, query@), val@), s@)),
        r matches Some(Ok(s)) ==> (edit_binding(f@, query@) matches Some(y) ==> (findvalue(y.at()) matches Some(old)
            && replaced(f@, text(old), parsed_value(val@), s@) && occurs_in(parsed_value(val@), val@))),
        r matches Some(Ok(s)) ==> (binding_in_file(f@, query@) ==> (readvalue_spec(f@, query@) matches Some(Ok(old))
            && replaced(f@, old, parsed_value(val@), s@))),
{
    let base = match config_base(f) {
        Some(b) => b,
        None => {
            return Some(Err(WriteError::ParseError));
        },
    };
    let target = match findattr_run(&base, query) {
        None => {
            return None;
        },
        Some(None) => None,
        Some(Some(x)) => Some(resolve_target(&base, query, x)),
    };
    match target {
        Some(x) => match modvalue(&x, val) {
            Some(Some(n)) => Some(Ok(n.to_text())),
            _ => None,
        },
        None => match insert_target_exec(&base, query) {
            Some((set, key)) => match addvalue(&set, key.as_str(), val) {
                Some(n) => Some(Ok(n.to_text())),
                None => None,
            },
            None => match addvalue(&base, query, val) {
                Some(n) => Some(Ok(n.to_text())),
                None => None,
            },
        },
    }
}

/// Sets attribute `query` (a dot-separated path) of the Nix text `f` to the
/// value text `val`, and returns the new text.  The value of the file's own
/// binding of the path is replaced, and nothing else; where there is no
/// binding of the path or below it, one binding is added (inside the
/// attribute set of its parent path when the file has one), and nothing
/// else.  Where there are only bindings below the path, see `write_spec`.
pub fn write(f: &str, query: &str, val: &str) -> (r: Result<String, WriteError>)
    requires
        write_spec(f@, query@, val@) is Some,
    ensures
        write_spec(f@, query@, val@) == Some(wview(r)),
        r matches Ok(s) ==> (adds_binding(f@, query@) ==> inserted(f@, binding_text(new_key(f@, query@), val@), s@)),
        r matches Ok(s) ==> (edit_binding(f@, query@) matches Some(y) ==> (findvalue(y.at()) matches Some(old)
            && replaced(f@, text(old), parsed_value(val@), s@) && occurs_in(parsed_value(val@), val@))),
        r matches Ok(s) ==> (binding_in_file(f@, query@) ==> (readvalue_spec(f@, query@) matches Some(Ok(old))
            && replaced(f@, old, parsed_value(val@), s@))),
{
    match write_run(f, query, val) {
        Some(r) => r,
        None => Err(WriteError::NoAttr),
    }
}

/// `write` where it is defined, `None` elsewhere.
pub fn try_write(f: &str, query: &str, val: &str) -> (r: Option<Result<String, WriteError>>)
    ensures
        match r {
            Some(x) => write_spec(f@, query@, val@) == Some(wview(x)),
            None => write_spec(f@, query@, val@) is None,
        },
{
    if write_run(f, query, val).is_some() {
        Some(write(f, query, val))
    } else {
        None
    }
}


// ---------------------------------------------------------------- deref

/// The tree (which is then printed and parsed again) without the binding
/// at `y`, taken out of the node that holds it; `None` for the root.
pub open spec fn deref_at(y: Cursor) -> Option<Tree> {
    if y.path.len() == 0 {
        None
    } else {
        let p = Cursor { root: y.root, path: y.path.drop_last() };
        Some(p.with_kids(kids(p.at()).remove(y.path.last())))
    }
}

pub proof fn lemma_first_node_eq_bound(cs: Seq<Tree>, x: Tree, j: int)
    ensures
        first_node_eq_from(cs, x, j) matches Some(i) ==> 0 <= j <= i < cs.len() && cs[i] == x && cs[i] is Node,
    decreases cs.len() - j,
{
    if 0 <= j < cs.len() && !(cs[j] is Node && cs[j] == x) {
        lemma_first_node_eq_bound(cs, x, j + 1);
    }
}

fn deref_aux(node: &SyntaxNode) -> (r: Option<SyntaxNode>)
    ensures
        match r {
            None => deref_at(node@) is None,
            Some(n) => deref_at(node@) matches Some(t) && tree_result(n, t),
        },
        r matches Some(n) ==> inserted(text(n@.at()), text(node@.at()), text(node@.root)),
{
    if node.is_root() {
        return None;
    }
    let (parent, i) = node.parent();
    let g = parent.green();
    let mut cs = g.children_clone();
    proof {
        crate::tree::lemma_views_remove(cs@, i as int);
    }
    cs.remove(i);
    proof {
        lemma_remove_kid_text(parent@, i as int);
    }
    let del = g.with_children(cs);
    let out = parent.replace_with(del);
    Some(reparse_exec(&out))
}

/// What `deref` returns for attribute `q` of `f`, `None` where it is
/// undefined: the text of the file without the binding `edit_target`
/// picks; `NoAttr` where `findattr` finds nothing.  Where `findattr` only
/// gathers bindings of longer paths, there is no binding to remove, and
/// the removal is undefined.
pub open spec fn deref_spec(f: Seq<char>, q: Seq<char>) -> Option<Result<Seq<char>, WriteError>> {
    match file_base(f) {
        None => Some(Err(WriteError::ParseError)),
        Some(b) => match findattr_spec(b, q) {
            None => None,
            Some(None) => Some(Err(WriteError::NoAttr)),
            Some(Some(_)) => match edit_target(b, q) {
                Some(Some(y)) => if y.root != b.root {
                    None
                } else {
                    match deref_at(y) {
                        None => None,
                        Some(t) => Some(Ok(text(t))),
                    }
                },
                _ => None,
            },
        },
    }
}

fn deref_run(f: &str, query: &str) -> (r: Option<Result<String, WriteError>>)
    ensures
        match r {
            Some(x) => deref_spec(f@, query@) == Some(wview(x)),
            None => deref_spec(f@, query@) is None,
        },
        r matches Some(Ok(s)) ==> (edit_binding(f@, query@) matches Some(y) ==> inserted(s@, text(y.at()), f@)),
        r matches Some(Ok(s)) ==> (edit_binding(f@, query@) matches Some(y) ==> (binding_in_file(f@, query@) ==> (
        readvalue_spec(f@, query@) matches Some(Ok(v)) ==> occurs_in(v, text(y.at()))))),
{
    let base = match config_base(f) {
        Some(b) => b,
        None => {
            return Some(Err(WriteError::ParseError));
        },
    };
    match findattr_run(&base, query) {
        None => None,
        Some(None) => Some(Err(WriteError::NoAttr)),
        Some(Some(x)) => {
            let y = resolve_target(&base, query, x);
            if !y.same_tree(&base) {
                return None;
            }
            match deref_aux(&y) {
                Some(n) => {
                    proof {
                        let cs = kids(y@.at());
                        crate::read::lemma_first_not_kind_from(cs, NODE_KEY, 0);
                        if let Some(j) = first_not_kind_from(cs, NODE_KEY, 0) {
                            crate::syntax::lemma_texts_kid_occurs(cs, j);
                        }
                    }
                    Some(Ok(n.to_text()))
                },
                None => None,
            }
        },
    }
}

/// Removes the binding of attribute `query` from the Nix text `f`, from
/// whichever attribute set holds it, and returns the new text; nothing but
/// the binding's text is taken out.
pub fn deref(f: &str, query: &str) -> (r: Result<String, WriteError>)
    requires
        deref_spec(f@, query@) is Some,
    ensures
        deref_spec(f@, query@) == Some(wview(r)),
        r matches Ok(s) ==> (edit_binding(f@, query@) matches Some(y) ==> inserted(s@, text(y.at()), f@)),
        r matches Ok(s) ==> (edit_binding(f@, query@) matches Some(y) ==> (binding_in_file(f@, query@) ==> (
        readvalue_spec(f@, query@) matches Some(Ok(v)) ==> occurs_in(v, text(y.at()))))),
{
    match deref_run(f, query) {
        Some(r) => r,
        None => Err(WriteError::NoAttr),
    }
}

/// `deref` where it is defined, `None` elsewhere.
pub fn try_deref(f: &str, query: &str) -> (r: Option<Result<String, WriteError>>)
    ensures
        match r {
            Some(x) => deref_spec(f@, query@) == Some(wview(x)),
            None => deref_spec(f@, query@) is None,
        },
{
    if deref_run(f, query).is_some() {
        Some(deref(f, query))
    } else {
        None
    }
}

// ---------------------------------------------------------------- lists

/// The first child at or after `j` that is a node of kind `k1` or `k2`.
pub open spec fn first_kind2_from(cs: Seq<Tree>, k1: u16, k2: u16, j: int) -> Option<int>
    decreases cs.len() - j,
{
    if j < 0 || j >= cs.len() {
        None
    } else if is_node_of(cs[j], k1) || is_node_of(cs[j], k2) {
        Some(j)
    } else {
        first_kind2_from(cs, k1, k2, j + 1)
    }
}

pub proof fn lemma_first_kind2_from(cs: Seq<Tree>, k1: u16, k2: u16, j: int)
    ensures
        first_kind2_from(cs, k1, k2, j) matches Some(i) ==> 0 <= j <= i < cs.len()
            && (is_node_of(cs[i], k1) || is_node_of(cs[i], k2)),
    decreases cs.len() - j,
{
    if 0 <= j < cs.len() && !(is_node_of(cs[j], k1) || is_node_of(cs[j], k2)) {
        lemma_first_kind2_from(cs, k1, k2, j + 1);
    }
}

fn first_kind2_exec(g: &Green, k1: u16, k2: u16) -> (r: Option<usize>)
    ensures
        r matches Some(i) ==> first_kind2_from(kids(g@), k1, k2, 0) == Some(i as int),
        r is None ==> first_kind2_from(kids(g@), k1, k2, 0) is None,
{
    let n = g.len();
    let mut i: usize = 0;
    while i < n
        invariant
            n == kids(g@).len(),
            i <= n,
            first_kind2_from(kids(g@), k1, k2, 0) == first_kind2_from(kids(g@), k1, k2, i as int),
        decreases n - i,
    {
        let c = g.child(i);
        if c.is_node() && (c.kind() == k1 || c.kind() == k2) {
            return Some(i);
        }
        i = i + 1;
    }
    None
}

/// The first child at or after `j` whose text is `]`.
pub open spec fn first_close_from(cs: Seq<Tree>, j: int) -> Option<int>
    decreases cs.len() - j,
{
    if j < 0 || j >= cs.len() {
        None
    } else if text(cs[j]) == seq![']'] {
        Some(j)
    } else {
        first_close_from(cs, j + 1)
    }
}

pub proof fn lemma_first_close_from(cs: Seq<Tree>, j: int)
    ensures
        first_close_from(cs, j) matches Some(i) ==> 0 <= j <= i < cs.len(),
    decreases cs.len() - j,
{
    if 0 <= j < cs.len() && text(cs[j]) != seq![']'] {
        lemma_first_close_from(cs, j + 1);
    }
}

pub proof fn lemma_first_close_found(cs: Seq<Tree>, m: int, j: int)
    requires
        0 <= m <= j < cs.len(),
        text(cs[j]) == seq![']'],
    ensures
        first_close_from(cs, m) is Some,
    decreases j - m,
{
    if text(cs[m]) != seq![']'] {
        lemma_first_close_found(cs, m + 1, j);
    }
}

/// The text of a list element that `addtoarr` inserts.
pub open spec fn element_text(elem: Seq<char>) -> Seq<char> {
    "\n    "@ + elem
}

/// The texts of the list elements that `addtoarr` inserts for `items`.
pub open spec fn element_texts(items: Seq<Seq<char>>) -> Seq<Seq<char>> {
    items.map_values(|e: Seq<char>| element_text(e))
}

/// The list `l` with the parsed `element_text(elem)` inserted before its
/// closing bracket (before the line break in front of it, if any); `l`
/// itself when no child reads `]`; `None` where the insertion is undefined
/// (the bracket comes first, or a node stands before it).
pub open spec fn list_insert(l: Tree, elem: Seq<char>) -> Option<Tree> {
    let cs = kids(l);
    match first_close_from(cs, 0) {
        None => Some(l),
        Some(i) => if i == 0 || !(cs[i - 1] is Token) {
            None
        } else {
            let i2 = if text(cs[i - 1]).contains('\n') { i - 1 } else { i };
            Some(with_kids(l, cs.insert(i2, nix_tree(element_text(elem)))))
        },
    }
}

/// `list_insert` for `items[k..]`, one after the other.
pub open spec fn list_insert_all(l: Tree, items: Seq<Seq<char>>, k: int) -> Option<Tree>
    decreases items.len() - k,
{
    if k < 0 || k >= items.len() {
        Some(l)
    } else {
        match list_insert(l, items[k]) {
            None => None,
            Some(l2) => list_insert_all(l2, items, k + 1),
        }
    }
}

/// What `addtoarr_aux` returns for the binding at `node`: through `with`
/// scopes, the first list gets the items; `Some(None)` when there is no
/// list; `None` where the edit is undefined.
pub open spec fn arr_add_spec(node: Cursor, items: Seq<Seq<char>>) -> Option<Option<Tree>>
    decreases node.at(),
{
    let cs = kids(node.at());
    match first_kind2_from(cs, NODE_WITH, NODE_LIST, 0) {
        None => Some(None),
        Some(j) => if is_node_of(cs[j], NODE_WITH) {
            if valid_path_at(node, j) {
                proof {
                    lemma_child_decreases(node, j);
                }
                arr_add_spec(node.child(j), items)
            } else {
                Some(None)
            }
        } else {
            match list_insert_all(cs[j], items, 0) {
                None => None,
                Some(l) => match first_node_eq_from(cs, cs[j], 0) {
                    None => Some(None),
                    Some(idx) => Some(Some(node.with_kids(cs.update(idx, l)))),
                },
            }
        },
    }
}

/// `node` is a valid position with a child `j`.
pub open spec fn valid_path_at(node: Cursor, j: int) -> bool {
    crate::syntax::valid_path(node.root, node.path) && 0 <= j < kids(node.at()).len()
}

pub proof fn lemma_child_decreases(node: Cursor, j: int)
    requires
        valid_path_at(node, j),
    ensures
        decreases_to!(node.at() => node.child(j).at()),
        crate::syntax::valid_path(node.root, node.child(j).path),
        node.child(j).at() == kids(node.at())[j],
{
    crate::syntax::lemma_path_push(node.root, node.path, j);
    let t = node.at();
    match t {
        Tree::Node(k, cs) => {
            assert(decreases_to!(t => cs[j]));
        },
        Tree::Token(_, _) => {},
    }
}

fn list_insert_exec(l: Green, elem: &str) -> (r: Option<Green>)
    requires
        l@ is Node,
    ensures
        r matches Some(x) ==> list_insert(l@, elem@) == Some(x@) && x@ is Node,
        r is None ==> list_insert(l@, elem@) is None,
        r matches Some(x) ==> (first_close_from(kids(l@), 0) is Some ==> inserted(text(l@), element_text(elem@), text(x@))
            && first_close_from(kids(x@), 0) is Some),
{
    let n = l.len();
    let ghost cs = kids(l@);
    let mut i: usize = 0;
    while i < n
        invariant
            n == cs.len(),
            cs == kids(l@),
            i <= n,
            first_close_from(cs, 0) == first_close_from(cs, i as int),
        decreases n - i,
    {
        let t = l.child(i).to_text();
        let tc = crate::strings::to_chars(t.as_str());
        if tc.len() == 1 && tc[0] == ']' {
            proof {
                assert(tc@ =~= seq![']']);
            }
            if i == 0 || l.child(i - 1).is_node() {
                return None;
            }
            let before = l.child(i - 1).to_text();
            let i2 = if crate::strings::has_newline(before.as_str()) { i - 1 } else { i };
            let mut s = String::new();
            s.append("\n    ");
            s.append(elem);
            let input = parse_tree(s.as_str());
            proof {
                assert(s@ =~= element_text(elem@));
            }
            let mut cs2 = l.children_clone();
            proof {
                crate::tree::lemma_views_insert(cs2@, i2 as int, input);
            }
            cs2.insert(i2, input);
            proof {
                let cs3 = cs.insert(i2 as int, input@);
                crate::syntax::lemma_texts_insert(cs, i2 as int, input@);
                let a = texts(cs.take(i2 as int));
                let b = texts(cs.skip(i2 as int));
                let f = text(l@);
                let k = a.len() as int;
                assert(f =~= a + b);
                assert(f.take(k) =~= a);
                assert(f.skip(k) =~= b);
                assert(texts(cs3) =~= f.take(k) + element_text(elem@) + f.skip(k));
                assert(cs3[i + 1] == cs[i as int]);
                lemma_first_close_found(cs3, 0, i + 1);
            }
            return Some(l.with_children(cs2));
        } else {
            proof {
                if text(cs[i as int]) == seq![']'] {
                    assert(tc@ =~= seq![']']);
                }
            }
        }
        i = i + 1;
    }
    Some(l)
}

fn list_insert_all_exec(l: Green, items: &Vec<String>) -> (r: Option<Green>)
    requires
        l@ is Node,
    ensures
        r matches Some(x) ==> list_insert_all(l@, strs(items@), 0) == Some(x@),
        r is None ==> list_insert_all(l@, strs(items@), 0) is None,
        r matches Some(x) ==> (first_close_from(kids(l@), 0) is None ==> x@ == l@),
        r matches Some(x) ==> (first_close_from(kids(l@), 0) is Some ==> inserted_each(
            text(l@),
            element_texts(strs(items@)),
            text(x@),
        )),
{
    let ghost its = strs(items@);
    let ghost total = list_insert_all(l@, its, 0);
    let ghost closed = first_close_from(kids(l@), 0) is Some;
    let mut cur = l;
    let mut k: usize = 0;
    proof {
        assert(element_texts(its).take(0) =~= Seq::<Seq<char>>::empty());
    }
    while k < items.len()
        invariant
            its == strs(items@),
            its.len() == items.len(),
            total == list_insert_all(l@, its, 0),
            closed == (first_close_from(kids(l@), 0) is Some),
            k <= items.len(),
            cur@ is Node,
            list_insert_all(cur@, its, k as int) == total,
            !closed ==> cur@ == l@,
            closed ==> first_close_from(kids(cur@), 0) is Some,
            closed ==> inserted_each(text(l@), element_texts(its).take(k as int), text(cur@)),
        decreases items.len() - k,
    {
        let ghost before = cur@;
        match list_insert_exec(cur, items[k].as_str()) {
            Some(x) => {
                proof {
                    if closed {
                        assert(its[k as int] == items@[k as int]@);
                        lemma_inserted_each_push(
                            text(l@),
                            element_texts(its).take(k as int),
                            text(before),
                            element_text(its[k as int]),
                            text(x@),
                        );
                        assert(element_texts(its).take(k as int).push(element_text(its[k as int]))
                            =~= element_texts(its).take(k + 1));
                    }
                }
                cur = x;
            },
            None => {
                proof {
                    assert(its[k as int] == items@[k as int]@);
                    assert(list_insert_all(before, its, k as int) is None);
                }
                return None;
            },
        }
        k = k + 1;
    }
    proof {
        assert(element_texts(its).take(items.len() as int) =~= element_texts(its));
    }
    Some(cur)
}

#[verifier::loop_isolation(false)]
fn arr_add(node: &SyntaxNode, items: &Vec<String>) -> (r: Option<Option<SyntaxNode>>)
    ensures
        match r {
            None => arr_add_spec(node@, strs(items@)) is None,
            Some(None) => arr_add_spec(node@, strs(items@)) == Some(None::<Tree>),
            Some(Some(n)) => arr_add_spec(node@, strs(items@)) matches Some(Some(t)) && tree_result(n, t),
        },
        r matches Some(Some(n)) ==> (text(n@.at()) == text(node@.root) || inserted_each(
            text(node@.root),
            element_texts(strs(items@)),
            text(n@.at()),
        )),
    decreases node@.at(),
{
    let g = node.green();
    let j = match first_kind2_exec(g, NODE_WITH, NODE_LIST) {
        Some(j) => j,
        None => {
            return Some(None);
        },
    };
    proof {
        lemma_first_kind2_from(kids(g@), NODE_WITH, NODE_LIST, 0);
        lemma_child_decreases(node@, j as int);
    }
    let c = g.child(j);
    if c.kind() == NODE_WITH {
        let cn = node.child_node(j);
        return arr_add(&cn, items);
    }
    let l = match list_insert_all_exec(c.deep_clone(), items) {
        Some(l) => l,
        None => {
            return None;
        },
    };
    let idx = match g.first_node_eq(c) {
        Some(i) => i,
        None => {
            return Some(None);
        },
    };
    proof {
        lemma_first_node_eq_bound(kids(g@), c@, 0);
    }
    let mut cs = g.children_clone();
    proof {
        crate::tree::lemma_views_update(cs@, idx as int, l);
    }
    cs.set(idx, l);
    proof {
        lemma_update_kid_text(node@, idx as int, l@);
        if first_close_from(kids(c@), 0) is Some {
            lemma_replaced_inserted_each(
                text(node@.root),
                text(c@),
                text(l@),
                text(node@.with_kids(kids(g@).update(idx as int, l@))),
                element_texts(strs(items@)),
            );
        } else {
            lemma_replaced_same(text(node@.root), text(c@), text(node@.with_kids(kids(g@).update(idx as int, l@))));
        }
    }
    let replace = g.with_children(cs);
    let out = node.replace_with(replace);
    Some(Some(reparse_exec(&out)))
}

/// One round of `addtoarr`: finished with a result, or a new text to start
/// again from (after the missing binding was added), or undefined.
pub enum ArrStep {
    Done(Result<Seq<char>, WriteError>),
    Again(Seq<char>),
    Abort,
}

/// The text of the empty list `addtoarr` writes for a missing attribute.
pub open spec fn empty_list_text() -> Seq<char> {
    "[\n  ]"@
}

pub open spec fn arr_step(f: Seq<char>, q: Seq<char>, items: Seq<Seq<char>>) -> ArrStep {
    match file_base(f) {
        None => ArrStep::Done(Err(WriteError::ParseError)),
        Some(b) => match findattr_spec(b, q) {
            None => ArrStep::Abort,
            Some(Some(x)) => match arr_add_spec(x, items) {
                None => ArrStep::Abort,
                Some(None) => ArrStep::Done(Err(WriteError::ArrayError)),
                Some(Some(t)) => ArrStep::Done(Ok(text(t))),
            },
            Some(None) => match addvalue_spec(b, q, empty_list_text()) {
                None => ArrStep::Abort,
                Some(t) => ArrStep::Again(text(t)),
            },
        },
    }
}

/// What `addtoarr` returns for `items` added to the list of attribute `q`
/// of `f`, when it finishes within `fuel` rounds of adding the missing
/// binding; `None` where it is undefined or needs more rounds.
pub open spec fn addtoarr_spec(f: Seq<char>, q: Seq<char>, items: Seq<Seq<char>>, fuel: nat) -> Option<Result<Seq<char>, WriteError>>
    decreases fuel,
{
    match arr_step(f, q, items) {
        ArrStep::Done(r) => Some(r),
        ArrStep::Abort => None,
        ArrStep::Again(g) => if fuel == 0 {
            None
        } else {
            addtoarr_spec(g, q, items, (fuel - 1) as nat)
        },
    }
}

pub proof fn lemma_addtoarr_more_fuel(f: Seq<char>, q: Seq<char>, items: Seq<Seq<char>>, n: nat, m: nat)
    requires
        n <= m,
        addtoarr_spec(f, q, items, n) is Some,
    ensures
        addtoarr_spec(f, q, items, m) == addtoarr_spec(f, q, items, n),
    decreases n,
{
    if let ArrStep::Again(g) = arr_step(f, q, items) {
        lemma_addtoarr_more_fuel(g, q, items, (n - 1) as nat, (m - 1) as nat);
    }
}

/// `arr_step`, computed.
fn arr_step_exec(f: &str, query: &str, items: &Vec<String>) -> (r: (u8, Option<Result<String, WriteError>>, String))
    ensures
        match arr_step(f@, query@, strs(items@)) {
            ArrStep::Done(x) => r.0 == 0 && r.1 is Some && wview(r.1->0) == x,
            ArrStep::Again(g) => r.0 == 1 && r.2@ == g,
            ArrStep::Abort => r.0 == 2,
        },
        binding_in_file(f@, query@) ==> r.0 != 1,
        r.1 matches Some(Ok(s)) ==> (binding_in_file(f@, query@) ==> (s@ == f@ || inserted_each(
            f@,
            element_texts(strs(items@)),
            s@,
        ))),
        r.0 == 1 ==> attr_missing(f@, query@) && inserted(f@, binding_text(query@, empty_list_text()), r.2@),
{
    let base = match config_base(f) {
        Some(b) => b,
        None => {
            return (0, Some(Err(WriteError::ParseError)), String::new());
        },
    };
    match findattr_run(&base, query) {
        None => (2, None, String::new()),
        Some(Some(x)) => match arr_add(&x, items) {
            None => (2, None, String::new()),
            Some(None) => (0, Some(Err(WriteError::ArrayError)), String::new()),
            Some(Some(t)) => (0, Some(Ok(t.to_text())), String::new()),
        },
        Some(None) => match addvalue(&base, query, "[\n  ]") {
            None => (2, None, String::new()),
            Some(t) => (1, None, t.to_text()),
        },
    }
}

/// Adds `items` at the end of the list that attribute `query` holds,
/// creating the attribute with an empty list first when it is missing,
/// and returns the new text.
pub fn addtoarr(f: &str, query: &str, items: Vec<String>) -> (r: Result<String, WriteError>)
    requires
        exists|n: nat| addtoarr_spec(f@, query@, strs(items@), n) is Some,
    ensures
        forall|n: nat| addtoarr_spec(f@, query@, strs(items@), n) is Some
            ==> #[trigger] addtoarr_spec(f@, query@, strs(items@), n) == Some(wview(r)),
        r matches Ok(s) ==> (binding_in_file(f@, query@) ==> (s@ == f@ || inserted_each(
            f@,
            element_texts(strs(items@)),
            s@,
        ))),
        r matches Ok(s) ==> (attr_missing(f@, query@) ==> exists|g: Seq<char>| #[trigger] inserted(
            f@,
            binding_text(query@, empty_list_text()),
            g,
        ) && (binding_in_file(g, query@) ==> (s@ == g || inserted_each(g, element_texts(strs(items@)), s@)))),
{
    let ghost its = strs(items@);
    let ghost bt = binding_text(query@, empty_list_text());
    let ghost mut phase: int = 0;
    let ghost mut g0: Seq<char> = f@;
    let ghost n0 = choose|n: nat| addtoarr_spec(f@, query@, its, n) is Some;
    let ghost goal = addtoarr_spec(f@, query@, its, n0);
    let mut cur = String::from_str(f);
    let ghost mut k: nat = n0;
    let mut r: Result<String, WriteError> = Err(WriteError::NoAttr);
    loop
        invariant
            its == strs(items@),
            goal == addtoarr_spec(f@, query@, its, n0),
            goal is Some,
            addtoarr_spec(cur@, query@, its, k) == goal,
            binding_in_file(f@, query@) ==> cur@ == f@,
            bt == binding_text(query@, empty_list_text()),
            0 <= phase <= 2,
            phase == 0 ==> cur@ == f@,
            phase >= 1 ==> attr_missing(f@, query@) && inserted(f@, bt, g0),
            phase == 1 ==> cur@ == g0,
            phase == 2 ==> !binding_in_file(g0, query@),
        ensures
            goal == Some(wview(r)),
            r matches Ok(s) ==> (binding_in_file(f@, query@) ==> (s@ == f@ || inserted_each(f@, element_texts(its), s@))),
            r matches Ok(s) ==> (attr_missing(f@, query@) ==> inserted(f@, bt, g0)
                && (binding_in_file(g0, query@) ==> (s@ == g0 || inserted_each(g0, element_texts(its), s@)))),
        decreases k,
    {
        let (tag, res, next) = arr_step_exec(cur.as_str(), query, &items);
        if tag == 0 {
            match res {
                Some(x) => {
                    r = x;
                    break;
                },
                None => {
                    proof {
                        assert(false);
                    }
                    break;
                },
            }
        } else if tag == 1 {
            proof {
                if phase == 0 {
                    g0 = next@;
                    phase = 1;
                } else {
                    phase = 2;
                }
            }
            cur = next;
            proof {
                k = (k - 1) as nat;
            }
        } else {
            proof {
                assert(false);
            }
            break;
        }
    }
    proof {
        assert forall|n: nat| addtoarr_spec(f@, query@, its, n) is Some
            implies #[trigger] addtoarr_spec(f@, query@, its, n) == Some(wview(r)) by {
            if n <= n0 {
                lemma_addtoarr_more_fuel(f@, query@, its, n, n0);
            } else {
                lemma_addtoarr_more_fuel(f@, query@, its, n0, n);
            }
        }
    }
    r
}

/// `addtoarr` where it finishes without adding the missing binding more
/// than once; `None` otherwise (the edit is then undefined, or would add the
/// binding again).
pub fn try_addtoarr(f: &str, query: &str, items: Vec<String>) -> (r: Option<Result<String, WriteError>>)
    ensures
        r matches Some(x) ==> addtoarr_spec(f@, query@, strs(items@), 1) == Some(wview(x)),
        r is None ==> addtoarr_spec(f@, query@, strs(items@), 1) is None,
{
    let ghost its = strs(items@);
    let (tag, _, next) = arr_step_exec(f, query, &items);
    let mut defined = false;
    if tag == 0 {
        defined = true;
    } else if tag == 1 {
        let (tag2, _, _) = arr_step_exec(next.as_str(), query, &items);
        proof {
            assert(addtoarr_spec(f@, query@, its, 1) == addtoarr_spec(next@, query@, its, 0));
        }
        defined = tag2 == 0;
    }
    if defined {
        let r = addtoarr(f, query, items);
        proof {
            assert(addtoarr_spec(f@, query@, its, 1) is Some);
        }
        Some(r)
    } else {
        None
    }
}


// ---------------------------------------------------------------- rmarr

/// The positions `rmarr` removes from the children `cs` of a list, from
/// child `j` on: for each child node whose text is one of `items`, in
/// order, the position of the first child node equal to it.
pub open spec fn rm_indices(cs: Seq<Tree>, items: Seq<Seq<char>>, j: int, acc: Seq<int>) -> Option<Seq<int>>
    decreases cs.len() - j,
{
    if j < 0 || j >= cs.len() {
        Some(acc)
    } else if cs[j] is Node && items.contains(text(cs[j])) {
        match first_node_eq_from(cs, cs[j], 0) {
            None => None,
            Some(i) => rm_indices(cs, items, j + 1, acc.push(i)),
        }
    } else {
        rm_indices(cs, items, j + 1, acc)
    }
}

/// The children `r` after removing, for the `k`-th position on (shifted
/// back by the `acc` children already removed), that child and the
/// line-break token in front of it; `None` where that is undefined.
pub open spec fn rm_fold(r: Seq<Tree>, idx: Seq<int>, k: int, acc: int) -> Option<Seq<Tree>>
    decreases idx.len() - k,
{
    if k < 0 || k >= idx.len() {
        Some(r)
    } else {
        let a = idx[k] - acc;
        if a < 0 || a >= r.len() {
            None
        } else {
            let r1 = r.remove(a);
            if a - 1 < 0 || a - 1 >= r1.len() {
                None
            } else if is_nl_token(r1[a - 1]) {
                rm_fold(r1.remove(a - 1), idx, k + 1, acc + 2)
            } else {
                rm_fold(r1, idx, k + 1, acc + 1)
            }
        }
    }
}

/// What `rmarr_aux` returns for the binding at `node`: through `with`
/// scopes, the first list loses the elements whose text is one of `items`;
/// `Some(None)` when there is no list; `None` where the edit is undefined.
pub open spec fn rm_aux_spec(node: Cursor, items: Seq<Seq<char>>) -> Option<Option<Tree>>
    decreases node.at(),
{
    let cs = kids(node.at());
    match first_kind2_from(cs, NODE_WITH, NODE_LIST, 0) {
        None => Some(None),
        Some(j) => if is_node_of(cs[j], NODE_WITH) {
            if valid_path_at(node, j) {
                proof {
                    lemma_child_decreases(node, j);
                }
                rm_aux_spec(node.child(j), items)
            } else {
                Some(None)
            }
        } else {
            let l = cs[j];
            match rm_indices(kids(l), items, 0, Seq::empty()) {
                None => Some(None),
                Some(idx) => match rm_fold(kids(l), idx, 0, 0) {
                    None => None,
                    Some(r) => Some(Some(replace_at(node.root, node.path.push(j), with_kids(l, r)))),
                },
            }
        },
    }
}

/// Is `s` one of `items`?
fn str_in(items: &Vec<String>, s: &String) -> (r: bool)
    ensures
        r == strs(items@).contains(s@),
{
    let mut i: usize = 0;
    while i < items.len()
        invariant
            i <= items.len(),
            forall|k: int| 0 <= k < i ==> items@[k]@ != s@,
        decreases items.len() - i,
    {
        if items[i] == *s {
            proof {
                assert(strs(items@)[i as int] == s@);
            }
            return true;
        }
        i = i + 1;
    }
    proof {
        if strs(items@).contains(s@) {
            let k = choose|k: int| 0 <= k < strs(items@).len() && strs(items@)[k] == s@;
            assert(items@[k]@ == s@);
        }
    }
    false
}

/// The positions `rm_indices` collects name child nodes whose texts are
/// among `items`.
pub proof fn lemma_rm_indices(cs: Seq<Tree>, items: Seq<Seq<char>>, j: int, acc: Seq<int>)
    ensures
        rm_indices(cs, items, j, acc) matches Some(idx) ==> idx.len() >= acc.len() && idx.take(acc.len() as int) == acc
            && forall|t: int| acc.len() <= t < idx.len() ==> 0 <= #[trigger] idx[t] < cs.len()
                && cs[idx[t]] is Node && items.contains(text(cs[idx[t]])),
    decreases cs.len() - j,
{
    if 0 <= j < cs.len() {
        if cs[j] is Node && items.contains(text(cs[j])) {
            lemma_first_node_eq_bound(cs, cs[j], 0);
            if let Some(i) = first_node_eq_from(cs, cs[j], 0) {
                lemma_rm_indices(cs, items, j + 1, acc.push(i));
                if let Some(idx) = rm_indices(cs, items, j + 1, acc.push(i)) {
                    assert(idx.take(acc.len() as int) =~= idx.take((acc.len() + 1) as int).take(acc.len() as int));
                    assert(acc.push(i).take(acc.len() as int) =~= acc);
                    assert(idx[acc.len() as int] == idx.take((acc.len() + 1) as int)[acc.len() as int]);
                }
            }
        } else {
            lemma_rm_indices(cs, items, j + 1, acc);
        }
    } else {
        assert(acc.take(acc.len() as int) =~= acc);
    }
}

/// The list that `rmarr` edits in the binding at `node`: through `with`
/// scopes, the first list.
pub open spec fn rm_list(node: Cursor) -> Option<Tree>
    decreases node.at(),
{
    let cs = kids(node.at());
    match first_kind2_from(cs, NODE_WITH, NODE_LIST, 0) {
        None => None,
        Some(j) => if is_node_of(cs[j], NODE_WITH) {
            if valid_path_at(node, j) {
                proof {
                    lemma_child_decreases(node, j);
                }
                rm_list(node.child(j))
            } else {
                None
            }
        } else {
            Some(cs[j])
        },
    }
}

/// The elements of the list `l` to remove are pairwise different child
/// nodes, so that each is removed at its own place.
pub open spec fn rm_in_order(l: Tree, items: Seq<Seq<char>>) -> bool {
    rm_indices(kids(l), items, 0, Seq::empty()) matches Some(idx)
        && forall|a: int, b: int| 0 <= a < b < idx.len() ==> idx[a] < idx[b]
}

/// Each piece is one of `items` or holds a line break.
pub open spec fn items_or_breaks(pieces: Seq<Seq<char>>, items: Seq<Seq<char>>) -> bool {
    forall|i: int| 0 <= i < pieces.len() ==> items.contains(#[trigger] pieces[i]) || pieces[i].contains('\n')
}

/// What `rmarr` takes out of the text `f` for attribute `q`, when its binding
/// lies in the file's own tree: pieces that are each one of `items` or a
/// line break, where the elements to remove are pairwise different.
pub open spec fn rm_pieces_law(f: Seq<char>, q: Seq<char>, items: Seq<Seq<char>>, s: Seq<char>) -> bool {
    match found_binding(f, q) {
        Some(x) => match rm_list(x) {
            Some(l) => rm_in_order(l, items) ==> exists|pieces: Seq<Seq<char>>|
                #[trigger] removed_each(f, pieces, s) && items_or_breaks(pieces, items),
            None => true,
        },
        None => true,
    }
}

fn rm_indices_exec(l: &Green, items: &Vec<String>) -> (r: Option<Vec<usize>>)
    ensures
        r matches Some(v) ==> rm_indices(kids(l@), strs(items@), 0, Seq::empty()) == Some(crate::tree::ints(v@)),
        r is None ==> rm_indices(kids(l@), strs(items@), 0, Seq::empty()) is None,
{
    let n = l.len();
    let ghost cs = kids(l@);
    let ghost total = rm_indices(cs, strs(items@), 0, Seq::empty());
    let mut idx: Vec<usize> = Vec::new();
    proof {
        assert(crate::tree::ints(idx@) =~= Seq::<int>::empty());
    }
    let mut j: usize = 0;
    while j < n
        invariant
            n == cs.len(),
            cs == kids(l@),
            total == rm_indices(cs, strs(items@), 0, Seq::empty()),
            j <= n,
            rm_indices(cs, strs(items@), j as int, crate::tree::ints(idx@)) == total,
        decreases n - j,
    {
        let e = l.child(j);
        if e.is_node() && str_in(items, &e.to_text()) {
            match l.first_node_eq(e) {
                None => {
                    return None;
                },
                Some(i) => {
                    let ghost old_idx = idx@;
                    idx.push(i);
                    proof {
                        assert(crate::tree::ints(idx@) =~= crate::tree::ints(old_idx).push(i as int));
                    }
                },
            }
        }
        j = j + 1;
    }
    Some(idx)
}

fn rm_fold_exec(r0: Vec<Green>, idx: &Vec<usize>, Ghost(items): Ghost<Seq<Seq<char>>>) -> (r: Option<Vec<Green>>)
    requires
        forall|t: int| 0 <= t < idx.len() ==> 0 <= #[trigger] idx@[t] < r0.len()
            && items.contains(text(crate::tree::views(r0@)[idx@[t] as int])),
    ensures
        r matches Some(v) ==> rm_fold(crate::tree::views(r0@), crate::tree::ints(idx@), 0, 0) == Some(crate::tree::views(v@)),
        r is None ==> rm_fold(crate::tree::views(r0@), crate::tree::ints(idx@), 0, 0) is None,
        r matches Some(v) ==> exists|pieces: Seq<Seq<char>>| #[trigger] removed_each(
            texts(crate::tree::views(r0@)),
            pieces,
            texts(crate::tree::views(v@)),
        ) && ((forall|a: int, b: int| 0 <= a < b < idx.len() ==> idx@[a] < idx@[b]) ==> items_or_breaks(pieces, items)),
{
    let ghost ix = crate::tree::ints(idx@);
    let ghost cs = crate::tree::views(r0@);
    let ghost total = rm_fold(cs, ix, 0, 0);
    let ghost t0 = texts(cs);
    let ghost ordered = forall|a: int, b: int| 0 <= a < b < idx.len() ==> idx@[a] < idx@[b];
    let ghost mut pieces: Seq<Seq<char>> = Seq::empty();
    let ghost mut p: int = 0;
    proof {
        crate::tree::lemma_views(r0@);
        assert(crate::tree::views(r0@).skip(0) =~= cs.skip(0));
    }
    let mut r = r0;
    let mut acc: usize = 0;
    let mut k: usize = 0;
    while k < idx.len()
        invariant
            ix == crate::tree::ints(idx@),
            cs == crate::tree::views(r0@),
            cs.len() == r0.len(),
            total == rm_fold(cs, ix, 0, 0),
            t0 == texts(cs),
            k <= idx.len(),
            acc + r.len() == r0.len(),
            rm_fold(crate::tree::views(r@), ix, k as int, acc as int) == total,
            removed_each(t0, pieces, texts(crate::tree::views(r@))),
            forall|t: int| 0 <= t < idx.len() ==> 0 <= #[trigger] idx@[t] < r0.len()
                && items.contains(text(cs[idx@[t] as int])),
            ordered == (forall|a: int, b: int| 0 <= a < b < idx.len() ==> idx@[a] < idx@[b]),
            ordered ==> items_or_breaks(pieces, items),
            ordered ==> acc <= p <= cs.len() && crate::tree::views(r@).skip(p - acc) == cs.skip(p),
            ordered && k > 0 ==> p == idx@[k - 1] + 1,
            ordered && k == 0 ==> p == 0,
        decreases idx.len() - k,
    {
        proof {
            crate::tree::lemma_views(r@);
            assert(ix[k as int] == idx@[k as int] as int);
        }
        let i = idx[k];
        if i < acc || i - acc >= r.len() {
            return None;
        }
        let a = i - acc;
        proof {
            crate::tree::lemma_views_remove(r@, a as int);
            let vs = crate::tree::views(r@);
            crate::syntax::lemma_texts_remove(vs, a as int);
            lemma_removed_each_push(t0, pieces, texts(vs), text(vs[a as int]), texts(vs.remove(a as int)));
            if ordered {
                if k > 0 {
                    assert(idx@[k - 1] < idx@[k as int]);
                }
                assert(i >= p);
                assert(vs[a as int] == vs.skip(p - acc)[a - (p - acc)]);
                assert(vs[a as int] == cs[i as int]);
                assert(vs.remove(a as int).skip(a as int) =~= cs.skip(i + 1)) by {
                    assert forall|t: int| 0 <= t < cs.skip(i + 1).len() implies vs.remove(a as int).skip(a as int)[t] == cs.skip(i + 1)[t] by {
                        assert(vs.skip(p - acc)[a - (p - acc) + 1 + t] == cs.skip(p)[i - p + 1 + t]);
                    }
                }
                assert forall|t: int| 0 <= t < pieces.len() + 1 implies items.contains(#[trigger] pieces.push(text(vs[a as int]))[t])
                    || pieces.push(text(vs[a as int]))[t].contains('\n') by {
                    if t < pieces.len() {
                        assert(pieces.push(text(vs[a as int]))[t] == pieces[t]);
                    }
                }
            }
            pieces = pieces.push(text(vs[a as int]));
            p = i + 1;
        }
        r.remove(a);
        proof {
            crate::tree::lemma_views(r@);
        }
        if a == 0 || a - 1 >= r.len() {
            return None;
        }
        let before = &r[a - 1];
        if !before.is_node() && crate::strings::has_newline(before.to_text().as_str()) {
            proof {
                crate::tree::lemma_views_remove(r@, a - 1);
                let vs = crate::tree::views(r@);
                crate::syntax::lemma_texts_remove(vs, a - 1);
                lemma_removed_each_push(t0, pieces, texts(vs), text(vs[a - 1]), texts(vs.remove(a - 1)));
                assert(vs[a - 1] == r@[a - 1]@);
                if ordered {
                    assert(vs.remove(a - 1).skip(a - 1) =~= vs.skip(a as int));
                    assert forall|t: int| 0 <= t < pieces.len() + 1 implies items.contains(#[trigger] pieces.push(text(vs[a - 1]))[t])
                        || pieces.push(text(vs[a - 1]))[t].contains('\n') by {
                        if t < pieces.len() {
                            assert(pieces.push(text(vs[a - 1]))[t] == pieces[t]);
                        }
                    }
                }
                pieces = pieces.push(text(vs[a - 1]));
            }
            r.remove(a - 1);
            acc = acc + 2;
        } else {
            acc = acc + 1;
        }
        k = k + 1;
    }
    proof {
        assert(removed_each(t0, pieces, texts(crate::tree::views(r@))));
    }
    Some(r)
}

#[verifier::loop_isolation(false)]
fn rm_aux(node: &SyntaxNode, items: &Vec<String>) -> (r: Option<Option<SyntaxNode>>)
    ensures
        match r {
            None => rm_aux_spec(node@, strs(items@)) is None,
            Some(None) => rm_aux_spec(node@, strs(items@)) == Some(None::<Tree>),
            Some(Some(n)) => rm_aux_spec(node@, strs(items@)) matches Some(Some(t)) && tree_result(n, t),
        },
        r matches Some(Some(n)) ==> exists|pieces: Seq<Seq<char>>| #[trigger] removed_each(
            text(node@.root),
            pieces,
            text(n@.at()),
        ) && (rm_list(node@) matches Some(l) ==> (rm_in_order(l, strs(items@)) ==> items_or_breaks(pieces, strs(items@)))),
    decreases node@.at(),
{
    let g = node.green();
    let j = match first_kind2_exec(g, NODE_WITH, NODE_LIST) {
        Some(j) => j,
        None => {
            return Some(None);
        },
    };
    proof {
        lemma_first_kind2_from(kids(g@), NODE_WITH, NODE_LIST, 0);
        lemma_child_decreases(node@, j as int);
    }
    let c = g.child(j);
    let cn = node.child_node(j);
    if c.kind() == NODE_WITH {
        return rm_aux(&cn, items);
    }
    let idx = match rm_indices_exec(c, items) {
        Some(v) => v,
        None => {
            return Some(None);
        },
    };
    let kids0 = c.children_clone();
    let ghost t0 = texts(crate::tree::views(kids0@));
    proof {
        lemma_rm_indices(kids(c@), strs(items@), 0, Seq::empty());
        let ix = crate::tree::ints(idx@);
        assert forall|t: int| 0 <= t < idx.len() implies 0 <= #[trigger] idx@[t] < kids0.len()
            && strs(items@).contains(text(crate::tree::views(kids0@)[idx@[t] as int])) by {
            assert(ix[t] == idx@[t] as int);
        }
    }
    let kept = match rm_fold_exec(kids0, &idx, Ghost(strs(items@))) {
        Some(v) => v,
        None => {
            return None;
        },
    };
    let replace = c.with_children(kept);
    let out = cn.replace_with(replace);
    proof {
        let pieces = choose|pieces: Seq<Seq<char>>| #[trigger] removed_each(t0, pieces, texts(crate::tree::views(kept@)))
            && ((forall|a: int, b: int| 0 <= a < b < idx.len() ==> idx@[a] < idx@[b]) ==> items_or_breaks(pieces, strs(items@)));
        if rm_in_order(c@, strs(items@)) {
            let ix = crate::tree::ints(idx@);
            assert forall|a: int, b: int| 0 <= a < b < idx.len() implies idx@[a] < idx@[b] by {
                assert(ix[a] == idx@[a] as int && ix[b] == idx@[b] as int);
            }
        }
        crate::syntax::lemma_text_path(cn@.root, cn@.path, replace@);
        let pre = crate::syntax::pre_text(cn@.root, cn@.path);
        let post = crate::syntax::post_text(cn@.root, cn@.path);
        assert(text(c@) == t0);
        assert(text(replace@) == texts(crate::tree::views(kept@)));
        lemma_removed_each_context(pre, t0, post, pieces, texts(crate::tree::views(kept@)));
        assert(removed_each(text(node@.root), pieces, text(out@)));
    }
    Some(Some(reparse_exec(&out)))
}

/// What `rmarr` returns for `items` removed from the list of attribute `q`
/// of `f`, `None` where it is undefined.
pub open spec fn rmarr_spec(f: Seq<char>, q: Seq<char>, items: Seq<Seq<char>>) -> Option<Result<Seq<char>, WriteError>> {
    match file_base(f) {
        None => Some(Err(WriteError::ParseError)),
        Some(b) => match findattr_spec(b, q) {
            None => None,
            Some(None) => Some(Err(WriteError::NoAttr)),
            Some(Some(x)) => match rm_aux_spec(x, items) {
                None => None,
                Some(None) => Some(Err(WriteError::ArrayError)),
                Some(Some(t)) => Some(Ok(text(t))),
            },
        },
    }
}

fn rmarr_run(f: &str, query: &str, items: &Vec<String>) -> (r: Option<Result<String, WriteError>>)
    ensures
        match r {
            Some(x) => rmarr_spec(f@, query@, strs(items@)) == Some(wview(x)),
            None => rmarr_spec(f@, query@, strs(items@)) is None,
        },
        r matches Some(Ok(s)) ==> (binding_in_file(f@, query@) ==> exists|pieces: Seq<Seq<char>>|
            #[trigger] removed_each(f@, pieces, s@)),
        r matches Some(Ok(s)) ==> (binding_in_file(f@, query@) ==> rm_pieces_law(f@, query@, strs(items@), s@)),
{
    let base = match config_base(f) {
        Some(b) => b,
        None => {
            return Some(Err(WriteError::ParseError));
        },
    };
    match findattr_run(&base, query) {
        None => None,
        Some(None) => Some(Err(WriteError::NoAttr)),
        Some(Some(x)) => match rm_aux(&x, items) {
            None => None,
            Some(None) => Some(Err(WriteError::ArrayError)),
            Some(Some(t)) => {
                proof {
                    let its = strs(items@);
                    let pieces = choose|pieces: Seq<Seq<char>>| #[trigger] removed_each(text(x@.root), pieces, text(t@.at()))
                        && (rm_list(x@) matches Some(l) ==> (rm_in_order(l, its) ==> items_or_breaks(pieces, its)));
                    assert(removed_each(text(x@.root), pieces, text(t@.at())));
                }
                Some(Ok(t.to_text()))
            },
        },
    }
}

/// Removes from the list that attribute `query` holds the elements whose
/// texts are among `items`, each with the line break in front of it, and
/// returns the new text.  Each such element is removed at the place of the
/// first element equal to it; where two elements are equal, the second
/// removal therefore takes out another child than the second of them (so
/// of `[ a a ]` less `a`, one `a` stays).  See `rm_pieces_law` for what is
/// taken out where the elements to remove are pairwise different.
pub fn rmarr(f: &str, query: &str, items: Vec<String>) -> (r: Result<String, WriteError>)
    requires
        rmarr_spec(f@, query@, strs(items@)) is Some,
    ensures
        rmarr_spec(f@, query@, strs(items@)) == Some(wview(r)),
        r matches Ok(s) ==> (binding_in_file(f@, query@) ==> exists|pieces: Seq<Seq<char>>|
            #[trigger] removed_each(f@, pieces, s@)),
        r matches Ok(s) ==> (binding_in_file(f@, query@) ==> rm_pieces_law(f@, query@, strs(items@), s@)),
{
    match rmarr_run(f, query, &items) {
        Some(r) => r,
        None => Err(WriteError::NoAttr),
    }
}

/// `rmarr` where it is defined, `None` elsewhere.
pub fn try_rmarr(f: &str, query: &str, items: Vec<String>) -> (r: Option<Result<String, WriteError>>)
    ensures
        match r {
            Some(x) => rmarr_spec(f@, query@, strs(items@)) == Some(wview(x)),
            None => rmarr_spec(f@, query@, strs(items@)) is None,
        },
{
    if rmarr_run(f, query, &items).is_some() {
        Some(rmarr(f, query, items))
    } else {
        None
    }
}

// ---------------------------------------------------------------- laws

/// A text that holds no attribute set is refused alike by every operation:
/// each reads, writes, edits lists, removes bindings or collects bindings
/// only after finding the attribute set, and reports `ParseError` when
/// there is none.
pub proof fn parse_error_everywhere(f: Seq<char>, q: Seq<char>, v: Seq<char>, items: Seq<Seq<char>>, fuel: nat)
    requires
        file_base(f) is None,
    ensures
        readvalue_spec(f, q) == Some(Err::<Seq<char>, _>(crate::read::ReadError::ParseError)),
        crate::read::getarrvals_spec(f, q) == Some(Err::<Seq<Seq<char>>, _>(crate::read::ReadError::ParseError)),
        crate::read::getwithvalue_spec(f, q) == Some(Err::<Seq<Seq<char>>, _>(crate::read::ReadError::ParseError)),
        crate::parse::get_collection_spec(f) == Some(
            Err::<Map<Seq<char>, Seq<char>>, _>(crate::read::ReadError::ParseError),
        ),
        write_spec(f, q, v) == Some(Err::<Seq<char>, _>(WriteError::ParseError)),
        deref_spec(f, q) == Some(Err::<Seq<char>, _>(WriteError::ParseError)),
        addtoarr_spec(f, q, items, fuel) == Some(Err::<Seq<char>, _>(WriteError::ParseError)),
        rmarr_spec(f, q, items) == Some(Err::<Seq<char>, _>(WriteError::ParseError)),
{
}

/// Where the attribute set of a file holds no binding matching the path,
/// every read and every removal reports `NoAttr`, and a write adds the
/// binding.
pub proof fn no_match_no_attr(f: Seq<char>, q: Seq<char>, items: Seq<Seq<char>>)
    requires
        file_base(f) is Some,
        !crate::parse::has_match(file_base(f)->0, q),
    ensures
        readvalue_spec(f, q) == Some(Err::<Seq<char>, _>(crate::read::ReadError::NoAttr)),
        crate::read::getarrvals_spec(f, q) == Some(Err::<Seq<Seq<char>>, _>(crate::read::ReadError::NoAttr)),
        crate::read::getwithvalue_spec(f, q) == Some(Err::<Seq<Seq<char>>, _>(crate::read::ReadError::NoAttr)),
        deref_spec(f, q) == Some(Err::<Seq<char>, _>(WriteError::NoAttr)),
        rmarr_spec(f, q, items) == Some(Err::<Seq<char>, _>(WriteError::NoAttr)),
        adds_binding(f, q),
{
    crate::parse::findattr_needs_match(file_base(f)->0, q);
}

} // verus!
