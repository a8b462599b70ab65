//! Reading attribute values, list elements and `with` scopes from a Nix file.
use vstd::prelude::*;
use crate::parse::{cfg_rel_exec, cfgbase, findattr_run, findattr_spec, first_kind_from, lemma_cfg_rel, lemma_cfgbase, ocur, getcfgbase};
use crate::strings::{lemma_occurs_extend, lemma_occurs_trans, occurs_in, strs};
use crate::syntax::{
    lemma_at_occurs, lemma_kid_occurs, lemma_texts_kid_occurs, nix_tree, parse_tree, root_cursor, Cursor,
    SyntaxNode,
};
use crate::tree::{is_node_of, kids, text, texts, tkind, Green, Tree, NODE_IDENT, NODE_KEY, NODE_LIST, NODE_WITH};

verus! {

/// Why a read failed.
#[derive(Debug, Clone, Copy, PartialEq, Eq, Structural)]
pub enum ReadError {
    /// The file holds no attribute set.
    ParseError,
    /// The attribute is not there.
    NoAttr,
    /// The attribute holds no list.
    ArrayError,
}

impl ReadError {
    /// The message of the error.
    pub fn message(&self) -> (s: &'static str)
        ensures
            s@ == read_error_message(*self),
    {
        match self {
            ReadError::ParseError => "Read Error: Error while parsing.",
            ReadError::NoAttr => "Read Error: No attributes.",
            ReadError::ArrayError => "Read Error: Error with array.",
        }
    }
}

pub open spec fn read_error_message(e: ReadError) -> Seq<char> {
    match e {
        ReadError::ParseError => "Read Error: Error while parsing."@,
        ReadError::NoAttr => "Read Error: No attributes."@,
        ReadError::ArrayError => "Read Error: Error with array."@,
    }
}

/// The attribute set of the configuration held in the text `f`.
pub open spec fn file_base(f: Seq<char>) -> Option<Cursor> {
    cfgbase(root_cursor(nix_tree(f)))
}

/// The binding that `findattr` finds for attribute `q` in the text `f`.
pub open spec fn found_binding(f: Seq<char>, q: Seq<char>) -> Option<Cursor> {
    match file_base(f) {
        Some(b) => match findattr_spec(b, q) {
            Some(Some(x)) => Some(x),
            _ => None,
        },
        None => None,
    }
}

/// `findattr` finds the binding of `q` in the tree of `f` itself (and not
/// in the tree it builds for a group of bindings under a common prefix).
pub open spec fn binding_in_file(f: Seq<char>, q: Seq<char>) -> bool {
    found_binding(f, q) matches Some(x) && x.root == nix_tree(f)
}

/// The file `f` holds an attribute set, and no binding for `q`.
pub open spec fn attr_missing(f: Seq<char>, q: Seq<char>) -> bool {
    file_base(f) matches Some(b) && findattr_spec(b, q) == Some(None::<Cursor>)
}

/// The attribute set of the configuration held in `f`, computed.
pub fn config_base(f: &str) -> (r: Option<SyntaxNode>)
    ensures
        r matches Some(b) ==> file_base(f@) == Some(b@) && b@.root == nix_tree(f@),
        r is None ==> file_base(f@) is None,
        text(nix_tree(f@)) == f@,
{
    let root = SyntaxNode::new_root(parse_tree(f));
    proof {
        lemma_cfgbase(root@);
    }
    getcfgbase(&root)
}

/// The first child at or after `j` that is a node of another kind than `k`.
pub open spec fn first_not_kind_from(cs: Seq<Tree>, k: u16, j: int) -> Option<int>
    decreases cs.len() - j,
{
    if j < 0 || j >= cs.len() {
        None
    } else if cs[j] is Node && tkind(cs[j]) != k {
        Some(j)
    } else {
        first_not_kind_from(cs, k, j + 1)
    }
}

/// The value of a binding: its first child node that is not its key.
pub open spec fn findvalue(t: Tree) -> Option<Tree> {
    match first_not_kind_from(kids(t), NODE_KEY, 0) {
        Some(j) => Some(kids(t)[j]),
        None => None,
    }
}

fn findvalue_exec(g: &Green) -> (r: Option<&Green>)
    ensures
        r matches Some(v) ==> findvalue(g@) == Some(v@),
        r is None ==> findvalue(g@) is None,
{
    let n = g.len();
    let mut i: usize = 0;
    while i < n
        invariant
            n == kids(g@).len(),
            i <= n,
            first_not_kind_from(kids(g@), NODE_KEY, 0) == first_not_kind_from(kids(g@), NODE_KEY, i as int),
        decreases n - i,
    {
        let c = g.child(i);
        if c.is_node() && c.kind() != NODE_KEY {
            return Some(c);
        }
        i = i + 1;
    }
    None
}

/// What `readvalue` returns for attribute `q` of the file `f`, `None` where
/// it is undefined: the text of the value of the binding `findattr` finds.
pub open spec fn readvalue_spec(f: Seq<char>, q: Seq<char>) -> Option<Result<Seq<char>, ReadError>> {
    match file_base(f) {
        None => Some(Err(ReadError::ParseError)),
        Some(b) => match findattr_spec(b, q) {
            None => None,
            Some(None) => Some(Err(ReadError::NoAttr)),
            Some(Some(x)) => match findvalue(x.at()) {
                Some(v) => Some(Ok(text(v))),
                None => Some(Err(ReadError::NoAttr)),
            },
        },
    }
}

pub open spec fn sview(r: Result<String, ReadError>) -> Result<Seq<char>, ReadError> {
    match r {
        Ok(s) => Ok(s@),
        Err(e) => Err(e),
    }
}

pub open spec fn vview(r: Result<Vec<String>, ReadError>) -> Result<Seq<Seq<char>>, ReadError> {
    match r {
        Ok(v) => Ok(strs(v@)),
        Err(e) => Err(e),
    }
}

fn readvalue_run(f: &str, query: &str) -> (r: Option<Result<String, ReadError>>)
    ensures
        match r {
            Some(x) => readvalue_spec(f@, query@) == Some(sview(x)),
            None => readvalue_spec(f@, query@) is None,
        },
        r matches Some(Ok(s)) ==> (binding_in_file(f@, query@) ==> occurs_in(s@, f@)),
{
    let base = match config_base(f) {
        Some(b) => b,
        None => {
            return Some(Err(ReadError::ParseError));
        },
    };
    match findattr_run(&base, query) {
        None => None,
        Some(None) => Some(Err(ReadError::NoAttr)),
        Some(Some(x)) => match findvalue_exec(x.green()) {
            Some(v) => {
                proof {
                    let cs = kids(x@.at());
                    lemma_first_not_kind_from(cs, NODE_KEY, 0);
                    let j = first_not_kind_from(cs, NODE_KEY, 0)->0;
                    lemma_kid_occurs(x@, j);
                }
                Some(Ok(v.to_text()))
            },
            None => Some(Err(ReadError::NoAttr)),
        },
    }
}

pub proof fn lemma_first_not_kind_from(cs: Seq<Tree>, k: u16, j: int)
    ensures
        first_not_kind_from(cs, k, j) matches Some(i) ==> 0 <= j <= i < cs.len(),
    decreases cs.len() - j,
{
    if 0 <= j < cs.len() && !(cs[j] is Node && tkind(cs[j]) != k) {
        lemma_first_not_kind_from(cs, k, j + 1);
    }
}

/// The text of the value of attribute `query` (a dot-separated path) in
/// the Nix text `f`.
pub fn readvalue(f: &str, query: &str) -> (r: Result<String, ReadError>)
    requires
        readvalue_spec(f@, query@) is Some,
    ensures
        readvalue_spec(f@, query@) == Some(sview(r)),
        r matches Ok(s) ==> (binding_in_file(f@, query@) ==> occurs_in(s@, f@)),
{
    match readvalue_run(f, query) {
        Some(r) => r,
        None => Err(ReadError::NoAttr),
    }
}

/// `readvalue` where it is defined, `None` elsewhere.
pub fn try_readvalue(f: &str, query: &str) -> (r: Option<Result<String, ReadError>>)
    ensures
        match r {
            Some(x) => readvalue_spec(f@, query@) == Some(sview(x)),
            None => readvalue_spec(f@, query@) is None,
        },
{
    if readvalue_run(f, query).is_some() {
        Some(readvalue(f, query))
    } else {
        None
    }
}

/// The texts of the child nodes, in order.
pub open spec fn node_texts(cs: Seq<Tree>) -> Seq<Seq<char>>
    decreases cs.len(),
{
    if cs.len() == 0 {
        Seq::empty()
    } else {
        let p = node_texts(cs.drop_last());
        if cs.last() is Node {
            p.push(text(cs.last()))
        } else {
            p
        }
    }
}

/// Each text that `node_texts` lists occurs in the texts of the sequence.
pub proof fn lemma_node_texts_occur(cs: Seq<Tree>)
    ensures
        forall|i: int| 0 <= i < node_texts(cs).len() ==> occurs_in(#[trigger] node_texts(cs)[i], texts(cs)),
    decreases cs.len(),
{
    if cs.len() > 0 {
        let p = cs.drop_last();
        lemma_node_texts_occur(p);
        assert(texts(cs) == texts(p) + text(cs.last()));
        assert forall|i: int| 0 <= i < node_texts(cs).len() implies occurs_in(#[trigger] node_texts(cs)[i], texts(cs)) by {
            if i < node_texts(p).len() {
                assert(node_texts(cs)[i] == node_texts(p)[i]);
                lemma_occurs_extend(node_texts(p)[i], Seq::empty(), texts(p), text(cs.last()));
                assert(Seq::<char>::empty() + texts(p) + text(cs.last()) =~= texts(cs));
            } else {
                assert(node_texts(cs)[i] == text(cs.last()));
                lemma_texts_kid_occurs(cs, cs.len() - 1);
            }
        }
    }
}

/// The elements of the list a binding holds: through `with` scopes, the
/// first `with` or list child decides.
pub open spec fn arr_vals(t: Tree) -> Option<Seq<Seq<char>>>
    decreases t, 1int,
{
    match t {
        Tree::Node(_, cs) => arr_scan(cs, 0),
        Tree::Token(_, _) => None,
    }
}

pub open spec fn arr_scan(cs: Seq<Tree>, j: int) -> Option<Seq<Seq<char>>>
    decreases cs, cs.len() - j,
{
    if j < 0 || j >= cs.len() {
        None
    } else if is_node_of(cs[j], NODE_WITH) {
        arr_vals(cs[j])
    } else if is_node_of(cs[j], NODE_LIST) {
        Some(node_texts(kids(cs[j])))
    } else {
        arr_scan(cs, j + 1)
    }
}

/// The element texts read from a list occur in the text of the binding.
pub proof fn lemma_arr_vals_occur(t: Tree)
    ensures
        arr_vals(t) matches Some(vs) ==> forall|i: int| 0 <= i < vs.len() ==> occurs_in(#[trigger] vs[i], text(t)),
    decreases t, 1int,
{
    match t {
        Tree::Node(_, cs) => {
            lemma_arr_scan_occur(cs, 0);
        },
        Tree::Token(_, _) => {},
    }
}

pub proof fn lemma_arr_scan_occur(cs: Seq<Tree>, j: int)
    ensures
        arr_scan(cs, j) matches Some(vs) ==> forall|i: int| 0 <= i < vs.len() ==> occurs_in(#[trigger] vs[i], texts(cs)),
    decreases cs, cs.len() - j,
{
    if 0 <= j < cs.len() {
        if is_node_of(cs[j], NODE_WITH) {
            lemma_arr_vals_occur(cs[j]);
            lemma_texts_kid_occurs(cs, j);
            if let Some(vs) = arr_vals(cs[j]) {
                assert forall|i: int| 0 <= i < vs.len() implies occurs_in(#[trigger] vs[i], texts(cs)) by {
                    lemma_occurs_trans(vs[i], text(cs[j]), texts(cs));
                }
            }
        } else if is_node_of(cs[j], NODE_LIST) {
            let l = cs[j];
            lemma_node_texts_occur(kids(l));
            lemma_texts_kid_occurs(cs, j);
            assert(text(l) == texts(kids(l)));
            let vs = node_texts(kids(l));
            assert forall|i: int| 0 <= i < vs.len() implies occurs_in(#[trigger] vs[i], texts(cs)) by {
                lemma_occurs_trans(vs[i], text(l), texts(cs));
            }
        } else {
            lemma_arr_scan_occur(cs, j + 1);
        }
    }
}

fn node_texts_exec(g: &Green) -> (r: Vec<String>)
    ensures
        strs(r@) == node_texts(kids(g@)),
{
    let n = g.len();
    let ghost cs = kids(g@);
    let mut r: Vec<String> = Vec::new();
    let mut i: usize = 0;
    while i < n
        invariant
            n == cs.len(),
            cs == kids(g@),
            i <= n,
            strs(r@) == node_texts(cs.take(i as int)),
        decreases n - i,
    {
        proof {
            assert(cs.take(i + 1).drop_last() =~= cs.take(i as int));
            assert(cs.take(i + 1).last() == cs[i as int]);
        }
        let c = g.child(i);
        if c.is_node() {
            r.push(c.to_text());
            proof {
                assert(strs(r@) =~= node_texts(cs.take(i as int)).push(text(cs[i as int])));
            }
        }
        i = i + 1;
    }
    proof {
        assert(cs.take(n as int) =~= cs);
    }
    r
}

fn arr_vals_exec(g: &Green) -> (r: Option<Vec<String>>)
    ensures
        r matches Some(v) ==> arr_vals(g@) == Some(strs(v@)),
        r is None ==> arr_vals(g@) is None,
    decreases g@,
{
    let n = g.len();
    let ghost cs = kids(g@);
    let mut i: usize = 0;
    while i < n
        invariant
            n == cs.len(),
            cs == kids(g@),
            i <= n,
            arr_vals(g@) == arr_scan(cs, i as int),
        decreases n - i,
    {
        let c = g.child(i);
        if c.is_node() && c.kind() == NODE_WITH {
            proof {
                assert(decreases_to!(g@ => cs[i as int]));
            }
            return arr_vals_exec(c);
        }
        if c.is_node() && c.kind() == NODE_LIST {
            return Some(node_texts_exec(c));
        }
        i = i + 1;
    }
    None
}

/// What `getarrvals` returns for attribute `q` of `f`, `None` where it
/// is undefined.
pub open spec fn getarrvals_spec(f: Seq<char>, q: Seq<char>) -> Option<Result<Seq<Seq<char>>, ReadError>> {
    match file_base(f) {
        None => Some(Err(ReadError::ParseError)),
        Some(b) => match findattr_spec(b, q) {
            None => None,
            Some(None) => Some(Err(ReadError::NoAttr)),
            Some(Some(x)) => match arr_vals(x.at()) {
                Some(v) => Some(Ok(v)),
                None => Some(Err(ReadError::ArrayError)),
            },
        },
    }
}

fn getarrvals_run(f: &str, query: &str) -> (r: Option<Result<Vec<String>, ReadError>>)
    ensures
        match r {
            Some(x) => getarrvals_spec(f@, query@) == Some(vview(x)),
            None => getarrvals_spec(f@, query@) is None,
        },
        r matches Some(Ok(v)) ==> (binding_in_file(f@, query@) ==> forall|i: int| 0 <= i < v.len()
            ==> occurs_in(#[trigger] v@[i]@, f@)),
{
    let base = match config_base(f) {
        Some(b) => b,
        None => {
            return Some(Err(ReadError::ParseError));
        },
    };
    match findattr_run(&base, query) {
        None => None,
        Some(None) => Some(Err(ReadError::NoAttr)),
        Some(Some(x)) => match arr_vals_exec(x.green()) {
            Some(v) => {
                proof {
                    lemma_arr_vals_occur(x@.at());
                    lemma_at_occurs(x@.root, x@.path);
                    assert forall|i: int| 0 <= i < v.len() implies occurs_in(#[trigger] v@[i]@, text(x@.root)) by {
                        assert(strs(v@)[i] == v@[i]@);
                        lemma_occurs_trans(v@[i]@, text(x@.at()), text(x@.root));
                    }
                }
                Some(Ok(v))
            },
            None => Some(Err(ReadError::ArrayError)),
        },
    }
}

/// The texts of the elements of the list that attribute `query` holds
/// (possibly under `with` scopes).
pub fn getarrvals(f: &str, query: &str) -> (r: Result<Vec<String>, ReadError>)
    requires
        getarrvals_spec(f@, query@) is Some,
    ensures
        getarrvals_spec(f@, query@) == Some(vview(r)),
        r matches Ok(v) ==> (binding_in_file(f@, query@) ==> forall|i: int| 0 <= i < v.len()
            ==> occurs_in(#[trigger] v@[i]@, f@)),
{
    match getarrvals_run(f, query) {
        Some(r) => r,
        None => Err(ReadError::NoAttr),
    }
}

/// `getarrvals` where it is defined, `None` elsewhere.
pub fn try_getarrvals(f: &str, query: &str) -> (r: Option<Result<Vec<String>, ReadError>>)
    ensures
        match r {
            Some(x) => getarrvals_spec(f@, query@) == Some(vview(x)),
            None => getarrvals_spec(f@, query@) is None,
        },
{
    if getarrvals_run(f, query).is_some() {
        Some(getarrvals(f, query))
    } else {
        None
    }
}

/// The names that the nested `with` scopes of a binding bring in, outer
/// first, added to `wv`: the first `with` child that has an identifier
/// child decides, and that identifier is its name.
pub open spec fn with_vals(t: Tree, wv: Seq<Seq<char>>) -> Option<Seq<Seq<char>>>
    decreases t, 1int,
{
    match t {
        Tree::Node(_, cs) => with_scan(cs, 0, wv),
        Tree::Token(_, _) => None,
    }
}

pub open spec fn with_scan(cs: Seq<Tree>, j: int, wv: Seq<Seq<char>>) -> Option<Seq<Seq<char>>>
    decreases cs, cs.len() - j,
{
    if j < 0 || j >= cs.len() {
        None
    } else if is_node_of(cs[j], NODE_WITH) && first_kind_from(kids(cs[j]), NODE_IDENT, 0) is Some {
        let nv = wv.push(text(kids(cs[j])[first_kind_from(kids(cs[j]), NODE_IDENT, 0)->0]));
        match with_vals(cs[j], nv) {
            Some(x) => Some(x),
            None => Some(nv),
        }
    } else {
        with_scan(cs, j + 1, wv)
    }
}

/// The names `with_vals` adds to `wv` occur in the text of the binding.
pub proof fn lemma_with_vals_occur(t: Tree, wv: Seq<Seq<char>>)
    ensures
        with_vals(t, wv) matches Some(r) ==> r.len() >= wv.len() && r.take(wv.len() as int) == wv
            && forall|i: int| wv.len() <= i < r.len() ==> occurs_in(#[trigger] r[i], text(t)),
    decreases t, 1int,
{
    match t {
        Tree::Node(_, cs) => {
            lemma_with_scan_occur(cs, 0, wv);
        },
        Tree::Token(_, _) => {},
    }
}

pub proof fn lemma_with_scan_occur(cs: Seq<Tree>, j: int, wv: Seq<Seq<char>>)
    ensures
        with_scan(cs, j, wv) matches Some(r) ==> r.len() >= wv.len() && r.take(wv.len() as int) == wv
            && forall|i: int| wv.len() <= i < r.len() ==> occurs_in(#[trigger] r[i], texts(cs)),
    decreases cs, cs.len() - j,
{
    if 0 <= j < cs.len() {
        if is_node_of(cs[j], NODE_WITH) && first_kind_from(kids(cs[j]), NODE_IDENT, 0) is Some {
            let w = cs[j];
            let k = first_kind_from(kids(w), NODE_IDENT, 0)->0;
            crate::parse::lemma_first_kind_from(kids(w), NODE_IDENT, 0);
            let id = text(kids(w)[k]);
            let nv = wv.push(id);
            lemma_texts_kid_occurs(kids(w), k);
            assert(text(w) == texts(kids(w)));
            lemma_texts_kid_occurs(cs, j);
            lemma_occurs_trans(id, text(w), texts(cs));
            lemma_with_vals_occur(w, nv);
            match with_vals(w, nv) {
                Some(x) => {
                    assert(x.take(nv.len() as int) == nv);
                    assert forall|i: int| wv.len() <= i < x.len() implies occurs_in(#[trigger] x[i], texts(cs)) by {
                        if i == wv.len() {
                            assert(x[i] == x.take(nv.len() as int)[i]);
                        } else {
                            lemma_occurs_trans(x[i], text(w), texts(cs));
                        }
                    }
                    assert(x.take(wv.len() as int) =~= nv.take(wv.len() as int));
                    assert(nv.take(wv.len() as int) =~= wv);
                },
                None => {
                    assert(nv.take(wv.len() as int) =~= wv);
                },
            }
        } else {
            lemma_with_scan_occur(cs, j + 1, wv);
        }
    }
}

fn with_vals_exec(g: &Green, wv: Vec<String>) -> (r: Option<Vec<String>>)
    ensures
        r matches Some(v) ==> with_vals(g@, strs(wv@)) == Some(strs(v@)),
        r is None ==> with_vals(g@, strs(wv@)) is None,
    decreases g@,
{
    let n = g.len();
    let ghost cs = kids(g@);
    let mut i: usize = 0;
    while i < n
        invariant
            n == cs.len(),
            cs == kids(g@),
            i <= n,
            with_vals(g@, strs(wv@)) == with_scan(cs, i as int, strs(wv@)),
        decreases n - i,
    {
        let c = g.child(i);
        if c.is_node() && c.kind() == NODE_WITH {
            match crate::parse::first_kind_exec(c, NODE_IDENT) {
                Some(k) => {
                    proof {
                        crate::parse::lemma_first_kind_from(kids(c@), NODE_IDENT, 0);
                    }
                    let mut nv = wv.clone();
                    nv.push(c.child(k).to_text());
                    proof {
                        assert(strs(nv@) =~= strs(wv@).push(text(kids(c@)[k as int])));
                        assert(decreases_to!(g@ => cs[i as int]));
                    }
                    let nv2 = nv.clone();
                    return match with_vals_exec(c, nv2) {
                        Some(x) => Some(x),
                        None => Some(nv),
                    };
                },
                None => {},
            }
        }
        i = i + 1;
    }
    None
}

/// What `getwithvalue` returns for attribute `q` of `f`, `None` where it
/// is undefined.
pub open spec fn getwithvalue_spec(f: Seq<char>, q: Seq<char>) -> Option<Result<Seq<Seq<char>>, ReadError>> {
    match file_base(f) {
        None => Some(Err(ReadError::ParseError)),
        Some(b) => match findattr_spec(b, q) {
            None => None,
            Some(None) => Some(Err(ReadError::NoAttr)),
            Some(Some(x)) => match with_vals(x.at(), Seq::empty()) {
                Some(v) => Some(Ok(v)),
                None => Some(Err(ReadError::NoAttr)),
            },
        },
    }
}

fn getwithvalue_run(f: &str, query: &str) -> (r: Option<Result<Vec<String>, ReadError>>)
    ensures
        match r {
            Some(x) => getwithvalue_spec(f@, query@) == Some(vview(x)),
            None => getwithvalue_spec(f@, query@) is None,
        },
        r matches Some(Ok(v)) ==> (binding_in_file(f@, query@) ==> forall|i: int| 0 <= i < v.len()
            ==> occurs_in(#[trigger] v@[i]@, f@)),
{
    let base = match config_base(f) {
        Some(b) => b,
        None => {
            return Some(Err(ReadError::ParseError));
        },
    };
    match findattr_run(&base, query) {
        None => None,
        Some(None) => Some(Err(ReadError::NoAttr)),
        Some(Some(x)) => {
            let empty: Vec<String> = Vec::new();
            proof {
                assert(strs(empty@) =~= Seq::<Seq<char>>::empty());
            }
            match with_vals_exec(x.green(), empty) {
                Some(v) => {
                    proof {
                        lemma_with_vals_occur(x@.at(), Seq::empty());
                        lemma_at_occurs(x@.root, x@.path);
                        assert forall|i: int| 0 <= i < v.len() implies occurs_in(#[trigger] v@[i]@, text(x@.root)) by {
                            assert(strs(v@)[i] == v@[i]@);
                            lemma_occurs_trans(v@[i]@, text(x@.at()), text(x@.root));
                        }
                    }
                    Some(Ok(v))
                },
                None => Some(Err(ReadError::NoAttr)),
            }
        },
    }
}

/// The names that the `with` scopes around the value of attribute `query`
/// bring in, outer first.
pub fn getwithvalue(f: &str, query: &str) -> (r: Result<Vec<String>, ReadError>)
    requires
        getwithvalue_spec(f@, query@) is Some,
    ensures
        getwithvalue_spec(f@, query@) == Some(vview(r)),
        r matches Ok(v) ==> (binding_in_file(f@, query@) ==> forall|i: int| 0 <= i < v.len()
            ==> occurs_in(#[trigger] v@[i]@, f@)),
{
    match getwithvalue_run(f, query) {
        Some(r) => r,
        None => Err(ReadError::NoAttr),
    }
}

/// `getwithvalue` where it is defined, `None` elsewhere.
pub fn try_getwithvalue(f: &str, query: &str) -> (r: Option<Result<Vec<String>, ReadError>>)
    ensures
        match r {
            Some(x) => getwithvalue_spec(f@, query@) == Some(vview(x)),
            None => getwithvalue_spec(f@, query@) is None,
        },
{
    if getwithvalue_run(f, query).is_some() {
        Some(getwithvalue(f, query))
    } else {
        None
    }
}

} // verus!
