//! Text helpers: attribute paths split on dots, joins, and substring search.
use vstd::prelude::*;
use vstd::string::{StrSliceExecFns, StringExecFns};

verus! {

/// The texts of a vector of strings.
pub open spec fn strs(v: Seq<String>) -> Seq<Seq<char>> {
    v.map_values(|s: String| s@)
}

/// `s` split at every '.', as `str::split('.')` does: "a.b" gives ["a", "b"],
/// "" gives [""], "a." gives ["a", ""].
pub open spec fn split_dot(s: Seq<char>) -> Seq<Seq<char>>
    decreases s.len(),
{
    if s.len() == 0 {
        seq![Seq::empty()]
    } else {
        let p = split_dot(s.drop_last());
        if s.last() == '.' {
            p.push(Seq::empty())
        } else {
            p.update(p.len() - 1, p.last().push(s.last()))
        }
    }
}

/// The parts joined with '.' between them, as `[String]::join(".")` does.
pub open spec fn join_dot(parts: Seq<Seq<char>>) -> Seq<char>
    decreases parts.len(),
{
    if parts.len() == 0 {
        Seq::empty()
    } else if parts.len() == 1 {
        parts[0]
    } else {
        join_dot(parts.drop_last()) + seq!['.'] + parts.last()
    }
}

/// The first position at or after `i` where `needle` occurs in `hay`.
pub open spec fn match_from(hay: Seq<char>, needle: Seq<char>, i: int) -> Option<int>
    decreases hay.len() + 1 - i,
{
    if i < 0 || i + needle.len() > hay.len() {
        None
    } else if hay.subrange(i, i + needle.len()) == needle {
        Some(i)
    } else {
        match_from(hay, needle, i + 1)
    }
}

/// The first position where `needle` occurs in `hay`, as `str::find` does.
pub open spec fn first_match(hay: Seq<char>, needle: Seq<char>) -> Option<int> {
    match_from(hay, needle, 0)
}

pub proof fn lemma_split_dot_nonempty(s: Seq<char>)
    ensures
        split_dot(s).len() >= 1,
    decreases s.len(),
{
    if s.len() > 0 {
        lemma_split_dot_nonempty(s.drop_last());
    }
}

pub proof fn lemma_match_from_found(hay: Seq<char>, needle: Seq<char>, i: int, k: int)
    requires
        0 <= i <= k,
        k + needle.len() <= hay.len(),
        hay.subrange(k, k + needle.len()) == needle,
    ensures
        match_from(hay, needle, i) is Some,
        i <= match_from(hay, needle, i)->0 <= k,
    decreases k - i,
{
    if hay.subrange(i, i + needle.len()) != needle {
        lemma_match_from_found(hay, needle, i + 1, k);
    }
}

pub proof fn lemma_match_from_bounds(hay: Seq<char>, needle: Seq<char>, i: int)
    ensures
        match_from(hay, needle, i) matches Some(r) ==> i <= r && 0 <= r && r + needle.len() <= hay.len()
            && hay.subrange(r, r + needle.len()) == needle,
    decreases hay.len() + 1 - i,
{
    if !(i < 0 || i + needle.len() > hay.len()) && hay.subrange(i, i + needle.len()) != needle {
        lemma_match_from_bounds(hay, needle, i + 1);
    }
}

/// The string of the first `end` characters of `v`.
pub fn prefix_string(v: &Vec<char>, end: usize) -> (s: String)
    requires
        end <= v.len(),
    ensures
        s@ == v@.take(end as int),
{
    let mut s = String::new();
    let mut i: usize = 0;
    while i < end
        invariant
            end <= v.len(),
            i <= end,
            s@ == v@.take(i as int),
        decreases end - i,
    {
        push_char(&mut s, v[i]);
        i = i + 1;
        proof {
            assert(s@ =~= v@.take(i as int));
        }
    }
    s
}

/// `s` is `f` with `piece` put in at one place, and nothing else changed.
pub open spec fn inserted(f: Seq<char>, piece: Seq<char>, s: Seq<char>) -> bool {
    exists|a: int| 0 <= a <= f.len() && s == f.take(a) + piece + f.skip(a)
}

/// `s` is `f` with one occurrence of `old` replaced by `new`, and nothing
/// else changed.
pub open spec fn replaced(f: Seq<char>, old: Seq<char>, new: Seq<char>, s: Seq<char>) -> bool {
    exists|a: int, b: int| 0 <= a <= b <= f.len() && f.subrange(a, b) == old && s == f.take(a) + new + f.skip(b)
}

/// `part` occurs in `s`.
pub open spec fn occurs_in(part: Seq<char>, s: Seq<char>) -> bool {
    exists|a: int, b: int| 0 <= a <= b <= s.len() && #[trigger] s.subrange(a, b) == part
}

/// A part of a text is a part of any text around it.
pub proof fn lemma_occurs_extend(x: Seq<char>, a: Seq<char>, b: Seq<char>, c: Seq<char>)
    requires
        occurs_in(x, b),
    ensures
        occurs_in(x, a + b + c),
{
    let (i, j) = choose|i: int, j: int| 0 <= i <= j <= b.len() && #[trigger] b.subrange(i, j) == x;
    assert((a + b + c).subrange(a.len() + i, a.len() + j) =~= x);
}

/// A part of a part of a text is a part of the text.
pub proof fn lemma_occurs_trans(a: Seq<char>, b: Seq<char>, c: Seq<char>)
    requires
        occurs_in(a, b),
        occurs_in(b, c),
    ensures
        occurs_in(a, c),
{
    let (i, j) = choose|i: int, j: int| 0 <= i <= j <= b.len() && #[trigger] b.subrange(i, j) == a;
    let (k, l) = choose|k: int, l: int| 0 <= k <= l <= c.len() && #[trigger] c.subrange(k, l) == b;
    assert(c.subrange(k + i, k + j) =~= a);
}

/// `s` is `f` with the pieces put in one after the other, each at one
/// place of the text so far, and nothing else changed.
pub open spec fn inserted_each(f: Seq<char>, pieces: Seq<Seq<char>>, s: Seq<char>) -> bool
    decreases pieces.len(),
{
    if pieces.len() == 0 {
        s == f
    } else {
        exists|g: Seq<char>| #[trigger] inserted(f, pieces[0], g) && inserted_each(g, pieces.drop_first(), s)
    }
}

/// One more piece put in after the others.
pub proof fn lemma_inserted_each_push(f: Seq<char>, pieces: Seq<Seq<char>>, g: Seq<char>, p: Seq<char>, s: Seq<char>)
    requires
        inserted_each(f, pieces, g),
        inserted(g, p, s),
    ensures
        inserted_each(f, pieces.push(p), s),
    decreases pieces.len(),
{
    if pieces.len() == 0 {
        assert(g == f);
        assert(pieces.push(p)[0] == p);
        assert(pieces.push(p).drop_first() =~= Seq::<Seq<char>>::empty());
        assert(inserted_each(s, Seq::<Seq<char>>::empty(), s));
        assert(inserted(f, pieces.push(p)[0], s) && inserted_each(s, pieces.push(p).drop_first(), s));
    } else {
        let h = choose|h: Seq<char>| #[trigger] inserted(f, pieces[0], h) && inserted_each(h, pieces.drop_first(), g);
        lemma_inserted_each_push(h, pieces.drop_first(), g, p, s);
        assert(pieces.drop_first().push(p) =~= pieces.push(p).drop_first());
        assert(pieces.push(p)[0] == pieces[0]);
        assert(inserted(f, pieces.push(p)[0], h) && inserted_each(h, pieces.push(p).drop_first(), s));
    }
}

/// `s` is `f` with the pieces taken out one after the other, each from one
/// place of the text so far, and nothing else changed.
pub open spec fn removed_each(f: Seq<char>, pieces: Seq<Seq<char>>, s: Seq<char>) -> bool
    decreases pieces.len(),
{
    if pieces.len() == 0 {
        s == f
    } else {
        exists|g: Seq<char>| #[trigger] inserted(g, pieces[0], f) && removed_each(g, pieces.drop_first(), s)
    }
}

/// One more piece taken out after the others.
pub proof fn lemma_removed_each_push(f: Seq<char>, pieces: Seq<Seq<char>>, g: Seq<char>, p: Seq<char>, s: Seq<char>)
    requires
        removed_each(f, pieces, g),
        inserted(s, p, g),
    ensures
        removed_each(f, pieces.push(p), s),
    decreases pieces.len(),
{
    if pieces.len() == 0 {
        assert(g == f);
        assert(pieces.push(p)[0] == p);
        assert(pieces.push(p).drop_first() =~= Seq::<Seq<char>>::empty());
        assert(removed_each(s, Seq::<Seq<char>>::empty(), s));
        assert(inserted(s, pieces.push(p)[0], f) && removed_each(s, pieces.push(p).drop_first(), s));
    } else {
        let h = choose|h: Seq<char>| #[trigger] inserted(h, pieces[0], f) && removed_each(h, pieces.drop_first(), g);
        lemma_removed_each_push(h, pieces.drop_first(), g, p, s);
        assert(pieces.drop_first().push(p) =~= pieces.push(p).drop_first());
        assert(pieces.push(p)[0] == pieces[0]);
        assert(inserted(h, pieces.push(p)[0], f) && removed_each(h, pieces.push(p).drop_first(), s));
    }
}

/// Taking pieces out of a part of a text takes them out of the whole text.
pub proof fn lemma_removed_each_context(a: Seq<char>, f: Seq<char>, b: Seq<char>, pieces: Seq<Seq<char>>, s: Seq<char>)
    requires
        removed_each(f, pieces, s),
    ensures
        removed_each(a + f + b, pieces, a + s + b),
    decreases pieces.len(),
{
    if pieces.len() > 0 {
        let g = choose|g: Seq<char>| #[trigger] inserted(g, pieces[0], f) && removed_each(g, pieces.drop_first(), s);
        lemma_inserted_context(a, g, b, pieces[0], f);
        lemma_removed_each_context(a, g, b, pieces.drop_first(), s);
        assert(inserted(a + g + b, pieces[0], a + f + b) && removed_each(a + g + b, pieces.drop_first(), a + s + b));
    }
}

/// Putting a piece in a part of a text puts it in the whole text.
pub proof fn lemma_inserted_context(a: Seq<char>, f: Seq<char>, b: Seq<char>, p: Seq<char>, s: Seq<char>)
    requires
        inserted(f, p, s),
    ensures
        inserted(a + f + b, p, a + s + b),
{
    let k = choose|k: int| 0 <= k <= f.len() && s == f.take(k) + p + f.skip(k);
    let n = a.len() + k;
    let w = a + f + b;
    assert(w.take(n) =~= a + f.take(k));
    assert(w.skip(n) =~= f.skip(k) + b);
    assert(a + s + b =~= w.take(n) + p + w.skip(n));
}

/// Putting pieces in a part of a text puts them in the whole text.
pub proof fn lemma_inserted_each_context(a: Seq<char>, f: Seq<char>, b: Seq<char>, pieces: Seq<Seq<char>>, s: Seq<char>)
    requires
        inserted_each(f, pieces, s),
    ensures
        inserted_each(a + f + b, pieces, a + s + b),
    decreases pieces.len(),
{
    if pieces.len() > 0 {
        let g = choose|g: Seq<char>| #[trigger] inserted(f, pieces[0], g) && inserted_each(g, pieces.drop_first(), s);
        lemma_inserted_context(a, f, b, pieces[0], g);
        lemma_inserted_each_context(a, g, b, pieces.drop_first(), s);
        assert(inserted(a + f + b, pieces[0], a + g + b) && inserted_each(a + g + b, pieces.drop_first(), a + s + b));
    }
}

/// Replacing a part of a text by the part with pieces put in puts the
/// pieces in the whole text.
pub proof fn lemma_replaced_inserted_each(f: Seq<char>, o: Seq<char>, o2: Seq<char>, s: Seq<char>, pieces: Seq<Seq<char>>)
    requires
        replaced(f, o, o2, s),
        inserted_each(o, pieces, o2),
    ensures
        inserted_each(f, pieces, s),
{
    let (a, b) = choose|a: int, b: int| 0 <= a <= b <= f.len() && f.subrange(a, b) == o && s == f.take(a) + o2 + f.skip(b);
    assert(f =~= f.take(a) + o + f.skip(b));
    lemma_inserted_each_context(f.take(a), o, f.skip(b), pieces, o2);
}

/// Replacing a part of a text by itself leaves the text as it is.
pub proof fn lemma_replaced_same(f: Seq<char>, o: Seq<char>, s: Seq<char>)
    requires
        replaced(f, o, o, s),
    ensures
        s == f,
{
    let (a, b) = choose|a: int, b: int| 0 <= a <= b <= f.len() && f.subrange(a, b) == o && s == f.take(a) + o + f.skip(b);
    assert(f =~= f.take(a) + o + f.skip(b));
}

/// Appends one character (`String::push`).  Trusted: `String::push`
/// appends the given char to the end of the string.
#[verifier::external_body]
pub(crate) fn push_char(s: &mut String, c: char)
    ensures
        final(s)@ == old(s)@.push(c),
{
    s.push(c);
}

/// The characters of a string.
pub fn to_chars(s: &str) -> (v: Vec<char>)
    ensures
        v@ == s@,
{
    let n = s.unicode_len();
    let mut v: Vec<char> = Vec::new();
    let mut i: usize = 0;
    while i < n
        invariant
            n == s@.len(),
            i <= n,
            v@ == s@.take(i as int),
        decreases n - i,
    {
        v.push(s.get_char(i));
        i = i + 1;
        proof {
            assert(v@ =~= s@.take(i as int));
        }
    }
    proof {
        assert(s@.take(n as int) =~= s@);
    }
    v
}

/// `name.split('.')`, each part as a `String`.
pub fn split_dot_exec(name: &str) -> (parts: Vec<String>)
    ensures
        strs(parts@) == split_dot(name@),
{
    let cs = to_chars(name);
    let mut parts: Vec<String> = Vec::new();
    parts.push(String::new());
    let mut i: usize = 0;
    proof {
        assert(name@.take(0) =~= Seq::<char>::empty());
        assert(strs(parts@) =~= split_dot(name@.take(0)));
    }
    while i < cs.len()
        invariant
            cs@ == name@,
            i <= cs.len(),
            parts.len() >= 1,
            strs(parts@) == split_dot(name@.take(i as int)),
        decreases cs.len() - i,
    {
        let ghost old_parts = strs(parts@);
        proof {
            assert(name@.take(i + 1).drop_last() =~= name@.take(i as int));
            assert(name@.take(i + 1).last() == cs@[i as int]);
        }
        if cs[i] == '.' {
            parts.push(String::new());
            proof {
                assert(strs(parts@) =~= old_parts.push(Seq::empty()));
            }
        } else {
            let last = parts.len() - 1;
            let mut s = parts[last].clone();
            push_char(&mut s, cs[i]);
            parts.set(last, s);
            proof {
                assert(strs(parts@) =~= old_parts.update(old_parts.len() - 1, old_parts.last().push(cs@[i as int])));
            }
        }
        i = i + 1;
    }
    proof {
        assert(name@.take(cs.len() as int) =~= name@);
    }
    parts
}

/// `parts[from..].join(".")`.
pub fn join_dot_from(parts: &Vec<String>, from: usize) -> (s: String)
    requires
        from <= parts.len(),
    ensures
        s@ == join_dot(strs(parts@).skip(from as int)),
{
    let mut s = String::new();
    let mut i: usize = from;
    let ghost ps = strs(parts@);
    proof {
        assert(ps.skip(from as int).take(0) =~= Seq::<Seq<char>>::empty());
    }
    while i < parts.len()
        invariant
            from <= i <= parts.len(),
            ps == strs(parts@),
            s@ == join_dot(ps.skip(from as int).take(i - from)),
        decreases parts.len() - i,
    {
        let ghost q = ps.skip(from as int).take(i + 1 - from);
        proof {
            assert(q.drop_last() =~= ps.skip(from as int).take(i - from));
            assert(q.last() == parts@[i as int]@);
        }
        if i > from {
            s.append(".");
            proof {
                reveal_strlit(".");
                assert(s@ =~= join_dot(q.drop_last()) + seq!['.']);
            }
        } else {
            proof {
                assert(q.len() == 1);
            }
        }
        s.append(parts[i].as_str());
        i = i + 1;
        proof {
            assert(s@ =~= join_dot(q));
        }
    }
    proof {
        assert(ps.skip(from as int).take(parts.len() - from) =~= ps.skip(from as int));
    }
    s
}

/// Are two vectors of strings equal, element by element?
pub fn strs_eq(a: &Vec<String>, b: &Vec<String>) -> (r: bool)
    ensures
        r == (strs(a@) == strs(b@)),
{
    let r = a.len() == b.len() && strs_range_eq(a, 0, b, 0, a.len());
    proof {
        assert(strs(a@).subrange(0, a.len() as int) =~= strs(a@));
        assert(b.len() == a.len() ==> strs(b@).subrange(0, a.len() as int) =~= strs(b@));
    }
    r
}

/// Do `a[ia..ia+n]` and `b[ib..ib+n]` hold the same texts?
pub fn strs_range_eq(a: &Vec<String>, ia: usize, b: &Vec<String>, ib: usize, n: usize) -> (r: bool)
    ensures
        r == (ia + n <= a.len() && ib + n <= b.len()
            && strs(a@).subrange(ia as int, ia + n) == strs(b@).subrange(ib as int, ib + n)),
{
    if n > a.len() || ia > a.len() - n || n > b.len() || ib > b.len() - n {
        return false;
    }
    let mut i: usize = 0;
    while i < n
        invariant
            i <= n,
            ia + n <= a.len(),
            ib + n <= b.len(),
            forall|j: int| 0 <= j < i ==> #[trigger] a@[ia + j]@ == b@[ib + j]@,
        decreases n - i,
    {
        if a[ia + i] != b[ib + i] {
            proof {
                assert(strs(a@).subrange(ia as int, ia + n)[i as int] != strs(b@).subrange(ib as int, ib + n)[i as int]);
            }
            return false;
        }
        i = i + 1;
    }
    proof {
        assert forall|k: int| 0 <= k < n implies #[trigger] strs(a@).subrange(ia as int, ia + n)[k] == strs(b@).subrange(ib as int, ib + n)[k] by {
            assert(a@[ia + k]@ == b@[ib + k]@);
        }
        assert(strs(a@).subrange(ia as int, ia + n) =~= strs(b@).subrange(ib as int, ib + n));
    }
    true
}

/// `hay.find(needle)`, in characters.
pub fn find_chars(hay: &Vec<char>, needle: &Vec<char>) -> (r: Option<usize>)
    ensures
        r matches Some(i) ==> first_match(hay@, needle@) == Some(i as int),
        r is None ==> first_match(hay@, needle@) is None,
{
    if needle.len() > hay.len() {
        return None;
    }
    if needle.len() == 0 {
        proof {
            assert(hay@.subrange(0, 0) =~= needle@);
        }
        return Some(0);
    }
    let mut i: usize = 0;
    while i <= hay.len() - needle.len()
        invariant
            1 <= needle.len() <= hay.len(),
            i <= hay.len() - needle.len() + 1,
            first_match(hay@, needle@) == match_from(hay@, needle@, i as int),
        decreases hay.len() - i,
    {
        let mut j: usize = 0;
        let mut ok = true;
        while j < needle.len()
            invariant
                i + needle.len() <= hay.len(),
                j <= needle.len(),
                ok ==> forall|k: int| 0 <= k < j ==> #[trigger] hay@[i + k] == needle@[k],
                !ok ==> hay@.subrange(i as int, i + needle.len()) != needle@,
            decreases needle.len() - j,
        {
            if hay[i + j] != needle[j] {
                proof {
                    assert(hay@.subrange(i as int, i + needle.len())[j as int] != needle@[j as int]);
                }
                ok = false;
            }
            j = j + 1;
        }
        if ok {
            proof {
                assert forall|k: int| 0 <= k < needle.len() implies #[trigger] hay@.subrange(i as int, i + needle.len())[k] == needle@[k] by {
                    assert(hay@[i + k] == needle@[k]);
                }
                assert(hay@.subrange(i as int, i + needle.len()) =~= needle@);
            }
            return Some(i);
        }
        i = i + 1;
    }
    None
}

/// Do two strings hold the same characters?
pub fn str_eq(a: &str, b: &str) -> (r: bool)
    ensures
        r == (a@ == b@),
{
    let x = to_chars(a);
    let y = to_chars(b);
    if x.len() != y.len() {
        return false;
    }
    let mut i: usize = 0;
    while i < x.len()
        invariant
            x@ == a@,
            y@ == b@,
            x.len() == y.len(),
            i <= x.len(),
            forall|k: int| 0 <= k < i ==> x@[k] == y@[k],
        decreases x.len() - i,
    {
        if x[i] != y[i] {
            return false;
        }
        i = i + 1;
    }
    proof {
        assert(x@ =~= y@);
    }
    true
}

/// Does `s` hold a line break?
pub fn has_newline(s: &str) -> (r: bool)
    ensures
        r == s@.contains('\n'),
{
    let cs = to_chars(s);
    let mut i: usize = 0;
    while i < cs.len()
        invariant
            cs@ == s@,
            i <= cs.len(),
            forall|k: int| 0 <= k < i ==> cs@[k] != '\n',
        decreases cs.len() - i,
    {
        if cs[i] == '\n' {
            return true;
        }
        i = i + 1;
    }
    false
}

} // verus!
