//! Device paths compared as paths: by their components, the way
//! `std::path::Path` compares on Unix, so that `/a/` and `/a`, or `/a//b` and
//! `/a/./b`, name the same path.
use vstd::prelude::*;

use crate::text::{find_char, lemma_first_index, span_is, split_on, str_chars};


verus! {

/// The path starts at the root.
pub open spec fn path_has_root(p: Seq<char>) -> bool {
    p.len() > 0 && p[0] == '/'
}

/// The path is relative and starts with a `.` component.
pub open spec fn path_leading_cur(p: Seq<char>) -> bool {
    !path_has_root(p) && p.len() > 0 && p[0] == '.' && (p.len() == 1 || p[1] == '/')
}

/// The pieces that are components: all but the empty ones and `.`.
pub open spec fn kept_parts(pieces: Seq<Seq<char>>) -> Seq<Seq<char>>
    decreases pieces.len(),
{
    if pieces.len() == 0 {
        Seq::empty()
    } else if pieces[0] == Seq::<char>::empty() || pieces[0] == seq!['.'] {
        kept_parts(pieces.drop_first())
    } else {
        seq![pieces[0]] + kept_parts(pieces.drop_first())
    }
}

/// The components of the path after its root or leading `.`, in order.
pub open spec fn path_parts(p: Seq<char>) -> Seq<Seq<char>> {
    kept_parts(split_on(p, '/'))
}

/// The two texts name the same path: both or neither start at the root, both
/// or neither start with a `.` component, and the other components agree.
pub open spec fn same_path(a: Seq<char>, b: Seq<char>) -> bool {
    &&& path_has_root(a) == path_has_root(b)
    &&& path_leading_cur(a) == path_leading_cur(b)
    &&& path_parts(a) == path_parts(b)
}

/// A piece between slashes is a component: it is neither empty nor `.`.
pub open spec fn is_component(x: Seq<char>) -> bool {
    x != Seq::<char>::empty() && x != seq!['.']
}

proof fn lemma_kept_parts_filter(pieces: Seq<Seq<char>>)
    ensures
        kept_parts(pieces) == pieces.filter(|x: Seq<char>| is_component(x)),
    decreases pieces.len(),
{
    let pred = |x: Seq<char>| is_component(x);
    if pieces.len() > 0 {
        let rest = pieces.drop_first();
        lemma_kept_parts_filter(rest);
        assert(pieces =~= seq![pieces[0]] + rest);
        Seq::filter_distributes_over_add(seq![pieces[0]], rest, pred);
        reveal_with_fuel(Seq::filter, 2);
        assert(seq![pieces[0]].drop_last() =~= Seq::<Seq<char>>::empty());
        if is_component(pieces[0]) {
            assert(seq![pieces[0]].filter(pred) =~= seq![pieces[0]]);
        } else {
            assert(seq![pieces[0]].filter(pred) =~= Seq::<Seq<char>>::empty());
            assert(Seq::<Seq<char>>::empty() + rest.filter(pred) =~= rest.filter(pred));
        }
    } else {
        assert(pieces.filter(pred) =~= Seq::<Seq<char>>::empty());
    }
}

/// The components of a path are the pieces between its slashes, each whole
/// and in order, leaving out the empty ones and `.`.
pub proof fn law_path_parts(p: Seq<char>)
    ensures
        path_parts(p) == split_on(p, '/').filter(|x: Seq<char>| is_component(x)),
{
    lemma_kept_parts_filter(split_on(p, '/'));
}

/// Splitting a text with one more piece at its end gives one more piece.
proof fn lemma_split_on_append(p: Seq<char>, c: Seq<char>)
    requires
        !c.contains('/'),
    ensures
        split_on(p + seq!['/'] + c, '/') == split_on(p, '/') + seq![c],
    decreases p.len(),
{
    let whole = p + seq!['/'] + c;
    p.index_of_first_ensures('/');
    whole.index_of_first_ensures('/');
    match p.index_of_first('/') {
        Some(i) => {
            lemma_first_index(whole, '/', i);
            let rest = p.skip(i + 1);
            lemma_split_on_append(rest, c);
            assert(whole.take(i) =~= p.take(i));
            assert(whole.skip(i + 1) =~= rest + seq!['/'] + c);
            assert(split_on(p, '/') == seq![p.take(i)] + split_on(rest, '/'));
            assert(split_on(whole, '/') =~= split_on(p, '/') + seq![c]);
        },
        None => {
            lemma_first_index(whole, '/', p.len() as int);
            assert(whole.take(p.len() as int) =~= p);
            assert(whole.skip(p.len() + 1 as int) =~= c);
            lemma_first_index(c, '/', c.len() as int);
            assert(split_on(c, '/') == seq![c]);
        },
    }
}

/// Two paths that differ only in the text of their last component do not
/// name the same path: components are compared as whole texts.
pub proof fn law_last_component_counts(p: Seq<char>, c1: Seq<char>, c2: Seq<char>)
    requires
        is_component(c1),
        is_component(c2),
        !c1.contains('/'),
        !c2.contains('/'),
        c1 != c2,
    ensures
        !same_path(p + seq!['/'] + c1, p + seq!['/'] + c2),
{
    let pred = |x: Seq<char>| is_component(x);
    lemma_split_on_append(p, c1);
    lemma_split_on_append(p, c2);
    law_path_parts(p + seq!['/'] + c1);
    law_path_parts(p + seq!['/'] + c2);
    let base = split_on(p, '/').filter(pred);
    Seq::filter_distributes_over_add(split_on(p, '/'), seq![c1], pred);
    Seq::filter_distributes_over_add(split_on(p, '/'), seq![c2], pred);
    reveal_with_fuel(Seq::filter, 2);
    assert(seq![c1].drop_last() =~= Seq::<Seq<char>>::empty());
    assert(seq![c2].drop_last() =~= Seq::<Seq<char>>::empty());
    assert(seq![c1].filter(pred) =~= seq![c1]);
    assert(seq![c2].filter(pred) =~= seq![c2]);
    let x = path_parts(p + seq!['/'] + c1);
    let y = path_parts(p + seq!['/'] + c2);
    assert(x == base + seq![c1]);
    assert(y == base + seq![c2]);
    assert(x[base.len() as int] == c1);
    assert(y[base.len() as int] == c2);
}

/// The texts of a list of character vectors.
pub open spec fn texts(v: Seq<Vec<char>>) -> Seq<Seq<char>> {
    v.map_values(|x: Vec<char>| x@)
}

/// The components of `cs` after its root or leading `.`.
fn parts_of(cs: &[char]) -> (r: Vec<Vec<char>>)
    ensures
        texts(r@) == path_parts(cs@),
{
    let n = cs.len();
    let ghost text = cs@;
    let mut out: Vec<Vec<char>> = Vec::new();
    let mut start: usize = 0;
    assert(text.skip(0) =~= text);
    assert(texts(out@) =~= Seq::<Seq<char>>::empty());
    loop
        invariant_except_break
            start <= n,
            path_parts(text) == texts(out@) + kept_parts(split_on(text.skip(start as int), '/')),
        invariant
            n == cs@.len(),
            text == cs@,
        ensures
            path_parts(text) == texts(out@),
        decreases n - start,
    {
        let ghost rest = text.skip(start as int);
        let ghost before = texts(out@);
        let end = find_char(cs, start, n, '/');
        proof {
            lemma_first_index(rest, '/', end - start);
        }
        let ghost piece = cs@.subrange(start as int, end as int);
        let ghost more = if end < n {
            split_on(text.skip(end + 1), '/')
        } else {
            Seq::<Seq<char>>::empty()
        };
        proof {
            assert(rest.take(end - start) =~= piece);
            if end < n {
                assert(rest.skip(end - start + 1) =~= text.skip(end + 1));
            } else {
                assert(rest =~= piece);
            }
            assert(split_on(rest, '/') =~= seq![piece] + more);
            assert((seq![piece] + more)[0] == piece);
            assert((seq![piece] + more).drop_first() =~= more);
        }
        let dot = ['.'];
        assert(dot@ =~= seq!['.']);
        let keep = end > start && !span_is(cs, start, end, &dot);
        proof {
            if end == start {
                assert(piece =~= Seq::<char>::empty());
            }
        }
        if keep {
            let v = vstd::slice::slice_to_vec(vstd::slice::slice_subrange(cs, start, end));
            out.push(v);
            assert(texts(out@) =~= before.push(piece));
            assert(before.push(piece) + kept_parts(more) =~= before + (seq![piece] + kept_parts(
                more,
            )));
        } else {
            assert(texts(out@) == before);
        }
        if end == n {
            assert(kept_parts(more) =~= Seq::<Seq<char>>::empty());
            assert(texts(out@) + Seq::<Seq<char>>::empty() =~= texts(out@));
            break;
        }
        start = end + 1;
    }
    out
}

/// Whether the two lists of components agree.
fn same_parts(a: &Vec<Vec<char>>, b: &Vec<Vec<char>>) -> (r: bool)
    ensures
        r == (texts(a@) == texts(b@)),
{
    if a.len() != b.len() {
        proof {
            if texts(a@) == texts(b@) {
                assert(texts(a@).len() == texts(b@).len());
            }
        }
        return false;
    }
    let mut i: usize = 0;
    while i < a.len()
        invariant
            a@.len() == b@.len(),
            i <= a@.len(),
            forall|j: int| 0 <= j < i ==> a@[j]@ == b@[j]@,
        decreases a@.len() - i,
    {
        let x = &a[i];
        let y = &b[i];
        let same = span_is(x.as_slice(), 0, x.len(), y.as_slice());
        assert(x@.subrange(0, x@.len() as int) =~= x@);
        if !same {
            proof {
                assert(texts(a@)[i as int] != texts(b@)[i as int]);
            }
            return false;
        }
        i = i + 1;
    }
    assert(texts(a@) =~= texts(b@));
    true
}

/// Whether `a` and `b` name the same path.
pub fn same_path_text(a: &String, b: &String) -> (r: bool)
    ensures
        r == same_path(a@, b@),
{
    let x = str_chars(a.as_str());
    let y = str_chars(b.as_str());
    let root_x = x.len() > 0 && x[0] == '/';
    let root_y = y.len() > 0 && y[0] == '/';
    let cur_x = !root_x && x.len() > 0 && x[0] == '.' && (x.len() == 1 || x[1] == '/');
    let cur_y = !root_y && y.len() > 0 && y[0] == '.' && (y.len() == 1 || y[1] == '/');
    if root_x != root_y || cur_x != cur_y {
        return false;
    }
    let px = parts_of(x.as_slice());
    let py = parts_of(y.as_slice());
    same_parts(&px, &py)
}

} // verus!
