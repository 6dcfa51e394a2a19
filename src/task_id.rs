//! Hierarchical task ids: `.`-separated paths of non-empty segments. The
//! root task has the empty id; a child's id is its parent's id, a `.`, and
//! the child's segment.
use vstd::prelude::*;
use vstd::string::StringExecFns;
use crate::text::text_contains;

verus! {

/// A segment: non-empty, without `.`.
pub open spec fn is_segment(s: Seq<char>) -> bool {
    s.len() > 0 && !s.contains('.')
}

/// A well-formed id: the root's empty id, or segments joined by single dots,
/// with no leading, trailing or doubled separator.
pub open spec fn is_task_id(id: Seq<char>) -> bool {
    id.len() == 0 || (id[0] != '.' && id[id.len() - 1] != '.' && forall|i: int|
        0 <= i < id.len() - 1 ==> !(#[trigger] id[i] == '.' && id[i + 1] == '.'))
}

/// The id of the child with segment `seg` under `parent`.
pub open spec fn join_id(parent: Seq<char>, seg: Seq<char>) -> Seq<char> {
    if parent.len() == 0 {
        seg
    } else {
        parent + seq!['.'] + seg
    }
}

/// Whether `p` names `id` itself or one of its ancestors. The root's empty
/// id is an ancestor of every id.
pub open spec fn covers(p: Seq<char>, id: Seq<char>) -> bool {
    ||| p.len() == 0
    ||| p == id
    ||| (p.len() < id.len() && id.take(p.len() as int) == p && id[p.len() as int] == '.')
}

/// Whether any entry of `prefixes` names `id` or one of its ancestors.
pub open spec fn isolated_by(prefixes: Seq<Seq<char>>, id: Seq<char>) -> bool {
    exists|i: int| 0 <= i < prefixes.len() && #[trigger] covers(prefixes[i], id)
}

/// Joining a segment onto a well-formed id gives a well-formed id.
pub proof fn lemma_join_is_task_id(parent: Seq<char>, seg: Seq<char>)
    requires
        is_task_id(parent),
        is_segment(seg),
    ensures
        is_task_id(join_id(parent, seg)),
{
    let r = join_id(parent, seg);
    if parent.len() == 0 {
        assert(r == seg);
        assert(!seg.contains(r[0]) || r[0] != '.');
        assert(r[0] != '.');
        assert(r[r.len() - 1] != '.');
    } else {
        let n = parent.len() as int;
        assert(r[0] == parent[0]);
        assert(r[r.len() - 1] == seg[seg.len() - 1]);
        assert forall|i: int| 0 <= i < r.len() - 1 implies !(#[trigger] r[i] == '.' && r[i + 1] == '.') by {
            if i < n - 1 {
                assert(r[i] == parent[i] && r[i + 1] == parent[i + 1]);
            } else if i == n - 1 {
                assert(r[i] == parent[n - 1]);
            } else if i == n {
                assert(r[i + 1] == seg[0]);
            } else {
                assert(r[i] == seg[i - n - 1]);
            }
        }
    }
}

/// Nesting never produces a malformed id: a child of a well-formed id, and
/// a child of that child, have well-formed ids, and a child of the root's
/// empty id has its bare segment as id, with no leading separator.
pub proof fn lemma_nested_ids_well_formed(p: Seq<char>, c: Seq<char>, d: Seq<char>)
    requires
        is_task_id(p),
        is_segment(c),
        is_segment(d),
    ensures
        is_task_id(join_id(p, c)),
        is_task_id(join_id(join_id(p, c), d)),
        join_id(Seq::empty(), d) == d,
        is_task_id(join_id(Seq::empty(), d)),
{
    lemma_join_is_task_id(p, c);
    lemma_join_is_task_id(join_id(p, c), d);
    lemma_join_is_task_id(Seq::empty(), d);
}

/// For an id of three segments `a.b.c`, a non-empty entry names it or one of
/// its ancestors exactly when it is `a`, `a.b` or `a.b.c`.
pub proof fn lemma_covers_three_segments(p: Seq<char>, a: Seq<char>, b: Seq<char>, c: Seq<char>)
    requires
        p.len() > 0,
        is_segment(a),
        is_segment(b),
        is_segment(c),
    ensures
        covers(p, join_id(join_id(a, b), c)) <==> (p == a || p == join_id(a, b) || p
            == join_id(join_id(a, b), c)),
{
    let ab = join_id(a, b);
    let x = join_id(ab, c);
    let na = a.len() as int;
    let nab = ab.len() as int;
    assert(ab == a + seq!['.'] + b);
    assert(x == ab + seq!['.'] + c);
    assert(x[na] == '.');
    assert(x[nab] == '.');
    assert(x.take(na) =~= a);
    assert(x.take(nab) =~= ab);
    if covers(p, x) && p != x {
        let k = p.len() as int;
        assert(x[k] == '.');
        if k < na {
            assert(x[k] == a[k]);
            assert(a.contains(x[k]));
        } else if na < k < nab {
            assert(x[k] == b[k - na - 1]);
            assert(b.contains(x[k]));
        } else if k > nab {
            assert(x[k] == c[k - nab - 1]);
            assert(c.contains(x[k]));
        }
        assert(k == na || k == nab);
    }
}

/// For an id `a.b.c` of three segments, and isolated prefixes that do not
/// include the root's empty id, the id is isolated exactly when `a`, `a.b`
/// or `a.b.c` is among the prefixes.
pub proof fn lemma_isolated_three_segments(
    prefixes: Seq<Seq<char>>,
    a: Seq<char>,
    b: Seq<char>,
    c: Seq<char>,
)
    requires
        is_segment(a),
        is_segment(b),
        is_segment(c),
        !prefixes.contains(Seq::empty()),
    ensures
        isolated_by(prefixes, join_id(join_id(a, b), c)) <==> (prefixes.contains(a)
            || prefixes.contains(join_id(a, b)) || prefixes.contains(join_id(join_id(a, b), c))),
{
    let ab = join_id(a, b);
    let x = join_id(ab, c);
    if isolated_by(prefixes, x) {
        let i = choose|i: int| 0 <= i < prefixes.len() && #[trigger] covers(prefixes[i], x);
        if prefixes[i].len() == 0 {
            assert(prefixes[i] =~= Seq::<char>::empty());
        }
        lemma_covers_three_segments(prefixes[i], a, b, c);
    }
    if prefixes.contains(a) || prefixes.contains(ab) || prefixes.contains(x) {
        let i = choose|i: int| 0 <= i < prefixes.len() && (prefixes[i] == a || prefixes[i] == ab
            || prefixes[i] == x);
        lemma_covers_three_segments(prefixes[i], a, b, c);
        assert(covers(prefixes[i], x));
    }
}

/// Whether `s` can stand as one segment of an id.
pub fn is_valid_segment(s: &str) -> (r: bool)
    ensures
        r == is_segment(s@),
{
    s.unicode_len() > 0 && !text_contains(s, '.')
}

/// The id of the child with segment `segment` under `parent`.
pub fn child_id(parent: &str, segment: &str) -> (r: String)
    requires
        is_segment(segment@),
    ensures
        r@ == join_id(parent@, segment@),
{
    if parent.unicode_len() == 0 {
        segment.to_owned()
    } else {
        let mut r = parent.to_owned();
        r.append(".");
        r.append(segment);
        proof {
            reveal_strlit(".");
        }
        assert(r@ =~= join_id(parent@, segment@));
        r
    }
}

/// Whether `p` names `id` itself or one of its ancestors.
pub fn covers_id(p: &str, id: &str) -> (r: bool)
    ensures
        r == covers(p@, id@),
{
    let n = p.unicode_len();
    let m = id.unicode_len();
    if n == 0 {
        return true;
    }
    if n > m {
        return false;
    }
    let mut i: usize = 0;
    while i < n
        invariant
            n == p@.len(),
            m == id@.len(),
            n <= m,
            i <= n,
            id@.take(i as int) == p@.take(i as int),
        decreases n - i,
    {
        if id.get_char(i) != p.get_char(i) {
            assert(id@.take(n as int)[i as int] != p@[i as int]);
            assert(id@.take(n as int) != p@);
            return false;
        }
        assert(id@.take(i + 1) == id@.take(i as int).push(id@[i as int]));
        assert(p@.take(i + 1) == p@.take(i as int).push(p@[i as int]));
        i = i + 1;
    }
    assert(p@.take(n as int) == p@);
    if n == m {
        assert(id@ == id@.take(m as int));
        true
    } else {
        id.get_char(n) == '.'
    }
}

} // verus!
