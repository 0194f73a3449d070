//! How references are resolved against a base.

use crate::chars;
use crate::url;
use crate::url::UrlView;
use vstd::prelude::*;

verus! {

/// Pieces with slashes between them.
pub open spec fn slashed(path: Seq<Seq<char>>) -> Seq<char>
    decreases path.len(),
{
    if path.len() == 0 {
        Seq::empty()
    } else if path.len() == 1 {
        path[0]
    } else {
        path[0].push('/') + slashed(path.drop_first())
    }
}

proof fn lemma_slashed_push(path: Seq<Seq<char>>, last: Seq<char>)
    requires
        path.len() > 0,
    ensures
        slashed(path.push(last)) == slashed(path).push('/') + last,
    decreases path.len(),
{
    let all = path.push(last);
    if path.len() == 1 {
        assert(all.drop_first() =~= seq![last]);
        assert(slashed(seq![last]) == last);
    } else {
        lemma_slashed_push(path.drop_first(), last);
        assert(all.drop_first() =~= path.drop_first().push(last));
        assert(slashed(all) =~= slashed(path).push('/') + last);
    }
}

proof fn lemma_rendered(path: Seq<Seq<char>>, n: nat)
    requires
        n <= path.len(),
    ensures
        url::rendered(path, n) == slashed(path.take(n as int)),
    decreases n,
{
    reveal_strlit("/");
    if n == 1 {
        assert(path.take(1) =~= seq![path[0]]);
    } else if n > 1 {
        let m = (n - 1) as nat;
        lemma_rendered(path, m);
        assert(path.take(n as int) =~= path.take(m as int).push(path[m as int]));
        lemma_slashed_push(path.take(m as int), path[m as int]);
        assert(url::rendered(path, n) =~= slashed(path.take(m as int)).push('/') + path[m as int]);
    }
}

proof fn lemma_slashed_both(a: Seq<Seq<char>>, b: Seq<Seq<char>>)
    requires
        a.len() > 0,
        b.len() > 0,
    ensures
        slashed(a + b) == slashed(a).push('/') + slashed(b),
    decreases a.len(),
{
    if a.len() == 1 {
        assert((a + b).drop_first() =~= b);
    } else {
        lemma_slashed_both(a.drop_first(), b);
        assert((a + b).drop_first() =~= a.drop_first() + b);
        assert(slashed(a + b) =~= slashed(a).push('/') + slashed(b));
    }
}

/// What was taken apart at slashes is put together again.
proof fn lemma_pieces_join(s: Seq<char>, start: int, got: Seq<Seq<char>>)
    requires
        0 <= start <= s.len(),
        got.len() > 0 ==> slashed(got).push('/') == s.take(start),
        got.len() == 0 ==> start == 0,
    ensures
        chars::pieces_from(s, '/', start, got).len() > 0,
        slashed(chars::pieces_from(s, '/', start, got)) == s,
    decreases s.len() + 1 - start,
{
    let end = chars::char_from(s, '/', start);
    chars::lemma_char_from(s, '/', start);
    let piece = s.subrange(start, end);
    let next = got.push(piece);
    if got.len() > 0 {
        lemma_slashed_push(got, piece);
        assert(slashed(next) =~= s.take(end));
    } else {
        assert(next =~= seq![piece]);
        assert(slashed(next) == piece);
        assert(piece =~= s.take(end));
    }
    if end < s.len() {
        assert(slashed(next).push('/') =~= s.take(end + 1));
        lemma_pieces_join(s, end + 1, next);
    } else {
        assert(s.take(end) =~= s);
        reveal_with_fuel(chars::pieces_from, 2);
    }
}

/// A path that is taken apart at its slashes is put together again by them.
pub proof fn paths_are_their_pieces(s: Seq<char>)
    ensures
        chars::pieces(s, '/').len() > 0,
        slashed(chars::pieces(s, '/')) == s,
{
    lemma_pieces_join(s, 0, Seq::empty());
}

/// Whether a path has no piece that means this level or the one above.
pub open spec fn plain_path(path: Seq<Seq<char>>) -> bool {
    forall|i: int| 0 <= i < path.len() ==> #[trigger] path[i] != "."@ && path[i] != ".."@
}

proof fn lemma_no_dots(path: Seq<Seq<char>>, i: int, got: Seq<Seq<char>>)
    requires
        plain_path(path),
        0 <= i <= path.len(),
        got == path.take(i),
    ensures
        url::without_dots(path, i, got) == path,
    decreases path.len() - i,
{
    if i < path.len() {
        assert(path[i] != "."@ && path[i] != ".."@);
        assert(got.push(path[i]) =~= path.take(i + 1));
        lemma_no_dots(path, i + 1, got.push(path[i]));
    } else {
        assert(path.take(i) =~= path);
    }
}

/// Whether a reference is a plain relative path: no scheme, no slash at its start, no query, no
/// fragment, no piece that means a level.
pub open spec fn plain_reference(s: Seq<char>) -> bool {
    &&& s.len() > 0
    &&& s[0] != '/'
    &&& !chars::holds(s, "://"@)
    &&& forall|i: int| 0 <= i < s.len() ==> #[trigger] s[i] != '?' && s[i] != '#'
    &&& plain_path(chars::pieces(s, '/'))
}

proof fn lemma_path_end(s: Seq<char>, i: int)
    requires
        0 <= i <= s.len(),
        forall|k: int| i <= k < s.len() ==> #[trigger] s[k] != '?' && s[k] != '#',
    ensures
        url::path_end(s, i) == s.len(),
    decreases s.len() - i,
{
    if i < s.len() {
        lemma_path_end(s, i + 1);
    }
}

/// A plain relative reference takes the place of the last piece of the base's path: what stands
/// before it, and the origin, stay.
#[verifier::rlimit(40)]
pub proof fn references_take_the_last_place(base: UrlView, s: Seq<char>)
    requires
        plain_reference(s),
        base.path.len() >= 2,
        plain_path(base.path),
    ensures
        url::joined(base, s) == Ok::<Seq<char>, Seq<char>>(
            base.origin + slashed(base.path.drop_last()) + seq!['/'] + s,
        ),
{
    let folder = base.path.drop_last();
    let pieces = chars::pieces(s, '/');
    paths_are_their_pieces(s);
    lemma_path_end(s, 0);
    assert(s.subrange(0, s.len() as int) =~= s);
    assert(s.subrange(s.len() as int, s.len() as int) =~= Seq::<char>::empty());
    reveal_strlit("empty host");
    reveal_strlit("relative URL without a base");
    assert("empty host"@.len() != "relative URL without a base"@.len());
    reveal_strlit("//");
    if chars::starts(s, "//"@) {
        assert(s.subrange(0, 2)[0] == s[0]);
    }
    let path = folder + pieces;
    assert(plain_path(path)) by {
        assert forall|i: int| 0 <= i < path.len() implies #[trigger] path[i] != "."@ && path[i]
            != ".."@ by {
            if i < folder.len() {
                assert(path[i] == base.path[i]);
            } else {
                assert(path[i] == pieces[i - folder.len()]);
            }
        }
    }
    assert(seq![path[0]] =~= path.take(1));
    lemma_no_dots(path, 1, seq![path[0]]);
    lemma_rendered(path, path.len());
    assert(path.take(path.len() as int) =~= path);
    lemma_slashed_both(folder, pieces);
    assert(base.origin + url::resolved_path(path) + Seq::<char>::empty() =~= base.origin + slashed(
        folder,
    ) + seq!['/'] + s);
}

proof fn lemma_dots_split(a: Seq<Seq<char>>, b: Seq<Seq<char>>, c: Seq<Seq<char>>, i: int, got: Seq<Seq<char>>) -> (
    r: Seq<Seq<char>>)
    requires
        1 <= i <= a.len(),
        b.len() > 0,
        c.len() > 0,
        got.len() > 0,
    ensures
        r.len() > 0,
        url::without_dots(a + b, i, got) == url::without_dots(a + b, a.len() as int, r),
        url::without_dots(a + c, i, got) == url::without_dots(a + c, a.len() as int, r),
    decreases a.len() - i,
{
    if i == a.len() {
        got
    } else {
        assert((a + b)[i] == a[i] && (a + c)[i] == a[i]);
        let up = if a[i] == ".."@ && got.len() > 1 {
            got.drop_last()
        } else {
            got
        };
        let next = if a[i] == "."@ || a[i] == ".."@ {
            up
        } else {
            got.push(a[i])
        };
        lemma_dots_split(a, b, c, i + 1, next)
    }
}

proof fn lemma_dots_same(p: Seq<Seq<char>>, i: int, q: Seq<Seq<char>>, j: int, got: Seq<Seq<char>>)
    requires
        0 <= i <= p.len(),
        0 <= j <= q.len(),
        p.subrange(i, p.len() as int) == q.subrange(j, q.len() as int),
    ensures
        url::without_dots(p, i, got) == url::without_dots(q, j, got),
    decreases p.len() - i,
{
    let t = p.subrange(i, p.len() as int);
    let u = q.subrange(j, q.len() as int);
    assert(t.len() == p.len() - i);
    assert(u.len() == q.len() - j);
    if i < p.len() {
        assert(t[0] == p[i]);
        assert(u[0] == q[j]);
        assert(p.len() - i == q.len() - j);
        assert(p.subrange(i + 1, p.len() as int) =~= t.subrange(1, t.len() as int));
        assert(q.subrange(j + 1, q.len() as int) =~= u.subrange(1, u.len() as int));
        let up = if p[i] == ".."@ && got.len() > 1 {
            got.drop_last()
        } else {
            got
        };
        let next = if p[i] == "."@ || p[i] == ".."@ {
            if i + 1 == p.len() {
                up.push(Seq::empty())
            } else {
                up
            }
        } else {
            got.push(p[i])
        };
        assert(url::without_dots(p, i, got) == url::without_dots(p, i + 1, next));
        assert(url::without_dots(q, j, got) == url::without_dots(q, j + 1, next));
        lemma_dots_same(p, i + 1, q, j + 1, next);
    } else {
        assert(j == q.len());
    }
}

/// A piece and a step up behind it cancel each other, and a piece that means the same level has
/// no effect, wherever they stand before the last piece.
#[verifier::rlimit(40)]
pub proof fn steps_up_cancel_pieces(a: Seq<Seq<char>>, x: Seq<char>, b: Seq<Seq<char>>)
    requires
        a.len() > 0,
        b.len() > 0,
        x != "."@,
        x != ".."@,
    ensures
        url::resolved_path(a + seq![x, ".."@] + b) == url::resolved_path(a + b),
        url::resolved_path(a + seq!["."@] + b) == url::resolved_path(a + b),
{
    let n = a.len() as int;
    let first = seq![a[0]];
    let up = seq![x, ".."@] + b;
    let p = a + up;
    assert(p =~= a + seq![x, ".."@] + b);
    reveal_strlit(".");
    reveal_strlit("..");
    assert("."@.len() == 1 && ".."@.len() == 2);
    let r = lemma_dots_split(a, up, b, 1, first);
    assert(p[n] == x && p[n + 1] == ".."@);
    assert(r.push(x).drop_last() =~= r);
    assert(url::without_dots(p, n, r) == url::without_dots(p, n + 1, r.push(x)));
    assert(url::without_dots(p, n + 1, r.push(x)) == url::without_dots(p, n + 2, r));
    assert(p.subrange(n + 2, p.len() as int) =~= b);
    assert((a + b).subrange(n, (a + b).len() as int) =~= b);
    lemma_dots_same(p, n + 2, a + b, n, r);
    let same = seq!["."@] + b;
    let q = a + same;
    assert(q =~= a + seq!["."@] + b);
    let t = lemma_dots_split(a, same, b, 1, first);
    assert(q[n] == "."@);
    assert(url::without_dots(q, n, t) == url::without_dots(q, n + 1, t));
    assert(q.subrange(n + 1, q.len() as int) =~= b);
    lemma_dots_same(q, n + 1, a + b, n, t);
}

} // verus!
