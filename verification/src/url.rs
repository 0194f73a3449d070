//! URLs: reading a base and resolving references against it.

use crate::chars;
use vstd::prelude::*;

verus! {

/// An absolute URL, cut into what references are resolved against.
#[derive(Debug)]
pub struct Url {
    scheme: String,
    origin: String,
    path: Vec<Vec<char>>,
}

/// The content of a [`Url`].
pub struct UrlView {
    /// The scheme, without the colon.
    pub scheme: Seq<char>,
    /// Scheme and authority.
    pub origin: Seq<char>,
    /// The pieces of the path between slashes; the first is what stands before the first
    /// slash.
    pub path: Seq<Seq<char>>,
}

impl View for Url {
    type V = UrlView;

    closed spec fn view(&self) -> UrlView {
        UrlView {
            scheme: self.scheme@,
            origin: self.origin@,
            path: chars::texts_view(self.path@),
        }
    }
}

/// Whether a character is an ASCII letter.
pub open spec fn is_letter(c: char) -> bool {
    'a' <= c <= 'z' || 'A' <= c <= 'Z'
}

/// Whether a text is the name of a scheme: a letter, then letters, digits, `+`, `-` and `.`.
pub open spec fn is_scheme(s: Seq<char>) -> bool {
    s.len() > 0 && is_letter(s[0]) && forall|i: int|
        0 <= i < s.len() ==> is_letter(#[trigger] s[i]) || chars::is_digit(s[i]) || s[i] == '+'
            || s[i] == '-' || s[i] == '.'
}

/// Where the authority that starts at `i` ends.
pub open spec fn authority_end(s: Seq<char>, i: int) -> int
    decreases s.len() - i,
{
    if i < 0 || i >= s.len() {
        s.len() as int
    } else if s[i] == '/' || s[i] == '?' || s[i] == '#' {
        i
    } else {
        authority_end(s, i + 1)
    }
}

/// Where the path that starts at `i` ends: at a query or a fragment.
pub open spec fn path_end(s: Seq<char>, i: int) -> int
    decreases s.len() - i,
{
    if i < 0 || i >= s.len() {
        s.len() as int
    } else if s[i] == '?' || s[i] == '#' {
        i
    } else {
        path_end(s, i + 1)
    }
}

/// The pieces of a path; an empty path is that of the root.
pub open spec fn path_pieces(p: Seq<char>) -> Seq<Seq<char>> {
    if p.len() == 0 {
        seq![Seq::empty(), Seq::empty()]
    } else {
        chars::pieces(p, '/')
    }
}

/// The URL that a text stands for, or what is wrong with it.
pub open spec fn url_of(s: Seq<char>) -> Result<UrlView, Seq<char>> {
    match chars::find_from(s, "://"@, 0) {
        None => Err("relative URL without a base"@),
        Some(k) => if !is_scheme(s.subrange(0, k)) {
            Err("relative URL without a base"@)
        } else {
            let a = authority_end(s, k + 3);
            if a == k + 3 {
                Err("empty host"@)
            } else {
                Ok(
                    UrlView {
                        scheme: s.subrange(0, k),
                        origin: s.subrange(0, a),
                        path: path_pieces(s.subrange(a, path_end(s, a))),
                    },
                )
            }
        },
    }
}

/// The first `n` pieces with slashes between them.
pub open spec fn rendered(path: Seq<Seq<char>>, n: nat) -> Seq<char>
    decreases n,
{
    if n == 0 {
        Seq::empty()
    } else if n == 1 {
        path[0]
    } else {
        rendered(path, (n - 1) as nat) + "/"@ + path[n - 1]
    }
}

/// A path without dot segments: those from `i` on are dropped or go one level up.
pub open spec fn without_dots(path: Seq<Seq<char>>, i: int, got: Seq<Seq<char>>) -> Seq<Seq<char>>
    decreases path.len() - i,
{
    if i < 0 || i >= path.len() {
        got
    } else {
        let up = if path[i] == ".."@ && got.len() > 1 {
            got.drop_last()
        } else {
            got
        };
        let next = if path[i] == "."@ || path[i] == ".."@ {
            if i + 1 == path.len() {
                up.push(Seq::empty())
            } else {
                up
            }
        } else {
            got.push(path[i])
        };
        without_dots(path, i + 1, next)
    }
}

/// A path without dot segments; its first piece stays.
pub open spec fn resolved_path(path: Seq<Seq<char>>) -> Seq<char> {
    let p = without_dots(path, 1, seq![path[0]]);
    rendered(p, p.len())
}

/// The pieces of a path before its last slash.
pub open spec fn folder(path: Seq<Seq<char>>) -> Seq<Seq<char>> {
    if path.len() == 0 {
        path
    } else {
        path.drop_last()
    }
}

/// A reference resolved against a base, or what is wrong with it.
pub open spec fn joined(base: UrlView, s: Seq<char>) -> Result<Seq<char>, Seq<char>> {
    match url_of(s) {
        Ok(_) => Ok(s),
        Err(m) => if m == "empty host"@ {
            Err(m)
        } else if chars::starts(s, "//"@) {
            match url_of(base.scheme + ":"@ + s) {
                Ok(_) => Ok(base.scheme + ":"@ + s),
                Err(e) => Err(e),
            }
        } else {
            let c = path_end(s, 0);
            let p = s.subrange(0, c);
            let tail = s.subrange(c, s.len() as int);
            if p.len() == 0 {
                Ok(base.origin + rendered(base.path, base.path.len()) + tail)
            } else if p[0] == '/' {
                Ok(base.origin + resolved_path(chars::pieces(p, '/')) + tail)
            } else {
                Ok(base.origin + resolved_path(folder(base.path) + chars::pieces(p, '/')) + tail)
            }
        },
    }
}

/// Whether a text is the name of a scheme.
#[verifier::loop_isolation(false)]
fn names_scheme(s: &[char]) -> (yes: bool)
    ensures
        yes == is_scheme(s@),
{
    if s.len() == 0 {
        return false;
    }
    let mut i: usize = 0;
    while i < s.len()
        invariant
            i <= s.len(),
            i > 0 ==> is_letter(s@[0]),
            forall|k: int|
                0 <= k < i ==> is_letter(#[trigger] s@[k]) || chars::is_digit(s@[k]) || s@[k] == '+'
                    || s@[k] == '-' || s@[k] == '.',
        decreases s.len() - i,
    {
        let c: char = s[i];
        let letter: bool = ('a' <= c && c <= 'z') || ('A' <= c && c <= 'Z');
        if !letter && (i == 0 || !(chars::is_decimal(c) || c == '+' || c == '-' || c == '.')) {
            return false;
        }
        i = i + 1;
    }
    true
}

/// Where the authority that starts at `from` ends.
fn find_authority_end(s: &[char], from: usize) -> (at: usize)
    requires
        from <= s.len(),
    ensures
        at == authority_end(s@, from as int),
        from <= at <= s@.len(),
{
    let mut i: usize = from;
    while i < s.len()
        invariant
            from <= i <= s.len(),
            authority_end(s@, from as int) == authority_end(s@, i as int),
        decreases s.len() - i,
    {
        if s[i] == '/' || s[i] == '?' || s[i] == '#' {
            return i;
        }
        i = i + 1;
    }
    i
}

/// Where the path that starts at `from` ends.
fn find_path_end(s: &[char], from: usize) -> (at: usize)
    requires
        from <= s.len(),
    ensures
        at == path_end(s@, from as int),
        from <= at <= s@.len(),
{
    let mut i: usize = from;
    while i < s.len()
        invariant
            from <= i <= s.len(),
            path_end(s@, from as int) == path_end(s@, i as int),
        decreases s.len() - i,
    {
        if s[i] == '?' || s[i] == '#' {
            return i;
        }
        i = i + 1;
    }
    i
}

/// Appends the pieces with slashes between them.
fn put_path(out: &mut String, path: &Vec<Vec<char>>)
    ensures
        final(out)@ == old(out)@ + rendered(chars::texts_view(path@), path@.len()),
{
    let ghost views = chars::texts_view(path@);
    let mut i: usize = 0;
    assert(out@ =~= old(out)@ + rendered(views, 0));
    while i < path.len()
        invariant
            i <= path.len(),
            views == chars::texts_view(path@),
            out@ == old(out)@ + rendered(views, i as nat),
        decreases path.len() - i,
    {
        if i > 0 {
            out.push_str("/");
        }
        out.push_str(chars::string_of(path[i].as_slice()).as_str());
        assert(views[i as int] == path@[i as int]@);
        i = i + 1;
        assert(out@ =~= old(out)@ + rendered(views, i as nat));
    }
}

/// Appends a path without its dot segments; its first piece stays.
#[verifier::loop_isolation(false)]
fn put_resolved(out: &mut String, path: &Vec<Vec<char>>)
    requires
        path@.len() > 0,
    ensures
        final(out)@ == old(out)@ + resolved_path(chars::texts_view(path@)),
{
    let ghost views = chars::texts_view(path@);
    let mut kept: Vec<Vec<char>> = Vec::new();
    kept.push(chars::copy(path[0].as_slice()));
    assert(views[0] == path@[0]@);
    assert(chars::texts_view(kept@) =~= seq![views[0]]);
    let mut i: usize = 1;
    while i < path.len()
        invariant
            1 <= i <= path.len(),
            without_dots(views, 1, seq![views[0]]) == without_dots(
                views,
                i as int,
                chars::texts_view(kept@),
            ),
        decreases path.len() - i,
    {
        assert(views[i as int] == path@[i as int]@);
        let piece: &[char] = path[i].as_slice();
        let up: bool = chars::equals(piece, "..");
        let here: bool = chars::equals(piece, ".");
        let ghost before = kept@;
        if up && kept.len() > 1 {
            kept.pop();
            assert(chars::texts_view(kept@) =~= chars::texts_view(before).drop_last());
        }
        let ghost middle = kept@;
        if up || here {
            if i + 1 == path.len() {
                kept.push(Vec::new());
                assert(chars::texts_view(kept@) =~= chars::texts_view(middle).push(Seq::empty()));
            }
        } else {
            kept.push(chars::copy(piece));
            assert(chars::texts_view(kept@) =~= chars::texts_view(middle).push(views[i as int]));
        }
        i = i + 1;
    }
    put_path(out, &kept);
}

/// The content of the outcome of reading a URL.
pub open spec fn url_outcome(r: Result<Url, String>) -> Result<UrlView, Seq<char>> {
    match r {
        Ok(u) => Ok(u@),
        Err(e) => Err(e@),
    }
}

/// The content of the outcome of resolving a reference.
pub open spec fn join_outcome(r: Result<String, String>) -> Result<Seq<char>, Seq<char>> {
    match r {
        Ok(u) => Ok(u@),
        Err(e) => Err(e@),
    }
}

/// More pieces or the same after the first are found.
proof fn lemma_pieces_nonempty(s: Seq<char>, sep: char, start: int, got: Seq<Seq<char>>)
    requires
        0 <= start <= s.len() || got.len() > 0,
    ensures
        chars::pieces_from(s, sep, start, got).len() > 0,
    decreases s.len() + 1 - start,
{
    if 0 <= start <= s.len() {
        let end = chars::char_from(s, sep, start);
        chars::lemma_char_from(s, sep, start);
        lemma_pieces_nonempty(s, sep, end + 1, got.push(s.subrange(start, end)));
    }
}

impl Url {
    /// Reads an absolute URL.
    pub fn parse(text: &str) -> (r: Result<Url, String>)
        ensures
            url_outcome(r) == url_of(text@),
    {
        let s: Vec<char> = chars::chars_of(text);
        let mark: Vec<char> = chars::chars_of("://");
        proof {
            reveal_strlit("://");
        }
        let at: usize = match chars::find(s.as_slice(), mark.as_slice(), 0) {
            Some(at) => at,
            None => return Err("relative URL without a base".to_owned()),
        };
        let total: usize = s.len();
        assert(at + 3 <= total);
        if !names_scheme(&s.as_slice()[0..at]) {
            return Err("relative URL without a base".to_owned());
        }
        let end: usize = find_authority_end(s.as_slice(), at + 3);
        if end == at + 3 {
            return Err("empty host".to_owned());
        }
        let stop: usize = find_path_end(s.as_slice(), end);
        let mut path: Vec<Vec<char>> = Vec::new();
        if stop == end {
            path.push(Vec::new());
            path.push(Vec::new());
            assert(chars::texts_view(path@) =~= seq![Seq::empty(), Seq::empty()]);
        } else {
            path = chars::split(&s.as_slice()[end..stop], '/');
        }
        Ok(
            Url {
                scheme: chars::string_of(&s.as_slice()[0..at]),
                origin: chars::string_of(&s.as_slice()[0..end]),
                path,
            },
        )
    }

    /// Resolves a reference against this URL.
    pub fn join(&self, reference: &str) -> (r: Result<String, String>)
        ensures
            join_outcome(r) == joined(self@, reference@),
    {
        match Url::parse(reference) {
            Ok(_) => return Ok(reference.to_owned()),
            Err(e) => {
                if chars::equals(chars::chars_of(e.as_str()).as_slice(), "empty host") {
                    return Err(e);
                }
            },
        }
        let s: Vec<char> = chars::chars_of(reference);
        if chars::starts_with(s.as_slice(), "//") {
            let mut full: String = self.scheme.clone();
            full.push_str(":");
            full.push_str(reference);
            return match Url::parse(full.as_str()) {
                Ok(_) => Ok(full),
                Err(e) => Err(e),
            };
        }
        let cut: usize = find_path_end(s.as_slice(), 0);
        let mut out: String = self.origin.clone();
        if cut == 0 {
            put_path(&mut out, &self.path);
        } else if s[0] == '/' {
            let path: Vec<Vec<char>> = chars::split(&s.as_slice()[0..cut], '/');
            proof {
                lemma_pieces_nonempty(s@.subrange(0, cut as int), '/', 0, Seq::empty());
            }
            assert(chars::texts_view(path@).len() == path@.len());
            put_resolved(&mut out, &path);
        } else {
            let mut path: Vec<Vec<char>> = Vec::new();
            let mut i: usize = 0;
            let last: usize = if self.path.len() > 0 {
                self.path.len() - 1
            } else {
                0
            };
            assert(chars::texts_view(path@) =~= chars::texts_view(self.path@).subrange(0, 0));
            while i < last
                invariant
                    i <= last,
                    last <= self.path.len(),
                    chars::texts_view(path@) == chars::texts_view(self.path@).subrange(
                        0,
                        i as int,
                    ),
                decreases last - i,
            {
                let ghost before = path@;
                path.push(chars::copy(self.path[i].as_slice()));
                assert(chars::texts_view(path@) =~= chars::texts_view(before).push(
                    self.path@[i as int]@,
                ));
                i = i + 1;
                assert(chars::texts_view(path@) =~= chars::texts_view(self.path@).subrange(
                    0,
                    i as int,
                ));
            }
            assert(chars::texts_view(path@) =~= folder(chars::texts_view(self.path@)));
            let mut more: Vec<Vec<char>> = chars::split(&s.as_slice()[0..cut], '/');
            proof {
                lemma_pieces_nonempty(s@.subrange(0, cut as int), '/', 0, Seq::empty());
            }
            assert(chars::texts_view(more@).len() == more@.len());
            let ghost first = path@;
            let ghost second = more@;
            path.append(&mut more);
            assert(chars::texts_view(path@) =~= chars::texts_view(first) + chars::texts_view(
                second,
            ));
            put_resolved(&mut out, &path);
        }
        out.push_str(chars::string_of(&s.as_slice()[cut..s.len()]).as_str());
        Ok(out)
    }
}

/// An absolute URL is its own resolution, whatever the base.
pub proof fn absolute_reference_stays(base: UrlView, s: Seq<char>)
    requires
        url_of(s) is Ok,
    ensures
        joined(base, s) == Ok::<Seq<char>, Seq<char>>(s),
{
}

} // verus!
