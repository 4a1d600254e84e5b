//! Unix path text: joining, components, file names and containment, read
//! the way `std::path::Path` reads them.

use vstd::prelude::*;
use vstd::string::*;

use crate::text::{chars_of, string_from_chars};

verus! {

/// Splitting a path on `/`: the finished segments and the segment in progress.
pub open spec fn segment_state(p: Seq<char>) -> (Seq<Seq<char>>, Seq<char>)
    decreases p.len(),
{
    if p.len() == 0 {
        (Seq::empty(), Seq::empty())
    } else {
        let st = segment_state(p.drop_last());
        if p.last() == '/' {
            if st.1.len() > 0 {
                (st.0.push(st.1), Seq::empty())
            } else {
                (st.0, Seq::empty())
            }
        } else {
            (st.0, st.1.push(p.last()))
        }
    }
}

/// Appending text without `/` extends the segment in progress.
pub proof fn lemma_segment_state_append(p: Seq<char>, s: Seq<char>)
    requires
        !s.contains('/'),
    ensures
        segment_state(p + s) == (segment_state(p).0, segment_state(p).1 + s),
    decreases s.len(),
{
    if s.len() == 0 {
        assert(p + s =~= p);
        assert(segment_state(p).1 + s =~= segment_state(p).1);
    } else {
        assert(!s.drop_last().contains('/')) by {
            if s.drop_last().contains('/') {
                let i = choose|i: int| 0 <= i < s.drop_last().len() && s.drop_last()[i] == '/';
                assert(s[i] == '/');
            }
        }
        lemma_segment_state_append(p, s.drop_last());
        assert((p + s).drop_last() =~= p + s.drop_last());
        assert((p + s).last() == s.last());
        assert(s.last() != '/') by {
            assert(s[s.len() - 1] == s.last());
        }
        assert(segment_state(p).1 + s =~= (segment_state(p).1 + s.drop_last()).push(s.last()));
    }
}

/// `/` followed by the parts, with `/` between them: `/a/b/c` for `[a, b, c]`.
pub open spec fn slash_joined(parts: Seq<Seq<char>>) -> Seq<char>
    decreases parts.len(),
{
    if parts.len() == 0 {
        Seq::empty()
    } else {
        slash_joined(parts.drop_last()) + seq!['/'] + parts.last()
    }
}

/// Each part is a nonempty text without `/`.
pub open spec fn plain_parts(parts: Seq<Seq<char>>) -> bool {
    forall|i: int| 0 <= i < parts.len() ==> (#[trigger] parts[i]).len() > 0 && !parts[i].contains('/')
}

/// Splitting `/a/b/c` on `/` gives back `a`, `b` and `c`, in order.
pub proof fn lemma_slash_joined_segments(parts: Seq<Seq<char>>)
    requires
        parts.len() > 0,
        plain_parts(parts),
    ensures
        segment_state(slash_joined(parts)) == (parts.drop_last(), parts.last()),
        path_segments(slash_joined(parts)) == parts,
    decreases parts.len(),
{
    let dl = parts.drop_last();
    let x = slash_joined(dl);
    let last = parts.last();
    assert(last == parts[parts.len() - 1]);
    if parts.len() == 1 {
        assert(x =~= Seq::<char>::empty());
        let p1 = seq!['/'];
        assert(p1.drop_last() =~= Seq::<char>::empty());
        assert(segment_state(Seq::<char>::empty()) == (Seq::<Seq<char>>::empty(), Seq::<char>::empty()));
        assert(segment_state(p1) == (Seq::<Seq<char>>::empty(), Seq::<char>::empty()));
        lemma_segment_state_append(p1, last);
        assert(x + seq!['/'] =~= p1);
        assert(Seq::<char>::empty() + last =~= last);
        assert(dl =~= Seq::<Seq<char>>::empty());
    } else {
        assert(plain_parts(dl)) by {
            assert forall|i: int| 0 <= i < dl.len() implies (#[trigger] dl[i]).len() > 0 && !dl[i].contains('/') by {
                assert(dl[i] == parts[i]);
            }
        }
        lemma_slash_joined_segments(dl);
        let x1 = x.push('/');
        assert(x1.drop_last() =~= x);
        assert(dl.last() == dl[dl.len() - 1]);
        assert(segment_state(x1) == (dl.drop_last().push(dl.last()), Seq::<char>::empty()));
        assert(dl.drop_last().push(dl.last()) =~= dl);
        lemma_segment_state_append(x1, last);
        assert(x + seq!['/'] =~= x1);
        assert(Seq::<char>::empty() + last =~= last);
    }
    assert(parts.drop_last().push(parts.last()) =~= parts);
}

/// The nonempty `/`-separated segments of a path.
pub open spec fn path_segments(p: Seq<char>) -> Seq<Seq<char>> {
    let st = segment_state(p);
    if st.1.len() > 0 {
        st.0.push(st.1)
    } else {
        st.0
    }
}

/// The nonempty `/`-separated segments of `p`.
pub fn split_path(p: &str) -> (r: Vec<String>)
    ensures
        r@.map_values(|s: String| s@) == path_segments(p@),
{
    let cs = chars_of(p);
    let mut done: Vec<String> = Vec::new();
    let mut start: usize = 0;
    let n = cs.len();
    let mut i: usize = 0;
    while i < n
        invariant
            n == cs.len(),
            cs@ == p@,
            start <= i <= n,
            segment_state(p@.take(i as int)) == (
                done@.map_values(|s: String| s@),
                cs@.subrange(start as int, i as int),
            ),
        decreases n - i,
    {
        let ghost before = done@.map_values(|s: String| s@);
        proof {
            assert(p@.take(i + 1).drop_last() =~= p@.take(i as int));
            assert(p@.take(i + 1).last() == cs@[i as int]);
        }
        if cs[i] == '/' {
            if start < i {
                let seg = string_from_chars(&cs, start, i);
                done.push(seg);
                proof {
                    assert(done@.map_values(|s: String| s@) =~= before.push(cs@.subrange(start as int, i as int)));
                }
            }
            start = i + 1;
            proof {
                assert(cs@.subrange(start as int, i + 1) =~= Seq::<char>::empty());
            }
        } else {
            proof {
                assert(cs@.subrange(start as int, i + 1) =~= cs@.subrange(start as int, i as int).push(cs@[i as int]));
            }
        }
        i += 1;
    }
    proof {
        assert(p@.take(n as int) =~= p@);
    }
    if start < n {
        let ghost before = done@.map_values(|s: String| s@);
        let seg = string_from_chars(&cs, start, n);
        done.push(seg);
        proof {
            assert(done@.map_values(|s: String| s@) =~= before.push(cs@.subrange(start as int, n as int)));
        }
    }
    done
}



/// A path is absolute when it starts at the root `/`.
pub open spec fn is_absolute_path(p: Seq<char>) -> bool {
    p.len() > 0 && p[0] == '/'
}

/// `base` joined with `rel`, as `PathBuf::push` does on Unix: an absolute `rel`
/// replaces `base`; otherwise a separator is put between them unless `base` is
/// empty or already ends in one.
pub open spec fn joined(base: Seq<char>, rel: Seq<char>) -> Seq<char> {
    if is_absolute_path(rel) || base.len() == 0 {
        rel
    } else if base.last() == '/' {
        base + rel
    } else {
        base + seq!['/'] + rel
    }
}

/// The segments of `segs` that are not `.`.
pub open spec fn drop_dots(segs: Seq<Seq<char>>) -> Seq<Seq<char>>
    decreases segs.len(),
{
    if segs.len() == 0 {
        Seq::empty()
    } else if segs.last() == seq!['.'] {
        drop_dots(segs.drop_last())
    } else {
        drop_dots(segs.drop_last()).push(segs.last())
    }
}

/// The components of a path as `Path::components` yields them: the root as
/// `/`, a leading `.` of a relative path, then the segments that are not `.`.
pub open spec fn path_components(p: Seq<char>) -> Seq<Seq<char>> {
    let body = drop_dots(path_segments(p));
    if is_absolute_path(p) {
        seq![seq!['/']] + body
    } else if p == seq!['.'] || (p.len() >= 2 && p[0] == '.' && p[1] == '/') {
        seq![seq!['.']] + body
    } else {
        body
    }
}

/// Two paths are equal when their components are.
pub open spec fn same_path(a: Seq<char>, b: Seq<char>) -> bool {
    path_components(a) == path_components(b)
}

/// `p` lies under `base`: the components of `base` begin those of `p`.
pub open spec fn path_starts_with(p: Seq<char>, base: Seq<char>) -> bool {
    path_components(base).len() <= path_components(p).len()
        && path_components(p).take(path_components(base).len() as int) == path_components(base)
}

/// The last component of a path, unless the path ends at the root, at `.` or at `..`.
pub open spec fn file_name_of(p: Seq<char>) -> Option<Seq<char>> {
    let body = drop_dots(path_segments(p));
    if body.len() == 0 || body.last() == seq!['.', '.'] {
        None
    } else {
        Some(body.last())
    }
}

/// Index of the last `.` in `n`, or -1.
pub open spec fn last_dot(n: Seq<char>) -> int
    decreases n.len(),
{
    if n.len() == 0 {
        -1
    } else if n.last() == '.' {
        n.len() - 1
    } else {
        last_dot(n.drop_last())
    }
}

/// The stem of a file name: all of it when it has no `.` but a leading one,
/// else what comes before the last `.`.
pub open spec fn stem_of(n: Seq<char>) -> Seq<char> {
    if last_dot(n) <= 0 {
        n
    } else {
        n.take(last_dot(n))
    }
}

/// The extension of a file name: what follows the last `.`, when there is a `.`
/// that does not begin the name.
pub open spec fn extension_of(n: Seq<char>) -> Option<Seq<char>> {
    if last_dot(n) <= 0 {
        None
    } else {
        Some(n.skip(last_dot(n) + 1))
    }
}

pub open spec fn file_stem_of(p: Seq<char>) -> Option<Seq<char>> {
    match file_name_of(p) {
        Some(n) => Some(stem_of(n)),
        None => None,
    }
}

pub open spec fn extension_of_path(p: Seq<char>) -> Option<Seq<char>> {
    match file_name_of(p) {
        Some(n) => extension_of(n),
        None => None,
    }
}

pub open spec fn string_views(v: Seq<String>) -> Seq<Seq<char>> {
    v.map_values(|s: String| s@)
}

/// Whether `p` starts at the root.
pub fn path_is_absolute(p: &str) -> (b: bool)
    ensures
        b == is_absolute_path(p@),
{
    let cs = chars_of(p);
    cs.len() > 0 && cs[0] == '/'
}

/// `base.join(rel)`.
pub fn join_path(base: &str, rel: &str) -> (r: String)
    ensures
        r@ == joined(base@, rel@),
{
    let b = chars_of(base);
    if path_is_absolute(rel) || b.len() == 0 {
        return String::from_str(rel);
    }
    let mut r = String::from_str(base);
    if b[b.len() - 1] != '/' {
        r.append("/");
        proof {
            reveal_strlit("/");
        }
    }
    r.append(rel);
    r
}

fn is_dot(s: &String) -> (b: bool)
    ensures
        b == (s@ == seq!['.']),
{
    let cs = chars_of(s.as_str());
    let b = cs.len() == 1 && cs[0] == '.';
    proof {
        if b {
            assert(cs@ =~= seq!['.']);
        }
    }
    b
}

fn is_dot_dot(s: &String) -> (b: bool)
    ensures
        b == (s@ == seq!['.', '.']),
{
    let cs = chars_of(s.as_str());
    let b = cs.len() == 2 && cs[0] == '.' && cs[1] == '.';
    proof {
        if cs@.len() == 2 {
            if cs@[0] == '.' && cs@[1] == '.' {
                assert(cs@ =~= seq!['.', '.']);
            }
        }
    }
    b
}

/// The segments of `segs` that are not `.`.
fn without_dots(segs: Vec<String>) -> (r: Vec<String>)
    ensures
        string_views(r@) == drop_dots(string_views(segs@)),
{
    let mut out: Vec<String> = Vec::new();
    let n = segs.len();
    let mut i: usize = 0;
    while i < n
        invariant
            n == segs.len(),
            i <= n,
            string_views(out@) == drop_dots(string_views(segs@.take(i as int))),
        decreases n - i,
    {
        let ghost before = string_views(out@);
        proof {
            assert(segs@.take(i + 1).drop_last() =~= segs@.take(i as int));
            assert(string_views(segs@.take(i + 1)).drop_last() =~= string_views(segs@.take(i as int)));
            assert(string_views(segs@.take(i + 1)).last() == segs@[i as int]@);
        }
        if !is_dot(&segs[i]) {
            out.push(segs[i].clone());
            proof {
                assert(string_views(out@) =~= before.push(segs@[i as int]@));
            }
        }
        i += 1;
    }
    proof {
        assert(segs@.take(n as int) =~= segs@);
    }
    out
}

/// The components of `p`.
pub fn components(p: &str) -> (r: Vec<String>)
    ensures
        string_views(r@) == path_components(p@),
{
    let body = without_dots(split_path(p));
    let cs = chars_of(p);
    let mut out: Vec<String> = Vec::new();
    if cs.len() > 0 && cs[0] == '/' {
        let root = String::from_str("/");
        proof {
            reveal_strlit("/");
            assert(root@ =~= seq!['/']);
        }
        out.push(root);
        proof {
            assert(out@.len() == 1 && out@[0] == root);
            assert(string_views(out@) =~= seq![seq!['/']]);
        }
    } else if (cs.len() == 1 && cs[0] == '.') || (cs.len() >= 2 && cs[0] == '.' && cs[1] == '/') {
        let root = String::from_str(".");
        proof {
            reveal_strlit(".");
            assert(root@ =~= seq!['.']);
        }
        out.push(root);
        proof {
            assert(out@.len() == 1 && out@[0] == root);
            assert(string_views(out@) =~= seq![seq!['.']]);
            if cs@.len() == 1 {
                assert(p@ =~= seq!['.']);
            }
        }
    } else {
        proof {
            assert(string_views(out@) =~= Seq::<Seq<char>>::empty());
            if p@ == seq!['.'] {
                assert(cs@.len() == 1 && cs@[0] == '.');
            }
        }
    }
    proof {
        assert(path_components(p@) == string_views(out@) + string_views(body@));
    }
    let ghost head = string_views(out@);
    let mut k: usize = 0;
    let m = body.len();
    while k < m
        invariant
            m == body.len(),
            k <= m,
            string_views(out@) == head + string_views(body@).take(k as int),
        decreases m - k,
    {
        let ghost prev = out@;
        let item = body[k].clone();
        out.push(item);
        proof {
            assert(out@ == prev.push(item));
            assert(string_views(out@) =~= string_views(prev).push(item@));
            assert(string_views(body@).take(k + 1) =~= string_views(body@).take(k as int).push(body@[k as int]@));
            assert(string_views(out@) =~= head + string_views(body@).take(k + 1));
        }
        k += 1;
    }
    proof {
        assert(string_views(body@).take(m as int) =~= string_views(body@));
        assert(string_views(out@) =~= head + string_views(body@));
    }
    out
}

fn string_lists_equal(x: &Vec<String>, y: &Vec<String>, upto: usize) -> (b: bool)
    requires
        upto <= x.len(),
        upto <= y.len(),
    ensures
        b == (string_views(x@).take(upto as int) == string_views(y@).take(upto as int)),
{
    let mut i: usize = 0;
    while i < upto
        invariant
            upto <= x.len(),
            upto <= y.len(),
            i <= upto,
            string_views(x@).take(i as int) == string_views(y@).take(i as int),
        decreases upto - i,
    {
        if x[i] != y[i] {
            proof {
                assert(string_views(x@).take(upto as int)[i as int] == x@[i as int]@);
                assert(string_views(y@).take(upto as int)[i as int] == y@[i as int]@);
            }
            return false;
        }
        proof {
            assert(string_views(x@).take(i + 1) =~= string_views(x@).take(i as int).push(x@[i as int]@));
            assert(string_views(y@).take(i + 1) =~= string_views(y@).take(i as int).push(y@[i as int]@));
        }
        i += 1;
    }
    true
}

/// Whether `a` and `b` name the same path, compared by components as `Path`'s `==` does.
pub fn paths_equal(a: &str, b: &str) -> (r: bool)
    ensures
        r == same_path(a@, b@),
{
    let x = components(a);
    let y = components(b);
    if x.len() != y.len() {
        return false;
    }
    let r = string_lists_equal(&x, &y, x.len());
    proof {
        assert(string_views(x@).take(x.len() as int) =~= string_views(x@));
        assert(string_views(y@).take(y.len() as int) =~= string_views(y@));
    }
    r
}

/// Whether `p` lies under `base`, as `Path::starts_with` decides it.
pub fn path_has_prefix(p: &str, base: &str) -> (r: bool)
    ensures
        r == path_starts_with(p@, base@),
{
    let x = components(p);
    let y = components(base);
    if y.len() > x.len() {
        return false;
    }
    let r = string_lists_equal(&x, &y, y.len());
    proof {
        assert(string_views(y@).take(y.len() as int) =~= string_views(y@));
    }
    r
}

/// The last component of `p`, as `Path::file_name` gives it.
pub fn file_name(p: &str) -> (r: Option<String>)
    ensures
        match r {
            Some(n) => file_name_of(p@) == Some(n@),
            None => file_name_of(p@) is None,
        },
{
    let body = without_dots(split_path(p));
    let n = body.len();
    if n == 0 {
        return None;
    }
    proof {
        assert(string_views(body@).last() == body@[n - 1]@);
    }
    if is_dot_dot(&body[n - 1]) {
        None
    } else {
        Some(body[n - 1].clone())
    }
}

/// `last_dot` is an index of `n` holding `.`, or -1.
pub proof fn lemma_last_dot_bounds(n: Seq<char>)
    ensures
        -1 <= last_dot(n) < n.len(),
        last_dot(n) >= 0 ==> n[last_dot(n)] == '.',
    decreases n.len(),
{
    if n.len() > 0 && n.last() != '.' {
        lemma_last_dot_bounds(n.drop_last());
    }
}

fn last_dot_index(cs: &Vec<char>) -> (r: Option<usize>)
    ensures
        match r {
            Some(k) => last_dot(cs@) == k as int && k < cs.len(),
            None => last_dot(cs@) == -1,
        },
{
    let mut found: Option<usize> = None;
    let n = cs.len();
    let mut i: usize = 0;
    while i < n
        invariant
            n == cs.len(),
            i <= n,
            match found {
                Some(k) => last_dot(cs@.take(i as int)) == k as int,
                None => last_dot(cs@.take(i as int)) == -1,
            },
        decreases n - i,
    {
        proof {
            assert(cs@.take(i + 1).drop_last() =~= cs@.take(i as int));
        }
        if cs[i] == '.' {
            found = Some(i);
        }
        i += 1;
    }
    proof {
        assert(cs@.take(n as int) =~= cs@);
        lemma_last_dot_bounds(cs@);
    }
    found
}

/// The stem of the file name of `p`, as `Path::file_stem` gives it.
pub fn file_stem(p: &str) -> (r: Option<String>)
    ensures
        match r {
            Some(n) => file_stem_of(p@) == Some(n@),
            None => file_stem_of(p@) is None,
        },
{
    match file_name(p) {
        None => None,
        Some(name) => {
            let cs = chars_of(name.as_str());
            match last_dot_index(&cs) {
                Some(k) if k > 0 => {
                    let r = string_from_chars(&cs, 0, k);
                    proof {
                        assert(cs@.subrange(0, k as int) =~= cs@.take(k as int));
                    }
                    Some(r)
                },
                _ => Some(name),
            }
        },
    }
}

/// The extension of the file name of `p`, as `Path::extension` gives it.
pub fn extension(p: &str) -> (r: Option<String>)
    ensures
        match r {
            Some(n) => extension_of_path(p@) == Some(n@),
            None => extension_of_path(p@) is None,
        },
{
    match file_name(p) {
        None => None,
        Some(name) => {
            let cs = chars_of(name.as_str());
            match last_dot_index(&cs) {
                Some(k) if k > 0 => {
                    let r = string_from_chars(&cs, k + 1, cs.len());
                    proof {
                        assert(cs@.subrange(k + 1, cs@.len() as int) =~= cs@.skip(k + 1));
                    }
                    Some(r)
                },
                _ => None,
            }
        },
    }
}

/// How `{:?}` prints the path `p`: quoted, with quotes, backslashes, control
/// and other unprintable characters escaped.
pub uninterp spec fn path_debug_text(p: Seq<char>) -> Seq<char>;

/// `<std::path::Path as std::fmt::Debug>::fmt`, through `format!("{:?}", ..)`.
/// The contract only names the text: std's escaping rules and Unicode tables
/// are not written out here.
#[verifier::external_body]
pub(crate) fn debug_path(p: &str) -> (r: String)
    ensures
        r@ == path_debug_text(p@),
{
    format!("{:?}", std::path::Path::new(p))
}

} // verus!
