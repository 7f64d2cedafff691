//! Path algebra: every path string the library stores goes through the
//! functions here. A path is normalized by virtually absolutizing it
//! against the root `/`: components are split at slashes, empty and `.`
//! components vanish, and `..` pops a component without ever escaping
//! the root. Directory paths always end in `/`; file names never
//! contain `/`.

use vstd::prelude::*;
use vstd::string::*;

verus! {

/// A directory path is absolute and ends in a slash: `/` itself, or `/…/`.
pub open spec fn is_dir_path(p: Seq<char>) -> bool {
    &&& p.len() >= 1
    &&& p[0] == '/'
    &&& p[p.len() - 1] == '/'
}

/// A file name is a nonempty component without slashes.
pub open spec fn is_file_name(n: Seq<char>) -> bool {
    &&& n.len() > 0
    &&& forall|i: int| 0 <= i < n.len() ==> n[i] != '/'
}

/// The views of a vector of strings.
pub open spec fn views_of(v: Seq<String>) -> Seq<Seq<char>> {
    v.map_values(|s: String| s@)
}

/// Splitting `s` at every `/`, having already read up to position `i`
/// with `cur` the partial component gathered since the last slash.
pub open spec fn split_from(s: Seq<char>, i: int, cur: Seq<char>) -> Seq<Seq<char>>
    decreases s.len() - i,
{
    if i < 0 || i >= s.len() {
        seq![cur]
    } else if s[i] == '/' {
        seq![cur] + split_from(s, i + 1, Seq::empty())
    } else {
        split_from(s, i + 1, cur.push(s[i]))
    }
}

/// The components of `s`, split at `/`. Empty components are kept here
/// and dropped by `resolve_comps`.
pub open spec fn split_comps(s: Seq<char>) -> Seq<Seq<char>> {
    split_from(s, 0, Seq::empty())
}

/// Resolution of a component list against the root: empty and `.`
/// components vanish, `..` pops the last resolved component and is a
/// no-op at the root.
pub open spec fn resolve_comps(cs: Seq<Seq<char>>) -> Seq<Seq<char>>
    decreases cs.len(),
{
    if cs.len() == 0 {
        Seq::empty()
    } else {
        let pre = resolve_comps(cs.drop_last());
        let c = cs.last();
        if c.len() == 0 || c == seq!['.'] {
            pre
        } else if c == seq!['.', '.'] {
            if pre.len() == 0 {
                pre
            } else {
                pre.drop_last()
            }
        } else {
            pre.push(c)
        }
    }
}

/// The normalized components of a path string.
pub open spec fn norm_comps(s: Seq<char>) -> Seq<Seq<char>> {
    resolve_comps(split_comps(s))
}

/// The directory path spelled by a component list: `/` around and
/// between the components.
pub open spec fn join_dir(cs: Seq<Seq<char>>) -> Seq<char>
    decreases cs.len(),
{
    if cs.len() == 0 {
        seq!['/']
    } else {
        join_dir(cs.drop_last()) + cs.last() + seq!['/']
    }
}

/// The normalized directory path of an arbitrary path string.
pub open spec fn norm_dir_path(s: Seq<char>) -> Seq<char> {
    join_dir(norm_comps(s))
}

/// A component list without its last component; the empty list is its
/// own parent, as the root is its own parent.
pub open spec fn parent_comps(cs: Seq<Seq<char>>) -> Seq<Seq<char>> {
    if cs.len() == 0 {
        cs
    } else {
        cs.drop_last()
    }
}

/// The sibling path produced by a directory rename: drop the last
/// component, append the new name, re-normalize.
pub open spec fn dir_rename_path(p: Seq<char>, n: Seq<char>) -> Seq<char> {
    norm_dir_path(join_dir(parent_comps(norm_comps(p))) + n)
}

/// `s` with the prefix `p` replaced by `q`; `s` unchanged when `p` is
/// not a prefix of it.
pub open spec fn rewrite_prefix(s: Seq<char>, p: Seq<char>, q: Seq<char>) -> Seq<char> {
    if p.is_prefix_of(s) {
        q + s.skip(p.len() as int)
    } else {
        s
    }
}

/// No component produced by splitting contains a slash.
proof fn lemma_split_from_no_slash(s: Seq<char>, i: int, cur: Seq<char>)
    requires
        forall|k: int| 0 <= k < cur.len() ==> cur[k] != '/',
    ensures
        forall|j: int, k: int|
            0 <= j < split_from(s, i, cur).len() && 0 <= k < split_from(s, i, cur)[j].len()
                ==> split_from(s, i, cur)[j][k] != '/',
    decreases s.len() - i,
{
    if i < 0 || i >= s.len() {
        assert(split_from(s, i, cur) == seq![cur]);
        assert(forall|j: int|
            0 <= j < split_from(s, i, cur).len() ==> #[trigger] split_from(s, i, cur)[j]
                == cur);
    } else if s[i] == '/' {
        lemma_split_from_no_slash(s, i + 1, Seq::empty());
        let rest = split_from(s, i + 1, Seq::empty());
        assert forall|j: int, k: int|
            0 <= j < split_from(s, i, cur).len() && 0 <= k < split_from(s, i, cur)[j].len()
                implies split_from(s, i, cur)[j][k] != '/' by {
            if j == 0 {
                assert(split_from(s, i, cur)[j] == cur);
            } else {
                assert(split_from(s, i, cur)[j] == rest[j - 1]);
            }
        }
    } else {
        assert(forall|k: int| 0 <= k < cur.push(s[i]).len() ==> cur.push(s[i])[k] != '/');
        lemma_split_from_no_slash(s, i + 1, cur.push(s[i]));
        assert(split_from(s, i, cur) == split_from(s, i + 1, cur.push(s[i])));
    }
}

/// Resolved components are nonempty, slash-free and neither `.` nor `..`,
/// provided the input components are slash-free.
proof fn lemma_resolve_clean(cs: Seq<Seq<char>>)
    requires
        forall|j: int, k: int|
            0 <= j < cs.len() && 0 <= k < cs[j].len() ==> cs[j][k] != '/',
    ensures
        forall|j: int|
            0 <= j < resolve_comps(cs).len() ==> is_file_name(#[trigger] resolve_comps(cs)[j])
                && resolve_comps(cs)[j] != seq!['.'] && resolve_comps(cs)[j] != seq!['.', '.'],
    decreases cs.len(),
{
    if cs.len() == 0 {
    } else {
        assert(forall|j: int, k: int|
            0 <= j < cs.drop_last().len() && 0 <= k < cs.drop_last()[j].len()
                ==> cs.drop_last()[j][k] != '/');
        lemma_resolve_clean(cs.drop_last());
        let pre = resolve_comps(cs.drop_last());
        let c = cs.last();
        if c.len() == 0 || c == seq!['.'] {
        } else if c == seq!['.', '.'] {
        } else {
            assert(forall|k: int| 0 <= k < c.len() ==> c[k] != '/');
        }
    }
}

/// The normalized components of any path string are valid file names.
pub proof fn lemma_norm_comps_clean(s: Seq<char>)
    ensures
        forall|j: int|
            0 <= j < norm_comps(s).len() ==> is_file_name(#[trigger] norm_comps(s)[j]),
{
    lemma_split_from_no_slash(s, 0, Seq::empty());
    lemma_resolve_clean(split_comps(s));
}

/// Joined component lists always spell a well-formed directory path.
pub proof fn lemma_join_dir_wf(cs: Seq<Seq<char>>)
    ensures
        is_dir_path(join_dir(cs)),
    decreases cs.len(),
{
    if cs.len() == 0 {
    } else {
        lemma_join_dir_wf(cs.drop_last());
    }
}

/// Reads one character of a string.
fn char_at(s: &str, i: usize) -> (c: char)
    requires
        i < s@.len(),
    ensures
        c == s@[i as int],
{
    s.get_char(i)
}

/// Whether two strings are equal, by their characters.
pub fn str_eq(a: &str, b: &str) -> (r: bool)
    ensures
        r == (a@ == b@),
{
    let an = a.unicode_len();
    let bn = b.unicode_len();
    if an != bn {
        assert(a@ != b@);
        return false;
    }
    let mut i: usize = 0;
    while i < an
        invariant
            an == a@.len(),
            an == b@.len(),
            i <= an,
            forall|k: int| 0 <= k < i ==> a@[k] == b@[k],
        decreases an - i,
    {
        if char_at(a, i) != char_at(b, i) {
            assert(a@ != b@);
            return false;
        }
        i += 1;
    }
    assert(a@ =~= b@);
    true
}

/// Whether `p` is a prefix of `s`.
pub fn str_has_prefix(s: &str, p: &str) -> (r: bool)
    ensures
        r == p@.is_prefix_of(s@),
{
    let sn = s.unicode_len();
    let pn = p.unicode_len();
    if pn > sn {
        assert(!p@.is_prefix_of(s@));
        return false;
    }
    let mut i: usize = 0;
    while i < pn
        invariant
            sn == s@.len(),
            pn == p@.len(),
            pn <= sn,
            i <= pn,
            forall|k: int| 0 <= k < i ==> s@[k] == p@[k],
        decreases pn - i,
    {
        if char_at(s, i) != char_at(p, i) {
            assert(s@.subrange(0, p@.len() as int)[i as int] != p@[i as int]);
            assert(!p@.is_prefix_of(s@));
            return false;
        }
        i += 1;
    }
    assert(p@ =~= s@.subrange(0, p@.len() as int));
    true
}

/// `s` with the prefix `p` replaced by `q`, when `p` is a prefix.
pub fn replace_prefix(s: &str, p: &str, q: &str) -> (r: String)
    ensures
        r@ == rewrite_prefix(s@, p@, q@),
{
    if str_has_prefix(s, p) {
        let pn = p.unicode_len();
        let sn = s.unicode_len();
        let mut out = q.to_owned();
        out.append(s.substring_char(pn, sn));
        assert(out@ =~= rewrite_prefix(s@, p@, q@));
        out
    } else {
        s.to_owned()
    }
}

/// The components of `s`, split at `/`.
fn split_path(s: &str) -> (r: Vec<String>)
    ensures
        views_of(r@) == split_comps(s@),
{
    let n = s.unicode_len();
    let mut comps: Vec<String> = Vec::new();
    let mut start: usize = 0;
    let mut i: usize = 0;
    proof {
        assert(s@.subrange(0, 0) =~= Seq::<char>::empty());
        assert(views_of(comps@) =~= Seq::<Seq<char>>::empty());
        assert(views_of(comps@) + split_from(s@, 0, s@.subrange(0, 0)) =~= split_from(
            s@,
            0,
            Seq::<char>::empty(),
        ));
    }
    while i < n
        invariant
            n == s@.len(),
            start <= i <= n,
            split_comps(s@) == views_of(comps@) + split_from(
                s@,
                i as int,
                s@.subrange(start as int, i as int),
            ),
        decreases n - i,
    {
        let ghost prev = s@.subrange(start as int, i as int);
        let ghost prev_comps = comps@;
        if char_at(s, i) == '/' {
            let comp = s.substring_char(start, i).to_owned();
            comps.push(comp);
            proof {
                assert(split_from(s@, i as int, prev) == seq![prev] + split_from(
                    s@,
                    i + 1,
                    Seq::<char>::empty(),
                ));
                assert(views_of(comps@) =~= views_of(prev_comps).push(prev));
                assert(views_of(prev_comps) + (seq![prev] + split_from(
                    s@,
                    i + 1,
                    Seq::<char>::empty(),
                )) =~= views_of(comps@) + split_from(s@, i + 1, Seq::<char>::empty()));
            }
            start = i + 1;
            i += 1;
            proof {
                assert(s@.subrange(start as int, i as int) =~= Seq::<char>::empty());
            }
        } else {
            proof {
                assert(prev.push(s@[i as int]) =~= s@.subrange(start as int, i + 1));
                assert(split_from(s@, i as int, prev) == split_from(
                    s@,
                    i + 1,
                    prev.push(s@[i as int]),
                ));
            }
            i += 1;
        }
    }
    let ghost prev_comps = comps@;
    let ghost prev = s@.subrange(start as int, n as int);
    let last = s.substring_char(start, n).to_owned();
    comps.push(last);
    proof {
        assert(split_from(s@, n as int, prev) == seq![prev]);
        assert(views_of(comps@) =~= views_of(prev_comps).push(prev));
        assert(views_of(prev_comps) + seq![prev] =~= views_of(prev_comps).push(prev));
    }
    comps
}

/// Whether `c` is the single-character component `.`.
fn is_dot(c: &String) -> (r: bool)
    ensures
        r == (c@ == seq!['.']),
{
    if c.as_str().unicode_len() == 1 && char_at(c.as_str(), 0) == '.' {
        assert(c@ =~= seq!['.']);
        true
    } else {
        assert(c@ != seq!['.']);
        false
    }
}

/// Whether `c` is the two-character component `..`.
fn is_dot_dot(c: &String) -> (r: bool)
    ensures
        r == (c@ == seq!['.', '.']),
{
    if c.as_str().unicode_len() == 2 && char_at(c.as_str(), 0) == '.' && char_at(c.as_str(), 1)
        == '.' {
        assert(c@ =~= seq!['.', '.']);
        true
    } else {
        assert(c@ != seq!['.', '.']);
        false
    }
}

/// Resolves a component list against the root.
fn resolve_path_comps(cs: &Vec<String>) -> (r: Vec<String>)
    ensures
        views_of(r@) == resolve_comps(views_of(cs@)),
{
    let mut stack: Vec<String> = Vec::new();
    let mut j: usize = 0;
    while j < cs.len()
        invariant
            j <= cs.len(),
            views_of(stack@) == resolve_comps(views_of(cs@).subrange(0, j as int)),
        decreases cs.len() - j,
    {
        let ghost m = views_of(cs@);
        proof {
            assert(m.subrange(0, j + 1).drop_last() =~= m.subrange(0, j as int));
            assert(m.subrange(0, j + 1).last() == m[j as int]);
        }
        let c = &cs[j];
        if c.as_str().unicode_len() == 0 || is_dot(c) {
        } else if is_dot_dot(c) {
            if stack.len() > 0 {
                let ghost prev_stack = stack@;
                stack.pop();
                proof {
                    assert(views_of(stack@) =~= views_of(prev_stack).drop_last());
                }
            }
        } else {
            stack.push(c.clone());
            proof {
                assert(views_of(stack@) =~= views_of(stack@.drop_last()).push(c@));
            }
        }
        j += 1;
    }
    proof {
        assert(views_of(cs@).subrange(0, cs@.len() as int) =~= views_of(cs@));
    }
    stack
}

/// Spells the directory path of a component list.
fn join_dir_path(cs: &Vec<String>) -> (r: String)
    ensures
        r@ == join_dir(views_of(cs@)),
{
    let mut out = String::new();
    proof {
        reveal_strlit("/");
        assert("/"@ =~= seq!['/']);
    }
    out.append("/");
    proof {
        assert(views_of(cs@).subrange(0, 0) =~= Seq::<Seq<char>>::empty());
        assert(out@ =~= seq!['/']);
    }
    let mut j: usize = 0;
    while j < cs.len()
        invariant
            j <= cs.len(),
            out@ == join_dir(views_of(cs@).subrange(0, j as int)),
        decreases cs.len() - j,
    {
        let ghost m = views_of(cs@);
        proof {
            reveal_strlit("/");
            assert("/"@ =~= seq!['/']);
            assert(m.subrange(0, j + 1).drop_last() =~= m.subrange(0, j as int));
            assert(m.subrange(0, j + 1).last() == m[j as int]);
        }
        out.append(cs[j].as_str());
        out.append("/");
        j += 1;
    }
    proof {
        assert(views_of(cs@).subrange(0, cs@.len() as int) =~= views_of(cs@));
        assert(join_dir(views_of(cs@).subrange(0, 0)) =~= seq!['/']);
    }
    out
}

/// Normalizes any path string into a directory path.
pub fn normalize_dir(p: &str) -> (r: String)
    ensures
        r@ == norm_dir_path(p@),
        is_dir_path(r@),
{
    let comps = split_path(p);
    let resolved = resolve_path_comps(&comps);
    let out = join_dir_path(&resolved);
    proof {
        lemma_join_dir_wf(norm_comps(p@));
    }
    out
}

/// Normalizes any path string into a `(directory, name)` pair; `None`
/// when the path denotes the root, which has no basename.
pub fn normalize_file(p: &str) -> (r: Option<(String, String)>)
    ensures
        r is Some <==> norm_comps(p@).len() > 0,
        r matches Some(pair) ==> {
            &&& pair.0@ == join_dir(norm_comps(p@).drop_last())
            &&& pair.1@ == norm_comps(p@).last()
            &&& is_dir_path(pair.0@)
            &&& is_file_name(pair.1@)
        },
{
    let comps = split_path(p);
    let mut resolved = resolve_path_comps(&comps);
    proof {
        assert(views_of(resolved@).len() == resolved@.len());
    }
    if resolved.len() == 0 {
        None
    } else {
        let ghost full = resolved@;
        let name = resolved.pop().unwrap();
        proof {
            assert(views_of(resolved@) =~= views_of(full).drop_last());
            assert(name@ == views_of(full).last());
            lemma_join_dir_wf(norm_comps(p@).drop_last());
            lemma_norm_comps_clean(p@);
        }
        let dir = join_dir_path(&resolved);
        Some((dir, name))
    }
}

/// The sibling directory path of a rename: drop the last component of
/// `p`, append `n`, re-normalize.
pub fn rename_dir_path(p: &str, n: &str) -> (r: String)
    ensures
        r@ == dir_rename_path(p@, n@),
        is_dir_path(r@),
{
    let comps = split_path(p);
    let mut resolved = resolve_path_comps(&comps);
    proof {
        assert(views_of(resolved@).len() == resolved@.len());
    }
    let ghost full = resolved@;
    if resolved.len() > 0 {
        resolved.pop();
        proof {
            assert(views_of(resolved@) =~= views_of(full).drop_last());
        }
    }
    proof {
        assert(views_of(resolved@) =~= parent_comps(norm_comps(p@)));
    }
    let mut base = join_dir_path(&resolved);
    base.append(n);
    normalize_dir(base.as_str())
}

} // verus!
