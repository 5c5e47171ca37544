use vstd::prelude::*;
use vstd::string::StrSliceExecFns;
use vstd::string::StringExecFns;

verus! {

/// Splits a path into its `/`-separated components.
/// The result always has at least one component; an absolute path starts
/// with an empty component.
pub open spec fn split_path(s: Seq<char>) -> Seq<Seq<char>>
    decreases s.len(),
{
    if s.len() == 0 {
        seq![Seq::<char>::empty()]
    } else {
        let init = split_path(s.drop_last());
        if s.last() == '/' {
            init.push(Seq::<char>::empty())
        } else {
            init.update(init.len() - 1, init.last().push(s.last()))
        }
    }
}

/// A split path always has at least one component.
pub proof fn lemma_split_path_len(s: Seq<char>)
    ensures
        split_path(s).len() >= 1,
    decreases s.len(),
{
    if s.len() > 0 {
        lemma_split_path_len(s.drop_last());
    }
}

/// What a directory and a relative declaration join to: an absolute
/// declaration stands alone, anything else is resolved under the directory.
pub open spec fn join_spec(dir: Seq<char>, rel: Seq<char>) -> Seq<char> {
    if rel.len() > 0 && rel[0] == '/' {
        rel
    } else {
        dir + seq!['/'] + rel
    }
}

/// `path` lies strictly under the directory `dir`: it begins with `dir`
/// followed by a separator.
pub open spec fn strictly_under(path: Seq<char>, dir: Seq<char>) -> bool {
    (dir + seq!['/']).is_prefix_of(path)
}

/// `path` is the path `base` itself or lies strictly under it. This is how
/// an absolute-path exclusion pattern covers candidates.
pub open spec fn path_covers(base: Seq<char>, path: Seq<char>) -> bool {
    path == base || strictly_under(path, base)
}

/// The path `path` relative to `base`, when `path` is `base` itself or lies
/// under it.
pub open spec fn rel_of(path: Seq<char>, base: Seq<char>) -> Option<Seq<char>> {
    if path == base {
        Some(Seq::<char>::empty())
    } else if strictly_under(path, base) {
        Some(path.skip(base.len() as int + 1))
    } else {
        None
    }
}

/// Splits a path string into its `/`-separated components.
pub fn split_path_exec(s: &str) -> (r: Vec<String>)
    ensures
        r.deep_view() == split_path(s@),
{
    let n = s.unicode_len();
    let mut r: Vec<String> = Vec::new();
    let mut start: usize = 0;
    let mut i: usize = 0;
    proof {
        assert(s@.take(0) =~= Seq::<char>::empty());
        assert(r.deep_view().push(s@.subrange(0, 0)) =~= split_path(s@.take(0)));
    }
    while i < n
        invariant
            0 <= start <= i <= n,
            n == s@.len(),
            r.deep_view().push(s@.subrange(start as int, i as int)) == split_path(
                s@.take(i as int),
            ),
        decreases n - i,
    {
        let ghost pre = r.deep_view();
        let ghost partial = s@.subrange(start as int, i as int);
        proof {
            lemma_split_path_len(s@.take(i as int));
            assert(s@.take(i as int + 1).drop_last() =~= s@.take(i as int));
            assert(s@.take(i as int + 1).last() == s@[i as int]);
        }
        if s.get_char(i) == '/' {
            let comp = String::from_str(s.substring_char(start, i));
            r.push(comp);
            start = i + 1;
            proof {
                assert(r.deep_view() =~= pre.push(partial));
                assert(split_path(s@.take(i as int + 1)) =~= split_path(
                    s@.take(i as int),
                ).push(Seq::<char>::empty()));
                assert(s@.subrange(i as int + 1, i as int + 1) =~= Seq::<char>::empty());
                assert(r.deep_view().push(s@.subrange(i as int + 1, i as int + 1)) =~= split_path(
                    s@.take(i as int + 1),
                ));
            }
        } else {
            proof {
                let old_split = split_path(s@.take(i as int));
                let new_split = split_path(s@.take(i as int + 1));
                assert(new_split =~= old_split.update(
                    old_split.len() - 1,
                    old_split.last().push(s@[i as int]),
                ));
                assert(old_split.last() == partial);
                assert(partial.push(s@[i as int]) =~= s@.subrange(start as int, i as int + 1));
                assert(r.deep_view().push(s@.subrange(start as int, i as int + 1)) =~= new_split);
            }
        }
        i = i + 1;
    }
    let tail = String::from_str(s.substring_char(start, n));
    let ghost pre = r.deep_view();
    r.push(tail);
    proof {
        assert(s@.take(n as int) =~= s@);
        assert(r.deep_view() =~= pre.push(s@.subrange(start as int, n as int)));
    }
    r
}

/// Resolves a declaration against a directory: an absolute declaration
/// stands alone, anything else goes under the directory.
pub fn join_path(dir: &str, rel: &str) -> (r: String)
    ensures
        r@ == join_spec(dir@, rel@),
{
    proof {
        reveal_strlit("/");
    }
    if rel.unicode_len() > 0 && rel.get_char(0) == '/' {
        String::from_str(rel)
    } else {
        let mut out = String::from_str(dir);
        out.append("/");
        out.append(rel);
        proof {
            assert(out@ =~= dir@ + seq!['/'] + rel@);
        }
        out
    }
}

/// Tests whether `p` is a prefix of `s`, character for character.
pub fn str_starts_with(s: &str, p: &str) -> (r: bool)
    ensures
        r == p@.is_prefix_of(s@),
{
    let n = s.unicode_len();
    let m = p.unicode_len();
    if m > n {
        return false;
    }
    let mut i: usize = 0;
    while i < m
        invariant
            0 <= i <= m <= n,
            n == s@.len(),
            m == p@.len(),
            p@.take(i as int) == s@.take(i as int).take(i as int),
            forall|j: int| 0 <= j < i ==> p@[j] == s@[j],
        decreases m - i,
    {
        if s.get_char(i) != p.get_char(i) {
            proof {
                assert(p@[i as int] != s@[i as int]);
                assert(!p@.is_prefix_of(s@)) by {
                    if p@.is_prefix_of(s@) {
                        assert(s@.subrange(0, m as int)[i as int] == s@[i as int]);
                    }
                }
            }
            return false;
        }
        i = i + 1;
    }
    proof {
        assert(p@ =~= s@.subrange(0, m as int));
    }
    true
}

/// Tests whether `path` lies strictly under the directory `dir`.
pub fn strictly_under_exec(path: &str, dir: &str) -> (r: bool)
    ensures
        r == strictly_under(path@, dir@),
{
    proof {
        reveal_strlit("/");
    }
    let mut pre = String::from_str(dir);
    pre.append("/");
    proof {
        assert(pre@ =~= dir@ + seq!['/']);
    }
    str_starts_with(path, pre.as_str())
}

/// Tests whether `path` is `base` itself or lies strictly under it.
pub fn path_covers_exec(base: &str, path: &str) -> (r: bool)
    ensures
        r == path_covers(base@, path@),
{
    if crate::order::str_eq(path, base) {
        return true;
    }
    proof {
        reveal_strlit("/");
    }
    let mut pre = String::from_str(base);
    pre.append("/");
    proof {
        assert(pre@ =~= base@ + seq!['/']);
    }
    str_starts_with(path, pre.as_str())
}

/// The path relative to `base`, when `path` is `base` or lies under it.
pub fn rel_of_exec(path: &str, base: &str) -> (r: Option<String>)
    ensures
        match r {
            Some(rel) => rel_of(path@, base@) == Some(rel@),
            None => rel_of(path@, base@) is None,
        },
{
    if crate::order::str_eq(path, base) {
        let empty = String::new();
        proof {
            assert(empty@ =~= Seq::<char>::empty());
        }
        return Some(empty);
    }
    proof {
        reveal_strlit("/");
    }
    let mut pre = String::from_str(base);
    pre.append("/");
    proof {
        assert(pre@ =~= base@ + seq!['/']);
    }
    if str_starts_with(path, pre.as_str()) {
        let n = path.unicode_len();
        let k = base.unicode_len();
        proof {
            assert(pre@.len() == base@.len() + 1);
            assert(path@.len() >= pre@.len());
        }
        let rel = String::from_str(path.substring_char(k + 1, n));
        proof {
            assert(rel@ =~= path@.skip(base@.len() as int + 1));
        }
        Some(rel)
    } else {
        None
    }
}

/// The final component of a path: everything after the last separator.
pub fn last_component(s: &str) -> (r: String)
    ensures
        r@ == split_path(s@).last(),
{
    let n = s.unicode_len();
    let mut last_slash: usize = 0;
    let mut found = false;
    let mut i: usize = 0;
    while i < n
        invariant
            0 <= i <= n,
            n == s@.len(),
            found ==> 0 <= last_slash < i && s@[last_slash as int] == '/',
            found ==> forall|j: int| last_slash < j < i ==> s@[j] != '/',
            !found ==> forall|j: int| 0 <= j < i ==> s@[j] != '/',
        decreases n - i,
    {
        if s.get_char(i) == '/' {
            last_slash = i;
            found = true;
        }
        i = i + 1;
    }
    if found {
        let r = String::from_str(s.substring_char(last_slash + 1, n));
        proof {
            lemma_split_path_last(s@, last_slash as int);
        }
        r
    } else {
        let r = String::from_str(s);
        proof {
            lemma_split_path_no_slash(s@);
        }
        r
    }
}

/// When a path has a separator at `k` and none after it, the last component
/// is everything after `k`.
proof fn lemma_split_path_last(s: Seq<char>, k: int)
    requires
        0 <= k < s.len(),
        s[k] == '/',
        forall|j: int| k < j < s.len() ==> s[j] != '/',
    ensures
        split_path(s).last() == s.subrange(k + 1, s.len() as int),
    decreases s.len(),
{
    lemma_split_path_len(s.drop_last());
    if s.len() == k + 1 {
        assert(s.last() == '/');
        assert(split_path(s).last() =~= s.subrange(k + 1, s.len() as int));
    } else {
        assert(s.last() != '/');
        assert(s.drop_last()[k] == '/');
        lemma_split_path_last(s.drop_last(), k);
        let init = split_path(s.drop_last());
        assert(init.len() >= 1);
        assert(split_path(s) == init.update(init.len() - 1, init.last().push(s.last())));
        assert(split_path(s).len() == init.len());
        assert(split_path(s).last() == init.last().push(s.last()));
        assert(s.drop_last().subrange(k + 1, s.len() - 1).push(s.last()) =~= s.subrange(
            k + 1,
            s.len() as int,
        ));
    }
}

/// A path without separators is its own single component.
proof fn lemma_split_path_no_slash(s: Seq<char>)
    requires
        forall|j: int| 0 <= j < s.len() ==> s[j] != '/',
    ensures
        split_path(s).last() == s,
    decreases s.len(),
{
    lemma_split_path_len(s);
    if s.len() == 0 {
        assert(split_path(s).last() =~= s);
    } else {
        assert(s[s.len() - 1] != '/');
        lemma_split_path_no_slash(s.drop_last());
        lemma_split_path_len(s.drop_last());
        let init = split_path(s.drop_last());
        assert(split_path(s) == init.update(init.len() - 1, init.last().push(s.last())));
        assert(split_path(s).last() == init.last().push(s.last()));
        assert(s.drop_last().push(s.last()) =~= s);
    }
}

/// One step of lexical normalization: empty and `.` components vanish,
/// `..` removes the component before it where one can be removed, and
/// anything else is kept.
pub open spec fn norm_step(acc: Seq<Seq<char>>, c: Seq<char>) -> Seq<Seq<char>> {
    if c == Seq::<char>::empty() || c == seq!['.'] {
        acc
    } else if c == seq!['.', '.'] {
        if acc.len() > 0 && acc.last() != seq!['.', '.'] && acc.last() != Seq::<char>::empty() {
            acc.drop_last()
        } else if acc.len() > 0 && acc.last() == Seq::<char>::empty() {
            acc
        } else {
            acc.push(c)
        }
    } else {
        acc.push(c)
    }
}

/// Lexical normalization folded over a component list.
pub open spec fn norm_fold(cs: Seq<Seq<char>>, acc: Seq<Seq<char>>) -> Seq<Seq<char>>
    decreases cs.len(),
{
    if cs.len() == 0 {
        acc
    } else {
        norm_fold(cs.drop_first(), norm_step(acc, cs.first()))
    }
}

/// Components joined back into a path with `/` between them.
pub open spec fn join_comps(cs: Seq<Seq<char>>) -> Seq<char>
    decreases cs.len(),
{
    if cs.len() == 0 {
        Seq::<char>::empty()
    } else if cs.len() == 1 {
        cs[0]
    } else {
        join_comps(cs.drop_last()) + seq!['/'] + cs.last()
    }
}

/// What lexical normalization of a whole path yields: the first component
/// is kept as the root marker, the rest pass through [`norm_step`], and a
/// bare root comes back as `/`.
pub open spec fn normalize_spec(p: Seq<char>) -> Seq<char> {
    let cs = split_path(p);
    let normed = norm_fold(cs.drop_first(), seq![cs.first()]);
    if normed == seq![Seq::<char>::empty()] {
        seq!['/']
    } else {
        join_comps(normed)
    }
}

/// Normalizes a path lexically, removing `.` and `..` components the way
/// the comment in a config would expect. Only the text is consulted:
/// symbolic links are not resolved and the path need not exist.
#[verifier::loop_isolation(false)]
pub fn normalize(p: &str) -> (r: String)
    ensures
        r@ == normalize_spec(p@),
{
    proof {
        reveal_strlit("");
        reveal_strlit(".");
        reveal_strlit("..");
        reveal_strlit("/");
        assert(""@ =~= Seq::<char>::empty());
        assert("."@ =~= seq!['.']);
        assert(".."@ =~= seq!['.', '.']);
        assert("/"@ =~= seq!['/']);
    }
    let comps = split_path_exec(p);
    let ghost cs = split_path(p@);
    proof {
        lemma_split_path_len(p@);
        assert(comps.deep_view().len() == cs.len());
    }
    let mut acc: Vec<String> = Vec::new();
    acc.push(String::from_str(comps[0].as_str()));
    proof {
        assert(comps.deep_view()[0] == comps[0 as int]@);
        assert(acc.deep_view() =~= seq![cs.first()]);
        assert(cs.skip(1) =~= cs.drop_first());
    }
    let n = comps.len();
    let mut i: usize = 1;
    while i < n
        invariant
            1 <= i <= n,
            norm_fold(cs.drop_first(), seq![cs.first()]) == norm_fold(
                cs.skip(i as int),
                acc.deep_view(),
            ),
        decreases n - i,
    {
        let ghost pre = acc.deep_view();
        proof {
            assert(comps.deep_view()[i as int] == comps[i as int]@);
            assert(cs.skip(i as int).first() == cs[i as int]);
            assert(cs.skip(i as int).drop_first() =~= cs.skip(i as int + 1));
        }
        let c = &comps[i];
        proof {
            assert(cs[i as int] == c@);
            if acc.deep_view().len() > 0 {
                assert(acc.deep_view()[acc.deep_view().len() - 1] == acc@[acc@.len() - 1]@);
            }
        }
        if crate::order::str_eq(c.as_str(), "") || crate::order::str_eq(c.as_str(), ".") {
            proof {
                assert(norm_step(pre, cs[i as int]) == pre);
            }
        } else if crate::order::str_eq(c.as_str(), "..") {
            let keep_root = acc.len() > 0 && crate::order::str_eq(
                acc[acc.len() - 1].as_str(),
                "",
            );
            let can_drop = acc.len() > 0 && !crate::order::str_eq(
                acc[acc.len() - 1].as_str(),
                "..",
            ) && !keep_root;
            if can_drop {
                let ghost pre_vec = acc@;
                acc.pop();
                proof {
                    assert(acc@ =~= pre_vec.drop_last());
                    assert forall|j: int| 0 <= j < acc@.len() implies #[trigger] acc.deep_view()[j]
                        == pre[j] by {
                        assert(acc@[j] == pre_vec[j]);
                    }
                    assert(acc.deep_view() =~= pre.drop_last());
                    assert(norm_step(pre, cs[i as int]) == pre.drop_last());
                }
            } else if keep_root {
                proof {
                    assert(pre.last() == Seq::<char>::empty());
                    assert(norm_step(pre, cs[i as int]) == pre);
                }
            } else {
                acc.push(String::from_str(c.as_str()));
                proof {
                    assert(acc.deep_view() =~= pre.push(cs[i as int]));
                    assert(norm_step(pre, cs[i as int]) == pre.push(cs[i as int]));
                }
            }
        } else {
            acc.push(String::from_str(c.as_str()));
            proof {
                assert(acc.deep_view() =~= pre.push(cs[i as int]));
                assert(norm_step(pre, cs[i as int]) == pre.push(cs[i as int]));
            }
        }
        i = i + 1;
    }
    proof {
        assert(cs.skip(n as int) =~= Seq::<Seq<char>>::empty());
        assert(comps.deep_view().len() == cs.len());
    }
    // join the remaining components back into a path
    let m = acc.len();
    if m == 0 {
        // a relative path that cancelled itself out entirely
        proof {
            assert(acc.deep_view().len() == 0);
            assert(acc.deep_view() != seq![Seq::<char>::empty()]);
            assert(join_comps(acc.deep_view()) =~= Seq::<char>::empty());
        }
        let empty = String::new();
        proof {
            assert(empty@ =~= Seq::<char>::empty());
        }
        return empty;
    }
    if m == 1 && acc[0].as_str().unicode_len() == 0 {
        proof {
            assert(acc.deep_view()[0] == acc@[0]@);
            assert(acc.deep_view()[0] =~= Seq::<char>::empty());
            assert(acc.deep_view() =~= seq![Seq::<char>::empty()]);
        }
        return String::from_str("/");
    }
    let mut out = String::from_str(acc[0].as_str());
    proof {
        assert(acc.deep_view()[0] == acc@[0]@);
        assert(acc.deep_view().take(1) =~= seq![acc.deep_view()[0]]);
        assert(out@ == join_comps(acc.deep_view().take(1)));
        assert(acc.deep_view() != seq![Seq::<char>::empty()]) by {
            if acc.deep_view() =~= seq![Seq::<char>::empty()] {
                assert(m == 1 && acc.deep_view()[0].len() == 0);
            }
        }
    }
    let mut t: usize = 1;
    while t < m
        invariant
            1 <= t <= m,
            m == acc.deep_view().len(),
            out@ == join_comps(acc.deep_view().take(t as int)),
        decreases m - t,
    {
        proof {
            assert(acc.deep_view()[t as int] == acc[t as int]@);
        }
        out.append("/");
        out.append(acc[t].as_str());
        proof {
            let dv = acc.deep_view();
            assert(dv.take(t as int + 1).drop_last() =~= dv.take(t as int));
            assert(dv.take(t as int + 1).last() == dv[t as int]);
            assert(dv.take(t as int + 1).len() >= 2);
            assert(out@ =~= join_comps(dv.take(t as int)) + seq!['/'] + dv[t as int]);
        }
        t = t + 1;
    }
    proof {
        assert(acc.deep_view().take(m as int) =~= acc.deep_view());
    }
    out
}

} // verus!
