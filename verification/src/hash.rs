use vstd::prelude::*;
use vstd::string::StrSliceExecFns;
use vstd::string::StringExecFns;
use vstd::utf8::encode_utf8;
use vstd::utf8::is_ascii_chars;
use vstd::utf8::is_ascii_chars_encode_utf8;

use sha2::Digest;

use crate::config::ExcludePattern;
use crate::config::PatView;
use crate::error::YethError;
use crate::fstree::FsSnapshot;
use crate::fstree::FsEntryView;
use crate::fstree::bytes_at;
use crate::fstree::is_file_at;
use crate::fstree::is_dir_at;
use crate::paths::path_covers;
use crate::paths::path_covers_exec;
use crate::paths::rel_of;
use crate::paths::rel_of_exec;
use crate::fstree::unique_paths;
use crate::order::lex_le_fn;
use crate::paths::split_path;
use crate::paths::strictly_under;
use crate::paths::split_path_exec;
use crate::paths::str_starts_with;

verus! {

/// The lowercase hexadecimal SHA-256 digest of a byte string. The digest
/// itself is far too long to state; this name stands for it, and the
/// trusted wrapper [`sha256_hex_of`] is the one place that computes it.
pub uninterp spec fn sha256_hex(bytes: Seq<u8>) -> Seq<char>;

/// A lowercase hexadecimal digit.
pub open spec fn is_hex_digit(c: char) -> bool {
    ('0' <= c && c <= '9') || ('a' <= c && c <= 'f')
}

/// The shape every hash in this library has: a 256-bit digest written as
/// 64 lowercase hexadecimal characters.
pub open spec fn is_hash_text(s: Seq<char>) -> bool {
    s.len() == 64 && forall|i: int| 0 <= i < s.len() ==> is_hex_digit(#[trigger] s[i])
}

/// Relies on sha2's `Sha256`: one digest over the whole byte string,
/// formatted as lowercase hexadecimal. SHA-256 produces 32 bytes, so the
/// text is 64 hex digits, and it depends on the input bytes alone.
#[verifier::external_body]
fn sha256_hex_of(bytes: &[u8]) -> (r: String)
    ensures
        r@ == sha256_hex(bytes@),
        is_hash_text(r@),
{
    format!("{:x}", sha2::Sha256::digest(bytes))
}

/// Hex digits are ASCII.
pub proof fn lemma_hex_is_ascii(s: Seq<char>)
    requires
        forall|i: int| 0 <= i < s.len() ==> is_hex_digit(#[trigger] s[i]),
    ensures
        is_ascii_chars(s),
{
    assert forall|i: int| 0 <= i < s.len() implies '\0' <= #[trigger] s[i] <= '\u{7f}' by {
        assert(is_hex_digit(s[i]));
    }
}

/// One exclusion pattern matches a candidate path: a bare name matches any
/// path component, or — for compatibility with relative declarations — a
/// prefix of the candidate's path relative to the hashed root; an absolute
/// path matches itself and everything nested under it.
pub open spec fn excluded_by(path: Seq<char>, base: Seq<char>, pat: PatView) -> bool {
    match pat {
        PatView::Name(name) => split_path(path).contains(name) || rel_name_matches(
            path,
            base,
            name,
        ),
        PatView::AbsolutePath(abs) => path_covers(abs, path),
    }
}

/// A bare-name pattern matches the candidate's path relative to the hashed
/// root when that relative path starts with the name.
pub open spec fn rel_name_matches(path: Seq<char>, base: Seq<char>, name: Seq<char>) -> bool {
    match rel_of(path, base) {
        Some(rel) => name.is_prefix_of(rel),
        None => false,
    }
}

/// A candidate path is excluded when any pattern matches it.
pub open spec fn should_exclude_spec(path: Seq<char>, base: Seq<char>, pats: Seq<PatView>) -> bool {
    exists|i: int| 0 <= i < pats.len() && excluded_by(path, base, #[trigger] pats[i])
}

/// Checks if path should be excluded: a pattern name may match any of the
/// path's components or a prefix of the path relative to `base_dir`, and a
/// pattern path covers everything nested under it.
#[verifier::loop_isolation(false)]
pub fn should_exclude(path: &str, base_dir: &str, exclude_patterns: &Vec<ExcludePattern>) -> (r:
    bool)
    ensures
        r == should_exclude_spec(path@, base_dir@, exclude_patterns.deep_view()),
{
    let components = split_path_exec(path);
    let rel = rel_of_exec(path, base_dir);
    let ghost rel_spec = rel_of(path@, base_dir@);
    let n = exclude_patterns.len();
    let mut i: usize = 0;
    while i < n
        invariant
            0 <= i <= n,
            n == exclude_patterns.deep_view().len(),
            components.deep_view() == split_path(path@),
            match rel {
                Some(rl) => rel_spec == Some(rl@),
                None => rel_spec is None,
            },
            forall|j: int|
                0 <= j < i ==> !excluded_by(
                    path@,
                    base_dir@,
                    #[trigger] exclude_patterns.deep_view()[j],
                ),
        decreases n - i,
    {
        proof {
            assert(exclude_patterns.deep_view()[i as int] == exclude_patterns[i as int]@);
        }
        match &exclude_patterns[i] {
            ExcludePattern::Name(name) => {
                let m = components.len();
                let mut k: usize = 0;
                while k < m
                    invariant
                        0 <= k <= m,
                        m == components.deep_view().len(),
                        components.deep_view() == split_path(path@),
                        forall|j: int|
                            0 <= j < k ==> (#[trigger] components.deep_view()[j]) != name@,
                    decreases m - k,
                {
                    if crate::order::str_eq(components[k].as_str(), name.as_str()) {
                        proof {
                            assert(components.deep_view()[k as int] == name@);
                            assert(split_path(path@).contains(name@));
                            assert(excluded_by(path@, base_dir@, exclude_patterns.deep_view()[
                                i as int]));
                        }
                        return true;
                    }
                    k = k + 1;
                }
                proof {
                    assert(!split_path(path@).contains(name@)) by {
                        if split_path(path@).contains(name@) {
                            let w = choose|w: int|
                                0 <= w < split_path(path@).len() && split_path(path@)[w] == name@;
                            assert(components.deep_view()[w] == name@);
                        }
                    }
                }
                match &rel {
                    Some(rl) => {
                        if str_starts_with(rl.as_str(), name.as_str()) {
                            proof {
                                assert(rel_spec == Some(rl@));
                                assert(rel_name_matches(path@, base_dir@, name@));
                            }
                            return true;
                        }
                        proof {
                            assert(rel_spec == Some(rl@));
                            assert(!name@.is_prefix_of(rl@));
                            assert(!rel_name_matches(path@, base_dir@, name@));
                        }
                    },
                    None => {
                        proof {
                            assert(rel_spec is None);
                            assert(!rel_name_matches(path@, base_dir@, name@));
                        }
                    },
                }
                proof {
                    assert(!excluded_by(path@, base_dir@, exclude_patterns.deep_view()[i as int]));
                }
            },
            ExcludePattern::AbsolutePath(abs) => {
                if path_covers_exec(abs.as_str(), path) {
                    proof {
                        assert(excluded_by(path@, base_dir@, exclude_patterns.deep_view()[
                            i as int]));
                    }
                    return true;
                }
            },
        }
        i = i + 1;
    }
    false
}

/// Computes hash of a single file: the digest of its bytes. Fails when the
/// path is not a regular file of the snapshot.
pub fn hash_file(fs: &FsSnapshot, path: &str) -> (r: Result<String, YethError>)
    requires
        fs.wf(),
    ensures
        match r {
            Ok(h) => is_file_at(fs@, path@) && h@ == sha256_hex(bytes_at(fs@, path@))
                && is_hash_text(h@),
            Err(e) => !is_file_at(fs@, path@) && (e matches YethError::IoError(p) && p@ == path@),
        },
{
    match fs.read_file(path) {
        Some(bytes) => Ok(sha256_hex_of(bytes.as_slice())),
        None => Err(YethError::IoError(String::from_str(path))),
    }
}

/// The byte string that a final hash digests: the application's own
/// content hash followed by its dependency hashes, all UTF-8 encoded, in
/// exactly the given order.
pub open spec fn final_hash_input(own: Seq<char>, deps: Seq<Seq<char>>) -> Seq<u8>
    decreases deps.len(),
{
    if deps.len() == 0 {
        encode_utf8(own)
    } else {
        final_hash_input(own, deps.drop_last()) + encode_utf8(deps.last())
    }
}

/// Computes final application hash including dependencies: the digest of
/// the own hash followed by the dependency hashes, in declaration order.
/// Reordering the dependency hashes changes the digested bytes (see
/// [`lemma_final_hash_order_sensitive`]).
pub fn compute_final_hash(own_hash: &str, dep_hashes: &Vec<&str>) -> (r: String)
    ensures
        r@ == sha256_hex(final_hash_input(own_hash@, dep_hashes.deep_view())),
        is_hash_text(r@),
{
    let mut buf: Vec<u8> = own_hash.as_bytes_vec();
    let n = dep_hashes.len();
    let mut i: usize = 0;
    proof {
        assert(dep_hashes.deep_view().take(0) =~= Seq::<Seq<char>>::empty());
    }
    while i < n
        invariant
            0 <= i <= n,
            n == dep_hashes.deep_view().len(),
            buf@ == final_hash_input(own_hash@, dep_hashes.deep_view().take(i as int)),
        decreases n - i,
    {
        proof {
            assert(dep_hashes.deep_view()[i as int] == dep_hashes[i as int]@);
        }
        buf.extend_from_slice(dep_hashes[i].as_bytes());
        proof {
            let dv = dep_hashes.deep_view();
            assert(dv.take(i as int + 1).drop_last() =~= dv.take(i as int));
            assert(dv.take(i as int + 1).last() == dv[i as int]);
        }
        i = i + 1;
    }
    proof {
        assert(dep_hashes.deep_view().take(n as int) =~= dep_hashes.deep_view());
    }
    sha256_hex_of(buf.as_slice())
}

/// Exchanging two distinct dependency hashes of equal length changes the
/// byte string that the final hash digests: the composition is order
/// sensitive. (That the digests themselves then differ is SHA-256's
/// collision resistance, which is outside any contract here.) The inputs
/// are hex digest strings, which keeps them ASCII.
pub proof fn lemma_final_hash_order_sensitive(own: Seq<char>, d1: Seq<char>, d2: Seq<char>)
    requires
        d1 != d2,
        d1.len() == d2.len(),
        forall|i: int| 0 <= i < d1.len() ==> is_hex_digit(#[trigger] d1[i]),
        forall|i: int| 0 <= i < d2.len() ==> is_hex_digit(#[trigger] d2[i]),
    ensures
        final_hash_input(own, seq![d1, d2]) != final_hash_input(own, seq![d2, d1]),
{
    lemma_hex_is_ascii(d1);
    lemma_hex_is_ascii(d2);
    is_ascii_chars_encode_utf8(d1);
    is_ascii_chars_encode_utf8(d2);
    let e = encode_utf8(own);
    let b1 = encode_utf8(d1);
    let b2 = encode_utf8(d2);
    let s12 = seq![d1, d2];
    let s21 = seq![d2, d1];
    assert(seq![d1].drop_last() =~= Seq::<Seq<char>>::empty());
    assert(seq![d2].drop_last() =~= Seq::<Seq<char>>::empty());
    assert(s12.drop_last() =~= seq![d1]);
    assert(s21.drop_last() =~= seq![d2]);
    assert(final_hash_input(own, Seq::<Seq<char>>::empty()) == e);
    assert(seq![d1].last() == d1);
    assert(seq![d2].last() == d2);
    assert(final_hash_input(own, seq![d1]) == e + b1);
    assert(final_hash_input(own, seq![d2]) == e + b2);
    assert(s12.last() == d2);
    assert(s21.last() == d1);
    assert(final_hash_input(own, s12) == e + b1 + b2);
    assert(final_hash_input(own, s21) == e + b2 + b1);
    // the encodings differ at the first position where the strings differ
    assert(b1.len() == b2.len());
    assert(exists|k: int| 0 <= k < d1.len() && d1[k] != d2[k]) by {
        if forall|k: int| 0 <= k < d1.len() ==> d1[k] == d2[k] {
            assert(d1 =~= d2);
        }
    }
    let k = choose|k: int| 0 <= k < d1.len() && d1[k] != d2[k];
    assert(d1[k] != d2[k]);
    assert(b1[k] == d1[k] as u8);
    assert(b2[k] == d2[k] as u8);
    assert(b1[k] != b2[k]) by {
        assert(is_hex_digit(d1[k]));
        assert(is_hex_digit(d2[k]));
        assert('\0' <= d1[k] <= '\u{7f}');
        assert('\0' <= d2[k] <= '\u{7f}');
    }
    assert((e + b1 + b2)[e.len() + k] == b1[k]);
    assert((e + b2 + b1)[e.len() + k] == b2[k]);
    assert(final_hash_input(own, s12) != final_hash_input(own, s21));
}

/// The names that directory hashing always ignores: version-control
/// metadata, OS metadata, and the tool's own output artifact.
pub open spec fn ignored_name(name: Seq<char>) -> bool {
    name == ".git"@ || name == ".DS_Store"@ || name == "yeth.version"@
}

/// A snapshot entry contributes to a directory's hash when it is a regular
/// file strictly under the directory, its name is not in the fixed ignore
/// set, and no exclusion pattern matches it.
pub open spec fn keep_file(e: FsEntryView, dir: Seq<char>, pats: Seq<PatView>) -> bool {
    e.is_file && strictly_under(e.path, dir) && !ignored_name(split_path(e.path).last())
        && !should_exclude_spec(e.path, dir, pats)
}

/// The paths of the entries that contribute to a directory's hash, in
/// snapshot order.
pub open spec fn candidate_paths(
    fs: Seq<FsEntryView>,
    dir: Seq<char>,
    pats: Seq<PatView>,
) -> Seq<Seq<char>> {
    fs.filter(|e: FsEntryView| keep_file(e, dir, pats)).map_values(|e: FsEntryView| e.path)
}

/// The contributing paths in the lexicographic order in which their bytes
/// are digested. Sorting is what makes the directory hash independent of
/// the order in which the filesystem was enumerated.
pub open spec fn sorted_file_paths(
    fs: Seq<FsEntryView>,
    dir: Seq<char>,
    pats: Seq<PatView>,
) -> Seq<Seq<char>> {
    candidate_paths(fs, dir, pats).sort_by(lex_le_fn())
}

/// The bytes of the named files, concatenated in the given order.
pub open spec fn concat_bytes(fs: Seq<FsEntryView>, paths: Seq<Seq<char>>) -> Seq<u8>
    decreases paths.len(),
{
    if paths.len() == 0 {
        Seq::<u8>::empty()
    } else {
        concat_bytes(fs, paths.drop_last()) + bytes_at(fs, paths.last())
    }
}

/// The byte string that a directory hash digests: the contributing files'
/// bytes, concatenated in sorted path order.
pub open spec fn dir_hash_input(
    fs: Seq<FsEntryView>,
    dir: Seq<char>,
    pats: Seq<PatView>,
) -> Seq<u8> {
    concat_bytes(fs, sorted_file_paths(fs, dir, pats))
}

/// A contributing path names a regular file of the snapshot.
proof fn lemma_candidate_is_file(
    fs: Seq<FsEntryView>,
    dir: Seq<char>,
    pats: Seq<PatView>,
    p: Seq<char>,
)
    requires
        unique_paths(fs),
        candidate_paths(fs, dir, pats).contains(p),
    ensures
        is_file_at(fs, p),
{
    let keep = |e: FsEntryView| keep_file(e, dir, pats);
    let filtered = fs.filter(keep);
    let j = choose|j: int|
        0 <= j < candidate_paths(fs, dir, pats).len() && candidate_paths(fs, dir, pats)[j] == p;
    assert(filtered[j].path == p);
    crate::sequtil::lemma_filter_elem_from(fs, keep, j);
    let i = choose|i: int| 0 <= i < fs.len() && fs[i] == filtered[j] && keep(#[trigger] fs[i]);
    crate::fstree::lemma_idx_of_path_unique(fs, p, i);
}

/// Computes directory hash based on contents of all files: every regular
/// file strictly under the directory, except the fixed ignore set and the
/// excluded ones, is read in lexicographic path order into one digest.
#[verifier::loop_isolation(false)]
pub fn hash_directory(fs: &FsSnapshot, path: &str, exclude: &Vec<ExcludePattern>) -> (r: String)
    requires
        fs.wf(),
    ensures
        r@ == sha256_hex(dir_hash_input(fs@, path@, exclude.deep_view())),
        is_hash_text(r@),
{
    let ghost pats = exclude.deep_view();
    let ghost keep = |e: FsEntryView| keep_file(e, path@, pats);
    let mut files: Vec<String> = Vec::new();
    let n = fs.len();
    let mut i: usize = 0;
    proof {
        assert(fs@.take(0) =~= Seq::<FsEntryView>::empty());
        reveal(Seq::filter);
        assert(files.deep_view() =~= fs@.take(0).filter(keep).map_values(
            |e: FsEntryView| e.path,
        ));
    }
    while i < n
        invariant
            0 <= i <= n,
            files.deep_view() == fs@.take(i as int).filter(keep).map_values(
                |e: FsEntryView| e.path,
            ),
        decreases n - i,
    {
        let entry = fs.get_at(i);
        let ghost pre = files.deep_view();
        let mut keep_it = false;
        if entry.is_file && crate::paths::strictly_under_exec(entry.path.as_str(), path) {
            let file_name = crate::paths::last_component(entry.path.as_str());
            proof {
                reveal_strlit(".git");
                reveal_strlit(".DS_Store");
                reveal_strlit("yeth.version");
            }
            let ignored = crate::order::str_eq(file_name.as_str(), ".git") || crate::order::str_eq(
                file_name.as_str(),
                ".DS_Store",
            ) || crate::order::str_eq(file_name.as_str(), "yeth.version");
            if !ignored {
                if !should_exclude(entry.path.as_str(), path, exclude) {
                    keep_it = true;
                }
            }
        }
        proof {
            assert(keep_it == keep(fs@[i as int]));
            assert(fs@.take(i as int + 1).drop_last() =~= fs@.take(i as int));
            assert(fs@.take(i as int + 1).last() == fs@[i as int]);
            crate::sequtil::lemma_filter_push(fs@.take(i as int), fs@[i as int], keep);
        }
        if keep_it {
            files.push(entry.path.clone());
            proof {
                assert(files.deep_view() =~= pre.push(fs@[i as int].path));
                assert(fs@.take(i as int + 1).filter(keep).map_values(|e: FsEntryView| e.path)
                    =~= files.deep_view());
            }
        } else {
            proof {
                assert(fs@.take(i as int + 1).filter(keep).map_values(|e: FsEntryView| e.path)
                    =~= files.deep_view());
            }
        }
        i = i + 1;
    }
    proof {
        assert(fs@.take(n as int) =~= fs@);
    }
    let ghost cand = candidate_paths(fs@, path@, pats);
    let sorted = crate::order::sort_strings(files);
    proof {
        crate::order::lemma_lex_le_total_ordering();
        cand.lemma_sort_by_ensures(crate::order::lex_le_fn());
        crate::order::lemma_sorted_unique(sorted.deep_view(), cand.sort_by(crate::order::lex_le_fn()));
        assert(sorted.deep_view() == sorted_file_paths(fs@, path@, pats));
    }
    let mut buf: Vec<u8> = Vec::new();
    let m = sorted.len();
    let mut j: usize = 0;
    proof {
        assert(sorted.deep_view().take(0) =~= Seq::<Seq<char>>::empty());
        assert(buf@ =~= concat_bytes(fs@, sorted.deep_view().take(0)));
    }
    while j < m
        invariant
            0 <= j <= m,
            buf@ == concat_bytes(fs@, sorted.deep_view().take(j as int)),
        decreases m - j,
    {
        proof {
            broadcast use vstd::seq_lib::group_to_multiset_ensures;

            assert(sorted.deep_view()[j as int] == sorted[j as int]@);
            assert(sorted.deep_view().contains(sorted.deep_view()[j as int]));
            assert(cand.to_multiset().contains(sorted.deep_view()[j as int]));
            assert(cand.contains(sorted.deep_view()[j as int]));
            lemma_candidate_is_file(fs@, path@, pats, sorted.deep_view()[j as int]);
        }
        match fs.read_file(sorted[j].as_str()) {
            Some(bytes) => {
                buf.extend_from_slice(bytes.as_slice());
            },
            None => {
                proof {
                    assert(false);
                }
            },
        }
        proof {
            assert(sorted.deep_view().take(j as int + 1).drop_last() =~= sorted.deep_view().take(
                j as int,
            ));
            assert(sorted.deep_view().take(j as int + 1).last() == sorted.deep_view()[j as int]);
        }
        j = j + 1;
    }
    proof {
        assert(sorted.deep_view().take(m as int) =~= sorted.deep_view());
    }
    sha256_hex_of(buf.as_slice())
}

/// Computes hash of path (file or directory): a regular file is hashed by
/// its bytes, a directory by its contributing files. Fails when the path
/// is neither a file nor a directory of the snapshot.
pub fn hash_path(fs: &FsSnapshot, path: &str, exclude: &Vec<ExcludePattern>) -> (r: Result<
    String,
    YethError,
>)
    requires
        fs.wf(),
    ensures
        match r {
            Ok(h) => is_hash_text(h@) && ((is_file_at(fs@, path@) && h@ == sha256_hex(
                bytes_at(fs@, path@),
            )) || (!is_file_at(fs@, path@) && is_dir_at(fs@, path@) && h@ == sha256_hex(
                dir_hash_input(fs@, path@, exclude.deep_view()),
            ))),
            Err(e) => !is_file_at(fs@, path@) && !is_dir_at(fs@, path@) && (
            e matches YethError::NorFileOrDirectory(p) && p@ == path@),
        },
{
    if fs.is_file(path) {
        hash_file(fs, path)
    } else if fs.is_dir(path) {
        Ok(hash_directory(fs, path, exclude))
    } else {
        Err(YethError::NorFileOrDirectory(String::from_str(path)))
    }
}


/// A hash-shaped text encodes to exactly 64 bytes, one per character.
proof fn lemma_hash_text_encode(s: Seq<char>)
    requires
        is_hash_text(s),
    ensures
        encode_utf8(s).len() == 64,
        forall|i: int| 0 <= i < 64 ==> #[trigger] encode_utf8(s)[i] == s[i] as u8,
{
    lemma_hex_is_ascii(s);
    is_ascii_chars_encode_utf8(s);
}

/// Two hash-shaped texts with the same encoding are the same text.
proof fn lemma_hash_text_bytes_injective(s1: Seq<char>, s2: Seq<char>)
    requires
        is_hash_text(s1),
        is_hash_text(s2),
        encode_utf8(s1) == encode_utf8(s2),
    ensures
        s1 == s2,
{
    lemma_hash_text_encode(s1);
    lemma_hash_text_encode(s2);
    assert forall|i: int| 0 <= i < 64 implies s1[i] == s2[i] by {
        assert(encode_utf8(s1)[i] == s1[i] as u8);
        assert(encode_utf8(s2)[i] == s2[i] as u8);
        assert(is_hex_digit(s1[i]));
        assert(is_hex_digit(s2[i]));
        if s1[i] != s2[i] {
            if s1[i] < s2[i] {
                assert((s1[i] as u8) < (s2[i] as u8));
            } else {
                assert(s2[i] < s1[i]) by {
                    if !(s2[i] < s1[i]) {
                        assert(s1[i] == s2[i]);
                    }
                }
                assert((s2[i] as u8) < (s1[i] as u8));
            }
        }
    }
    assert(s1 =~= s2);
}

/// A final hash digests `64 * (1 + n)` bytes when the own hash and the
/// `n` dependency hashes all have the hash shape.
pub proof fn lemma_final_hash_input_len(own: Seq<char>, deps: Seq<Seq<char>>)
    requires
        is_hash_text(own),
        forall|j: int| 0 <= j < deps.len() ==> is_hash_text(#[trigger] deps[j]),
    ensures
        final_hash_input(own, deps).len() == 64 * (1 + deps.len()),
    decreases deps.len(),
{
    if deps.len() == 0 {
        lemma_hash_text_encode(own);
    } else {
        assert forall|j: int| 0 <= j < deps.drop_last().len() implies is_hash_text(
            #[trigger] deps.drop_last()[j],
        ) by {
            assert(deps.drop_last()[j] == deps[j]);
        }
        lemma_final_hash_input_len(own, deps.drop_last());
        assert(deps.last() == deps[deps.len() - 1]);
        lemma_hash_text_encode(deps.last());
    }
}

/// On hash-shaped inputs the composed byte string determines the own hash
/// and every dependency hash: change the own content hash or any one
/// dependency hash — or their number, or their order — and the final hash
/// digests a different byte string. This is what makes a change propagate
/// to every dependent's fingerprint. (That the digests themselves then
/// differ is SHA-256's collision resistance, outside any contract here.)
pub proof fn lemma_final_hash_input_injective(
    own1: Seq<char>,
    deps1: Seq<Seq<char>>,
    own2: Seq<char>,
    deps2: Seq<Seq<char>>,
)
    requires
        is_hash_text(own1),
        is_hash_text(own2),
        forall|j: int| 0 <= j < deps1.len() ==> is_hash_text(#[trigger] deps1[j]),
        forall|j: int| 0 <= j < deps2.len() ==> is_hash_text(#[trigger] deps2[j]),
        final_hash_input(own1, deps1) == final_hash_input(own2, deps2),
    ensures
        own1 == own2,
        deps1 == deps2,
    decreases deps1.len(),
{
    lemma_final_hash_input_len(own1, deps1);
    lemma_final_hash_input_len(own2, deps2);
    assert(deps1.len() == deps2.len());
    if deps1.len() == 0 {
        lemma_hash_text_bytes_injective(own1, own2);
        assert(deps1 =~= deps2);
    } else {
        let i1 = final_hash_input(own1, deps1.drop_last());
        let i2 = final_hash_input(own2, deps2.drop_last());
        let e1 = encode_utf8(deps1.last());
        let e2 = encode_utf8(deps2.last());
        assert(deps1.last() == deps1[deps1.len() - 1]);
        assert(deps2.last() == deps2[deps2.len() - 1]);
        lemma_hash_text_encode(deps1.last());
        lemma_hash_text_encode(deps2.last());
        assert forall|j: int| 0 <= j < deps1.drop_last().len() implies is_hash_text(
            #[trigger] deps1.drop_last()[j],
        ) by {
            assert(deps1.drop_last()[j] == deps1[j]);
        }
        assert forall|j: int| 0 <= j < deps2.drop_last().len() implies is_hash_text(
            #[trigger] deps2.drop_last()[j],
        ) by {
            assert(deps2.drop_last()[j] == deps2[j]);
        }
        lemma_final_hash_input_len(own1, deps1.drop_last());
        lemma_final_hash_input_len(own2, deps2.drop_last());
        assert(i1.len() == i2.len());
        assert(i1 + e1 == i2 + e2);
        assert(i1 =~= (i1 + e1).take(i1.len() as int));
        assert(i2 =~= (i2 + e2).take(i2.len() as int));
        assert(e1 =~= (i1 + e1).skip(i1.len() as int));
        assert(e2 =~= (i2 + e2).skip(i2.len() as int));
        assert(i1 == i2);
        assert(e1 == e2);
        lemma_hash_text_bytes_injective(deps1.last(), deps2.last());
        lemma_final_hash_input_injective(own1, deps1.drop_last(), own2, deps2.drop_last());
        assert(deps1 =~= deps2) by {
            assert(deps1.drop_last() == deps2.drop_last());
            assert forall|j: int| 0 <= j < deps1.len() implies deps1[j] == deps2[j] by {
                if j < deps1.len() - 1 {
                    assert(deps1.drop_last()[j] == deps1[j]);
                    assert(deps2.drop_last()[j] == deps2[j]);
                }
            }
        }
    }
}

/// Two snapshots with unique paths and the same entries name the same
/// entry under every path.
proof fn lemma_lookup_agree(fs1: Seq<FsEntryView>, fs2: Seq<FsEntryView>, p: Seq<char>)
    requires
        unique_paths(fs1),
        unique_paths(fs2),
        fs1.to_multiset() == fs2.to_multiset(),
    ensures
        crate::fstree::lookup_entry(fs1, p) == crate::fstree::lookup_entry(fs2, p),
{
    broadcast use vstd::seq_lib::group_to_multiset_ensures;

    if crate::fstree::contains_path(fs1, p) {
        let i1 = crate::fstree::idx_of_path(fs1, p);
        let e = fs1[i1];
        assert(fs1.contains(e));
        assert(fs1.to_multiset().count(e) > 0);
        assert(fs2.to_multiset().count(e) > 0);
        assert(fs2.contains(e));
        let i2 = choose|i: int| 0 <= i < fs2.len() && fs2[i] == e;
        crate::fstree::lemma_idx_of_path_unique(fs1, p, i1);
        crate::fstree::lemma_idx_of_path_unique(fs2, p, i2);
    } else if crate::fstree::contains_path(fs2, p) {
        let i2 = crate::fstree::idx_of_path(fs2, p);
        let e = fs2[i2];
        assert(fs2.contains(e));
        assert(fs2.to_multiset().count(e) > 0);
        assert(fs1.to_multiset().count(e) > 0);
        assert(fs1.contains(e));
        let i1 = choose|i: int| 0 <= i < fs1.len() && fs1[i] == e;
        assert(fs1[i1].path == p);
        assert(crate::fstree::contains_path(fs1, p));
    }
}

/// With unique paths, no path contributes twice to a directory hash.
proof fn lemma_candidates_no_dup(fs: Seq<FsEntryView>, dir: Seq<char>, pats: Seq<PatView>)
    requires
        unique_paths(fs),
    ensures
        candidate_paths(fs, dir, pats).no_duplicates(),
    decreases fs.len(),
{
    reveal(Seq::filter);
    let keep = |e: FsEntryView| keep_file(e, dir, pats);
    if fs.len() > 0 {
        let rest = fs.drop_last();
        assert(unique_paths(rest)) by {
            assert(forall|i: int| 0 <= i < rest.len() ==> rest[i] == fs[i]);
        }
        lemma_candidates_no_dup(rest, dir, pats);
        let cr = candidate_paths(rest, dir, pats);
        let c = candidate_paths(fs, dir, pats);
        if keep(fs.last()) {
            assert(fs.filter(keep) == rest.filter(keep).push(fs.last()));
            assert(c =~= cr.push(fs.last().path));
            assert(!cr.contains(fs.last().path)) by {
                if cr.contains(fs.last().path) {
                    let j = choose|j: int| 0 <= j < cr.len() && cr[j] == fs.last().path;
                    crate::sequtil::lemma_filter_elem_from(rest, keep, j);
                    let i = choose|i: int|
                        0 <= i < rest.len() && rest[i] == rest.filter(keep)[j] && keep(
                            #[trigger] rest[i],
                        );
                    assert(fs[i].path == fs[fs.len() - 1].path);
                }
            }
            assert forall|p: int, q: int| 0 <= p < q < c.len() implies c[p] != c[q] by {
                if q == c.len() - 1 {
                    assert(cr.contains(c[p])) by {
                        assert(cr[p] == c[p]);
                    }
                } else {
                    assert(cr[p] == c[p] && cr[q] == c[q]);
                }
            }
        } else {
            assert(fs.filter(keep) == rest.filter(keep));
            assert(c =~= cr);
        }
    }
}

/// A path contributes to a directory hash exactly when some entry carries
/// it and passes the filters.
proof fn lemma_candidates_membership(
    fs: Seq<FsEntryView>,
    dir: Seq<char>,
    pats: Seq<PatView>,
    x: Seq<char>,
)
    ensures
        candidate_paths(fs, dir, pats).contains(x) <==> exists|i: int|
            0 <= i < fs.len() && (#[trigger] fs[i]).path == x && keep_file(fs[i], dir, pats),
{
    let keep = |e: FsEntryView| keep_file(e, dir, pats);
    let c = candidate_paths(fs, dir, pats);
    if c.contains(x) {
        let j = choose|j: int| 0 <= j < c.len() && c[j] == x;
        assert(fs.filter(keep)[j].path == x);
        crate::sequtil::lemma_filter_elem_from(fs, keep, j);
        let i = choose|i: int|
            0 <= i < fs.len() && fs[i] == fs.filter(keep)[j] && keep(#[trigger] fs[i]);
        assert(fs[i].path == x && keep_file(fs[i], dir, pats));
    }
    if exists|i: int| 0 <= i < fs.len() && (#[trigger] fs[i]).path == x && keep_file(
        fs[i],
        dir,
        pats,
    ) {
        let i = choose|i: int|
            0 <= i < fs.len() && (#[trigger] fs[i]).path == x && keep_file(fs[i], dir, pats);
        fs.lemma_filter_contains(keep, i);
        let e = fs[i];
        let j = choose|j: int| 0 <= j < fs.filter(keep).len() && fs.filter(keep)[j] == e;
        assert(c[j] == x);
        assert(c.contains(x));
    }
}

/// Concatenation looks the files up in whichever snapshot is given; two
/// snapshots that agree on every listed path concatenate the same bytes.
proof fn lemma_concat_congruence(fs1: Seq<FsEntryView>, fs2: Seq<FsEntryView>, ps: Seq<Seq<char>>)
    requires
        forall|j: int| 0 <= j < ps.len() ==> bytes_at(fs1, #[trigger] ps[j]) == bytes_at(
            fs2,
            ps[j],
        ),
    ensures
        concat_bytes(fs1, ps) == concat_bytes(fs2, ps),
    decreases ps.len(),
{
    if ps.len() > 0 {
        lemma_concat_congruence(fs1, fs2, ps.drop_last());
    }
}

/// If exactly one listed file's bytes differ between two snapshots, the
/// concatenations differ.
proof fn lemma_concat_differ(
    fs1: Seq<FsEntryView>,
    fs2: Seq<FsEntryView>,
    ps: Seq<Seq<char>>,
    k: int,
)
    requires
        0 <= k < ps.len(),
        forall|j: int|
            0 <= j < ps.len() && j != k ==> bytes_at(fs1, #[trigger] ps[j]) == bytes_at(
                fs2,
                ps[j],
            ),
        bytes_at(fs1, ps[k]) != bytes_at(fs2, ps[k]),
    ensures
        concat_bytes(fs1, ps) != concat_bytes(fs2, ps),
    decreases ps.len(),
{
    let c1 = concat_bytes(fs1, ps.drop_last());
    let c2 = concat_bytes(fs2, ps.drop_last());
    let b1 = bytes_at(fs1, ps.last());
    let b2 = bytes_at(fs2, ps.last());
    if k == ps.len() - 1 {
        lemma_concat_congruence(fs1, fs2, ps.drop_last());
        assert(c1 == c2);
        if c1 + b1 == c2 + b2 {
            assert((c1 + b1).len() == c1.len() + b1.len());
            assert((c2 + b2).len() == c2.len() + b2.len());
            assert(b1.len() == b2.len());
            assert((c1 + b1).skip(c1.len() as int) =~= b1);
            assert((c2 + b2).skip(c2.len() as int) =~= b2);
            assert(false);
        }
    } else {
        assert forall|j: int|
            0 <= j < ps.drop_last().len() && j != k implies bytes_at(
            fs1,
            #[trigger] ps.drop_last()[j],
        ) == bytes_at(fs2, ps.drop_last()[j]) by {
            assert(ps.drop_last()[j] == ps[j]);
        }
        assert(ps.drop_last()[k] == ps[k]);
        lemma_concat_differ(fs1, fs2, ps.drop_last(), k);
        assert(b1 == b2) by {
            assert(ps[ps.len() - 1] == ps.last());
            assert(bytes_at(fs1, ps[ps.len() - 1]) == bytes_at(fs2, ps[ps.len() - 1]));
        }
        if c1 + b1 == c2 + b2 {
            assert((c1 + b1).len() == (c2 + b2).len());
            assert(c1.len() == c2.len());
            assert((c1 + b1).take(c1.len() as int) =~= c1);
            assert((c2 + b2).take(c2.len() as int) =~= c2);
            assert(false);
        }
    }
}

/// The directory hash does not depend on the order in which the
/// filesystem was enumerated: two snapshots holding the same entries, in
/// any order, digest the same byte string and so carry the same hash.
pub proof fn lemma_dir_hash_deterministic(
    fs1: Seq<FsEntryView>,
    fs2: Seq<FsEntryView>,
    dir: Seq<char>,
    pats: Seq<PatView>,
)
    requires
        unique_paths(fs1),
        unique_paths(fs2),
        fs1.to_multiset() == fs2.to_multiset(),
    ensures
        dir_hash_input(fs1, dir, pats) == dir_hash_input(fs2, dir, pats),
        sha256_hex(dir_hash_input(fs1, dir, pats)) == sha256_hex(dir_hash_input(fs2, dir, pats)),
{
    broadcast use vstd::seq_lib::group_to_multiset_ensures;

    let c1 = candidate_paths(fs1, dir, pats);
    let c2 = candidate_paths(fs2, dir, pats);
    lemma_candidates_no_dup(fs1, dir, pats);
    lemma_candidates_no_dup(fs2, dir, pats);
    // same membership, hence (without duplicates) the same multiset
    assert forall|x: Seq<char>| #[trigger] c1.contains(x) implies c2.contains(x) by {
        lemma_candidates_membership(fs1, dir, pats, x);
        lemma_candidates_membership(fs2, dir, pats, x);
        let i = choose|i: int|
            0 <= i < fs1.len() && (#[trigger] fs1[i]).path == x && keep_file(fs1[i], dir, pats);
        assert(fs1.contains(fs1[i]));
        assert(fs1.to_multiset().count(fs1[i]) > 0);
        assert(fs2.to_multiset().count(fs1[i]) > 0);
        assert(fs2.contains(fs1[i]));
        let i2 = choose|i2: int| 0 <= i2 < fs2.len() && fs2[i2] == fs1[i];
        assert(fs2[i2].path == x && keep_file(fs2[i2], dir, pats));
    }
    assert forall|x: Seq<char>| #[trigger] c2.contains(x) implies c1.contains(x) by {
        lemma_candidates_membership(fs1, dir, pats, x);
        lemma_candidates_membership(fs2, dir, pats, x);
        let i = choose|i: int|
            0 <= i < fs2.len() && (#[trigger] fs2[i]).path == x && keep_file(fs2[i], dir, pats);
        assert(fs2.contains(fs2[i]));
        assert(fs2.to_multiset().count(fs2[i]) > 0);
        assert(fs1.to_multiset().count(fs2[i]) > 0);
        assert(fs1.contains(fs2[i]));
        let i1 = choose|i1: int| 0 <= i1 < fs1.len() && fs1[i1] == fs2[i];
        assert(fs1[i1].path == x && keep_file(fs1[i1], dir, pats));
    }
    c1.lemma_multiset_has_no_duplicates();
    c2.lemma_multiset_has_no_duplicates();
    assert(c1.to_multiset() =~= c2.to_multiset()) by {
        assert forall|x: Seq<char>| true implies c1.to_multiset().count(x) == c2.to_multiset().count(
            x,
        ) by {
            if c1.contains(x) {
                assert(c1.to_multiset().count(x) == 1);
                assert(c2.contains(x));
                assert(c2.to_multiset().count(x) == 1);
            } else {
                assert(!c2.contains(x));
                assert(c1.to_multiset().count(x) == 0);
                assert(c2.to_multiset().count(x) == 0);
            }
        }
    }
    crate::order::lemma_lex_le_total_ordering();
    c1.lemma_sort_by_ensures(lex_le_fn());
    c2.lemma_sort_by_ensures(lex_le_fn());
    crate::order::lemma_sorted_unique(c1.sort_by(lex_le_fn()), c2.sort_by(lex_le_fn()));
    assert forall|j: int|
        0 <= j < c1.sort_by(lex_le_fn()).len() implies bytes_at(
        fs1,
        #[trigger] c1.sort_by(lex_le_fn())[j],
    ) == bytes_at(fs2, c1.sort_by(lex_le_fn())[j]) by {
        lemma_lookup_agree(fs1, fs2, c1.sort_by(lex_le_fn())[j]);
    }
    lemma_concat_congruence(fs1, fs2, c1.sort_by(lex_le_fn()));
}

/// A file that the filters drop — excluded, ignored, outside the
/// directory, or not a regular file — does not change the directory hash:
/// adding it to the snapshot digests the same byte string.
pub proof fn lemma_dropped_entry_irrelevant(
    fs: Seq<FsEntryView>,
    e: FsEntryView,
    dir: Seq<char>,
    pats: Seq<PatView>,
)
    requires
        unique_paths(fs),
        !crate::fstree::contains_path(fs, e.path),
        !keep_file(e, dir, pats),
    ensures
        dir_hash_input(fs.push(e), dir, pats) == dir_hash_input(fs, dir, pats),
        sha256_hex(dir_hash_input(fs.push(e), dir, pats)) == sha256_hex(
            dir_hash_input(fs, dir, pats),
        ),
{
    let keep = |x: FsEntryView| keep_file(x, dir, pats);
    crate::sequtil::lemma_filter_push(fs, e, keep);
    assert(candidate_paths(fs.push(e), dir, pats) =~= candidate_paths(fs, dir, pats));
    let sorted = sorted_file_paths(fs, dir, pats);
    crate::order::lemma_lex_le_total_ordering();
    candidate_paths(fs, dir, pats).lemma_sort_by_ensures(lex_le_fn());
    assert forall|j: int| 0 <= j < sorted.len() implies bytes_at(fs.push(e), #[trigger] sorted[j])
        == bytes_at(fs, sorted[j]) by {
        broadcast use vstd::seq_lib::group_to_multiset_ensures;

        assert(candidate_paths(fs, dir, pats).to_multiset().contains(sorted[j]));
        assert(candidate_paths(fs, dir, pats).contains(sorted[j]));
        lemma_candidates_membership(fs, dir, pats, sorted[j]);
        let i = choose|i: int|
            0 <= i < fs.len() && (#[trigger] fs[i]).path == sorted[j] && keep_file(
                fs[i],
                dir,
                pats,
            );
        crate::fstree::lemma_idx_of_path_unique(fs, sorted[j], i);
        assert(fs.push(e)[i] == fs[i]);
        assert(unique_paths(fs.push(e))) by {
            assert forall|p: int, q: int|
                0 <= p < q < fs.push(e).len() implies (#[trigger] fs.push(e)[p].path) != (
            #[trigger] fs.push(e)[q].path) by {
                if q < fs.len() {
                    assert(fs[p].path != fs[q].path);
                } else {
                    assert(fs.push(e)[q] == e);
                    assert(fs.push(e)[p] == fs[p]);
                    assert(fs.contains(fs[p]));
                    if fs[p].path == e.path {
                        assert(crate::fstree::contains_path(fs, e.path));
                    }
                }
            }
        }
        crate::fstree::lemma_idx_of_path_unique(fs.push(e), sorted[j], i);
    }
    lemma_concat_congruence(fs.push(e), fs, sorted);
}

/// Changing the bytes of one contributing file changes the byte string
/// that the directory hash digests. (That the digests themselves then
/// differ is SHA-256's collision resistance, outside any contract here.)
pub proof fn lemma_dir_hash_content_sensitive(
    fs1: Seq<FsEntryView>,
    fs2: Seq<FsEntryView>,
    dir: Seq<char>,
    pats: Seq<PatView>,
    p: Seq<char>,
)
    requires
        unique_paths(fs1),
        unique_paths(fs2),
        fs1.len() == fs2.len(),
        forall|i: int|
            0 <= i < fs1.len() ==> (#[trigger] fs1[i]).path == fs2[i].path && fs1[i].is_file
                == fs2[i].is_file,
        forall|i: int|
            0 <= i < fs1.len() && (#[trigger] fs1[i]).path != p ==> fs1[i].bytes == fs2[i].bytes,
        candidate_paths(fs1, dir, pats).contains(p),
        bytes_at(fs1, p) != bytes_at(fs2, p),
    ensures
        dir_hash_input(fs1, dir, pats) != dir_hash_input(fs2, dir, pats),
{
    // the two snapshots select the same paths in the same order
    assert(candidate_paths(fs1, dir, pats) =~= candidate_paths(fs2, dir, pats)) by {
        lemma_candidates_pointwise(fs1, fs2, dir, pats);
    }
    let sorted = sorted_file_paths(fs1, dir, pats);
    crate::order::lemma_lex_le_total_ordering();
    candidate_paths(fs1, dir, pats).lemma_sort_by_ensures(lex_le_fn());
    lemma_candidates_no_dup(fs1, dir, pats);
    // p appears in the sorted list exactly once
    broadcast use vstd::seq_lib::group_to_multiset_ensures;

    assert(candidate_paths(fs1, dir, pats).to_multiset().contains(p));
    assert(sorted.to_multiset().contains(p));
    assert(sorted.contains(p));
    let k = choose|k: int| 0 <= k < sorted.len() && sorted[k] == p;
    assert forall|j: int| 0 <= j < sorted.len() && j != k implies bytes_at(
        fs1,
        #[trigger] sorted[j],
    ) == bytes_at(fs2, sorted[j]) by {
        assert(sorted[j] != p) by {
            candidate_paths(fs1, dir, pats).lemma_multiset_has_no_duplicates();
            sorted.lemma_multiset_has_no_duplicates_conv();
            if sorted[j] == p {
                assert(sorted.to_multiset().count(p) >= 1);
            }
        }
        lemma_lookup_agree_pointwise(fs1, fs2, sorted[j], p);
    }
    lemma_concat_differ(fs1, fs2, sorted, k);
    assert(sorted_file_paths(fs2, dir, pats) == sorted);
}

/// Entries that agree on path and file kind select the same paths.
proof fn lemma_candidates_pointwise(
    fs1: Seq<FsEntryView>,
    fs2: Seq<FsEntryView>,
    dir: Seq<char>,
    pats: Seq<PatView>,
)
    requires
        fs1.len() == fs2.len(),
        forall|i: int|
            0 <= i < fs1.len() ==> (#[trigger] fs1[i]).path == fs2[i].path && fs1[i].is_file
                == fs2[i].is_file,
    ensures
        candidate_paths(fs1, dir, pats) == candidate_paths(fs2, dir, pats),
    decreases fs1.len(),
{
    reveal(Seq::filter);
    let keep = |e: FsEntryView| keep_file(e, dir, pats);
    if fs1.len() > 0 {
        let r1 = fs1.drop_last();
        let r2 = fs2.drop_last();
        assert forall|i: int|
            0 <= i < r1.len() implies (#[trigger] r1[i]).path == r2[i].path && r1[i].is_file
            == r2[i].is_file by {
            assert(r1[i] == fs1[i]);
            assert(r2[i] == fs2[i]);
        }
        lemma_candidates_pointwise(r1, r2, dir, pats);
        assert(fs1.last() == fs1[fs1.len() - 1]);
        assert(fs2.last() == fs2[fs2.len() - 1]);
        assert(fs1.last().path == fs2.last().path && fs1.last().is_file == fs2.last().is_file);
        assert(keep(fs1.last()) == keep(fs2.last()));
        if keep(fs1.last()) {
            assert(fs1.filter(keep) == r1.filter(keep).push(fs1.last()));
            assert(fs2.filter(keep) == r2.filter(keep).push(fs2.last()));
            assert(candidate_paths(fs1, dir, pats) =~= candidate_paths(r1, dir, pats).push(
                fs1.last().path,
            ));
            assert(candidate_paths(fs2, dir, pats) =~= candidate_paths(r2, dir, pats).push(
                fs2.last().path,
            ));
        } else {
            assert(fs1.filter(keep) == r1.filter(keep));
            assert(fs2.filter(keep) == r2.filter(keep));
            assert(candidate_paths(fs1, dir, pats) =~= candidate_paths(r1, dir, pats));
            assert(candidate_paths(fs2, dir, pats) =~= candidate_paths(r2, dir, pats));
        }
    } else {
        assert(candidate_paths(fs1, dir, pats) =~= candidate_paths(fs2, dir, pats));
    }
}

/// For a path other than the changed one, snapshots that agree pointwise
/// on paths and kinds, and on the bytes of every other path, look the file
/// up to the same bytes.
proof fn lemma_lookup_agree_pointwise(
    fs1: Seq<FsEntryView>,
    fs2: Seq<FsEntryView>,
    q: Seq<char>,
    p: Seq<char>,
)
    requires
        fs1.len() == fs2.len(),
        forall|i: int|
            0 <= i < fs1.len() ==> (#[trigger] fs1[i]).path == fs2[i].path && fs1[i].is_file
                == fs2[i].is_file,
        forall|i: int|
            0 <= i < fs1.len() && (#[trigger] fs1[i]).path != p ==> fs1[i].bytes == fs2[i].bytes,
        unique_paths(fs1),
        unique_paths(fs2),
        q != p,
    ensures
        bytes_at(fs1, q) == bytes_at(fs2, q),
{
    if crate::fstree::contains_path(fs1, q) {
        let i = crate::fstree::idx_of_path(fs1, q);
        crate::fstree::lemma_idx_of_path_unique(fs1, q, i);
        crate::fstree::lemma_idx_of_path_unique(fs2, q, i);
        assert(fs1[i].bytes == fs2[i].bytes);
    } else {
        assert(!crate::fstree::contains_path(fs2, q)) by {
            if crate::fstree::contains_path(fs2, q) {
                let i = crate::fstree::idx_of_path(fs2, q);
                assert(fs1[i].path == q);
            }
        }
    }
}

} // verus!
