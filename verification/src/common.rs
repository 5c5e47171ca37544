use vstd::prelude::*;
use vstd::hash_map::StringHashMap;
use vstd::string::StrSliceExecFns;
use vstd::string::StringExecFns;

verus! {

/// The fixed service configuration: a version and an environment tag.
pub fn build_config() -> (r: StringHashMap<String>)
    ensures
        r@.len() == 2,
        r@.contains_key("version"@) && r@["version"@]@ == "1.0.0"@,
        r@.contains_key("env"@) && r@["env"@]@ == "production"@,
{
    broadcast use vstd::hash_map::group_hash_map_axioms;

    let mut config: StringHashMap<String> = StringHashMap::new();
    config.insert(String::from_str("version"), String::from_str("1.0.0"));
    config.insert(String::from_str("env"), String::from_str("production"));
    proof {
        reveal_strlit("version");
        reveal_strlit("env");
        assert("version"@.len() == 7);
        assert("env"@.len() == 3);
        assert(config@.dom() =~= Set::<Seq<char>>::empty().insert("version"@).insert("env"@));
        assert(config@.dom().len() == 2) by {
            broadcast use vstd::set::group_set_axioms;

            assert(Set::<Seq<char>>::empty().insert("version"@).len() == 1);
        }
    }
    config
}

/// Whether a character occurs in a string.
fn str_has_char(s: &str, c: char) -> (r: bool)
    ensures
        r == s@.contains(c),
{
    let n = s.unicode_len();
    let mut i: usize = 0;
    while i < n
        invariant
            0 <= i <= n,
            n == s@.len(),
            forall|j: int| 0 <= j < i ==> s@[j] != c,
        decreases n - i,
    {
        if s.get_char(i) == c {
            proof {
                assert(s@[i as int] == c);
            }
            return true;
        }
        i = i + 1;
    }
    false
}

/// A rough well-formedness test for an email address: it carries an `@`
/// and a dot somewhere.
pub fn validate_email(email: &str) -> (r: bool)
    ensures
        r == (email@.contains('@') && email@.contains('.')),
{
    str_has_char(email, '@') && str_has_char(email, '.')
}

} // verus!
