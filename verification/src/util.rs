use vstd::prelude::*;
use crate::config::names_contain;
use crate::error::{CliError, CliResult};

verus! {

/// Relies on str's PartialEq: two string slices compare equal exactly when
/// their character sequences are equal.
#[verifier::external_body]
pub fn str_eq(a: &str, b: &str) -> (r: bool)
    ensures
        r == (a@ == b@),
{
    a == b
}

/// A copy of a name list whose entries read the same.
#[verifier::loop_isolation(false)]
pub fn clone_names(v: &Vec<String>) -> (r: Vec<String>)
    ensures
        r@ == v@,
{
    let mut r: Vec<String> = Vec::new();
    let mut i: usize = 0;
    while i < v.len()
        invariant
            0 <= i <= v@.len(),
            r@ == v@.take(i as int),
        decreases v@.len() - i,
    {
        r.push(v[i].clone());
        proof {
            assert(r@ =~= v@.take(i as int + 1));
        }
        i += 1;
    }
    proof {
        assert(v@.take(v@.len() as int) =~= v@);
    }
    r
}

/// Whether `names` holds `name`, compared by characters.
pub fn name_in_list(names: &Vec<String>, name: &str) -> (r: bool)
    ensures
        r == names_contain(names.deep_view(), name@),
{
    let ghost all = names.deep_view();
    let mut i: usize = 0;
    while i < names.len()
        invariant
            all == names.deep_view(),
            all.len() == names.len(),
            forall|j: int| 0 <= j < all.len() ==> all[j] == names@[j]@,
            0 <= i <= names.len(),
            forall|j: int| 0 <= j < i ==> all[j] != name@,
        decreases names.len() - i,
    {
        if str_eq(names[i].as_str(), name) {
            assert(all[i as int] == name@);
            return true;
        }
        i += 1;
    }
    false
}


/// The lock document's path: the manifest path with its final "toml"
/// read as "lock", as the build tool lays the two files side by side.
pub fn lock_file_of(manifest: &str) -> (r: String)
    requires
        manifest@.len() >= 4,
    ensures
        r@ == manifest@.subrange(0, manifest@.len() - 4) + ("lock")@,
{
    let n = manifest.unicode_len();
    let mut s = manifest.substring_char(0, n - 4).to_owned();
    s.append("lock");
    s
}

/// Index at which the file-name part of a path begins: just past the last
/// separator, or the start when the path has none.
pub open spec fn file_name_start(p: Seq<char>) -> int
    decreases p.len(),
{
    if p.len() == 0 {
        0
    } else if p[p.len() - 1] == '/' {
        p.len() as int
    } else {
        file_name_start(p.drop_last())
    }
}

/// The file-name part of a path: everything after the last separator.
pub open spec fn file_name_of(p: Seq<char>) -> Seq<char> {
    p.subrange(file_name_start(p), p.len() as int)
}

pub proof fn lemma_file_name_start_bounds(p: Seq<char>)
    ensures
        0 <= file_name_start(p) <= p.len(),
        forall|j: int| file_name_start(p) <= j < p.len() ==> p[j] != '/',
        file_name_start(p) == 0 || p[file_name_start(p) - 1] == '/',
    decreases p.len(),
{
    if p.len() > 0 && p[p.len() - 1] != '/' {
        lemma_file_name_start_bounds(p.drop_last());
        assert(forall|j: int| 0 <= j < p.len() - 1 ==> p[j] == p.drop_last()[j]);
    }
}

/// Checks that a path names a file called Cargo.toml: the part after the
/// last separator must read exactly so, and a path whose tail is empty or
/// a dot component does not name a file at all.
pub fn is_cargo_toml(file_name: &str) -> (r: CliResult<()>)
    ensures
        r is Ok <==> file_name_of(file_name@) == "Cargo.toml"@,
        r matches Err(e) ==> e is Toml,
{
    proof {
        reveal_strlit("Cargo.toml");
        reveal_strlit(".");
        reveal_strlit("..");
        lemma_file_name_start_bounds(file_name@);
    }
    let n = file_name.unicode_len();
    let mut start: usize = n;
    let mut found = false;
    while start > 0 && !found
        invariant
            n == file_name@.len(),
            0 <= start <= n,
            forall|j: int| start <= j < n ==> file_name@[j] != '/',
            found ==> start > 0 && file_name@[start - 1] == '/',
        decreases start + (if found { 0int } else { 1int }),
    {
        if file_name.get_char(start - 1) == '/' {
            found = true;
        } else {
            start -= 1;
        }
    }
    proof {
        assert(start == file_name_start(file_name@)) by {
            let s1 = start as int;
            let s2 = file_name_start(file_name@);
            if s1 < s2 {
                assert(file_name@[s2 - 1] != '/');
            }
            if s2 < s1 {
                assert(file_name@[s1 - 1] != '/');
            }
        }
    }
    let tail = file_name.substring_char(start, n);
    if tail.unicode_len() == 0 || str_eq(tail, ".") || str_eq(tail, "..") {
        assert(file_name_of(file_name@) != "Cargo.toml"@);
        return Err(CliError::Toml(String::from_str("The manifest path is not a valid file")));
    }
    if !str_eq(tail, "Cargo.toml") {
        return Err(CliError::Toml(String::from_str(
            "The manifest-path must be a path to a Cargo.toml file",
        )));
    }
    Ok(())
}

} // verus!
