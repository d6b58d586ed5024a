use vstd::prelude::*;

verus! {

/// What `Path::eq` answers for the paths written `a` and `b`: whether their
/// components are equal.
pub uninterp spec fn same_path_spec(a: Seq<char>, b: Seq<char>) -> bool;

/// `Path::eq` on the paths written `a` and `b`, which compares them
/// component by component as the platform the crate is built for splits
/// paths; the contract claims that the answer is `same_path_spec(a, b)`, a
/// function of the two strings alone, and that it is the same with the two
/// paths swapped, as `PartialEq` asks of every implementation.
#[verifier::external_body]
pub(crate) fn same_path(a: &str, b: &str) -> (r: bool)
    ensures
        r == same_path_spec(a@, b@),
        r == same_path_spec(b@, a@),
{
    std::path::Path::new(a) == std::path::Path::new(b)
}

/// What `Path::file_name` gives for the path written `p`: its final
/// component, or nothing when the path ends in `..` or has no component.
pub uninterp spec fn path_file_name(p: Seq<char>) -> Option<Seq<char>>;

/// `Path::file_name` on the path written `p`, the name turned back into a
/// string (a name cut from a string is always valid text); the contract
/// claims only that the result is `path_file_name(p)`, a function of `p`
/// alone.
#[verifier::external_body]
fn file_name_of(p: &str) -> (r: Option<String>)
    ensures
        match r {
            Some(n) => path_file_name(p@) == Some(n@),
            None => path_file_name(p@) is None,
        },
{
    match std::path::Path::new(p).file_name() {
        Some(n) => match n.to_str() {
            Some(s) => Some(s.to_owned()),
            None => None,
        },
        None => None,
    }
}

/// The name shown for a result file: the last component of its path, or
/// `???` when it has none.
pub open spec fn display_file_name(p: Seq<char>) -> Seq<char> {
    match path_file_name(p) {
        Some(n) => n,
        None => seq!['?', '?', '?'],
    }
}

/// The name shown for the file at `path`.
pub fn file_name(path: &str) -> (r: String)
    ensures
        r@ == display_file_name(path@),
{
    match file_name_of(path) {
        Some(n) => n,
        None => {
            let r = "???".to_owned();
            proof {
                reveal_strlit("???");
            }
            assert(r@ =~= seq!['?', '?', '?']);
            r
        },
    }
}

} // verus!
