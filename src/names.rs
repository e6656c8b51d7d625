use vstd::prelude::*;
use vstd::string::StrSliceExecFns;

verus! {

/// Whether `n` holds a `..` segment that starts at position `i`: two dots
/// bounded on each side by a `/` or by an end of the name.
pub open spec fn is_parent_segment_at(n: Seq<char>, i: int) -> bool {
    &&& 0 <= i
    &&& i + 2 <= n.len()
    &&& n[i] == '.'
    &&& n[i + 1] == '.'
    &&& (i == 0 || n[i - 1] == '/')
    &&& (i + 2 == n.len() || n[i + 2] == '/')
}

/// A name that stays below the root it is joined to: not empty, not
/// absolute, and without a `..` segment.
pub open spec fn is_safe_name(n: Seq<char>) -> bool {
    &&& n.len() > 0
    &&& n[0] != '/'
    &&& forall|i: int| 0 <= i < n.len() ==> !#[trigger] is_parent_segment_at(n, i)
}

/// A name that marks a directory.
pub open spec fn ends_with_slash(n: Seq<char>) -> bool {
    n.len() > 0 && n.last() == '/'
}

/// The position of the last `/` in `n`, or -1 where there is none.
pub open spec fn last_slash(n: Seq<char>) -> int
    decreases n.len(),
{
    if n.len() == 0 {
        -1
    } else if n.last() == '/' {
        n.len() - 1
    } else {
        last_slash(n.drop_last())
    }
}

/// `name` placed below `root`, with one `/` between them where `root` does
/// not already end in one; an empty root leaves the name as it is.
pub open spec fn joined(root: Seq<char>, name: Seq<char>) -> Seq<char> {
    if root.len() == 0 {
        name
    } else if root.last() == '/' {
        root + name
    } else {
        root + seq!['/'] + name
    }
}

/// The directory that holds the file `name` once it is placed below `root`.
pub open spec fn parent_path(root: Seq<char>, name: Seq<char>) -> Seq<char> {
    if last_slash(name) < 0 {
        root
    } else {
        joined(root, name.subrange(0, last_slash(name)))
    }
}

pub proof fn lemma_last_slash_bounds(n: Seq<char>)
    ensures
        -1 <= last_slash(n) < n.len(),
        last_slash(n) >= 0 ==> n[last_slash(n)] == '/',
    decreases n.len(),
{
    if n.len() > 0 && n.last() != '/' {
        lemma_last_slash_bounds(n.drop_last());
    }
}

/// Placing two names below one root gives one path only for one name.
pub proof fn lemma_joined_injective(root: Seq<char>, a: Seq<char>, b: Seq<char>)
    requires
        joined(root, a) == joined(root, b),
    ensures
        a == b,
{
    let k = joined(root, a).len() - a.len();
    assert(joined(root, a).subrange(k, joined(root, a).len() as int) =~= a);
    assert(joined(root, b).subrange(k, joined(root, b).len() as int) =~= b);
}

/// The characters of `s`, in order.
pub fn chars_of(s: &str) -> (r: Vec<char>)
    ensures
        r@ == s@,
{
    let n = s.unicode_len();
    let mut r: Vec<char> = Vec::new();
    let mut i: usize = 0;
    while i < n
        invariant
            n == s@.len(),
            i <= n,
            r@ == s@.subrange(0, i as int),
        decreases n - i,
    {
        r.push(s.get_char(i));
        i += 1;
        assert(r@ =~= s@.subrange(0, i as int));
    }
    assert(r@ =~= s@);
    r
}

/// Relies on `String`'s `FromIterator<char>`: collecting characters
/// concatenates them, in order.
#[verifier::external_body]
pub(crate) fn string_of(v: &Vec<char>) -> (r: String)
    ensures
        r@ == v@,
{
    v.iter().collect::<String>()
}

/// Whether `name` stays below the root it is joined to.
pub fn is_safe_entry_name(name: &str) -> (r: bool)
    ensures
        r == is_safe_name(name@),
{
    let n = chars_of(name);
    if n.len() == 0 || n[0] == '/' {
        return false;
    }
    let mut i: usize = 0;
    while i < n.len()
        invariant
            n@ == name@,
            n@.len() > 0,
            n@[0] != '/',
            i <= n@.len(),
            forall|j: int| 0 <= j < i ==> !#[trigger] is_parent_segment_at(n@, j),
        decreases n.len() - i,
    {
        if n.len() - i >= 2 && n[i] == '.' && n[i + 1] == '.' && (i == 0 || n[i - 1] == '/') && (
        i + 2 == n.len() || n[i + 2] == '/') {
            assert(is_parent_segment_at(n@, i as int));
            return false;
        }
        i += 1;
    }
    true
}

/// Whether `name` marks a directory.
pub fn names_directory(name: &Vec<char>) -> (r: bool)
    ensures
        r == ends_with_slash(name@),
{
    name.len() > 0 && name[name.len() - 1] == '/'
}

/// The position of the last `/` in `n`, if any.
pub fn find_last_slash(n: &Vec<char>) -> (r: Option<usize>)
    ensures
        r is None <==> last_slash(n@) < 0,
        r is Some ==> r->0 == last_slash(n@),
{
    let mut i: usize = n.len();
    assert(n@.subrange(0, i as int) =~= n@);
    while i > 0
        invariant
            i <= n@.len(),
            last_slash(n@) == last_slash(n@.subrange(0, i as int)),
        decreases i,
    {
        if n[i - 1] == '/' {
            return Some(i - 1);
        }
        assert(n@.subrange(0, i as int).drop_last() =~= n@.subrange(0, i - 1));
        i -= 1;
    }
    None
}

/// `name` placed below `root`.
pub fn join_chars(root: &Vec<char>, name: &Vec<char>) -> (r: Vec<char>)
    ensures
        r@ == joined(root@, name@),
{
    let mut r = root.clone();
    if root.len() > 0 && root[root.len() - 1] != '/' {
        r.push('/');
    }
    let mut i: usize = 0;
    while i < name.len()
        invariant
            i <= name@.len(),
            r@ == (if root@.len() == 0 || root@.last() == '/' { root@ } else { root@ + seq!['/'] })
                + name@.subrange(0, i as int),
        decreases name.len() - i,
    {
        r.push(name[i]);
        i += 1;
        assert(name@.subrange(0, i as int) =~= name@.subrange(0, i - 1).push(name@[i - 1]));
    }
    assert(name@.subrange(0, name@.len() as int) =~= name@);
    proof {
        if root@.len() == 0 {
            assert(r@ =~= name@);
        }
    }
    r
}

/// The first `len` characters of `n`.
pub fn prefix_chars(n: &Vec<char>, len: usize) -> (r: Vec<char>)
    requires
        len <= n@.len(),
    ensures
        r@ == n@.subrange(0, len as int),
{
    let mut r: Vec<char> = Vec::new();
    let mut i: usize = 0;
    while i < len
        invariant
            i <= len <= n@.len(),
            r@ == n@.subrange(0, i as int),
        decreases len - i,
    {
        r.push(n[i]);
        i += 1;
        assert(r@ =~= n@.subrange(0, i as int));
    }
    r
}

/// The directory that holds the file `name` once it is placed below `root`.
pub fn parent_of(root: &Vec<char>, name: &Vec<char>) -> (r: Vec<char>)
    ensures
        r@ == parent_path(root@, name@),
{
    match find_last_slash(name) {
        None => root.clone(),
        Some(k) => {
            proof {
                lemma_last_slash_bounds(name@);
            }
            join_chars(root, &prefix_chars(name, k))
        },
    }
}

} // verus!
