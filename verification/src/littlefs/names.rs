//! Canonical root-relative paths: UTF-8 components separated by `/`, none of
//! them empty, `.` or `..`.

use vstd::prelude::*;
use vstd::utf8::{is_char_boundary, is_char_boundary_iff_not_is_continuation_byte, is_char_boundary_start_end_of_seq, valid_utf8, valid_utf8_concat, valid_utf8_split};

verus! {

/// The separator of path components.
pub const SLASH: u8 = 0x2f;

const DOT: u8 = 0x2e;

/// `n[i..j]` is one of the parts that the separators cut `n` into.
pub open spec fn is_component(n: Seq<u8>, i: int, j: int) -> bool {
    &&& 0 <= i <= j <= n.len()
    &&& i == 0 || n[i - 1] == SLASH
    &&& j == n.len() || n[j] == SLASH
    &&& forall|k: int| i <= k < j ==> n[k] != SLASH
}

/// A component may be anything but empty, `.` and `..`.
pub open spec fn good_component(c: Seq<u8>) -> bool {
    &&& c.len() > 0
    &&& c != seq![0x2eu8]
    &&& c != seq![0x2eu8, 0x2eu8]
}

/// `n` is a canonical path.
pub open spec fn valid_name(n: Seq<u8>) -> bool {
    &&& 1 <= n.len() <= 63
    &&& forall|i: int| 0 <= i < n.len() ==> n[i] != 0
    &&& forall|i: int, j: int|
        #[trigger] is_component(n, i, j) ==> good_component(n.subrange(i, j))
}

/// `n` is a canonical path and well-formed UTF-8, so it can name an entry.
#[verifier::opaque]
pub open spec fn path_ok(n: Seq<u8>) -> bool {
    valid_name(n) && valid_utf8(n)
}

/// Index of the last separator, or -1.
pub open spec fn last_slash(n: Seq<u8>) -> int
    decreases n.len(),
{
    if n.len() == 0 {
        -1
    } else if n.last() == SLASH {
        n.len() - 1
    } else {
        last_slash(n.drop_last())
    }
}

/// The path of the directory that holds `n`, unless that is the root.
pub open spec fn parent_of(n: Seq<u8>) -> Option<Seq<u8>> {
    if last_slash(n) < 0 {
        None
    } else {
        Some(n.take(last_slash(n)))
    }
}

/// The last component of `n`.
pub open spec fn base_of(n: Seq<u8>) -> Seq<u8> {
    n.skip(last_slash(n) + 1)
}

/// `path` lies below the directory `dir`.
pub open spec fn descendant(path: Seq<u8>, dir: Seq<u8>) -> bool {
    &&& path.len() > dir.len()
    &&& path[dir.len() as int] == SLASH
    &&& path.take(dir.len() as int) == dir
}

/// `name` with its leading `old` replaced by `new`.
pub open spec fn moved(name: Seq<u8>, old_name: Seq<u8>, new_name: Seq<u8>) -> Seq<u8> {
    new_name + name.skip(old_name.len() as int)
}

pub proof fn lemma_last_slash(n: Seq<u8>)
    ensures
        -1 <= last_slash(n) < n.len(),
        last_slash(n) >= 0 ==> n[last_slash(n)] == SLASH,
        forall|i: int| last_slash(n) < i < n.len() ==> n[i] != SLASH,
    decreases n.len(),
{
    if n.len() == 0 {
    } else if n.last() == SLASH {
    } else {
        lemma_last_slash(n.drop_last());
        let r = last_slash(n.drop_last());
        assert forall|i: int| r < i < n.len() implies n[i] != SLASH by {
            if i < n.len() - 1 {
                assert(n.drop_last()[i] == n[i]);
            }
        }
    }
}

proof fn lemma_last_slash_unique(n: Seq<u8>, r: int)
    requires
        -1 <= r < n.len(),
        r >= 0 ==> n[r] == SLASH,
        forall|i: int| r < i < n.len() ==> n[i] != SLASH,
    ensures
        last_slash(n) == r,
{
    lemma_last_slash(n);
}

/// The parent of a path is a directory above it, and nearest to it.
pub proof fn lemma_parent(n: Seq<u8>)
    requires
        parent_of(n) is Some,
    ensures
        descendant(n, parent_of(n)->0),
        parent_of(n)->0.len() < n.len(),
        forall|d: Seq<u8>|
            #[trigger] descendant(n, d) ==> d == parent_of(n)->0 || descendant(parent_of(n)->0, d),
{
    lemma_last_slash(n);
    let p = parent_of(n)->0;
    assert forall|d: Seq<u8>| #[trigger] descendant(n, d) implies d == p || descendant(p, d) by {
        if d.len() == p.len() {
            assert(d == p);
        } else {
            assert(d.len() < p.len());
            assert(p.take(d.len() as int) =~= n.take(d.len() as int));
        }
    }
}

/// A path below a directory has a parent.
pub proof fn lemma_descendant_has_parent(n: Seq<u8>, d: Seq<u8>)
    requires
        descendant(n, d),
    ensures
        parent_of(n) is Some,
{
    lemma_last_slash(n);
}

/// `name` is `top` itself or lies below it.
pub open spec fn within(name: Seq<u8>, top: Seq<u8>) -> bool {
    name == top || descendant(name, top)
}

/// Moving a path leaves a path, as long as it does not get too long.
pub proof fn lemma_moved_ok(name: Seq<u8>, old_name: Seq<u8>, new_name: Seq<u8>)
    requires
        path_ok(name),
        path_ok(new_name),
        within(name, old_name),
        moved(name, old_name, new_name).len() <= 63,
    ensures
        path_ok(moved(name, old_name, new_name)),
        1 <= moved(name, old_name, new_name).len(),
{
    reveal(path_ok);
    lemma_moved_valid(name, old_name, new_name);
    lemma_moved_utf8(name, old_name, new_name);
}

/// Moving a path keeps it canonical, as long as it does not get too long.
proof fn lemma_moved_valid(name: Seq<u8>, old_name: Seq<u8>, new_name: Seq<u8>)
    requires
        valid_name(name),
        valid_name(new_name),
        within(name, old_name),
        moved(name, old_name, new_name).len() <= 63,
    ensures
        valid_name(moved(name, old_name, new_name)),
{
    let m = moved(name, old_name, new_name);
    let d = new_name.len() - old_name.len();
    assert forall|i: int| 0 <= i < m.len() implies m[i] != 0 by {
        if i >= new_name.len() {
            assert(m[i] == name[i - d]);
        }
    }
    assert forall|i: int, j: int| #[trigger] is_component(m, i, j) implies good_component(
        m.subrange(i, j),
    ) by {
        if j <= new_name.len() {
            assert(is_component(new_name, i, j)) by {
                assert forall|k: int| i <= k < j implies new_name[k] != SLASH by {
                    assert(m[k] == new_name[k]);
                }
                if j < new_name.len() {
                    assert(m[j] == new_name[j]);
                }
                if i > 0 {
                    assert(m[i - 1] == new_name[i - 1]);
                }
            }
            assert(m.subrange(i, j) =~= new_name.subrange(i, j));
        } else {
            assert(m[new_name.len() as int] == name[old_name.len() as int]);
            assert(i > new_name.len());
            assert(is_component(name, i - d, j - d)) by {
                assert(m[i - 1] == name[i - 1 - d]);
                if j < m.len() {
                    assert(m[j] == name[j - d]);
                }
                assert forall|k: int| i - d <= k < j - d implies name[k] != SLASH by {
                    assert(m[k + d] == name[k]);
                }
            }
            assert(m.subrange(i, j) =~= name.subrange(i - d, j - d));
        }
    }
}

/// Moving a path keeps it well-formed UTF-8.
proof fn lemma_moved_utf8(name: Seq<u8>, old_name: Seq<u8>, new_name: Seq<u8>)
    requires
        valid_utf8(name),
        valid_utf8(new_name),
        within(name, old_name),
    ensures
        valid_utf8(moved(name, old_name, new_name)),
{
    let k = old_name.len() as int;
    if k < name.len() {
        is_char_boundary_iff_not_is_continuation_byte(name, k);
    } else {
        is_char_boundary_start_end_of_seq(name);
    }
    assert(is_char_boundary(name, k));
    valid_utf8_split(name, k);
    assert(name.subrange(k, name.len() as int) =~= name.skip(k));
    valid_utf8_concat(new_name, name.skip(k));
}

/// The last component of well-formed text is well-formed.
pub proof fn lemma_base_utf8(n: Seq<u8>)
    requires
        valid_utf8(n),
    ensures
        valid_utf8(base_of(n)),
{
    lemma_last_slash(n);
    let k = last_slash(n);
    if k < 0 {
        assert(base_of(n) =~= n);
    } else {
        is_char_boundary_iff_not_is_continuation_byte(n, k);
        valid_utf8_split(n, k);
        let tail = n.subrange(k, n.len() as int);
        assert(tail[0] == SLASH);
        assert(vstd::utf8::pop_first_scalar(tail) =~= base_of(n));
    }
}

/// Different paths stay different when they are moved.
pub proof fn lemma_moved_injective(
    a: Seq<u8>,
    b: Seq<u8>,
    old_name: Seq<u8>,
    new_name: Seq<u8>,
)
    requires
        within(a, old_name),
        within(b, old_name),
        moved(a, old_name, new_name) == moved(b, old_name, new_name),
    ensures
        a == b,
{
    let k = old_name.len() as int;
    let ma = moved(a, old_name, new_name);
    let mb = moved(b, old_name, new_name);
    assert(ma.len() == new_name.len() + a.len() - k);
    assert(mb.len() == new_name.len() + b.len() - k);
    assert(a.take(k) =~= old_name && b.take(k) =~= old_name);
    assert forall|i: int| 0 <= i < a.len() implies a[i] == b[i] by {
        if i < k {
            assert(a.take(k)[i] == b.take(k)[i]);
        } else {
            assert(ma[i - k + new_name.len()] == a[i]);
            assert(mb[i - k + new_name.len()] == b[i]);
        }
    }
    assert(a =~= b);
}

/// Moving a path moves its parent.
pub proof fn lemma_moved_parent(name: Seq<u8>, old_name: Seq<u8>, new_name: Seq<u8>)
    requires
        descendant(name, old_name),
    ensures
        parent_of(name) is Some,
        within(parent_of(name)->0, old_name),
        parent_of(moved(name, old_name, new_name)) == Some(
            moved(parent_of(name)->0, old_name, new_name),
        ),
        within(moved(name, old_name, new_name), new_name),
{
    let k = old_name.len() as int;
    let m = moved(name, old_name, new_name);
    let d = new_name.len() - k;
    lemma_last_slash(name);
    let r = last_slash(name);
    assert(r >= k);
    lemma_parent(name);
    assert(m[r + d] == name[r]);
    assert forall|i: int| r + d < i < m.len() implies m[i] != SLASH by {
        assert(m[i] == name[i - d]);
    }
    lemma_last_slash_unique(m, r + d);
    assert(m.take(r + d) =~= moved(name.take(r), old_name, new_name));
    assert(m[new_name.len() as int] == name[k]);
    assert(m.take(new_name.len() as int) =~= new_name);
}

/// A path is a chain of components: a component alone is one, and one more may follow a
/// path behind a separator. A component is not empty, holds no zero, and is neither `.` nor
/// `..`; the whole has 63 bytes at most.
pub proof fn law_paths_are_made_of_components(dir: Seq<u8>, c: Seq<u8>)
    requires
        forall|i: int| 0 <= i < c.len() ==> #[trigger] c[i] != 0x2f,
    ensures
        ({
            let good = c.len() > 0 && !c.contains(0) && !(c.len() == 1 && c[0] == 0x2e) && !(c.len()
                == 2 && c[0] == 0x2e && c[1] == 0x2e);
            let joined = dir.push(0x2f) + c;
            &&& valid_name(c) <==> good && c.len() <= 63
            &&& valid_name(joined) <==> valid_name(dir) && good && joined.len() <= 63
        }),
{
    let good = c.len() > 0 && !c.contains(0) && !(c.len() == 1 && c[0] == 0x2e) && !(c.len() == 2
        && c[0] == 0x2e && c[1] == 0x2e);
    let n = c.len() as int;
    let d = dir.len() as int;
    let joined = dir.push(0x2f) + c;
    assert(is_component(c, 0, n));
    assert(c.subrange(0, n) =~= c);
    if n == 1 && c[0] == 0x2e {
        assert(c =~= seq![0x2eu8]);
    }
    if n == 2 && c[0] == 0x2e && c[1] == 0x2e {
        assert(c =~= seq![0x2eu8, 0x2eu8]);
    }
    if good && n <= 63 {
        assert forall|i: int, j: int| #[trigger] is_component(c, i, j) implies good_component(
            c.subrange(i, j),
        ) by {
            if i > 0 {
                assert(c[i - 1] == SLASH);
            }
            if j < n {
                assert(c[j] == SLASH);
            }
        }
    }
    assert(is_component(joined, d + 1, d + 1 + n)) by {
        assert forall|k: int| d + 1 <= k < d + 1 + n implies joined[k] != SLASH by {
            assert(joined[k] == c[k - d - 1]);
        }
    }
    assert(joined.subrange(d + 1, d + 1 + n) =~= c);
    if valid_name(joined) {
        assert forall|i: int| 0 <= i < n implies c[i] != 0 by {
            assert(joined[d + 1 + i] == c[i]);
        }
        assert forall|i: int, j: int| #[trigger] is_component(dir, i, j) implies good_component(
            dir.subrange(i, j),
        ) by {
            assert(is_component(joined, i, j)) by {
                assert forall|k: int| i <= k < j implies joined[k] != SLASH by {
                    assert(joined[k] == dir[k]);
                }
            }
            assert(joined.subrange(i, j) =~= dir.subrange(i, j));
        }
        if d == 0 {
            assert(is_component(joined, 0, 0));
            assert(joined.subrange(0, 0).len() == 0);
        }
        assert forall|i: int| 0 <= i < d implies dir[i] != 0 by {
            assert(joined[i] == dir[i]);
        }
    }
    if valid_name(dir) && good && joined.len() <= 63 {
        assert forall|i: int| 0 <= i < joined.len() implies joined[i] != 0 by {
            if i > d {
                assert(joined[i] == c[i - d - 1]);
                assert(c.contains(c[i - d - 1]));
            }
        }
        assert forall|i: int, j: int| #[trigger] is_component(joined, i, j) implies good_component(
            joined.subrange(i, j),
        ) by {
            if i > d {
                if i > d + 1 {
                    assert(joined[i - 1] == c[i - d - 2]);
                }
                if j < joined.len() {
                    assert(joined[j] == c[j - d - 1]);
                }
                assert(joined.subrange(i, j) =~= c);
            } else {
                assert(joined[d] == SLASH);
                assert(is_component(dir, i, j)) by {
                    assert forall|k: int| i <= k < j implies dir[k] != SLASH by {
                        assert(joined[k] == dir[k]);
                    }
                }
                assert(joined.subrange(i, j) =~= dir.subrange(i, j));
            }
        }
    }
}

/// Whether the bytes are a well-formed UTF-8 string.
///
/// Wraps `core::str::from_utf8`, of which this states that it succeeds exactly
/// on well-formed UTF-8.
#[verifier::external_body]
pub(crate) fn is_utf8(bytes: &[u8]) -> (r: bool)
    ensures
        r == valid_utf8(bytes@),
{
    core::str::from_utf8(bytes).is_ok()
}

/// The bytes as a string.
///
/// Wraps `String::from_utf8`, of which this states that it succeeds exactly on
/// well-formed UTF-8 and that the string is made of the same bytes.
#[verifier::external_body]
pub(crate) fn text(bytes: Vec<u8>) -> (r: Option<String>)
    ensures
        r is Some <==> valid_utf8(bytes@),
        r is Some ==> vstd::utf8::encode_utf8(r->0@) == bytes@,
{
    String::from_utf8(bytes).ok()
}

/// Whether two byte strings are equal.
pub(crate) fn same_bytes(a: &[u8], b: &[u8]) -> (r: bool)
    ensures
        r == (a@ == b@),
{
    if a.len() != b.len() {
        return false;
    }
    let mut i: usize = 0;
    while i < a.len()
        invariant
            i <= a@.len(),
            a@.len() == b@.len(),
            forall|j: int| 0 <= j < i ==> a@[j] == b@[j],
        decreases a@.len() - i,
    {
        if a[i] != b[i] {
            return false;
        }
        i += 1;
    }
    assert(a@ =~= b@);
    true
}

/// Whether `name` is a canonical path.
pub(crate) fn validate_name(name: &[u8]) -> (r: bool)
    ensures
        r == valid_name(name@),
{
    let ghost n = name@;
    if name.len() == 0 || name.len() > 63 {
        return false;
    }
    let mut start: usize = 0;
    let mut i: usize = 0;
    while i <= name.len()
        invariant
            n == name@,
            1 <= n.len() <= 63,
            0 <= start <= i <= n.len() + 1,
            start == 0 || start == n.len() + 1 || n[start - 1] == SLASH,
            start <= n.len() || i == n.len() + 1,
            forall|k: int| start <= k < i && k < n.len() ==> n[k] != SLASH,
            forall|k: int| 0 <= k < i && k < n.len() ==> n[k] != 0,
            forall|a: int, b: int|
                #[trigger] is_component(n, a, b) && b < i ==> good_component(n.subrange(a, b)),
        decreases n.len() + 1 - i,
    {
        if i == name.len() || name[i] == SLASH {
            let length: usize = i - start;
            proof {
                assert(is_component(n, start as int, i as int));
                assert forall|a: int| #[trigger] is_component(n, a, i as int) implies a == start by {
                    if a < start {
                        assert(n[start - 1] == SLASH);
                    } else if a > start {
                        assert(n[a - 1] == SLASH);
                    }
                }
            }
            let ghost c = n.subrange(start as int, i as int);
            if length == 0 {
                return false;
            }
            if length == 1 && name[start] == DOT {
                assert(c =~= seq![0x2eu8]);
                return false;
            }
            if length == 2 && name[start] == DOT && name[start + 1] == DOT {
                assert(c =~= seq![0x2eu8, 0x2eu8]);
                return false;
            }
            proof {
                assert(c.len() == length && c[0] == n[start as int]);
                if c == seq![0x2eu8] {
                    assert(c.len() == 1 && c[0] == 0x2e);
                    assert(false);
                }
                if c == seq![0x2eu8, 0x2eu8] {
                    assert(c.len() == 2 && c[0] == 0x2e && c[1] == 0x2e);
                    assert(c[1] == n[start + 1]);
                    assert(false);
                }
                assert(good_component(c));
                assert forall|a: int, b: int|
                    #[trigger] is_component(n, a, b) && b < i + 1 implies good_component(
                    n.subrange(a, b),
                ) by {
                    if b == i {
                        assert(a == start);
                    }
                }
            }
            start = i + 1;
        } else if name[i] == 0 {
            return false;
        } else {
            assert forall|a: int, b: int|
                #[trigger] is_component(n, a, b) && b < i + 1 implies good_component(
                n.subrange(a, b),
            ) by {
                assert(b != i);
            }
        }
        i += 1;
    }
    proof {
        assert forall|a: int, b: int| #[trigger] is_component(n, a, b) implies good_component(
            n.subrange(a, b),
        ) by {
            assert(b < i);
        }
    }
    true
}

/// Whether `name` can name an entry.
pub(crate) fn validate_path(name: &[u8]) -> (r: bool)
    ensures
        r == path_ok(name@),
        r ==> 1 <= name@.len() <= 63,
{
    reveal(path_ok);
    is_utf8(name) && validate_name(name)
}

/// Length of the parent path of `path`, unless that is the root.
pub(crate) fn parent_len(path: &[u8]) -> (r: Option<usize>)
    ensures
        match r {
            Some(k) => last_slash(path@) == k && k < path@.len(),
            None => last_slash(path@) < 0,
        },
        r is Some <==> parent_of(path@) is Some,
{
    let mut i: usize = path.len();
    while i > 0
        invariant
            i <= path@.len(),
            forall|k: int| i <= k < path@.len() ==> path@[k] != SLASH,
        decreases i,
    {
        if path[i - 1] == SLASH {
            proof {
                lemma_last_slash_unique(path@, i - 1);
            }
            return Some(i - 1);
        }
        i -= 1;
    }
    proof {
        lemma_last_slash_unique(path@, -1);
    }
    None
}

/// The path of the directory that holds `path`, unless that is the root.
pub(crate) fn parent_name(path: &[u8]) -> (r: Option<&[u8]>)
    ensures
        match r {
            Some(p) => parent_of(path@) == Some(p@),
            None => parent_of(path@) is None,
        },
{
    match parent_len(path) {
        Some(k) => {
            assert(path@.subrange(0, k as int) =~= path@.take(k as int));
            Some(&path[0..k])
        },
        None => None,
    }
}

/// The last component of `path`.
pub(crate) fn base_name(path: &[u8]) -> (r: &[u8])
    ensures
        r@ == base_of(path@),
{
    match parent_len(path) {
        Some(k) => {
            let length: usize = path.len();
            assert(path@.subrange(k + 1, path@.len() as int) =~= path@.skip(k + 1));
            &path[k + 1..length]
        },
        None => {
            proof {
                lemma_last_slash(path@);
            }
            assert(path@.skip(0) =~= path@);
            path
        },
    }
}

/// Whether `path` lies below `directory`.
pub(crate) fn is_descendant(path: &[u8], directory: &[u8]) -> (r: bool)
    ensures
        r == descendant(path@, directory@),
{
    if path.len() <= directory.len() || path[directory.len()] != SLASH {
        return false;
    }
    assert(path@.subrange(0, directory@.len() as int) =~= path@.take(directory@.len() as int));
    same_bytes(&path[0..directory.len()], directory)
}

} // verus!
