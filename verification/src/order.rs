//! Lexicographic order on byte strings and on optional paths.
//!
//! Excerpts are keyed first by the path their buffer had when its first
//! excerpt was created. Paths are compared byte-wise; a missing path sorts
//! before every present one.

use vstd::prelude::*;

verus! {

/// Strict lexicographic order on byte sequences: a proper prefix sorts
/// before its extensions, otherwise the first differing byte decides.
pub open spec fn bytes_lt(a: Seq<u8>, b: Seq<u8>) -> bool
    decreases a.len(),
{
    if b.len() == 0 {
        false
    } else if a.len() == 0 {
        true
    } else if a[0] < b[0] {
        true
    } else if a[0] > b[0] {
        false
    } else {
        bytes_lt(a.skip(1), b.skip(1))
    }
}

/// `bytes_lt` is connex: two sequences are ordered one way, the other way,
/// or they are equal.
pub proof fn lemma_bytes_lt_connex(a: Seq<u8>, b: Seq<u8>)
    ensures
        bytes_lt(a, b) || bytes_lt(b, a) || a == b,
    decreases a.len(),
{
    if a.len() == 0 || b.len() == 0 {
        if a.len() == 0 && b.len() == 0 {
            assert(a =~= b);
        }
    } else if a[0] == b[0] {
        lemma_bytes_lt_connex(a.skip(1), b.skip(1));
        if !bytes_lt(a, b) && !bytes_lt(b, a) {
            assert(a.skip(1) == b.skip(1));
            assert(a.len() == b.len());
            assert forall|i: int| 0 <= i < a.len() implies a[i] == b[i] by {
                if i > 0 {
                    assert(a.skip(1)[i - 1] == b.skip(1)[i - 1]);
                }
            }
            assert(a =~= b);
        }
    }
}

/// `bytes_lt` is asymmetric and irreflexive.
pub proof fn lemma_bytes_lt_asym(a: Seq<u8>, b: Seq<u8>)
    requires
        bytes_lt(a, b),
    ensures
        !bytes_lt(b, a),
        a != b,
    decreases a.len(),
{
    if a.len() != 0 && b.len() != 0 && a[0] == b[0] {
        lemma_bytes_lt_asym(a.skip(1), b.skip(1));
        if a == b {
            assert(a.skip(1) =~= b.skip(1));
        }
    } else if a.len() == 0 {
        assert(a != b);
    }
}

/// `bytes_lt` is transitive.
pub proof fn lemma_bytes_lt_trans(a: Seq<u8>, b: Seq<u8>, c: Seq<u8>)
    requires
        bytes_lt(a, b),
        bytes_lt(b, c),
    ensures
        bytes_lt(a, c),
    decreases a.len() + b.len() + c.len(),
{
    if a.len() == 0 {
    } else {
        // b and c are both non-empty here.
        if a[0] == b[0] && b[0] == c[0] {
            lemma_bytes_lt_trans(a.skip(1), b.skip(1), c.skip(1));
        }
    }
}

/// Three-way comparison result for verified comparisons.
#[derive(Clone, Copy, Debug, PartialEq, Eq, Structural)]
pub enum Cmp {
    Lt,
    Eq,
    Gt,
}

/// Compares two byte strings; the result reflects `bytes_lt` exactly.
pub fn bytes_cmp(a: &Vec<u8>, b: &Vec<u8>) -> (r: Cmp)
    ensures
        (r == Cmp::Lt) == bytes_lt(a@, b@),
        (r == Cmp::Eq) == (a@ == b@),
        (r == Cmp::Gt) == bytes_lt(b@, a@),
{
    proof {
        lemma_bytes_lt_connex(a@, b@);
        if bytes_lt(a@, b@) {
            lemma_bytes_lt_asym(a@, b@);
        }
        if bytes_lt(b@, a@) {
            lemma_bytes_lt_asym(b@, a@);
        }
        assert(a@.skip(0) =~= a@);
        assert(b@.skip(0) =~= b@);
    }
    let mut i: usize = 0;
    loop
        invariant
            i <= a.len(),
            i <= b.len(),
            bytes_lt(a@, b@) == bytes_lt(a@.skip(i as int), b@.skip(i as int)),
            bytes_lt(b@, a@) == bytes_lt(b@.skip(i as int), a@.skip(i as int)),
            (a@ == b@) == (a@.skip(i as int) == b@.skip(i as int)),
            bytes_lt(a@, b@) ==> !bytes_lt(b@, a@) && a@ != b@,
            bytes_lt(b@, a@) ==> !bytes_lt(a@, b@) && a@ != b@,
            bytes_lt(a@, b@) || bytes_lt(b@, a@) || a@ == b@,
        decreases a.len() - i,
    {
        let ghost sa = a@.skip(i as int);
        let ghost sb = b@.skip(i as int);
        if i < a.len() && i < b.len() {
            proof {
                assert(sa[0] == a@[i as int]);
                assert(sb[0] == b@[i as int]);
            }
            let x = a[i];
            let y = b[i];
            if x < y {
                return Cmp::Lt;
            } else if x > y {
                return Cmp::Gt;
            }
            proof {
                assert(sa.skip(1) =~= a@.skip(i + 1));
                assert(sb.skip(1) =~= b@.skip(i + 1));
                assert(bytes_lt(sa, sb) == bytes_lt(sa.skip(1), sb.skip(1)));
                assert(bytes_lt(sb, sa) == bytes_lt(sb.skip(1), sa.skip(1)));
                if sa.skip(1) == sb.skip(1) {
                    assert(sa =~= sb);
                }
                if sa == sb {
                    assert(sa.skip(1) =~= sb.skip(1));
                }
            }
            i = i + 1;
        } else if i < b.len() {
            proof {
                assert(sa.len() == 0);
                assert(sb.len() > 0);
                assert(bytes_lt(sa, sb));
            }
            return Cmp::Lt;
        } else if i < a.len() {
            proof {
                assert(sb.len() == 0);
                assert(sa.len() > 0);
                assert(bytes_lt(sb, sa));
            }
            return Cmp::Gt;
        } else {
            proof {
                assert(sa =~= sb);
            }
            return Cmp::Eq;
        }
    }
}

/// The spec-level value of an optional path.
pub open spec fn opt_path_view(p: Option<Vec<u8>>) -> Option<Seq<u8>> {
    match p {
        Option::None => Option::None,
        Option::Some(v) => Option::Some(v@),
    }
}

/// Strict order on optional paths: a missing path sorts before every
/// present path, present paths compare lexicographically.
pub open spec fn path_lt(a: Option<Seq<u8>>, b: Option<Seq<u8>>) -> bool {
    match (a, b) {
        (Option::None, Option::None) => false,
        (Option::None, Option::Some(_)) => true,
        (Option::Some(_), Option::None) => false,
        (Option::Some(x), Option::Some(y)) => bytes_lt(x, y),
    }
}

/// `path_lt` is connex.
pub proof fn lemma_path_lt_connex(a: Option<Seq<u8>>, b: Option<Seq<u8>>)
    ensures
        path_lt(a, b) || path_lt(b, a) || a == b,
{
    match (a, b) {
        (Option::Some(x), Option::Some(y)) => {
            lemma_bytes_lt_connex(x, y);
        },
        _ => {},
    }
}

/// `path_lt` is asymmetric and irreflexive.
pub proof fn lemma_path_lt_asym(a: Option<Seq<u8>>, b: Option<Seq<u8>>)
    requires
        path_lt(a, b),
    ensures
        !path_lt(b, a),
        a != b,
{
    match (a, b) {
        (Option::Some(x), Option::Some(y)) => {
            lemma_bytes_lt_asym(x, y);
        },
        _ => {},
    }
}

/// `path_lt` is transitive.
pub proof fn lemma_path_lt_trans(a: Option<Seq<u8>>, b: Option<Seq<u8>>, c: Option<Seq<u8>>)
    requires
        path_lt(a, b),
        path_lt(b, c),
    ensures
        path_lt(a, c),
{
    match (a, c) {
        (Option::Some(x), Option::Some(z)) => {
            lemma_bytes_lt_trans(x, b->Some_0, z);
        },
        _ => {},
    }
}

/// Compares two optional paths; the result reflects `path_lt` exactly.
pub fn path_cmp(a: &Option<Vec<u8>>, b: &Option<Vec<u8>>) -> (r: Cmp)
    ensures
        (r == Cmp::Lt) == path_lt(opt_path_view(*a), opt_path_view(*b)),
        (r == Cmp::Eq) == (opt_path_view(*a) == opt_path_view(*b)),
        (r == Cmp::Gt) == path_lt(opt_path_view(*b), opt_path_view(*a)),
{
    match (a, b) {
        (Option::None, Option::None) => Cmp::Eq,
        (Option::None, Option::Some(_)) => Cmp::Lt,
        (Option::Some(_), Option::None) => Cmp::Gt,
        (Option::Some(x), Option::Some(y)) => bytes_cmp(x, y),
    }
}

} // verus!
