use vstd::prelude::*;
use vstd::string::StrSliceExecFns;
use core::cmp::Ordering;

verus! {

/// The total preorder that the external Debian version comparator computes.
/// Distinct strings may compare equal (leading zeroes, an explicit zero
/// epoch), so this is a preorder over strings, not an order.
pub uninterp spec fn version_cmp(a: Seq<char>, b: Seq<char>) -> Ordering;

/// Relies on deb_version::compare_versions: a deterministic comparison of
/// two version strings under Debian's ordering rules, a pure function of its
/// arguments. Its source treats the two sides symmetrically in every branch,
/// so swapping the arguments reverses the result, and it answers Equal on
/// textually equal input (its first test). It slices the strings at
/// character positions, so only ASCII input is panic-free.
pub assume_specification[ deb_version::compare_versions ](left: &str, right: &str) -> (r: Ordering)
    requires
        left.is_ascii(),
        right.is_ascii(),
    ensures
        r == version_cmp(left@, right@),
        (r == Ordering::Equal <==> version_cmp(right@, left@) == Ordering::Equal),
        (r == Ordering::Less <==> version_cmp(right@, left@) == Ordering::Greater),
        left@ == right@ ==> r == Ordering::Equal,
;

/// Lexicographic order over character sequences: the order in which type
/// labels are rendered and group keys break version ties.
pub open spec fn lex_le(a: Seq<char>, b: Seq<char>) -> bool
    decreases a.len(),
{
    if a.len() == 0 {
        true
    } else if b.len() == 0 {
        false
    } else if a[0] < b[0] {
        true
    } else if b[0] < a[0] {
        false
    } else {
        lex_le(a.skip(1), b.skip(1))
    }
}

/// Any two sequences are comparable under `lex_le`.
pub proof fn lemma_lex_total(a: Seq<char>, b: Seq<char>)
    ensures
        lex_le(a, b) || lex_le(b, a),
    decreases a.len(),
{
    if a.len() != 0 && b.len() != 0 && !(a[0] < b[0]) && !(b[0] < a[0]) {
        lemma_lex_total(a.skip(1), b.skip(1));
    }
}

/// `lex_le` carries across an equal prefix.
proof fn lemma_lex_skip(a: Seq<char>, b: Seq<char>, i: int)
    requires
        0 <= i <= a.len(),
        i <= b.len(),
        forall|j: int| 0 <= j < i ==> a[j] == b[j],
    ensures
        lex_le(a, b) == lex_le(a.skip(i), b.skip(i)),
    decreases i,
{
    if i > 0 {
        assert(a.len() > 0 && b.len() > 0);
        assert(a[0] == b[0]);
        lemma_lex_skip(a.skip(1), b.skip(1), i - 1);
        assert(a.skip(1).skip(i - 1) =~= a.skip(i));
        assert(b.skip(1).skip(i - 1) =~= b.skip(i));
    } else {
        assert(a.skip(0) =~= a);
        assert(b.skip(0) =~= b);
    }
}

/// Compares two strings lexicographically by character.
pub fn str_lex_le(a: &str, b: &str) -> (r: bool)
    ensures
        r == lex_le(a@, b@),
{
    let a_len: usize = a.unicode_len();
    let b_len: usize = b.unicode_len();
    let mut i: usize = 0;
    while i < a_len && i < b_len
        invariant
            0 <= i <= a_len,
            i <= b_len,
            a_len == a@.len(),
            b_len == b@.len(),
            forall|j: int| 0 <= j < i ==> a@[j] == b@[j],
        decreases a_len - i,
    {
        let ca = a.get_char(i);
        let cb = b.get_char(i);
        if ca < cb {
            proof {
                lemma_lex_skip(a@, b@, i as int);
                assert(a@.skip(i as int)[0] == ca);
                assert(b@.skip(i as int)[0] == cb);
            }
            return true;
        }
        if cb < ca {
            proof {
                lemma_lex_skip(a@, b@, i as int);
                assert(a@.skip(i as int)[0] == ca);
                assert(b@.skip(i as int)[0] == cb);
            }
            return false;
        }
        i = i + 1;
    }
    proof {
        lemma_lex_skip(a@, b@, i as int);
        if i >= a_len {
            assert(a@.skip(i as int).len() == 0);
        } else {
            assert(b@.skip(i as int).len() == 0);
            assert(a@.skip(i as int).len() > 0);
        }
    }
    i >= a_len
}

/// Compares two version strings through the external comparator.
pub fn compare_version_strings(a: &String, b: &String) -> (r: Ordering)
    requires
        a.is_ascii(),
        b.is_ascii(),
    ensures
        r == version_cmp(a@, b@),
        (r == Ordering::Equal <==> version_cmp(b@, a@) == Ordering::Equal),
        (r == Ordering::Less <==> version_cmp(b@, a@) == Ordering::Greater),
        a@ == b@ ==> r == Ordering::Equal,
{
    deb_version::compare_versions(a.as_str(), b.as_str())
}

} // verus!
