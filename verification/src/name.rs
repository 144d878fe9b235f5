//! Player names as keys: their order and prefix search.
//!
//! Names are compared by their UTF-8 bytes, as a table with a binary
//! collation does. Prefix search folds the ASCII letters only.

use vstd::prelude::*;

verus! {

/// How one name stands to another in the order of the table.
#[derive(Clone, Copy, Debug, PartialEq, Eq, Structural)]
pub enum Rank {
    Before,
    Same,
    After,
}

/// `a` and `b` agree on their first `k` bytes, and there `a` ends while `b`
/// goes on, or `a` has the smaller byte.
pub open spec fn parts_at(a: Seq<u8>, b: Seq<u8>, k: int) -> bool {
    &&& 0 <= k <= a.len()
    &&& k < b.len()
    &&& forall|j: int| 0 <= j < k ==> a[j] == b[j]
    &&& k < a.len() ==> a[k] < b[k]
}

/// Byte-wise lexicographic order: `a` sorts strictly before `b`.
pub open spec fn sorts_before(a: Seq<u8>, b: Seq<u8>) -> bool {
    exists|k: int| #[trigger] parts_at(a, b, k)
}

/// The lower-case form of an ASCII capital; any other byte is unchanged.
pub open spec fn fold_ascii(b: u8) -> u8 {
    if 0x41 <= b <= 0x5a {
        (b + 0x20) as u8
    } else {
        b
    }
}

/// `text` starts with `prefix`, the case of ASCII letters set aside.
pub open spec fn has_prefix(text: Seq<u8>, prefix: Seq<u8>) -> bool {
    &&& prefix.len() <= text.len()
    &&& forall|j: int| 0 <= j < prefix.len() ==> fold_ascii(text[j]) == fold_ascii(prefix[j])
}

/// Two texts are the same but for the case of ASCII letters.
pub open spec fn same_but_case(a: Seq<u8>, b: Seq<u8>) -> bool {
    &&& a.len() == b.len()
    &&& forall|j: int| 0 <= j < a.len() ==> fold_ascii(a[j]) == fold_ascii(b[j])
}

/// Prefix search sets the case of ASCII letters aside, in the text and in
/// the prefix.
pub proof fn lemma_prefix_ignores_case(
    text: Seq<u8>,
    prefix: Seq<u8>,
    other_text: Seq<u8>,
    other_prefix: Seq<u8>,
)
    requires
        same_but_case(text, other_text),
        same_but_case(prefix, other_prefix),
    ensures
        has_prefix(text, prefix) == has_prefix(other_text, other_prefix),
{
}

/// No name sorts before itself.
pub proof fn lemma_order_irreflexive(a: Seq<u8>)
    ensures
        !sorts_before(a, a),
{
}

/// Of two names, one sorts before the other only one way round.
pub proof fn lemma_order_asymmetric(a: Seq<u8>, b: Seq<u8>)
    requires
        sorts_before(a, b),
    ensures
        !sorts_before(b, a),
{
    let k = choose|k: int| #[trigger] parts_at(a, b, k);
    if sorts_before(b, a) {
        let m = choose|m: int| #[trigger] parts_at(b, a, m);
        if k < m {
        } else if m < k {
        }
    }
}

/// The order is transitive.
pub proof fn lemma_order_transitive(a: Seq<u8>, b: Seq<u8>, c: Seq<u8>)
    requires
        sorts_before(a, b),
        sorts_before(b, c),
    ensures
        sorts_before(a, c),
{
    let k = choose|k: int| #[trigger] parts_at(a, b, k);
    let m = choose|m: int| #[trigger] parts_at(b, c, m);
    if k <= m {
        assert(parts_at(a, c, k));
    } else {
        assert(parts_at(a, c, m));
    }
}

/// Two different names are ordered one way or the other.
pub proof fn lemma_order_total(a: Seq<u8>, b: Seq<u8>)
    ensures
        sorts_before(a, b) || a == b || sorts_before(b, a),
    decreases a.len() + b.len(),
{
    if a.len() == 0 {
        if b.len() == 0 {
            assert(a =~= b);
        } else {
            assert(parts_at(a, b, 0));
        }
    } else if b.len() == 0 {
        assert(parts_at(b, a, 0));
    } else if a[0] < b[0] {
        assert(parts_at(a, b, 0));
    } else if b[0] < a[0] {
        assert(parts_at(b, a, 0));
    } else {
        let x = a.drop_first();
        let y = b.drop_first();
        lemma_order_total(x, y);
        if sorts_before(x, y) {
            let k = choose|k: int| #[trigger] parts_at(x, y, k);
            assert forall|j: int| 0 <= j < k + 1 implies a[j] == b[j] by {
                if j > 0 {
                    assert(a[j] == x[j - 1] && b[j] == y[j - 1]);
                }
            }
            assert(k < x.len() ==> a[k + 1] == x[k] && b[k + 1] == y[k]);
            assert(parts_at(a, b, k + 1));
        } else if sorts_before(y, x) {
            let k = choose|k: int| #[trigger] parts_at(y, x, k);
            assert forall|j: int| 0 <= j < k + 1 implies b[j] == a[j] by {
                if j > 0 {
                    assert(a[j] == x[j - 1] && b[j] == y[j - 1]);
                }
            }
            assert(k < y.len() ==> a[k + 1] == x[k] && b[k + 1] == y[k]);
            assert(parts_at(b, a, k + 1));
        } else {
            assert(a =~= seq![a[0]] + x);
            assert(b =~= seq![b[0]] + y);
        }
    }
}

/// Compares two names byte by byte.
pub fn rank(a: &[u8], b: &[u8]) -> (r: Rank)
    ensures
        r == Rank::Before <==> sorts_before(a@, b@),
        r == Rank::Same <==> a@ == b@,
        r == Rank::After <==> sorts_before(b@, a@),
{
    let n = if a.len() < b.len() {
        a.len()
    } else {
        b.len()
    };
    let mut k: usize = 0;
    while k < n && a[k] == b[k]
        invariant
            k <= n,
            n <= a@.len(),
            n <= b@.len(),
            forall|j: int| 0 <= j < k ==> a@[j] == b@[j],
        decreases n - k,
    {
        k += 1;
    }
    let r = if k < n {
        if a[k] < b[k] {
            assert(parts_at(a@, b@, k as int));
            Rank::Before
        } else {
            assert(parts_at(b@, a@, k as int));
            Rank::After
        }
    } else if a.len() < b.len() {
        assert(parts_at(a@, b@, k as int));
        Rank::Before
    } else if b.len() < a.len() {
        assert(parts_at(b@, a@, k as int));
        Rank::After
    } else {
        assert(a@ =~= b@);
        Rank::Same
    };
    proof {
        lemma_order_irreflexive(a@);
        if sorts_before(a@, b@) {
            lemma_order_asymmetric(a@, b@);
        }
        if sorts_before(b@, a@) {
            lemma_order_asymmetric(b@, a@);
        }
    }
    r
}

/// Folds an ASCII capital to its lower-case form.
pub fn fold(b: u8) -> (f: u8)
    ensures
        f == fold_ascii(b),
{
    if 0x41 <= b && b <= 0x5a {
        b + 0x20
    } else {
        b
    }
}

/// Tells whether `text` starts with `prefix`, the case of ASCII letters
/// set aside.
pub fn starts_with(text: &[u8], prefix: &[u8]) -> (r: bool)
    ensures
        r == has_prefix(text@, prefix@),
{
    if prefix.len() > text.len() {
        return false;
    }
    let n = prefix.len();
    let mut k: usize = 0;
    while k < n
        invariant
            k <= n,
            n == prefix@.len(),
            n <= text@.len(),
            forall|j: int| 0 <= j < k ==> fold_ascii(text@[j]) == fold_ascii(prefix@[j]),
        decreases n - k,
    {
        if fold(text[k]) != fold(prefix[k]) {
            return false;
        }
        k += 1;
    }
    true
}

} // verus!
