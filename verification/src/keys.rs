//! Keys are UTF-8 byte strings without a null byte (the null byte is the
//! on-disk field terminator).  Segments keep their entries in strict
//! lexicographic byte order, defined and decided here.

use vstd::prelude::*;
use vstd::utf8::valid_utf8;

verus! {

/// Lexicographic order on byte strings: the shorter prefix comes first.
pub open spec fn lex_lt(a: Seq<u8>, b: Seq<u8>) -> bool
    decreases a.len(),
{
    if b.len() == 0 {
        false
    } else if a.len() == 0 {
        true
    } else if a[0] < b[0] {
        true
    } else if a[0] > b[0] {
        false
    } else {
        lex_lt(a.skip(1), b.skip(1))
    }
}

/// A key as stored: valid UTF-8 with no null byte.
pub open spec fn valid_key(k: Seq<u8>) -> bool {
    valid_utf8(k) && forall|i: int| 0 <= i < k.len() ==> k[i] != 0
}

pub proof fn lemma_lex_trichotomy(a: Seq<u8>, b: Seq<u8>)
    ensures
        lex_lt(a, b) || lex_lt(b, a) || a == b,
        lex_lt(a, b) ==> !lex_lt(b, a) && a != b,
        lex_lt(b, a) ==> !lex_lt(a, b) && a != b,
    decreases a.len(),
{
    if b.len() == 0 || a.len() == 0 {
        if a.len() == 0 && b.len() == 0 {
            assert(a =~= b);
        }
    } else if a[0] == b[0] {
        lemma_lex_trichotomy(a.skip(1), b.skip(1));
        if a.skip(1) == b.skip(1) {
            assert(a =~= b) by {
                assert(forall|i: int| #![trigger a[i]]
                    1 <= i < a.len() ==> a[i] == a.skip(1)[i - 1] && b[i] == b.skip(1)[i - 1]);
            }
        }
        if a == b {
            assert(a.skip(1) =~= b.skip(1));
        }
    }
}

pub proof fn lemma_lex_transitive(a: Seq<u8>, b: Seq<u8>, c: Seq<u8>)
    requires
        lex_lt(a, b),
        lex_lt(b, c),
    ensures
        lex_lt(a, c),
    decreases a.len() + b.len() + c.len(),
{
    if a.len() == 0 {
        // c is longer than b's first element chain, so c is non-empty.
    } else if b.len() > 0 && c.len() > 0 {
        if a[0] == b[0] && b[0] == c[0] {
            lemma_lex_transitive(a.skip(1), b.skip(1), c.skip(1));
        }
    }
}

/// If the first `i` bytes agree, the order is decided by the remainders.
pub proof fn lemma_lex_skip_common(a: Seq<u8>, b: Seq<u8>, i: int)
    requires
        0 <= i <= a.len(),
        i <= b.len(),
        a.subrange(0, i) == b.subrange(0, i),
    ensures
        lex_lt(a, b) == lex_lt(a.skip(i), b.skip(i)),
    decreases i,
{
    if i > 0 {
        assert(a[0] == b[0]) by {
            assert(a.subrange(0, i)[0] == a[0]);
            assert(b.subrange(0, i)[0] == b[0]);
        }
        assert(a.len() > 0 && b.len() > 0);
        assert(a.skip(1).subrange(0, i - 1) =~= b.skip(1).subrange(0, i - 1)) by {
            assert(forall|j: int| #![trigger a.skip(1)[j]]
                0 <= j < i - 1 ==> a.skip(1)[j] == a.subrange(0, i)[j + 1]);
            assert(forall|j: int| #![trigger b.skip(1)[j]]
                0 <= j < i - 1 ==> b.skip(1)[j] == b.subrange(0, i)[j + 1]);
        }
        lemma_lex_skip_common(a.skip(1), b.skip(1), i - 1);
        assert(a.skip(1).skip(i - 1) =~= a.skip(i));
        assert(b.skip(1).skip(i - 1) =~= b.skip(i));
    } else {
        assert(a.skip(0) =~= a);
        assert(b.skip(0) =~= b);
    }
}

/// Result of comparing two keys.
#[derive(Clone, Copy, PartialEq, Eq, Debug)]
pub enum KeyOrder {
    Before,
    Same,
    After,
}

/// Decides the lexicographic order of two byte strings.
#[verifier::loop_isolation(false)]
pub fn key_compare(a: &[u8], b: &[u8]) -> (r: KeyOrder)
    ensures
        (r is Before) == lex_lt(a@, b@),
        (r is Same) == (a@ == b@),
        (r is After) == lex_lt(b@, a@),
{
    proof {
        lemma_lex_trichotomy(a@, b@);
    }
    let a_len = a.len();
    let b_len = b.len();
    let common = if a_len < b_len {
        a_len
    } else {
        b_len
    };
    let mut i: usize = 0;
    while i < common
        invariant
            0 <= i <= common,
            common == if a_len < b_len {
                a_len as int
            } else {
                b_len as int
            },
            a_len == a@.len(),
            b_len == b@.len(),
            a@.subrange(0, i as int) =~= b@.subrange(0, i as int),
        decreases common - i,
    {
        let x = a[i];
        let y = b[i];
        if x < y {
            proof {
                lemma_lex_skip_common(a@, b@, i as int);
                assert(a@.skip(i as int)[0] == x);
                assert(b@.skip(i as int)[0] == y);
            }
            return KeyOrder::Before;
        }
        if x > y {
            proof {
                lemma_lex_skip_common(b@, a@, i as int);
                assert(a@.skip(i as int)[0] == x);
                assert(b@.skip(i as int)[0] == y);
            }
            return KeyOrder::After;
        }
        proof {
            assert(a@.subrange(0, i + 1) =~= b@.subrange(0, i + 1));
        }
        i = i + 1;
    }
    proof {
        lemma_lex_skip_common(a@, b@, common as int);
        lemma_lex_skip_common(b@, a@, common as int);
        if a_len == b_len {
            assert(a@ =~= b@);
        } else if a_len < b_len {
            assert(a@.skip(common as int).len() == 0);
            assert(b@.skip(common as int).len() > 0);
        } else {
            assert(b@.skip(common as int).len() == 0);
            assert(a@.skip(common as int).len() > 0);
        }
    }
    if a_len == b_len {
        KeyOrder::Same
    } else if a_len < b_len {
        KeyOrder::Before
    } else {
        KeyOrder::After
    }
}

/// Relies on `core::str::from_utf8`: it returns `Ok` exactly when the bytes
/// are valid UTF-8, the property vstd's `valid_utf8` describes (vstd requires
/// it for `str::from_utf8_unchecked`).
#[verifier::external_body]
pub fn utf8_valid(bytes: &[u8]) -> (r: bool)
    ensures
        r == valid_utf8(bytes@),
{
    core::str::from_utf8(bytes).is_ok()
}

/// Decides `valid_key`: valid UTF-8 and free of null bytes.
pub fn key_valid(bytes: &[u8]) -> (r: bool)
    ensures
        r == valid_key(bytes@),
{
    if !utf8_valid(bytes) {
        return false;
    }
    let n = bytes.len();
    let mut i: usize = 0;
    while i < n
        invariant
            0 <= i <= n,
            n == bytes@.len(),
            forall|j: int| 0 <= j < i ==> bytes@[j] != 0,
        decreases n - i,
    {
        if bytes[i] == 0 {
            return false;
        }
        i = i + 1;
    }
    true
}

} // verus!
