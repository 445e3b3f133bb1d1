//! Lexicographic order on string contents: the total order by which
//! merged selection sets are deterministically sorted.

use vstd::prelude::*;

verus! {

/// `x` is lexicographically at most `y`, comparing characters by code
/// point; a proper prefix orders before its extensions.
pub open spec fn lex_le(x: Seq<char>, y: Seq<char>) -> bool
    decreases x.len(),
{
    if x.len() == 0 {
        true
    } else if y.len() == 0 {
        false
    } else if (x[0] as int) < (y[0] as int) {
        true
    } else if x[0] == y[0] {
        lex_le(x.drop_first(), y.drop_first())
    } else {
        false
    }
}

pub open spec fn lex_lt(x: Seq<char>, y: Seq<char>) -> bool {
    lex_le(x, y) && x != y
}

pub proof fn lemma_lex_le_total(x: Seq<char>, y: Seq<char>)
    ensures
        lex_le(x, y) || lex_le(y, x),
    decreases x.len(),
{
    if x.len() > 0 && y.len() > 0 {
        if x[0] == y[0] {
            lemma_lex_le_total(x.drop_first(), y.drop_first());
        } else {
            assert((x[0] as int) != (y[0] as int));
        }
    }
}

pub proof fn lemma_lex_le_antisymmetric(x: Seq<char>, y: Seq<char>)
    requires
        lex_le(x, y),
        lex_le(y, x),
    ensures
        x == y,
    decreases x.len(),
{
    if x.len() > 0 && y.len() > 0 {
        assert(x[0] == y[0]);
        lemma_lex_le_antisymmetric(x.drop_first(), y.drop_first());
        assert(x.drop_first() == y.drop_first());
        assert forall|j: int| 0 <= j < x.len() implies x[j] == y[j] by {
            if j > 0 {
                assert(x[j] == x.drop_first()[j - 1]);
                assert(y[j] == y.drop_first()[j - 1]);
            }
        }
        assert(x.len() == y.len());
        assert(x =~= y);
    } else {
        assert(x.len() == 0 && y.len() == 0);
        assert(x =~= y);
    }
}

pub proof fn lemma_lex_le_transitive(x: Seq<char>, y: Seq<char>, z: Seq<char>)
    requires
        lex_le(x, y),
        lex_le(y, z),
    ensures
        lex_le(x, z),
    decreases x.len(),
{
    if x.len() > 0 && y.len() > 0 && z.len() > 0 {
        if x[0] == y[0] && y[0] == z[0] {
            lemma_lex_le_transitive(x.drop_first(), y.drop_first(), z.drop_first());
        }
    }
}

/// Equal prefixes of length `i` do not affect the comparison of the rest.
pub proof fn lemma_lex_le_skip(x: Seq<char>, y: Seq<char>, i: int)
    requires
        0 <= i <= x.len(),
        0 <= i <= y.len(),
        forall|j: int| 0 <= j < i ==> x[j] == y[j],
    ensures
        lex_le(x, y) == lex_le(x.skip(i), y.skip(i)),
    decreases i,
{
    if i > 0 {
        assert(x.len() > 0 && y.len() > 0);
        assert(x[0] == y[0]);
        lemma_lex_le_skip(x.drop_first(), y.drop_first(), i - 1);
        assert(x.drop_first().skip(i - 1) =~= x.skip(i));
        assert(y.drop_first().skip(i - 1) =~= y.skip(i));
    } else {
        assert(x.skip(0) =~= x);
        assert(y.skip(0) =~= y);
    }
}

/// Executable lexicographic comparison of two strings.
pub fn lex_leq(a: &String, b: &String) -> (r: bool)
    ensures
        r == lex_le(a@, b@),
{
    let a_len = a.as_str().unicode_len();
    let b_len = b.as_str().unicode_len();
    let mut i: usize = 0;
    while i < a_len && i < b_len
        invariant
            a_len == a@.len(),
            b_len == b@.len(),
            i <= a_len,
            i <= b_len,
            forall|j: int| 0 <= j < i ==> a@[j] == b@[j],
        decreases a_len - i,
    {
        let ca = a.as_str().get_char(i);
        let cb = b.as_str().get_char(i);
        if (ca as u32) < (cb as u32) {
            proof {
                lemma_lex_le_skip(a@, b@, i as int);
                assert(a@.skip(i as int)[0] == a@[i as int]);
                assert(b@.skip(i as int)[0] == b@[i as int]);
            }
            return true;
        }
        if (ca as u32) > (cb as u32) {
            proof {
                lemma_lex_le_skip(a@, b@, i as int);
                assert(a@.skip(i as int)[0] == a@[i as int]);
                assert(b@.skip(i as int)[0] == b@[i as int]);
                assert(a@.skip(i as int).len() > 0);
            }
            return false;
        }
        proof {
            assert(ca as u32 == cb as u32);
            assert(a@[i as int] as u32 == b@[i as int] as u32);
            assert(a@[i as int] == b@[i as int]) by {
                assert(a@[i as int] as u32 == b@[i as int] as u32);
            };
        }
        i = i + 1;
    }
    proof {
        lemma_lex_le_skip(a@, b@, i as int);
        if a_len <= b_len {
            assert(a@.skip(i as int).len() == 0);
        } else {
            assert(b@.skip(i as int).len() == 0);
            assert(a@.skip(i as int).len() > 0);
        }
    }
    a_len <= b_len
}

} // verus!
