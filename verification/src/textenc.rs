//! The UTF-8 byte grammar, stated over byte strings: tree entry names and
//! commit payloads are text, and the decoders reject byte strings that do
//! not encode it.

use vstd::prelude::*;

verus! {

/// Whether `b` is a UTF-8 continuation byte.
pub open spec fn is_cont(b: u8) -> bool {
    128 <= b && b <= 191
}

/// The length of the well-formed UTF-8 sequence starting at `i`, or 0:
/// one byte for ASCII, two to four for the multi-byte forms, with the
/// lead-byte ranges that exclude overlong forms and surrogates.
pub open spec fn utf8_step(s: Seq<u8>, i: int) -> int {
    if i < 0 || i >= s.len() {
        0
    } else {
        let b0 = s[i];
        if b0 < 128 {
            1
        } else if 194 <= b0 && b0 <= 223 {
            if i + 1 < s.len() && is_cont(s[i + 1]) {
                2
            } else {
                0
            }
        } else if b0 == 224 {
            if i + 2 < s.len() && 160 <= s[i + 1] && s[i + 1] <= 191 && is_cont(s[i + 2]) {
                3
            } else {
                0
            }
        } else if b0 == 237 {
            if i + 2 < s.len() && 128 <= s[i + 1] && s[i + 1] <= 159 && is_cont(s[i + 2]) {
                3
            } else {
                0
            }
        } else if 225 <= b0 && b0 <= 239 {
            if i + 2 < s.len() && is_cont(s[i + 1]) && is_cont(s[i + 2]) {
                3
            } else {
                0
            }
        } else if b0 == 240 {
            if i + 3 < s.len() && 144 <= s[i + 1] && s[i + 1] <= 191 && is_cont(s[i + 2])
                && is_cont(s[i + 3]) {
                4
            } else {
                0
            }
        } else if b0 == 244 {
            if i + 3 < s.len() && 128 <= s[i + 1] && s[i + 1] <= 143 && is_cont(s[i + 2])
                && is_cont(s[i + 3]) {
                4
            } else {
                0
            }
        } else if 241 <= b0 && b0 <= 243 {
            if i + 3 < s.len() && is_cont(s[i + 1]) && is_cont(s[i + 2]) && is_cont(s[i + 3]) {
                4
            } else {
                0
            }
        } else {
            0
        }
    }
}

/// Whether the bytes from `i` on are a well-formed UTF-8 encoding.
pub open spec fn is_utf8_from(s: Seq<u8>, i: int) -> bool
    decreases s.len() - i,
{
    if i < 0 || i >= s.len() {
        true
    } else {
        let k = utf8_step(s, i);
        k > 0 && is_utf8_from(s, i + k)
    }
}

/// Whether the byte string is a well-formed UTF-8 encoding.
pub open spec fn is_utf8(s: Seq<u8>) -> bool {
    is_utf8_from(s, 0)
}

/// The executable step at `i`.
fn utf8_step_at(s: &Vec<u8>, i: usize) -> (k: usize)
    requires
        i < s@.len(),
    ensures
        k == utf8_step(s@, i as int),
        i + k <= s@.len(),
{
    let n = s.len();
    let b0 = s[i];
    if b0 < 128 {
        1
    } else if 194 <= b0 && b0 <= 223 {
        if n - i > 1 && 128 <= s[i + 1] && s[i + 1] <= 191 {
            2
        } else {
            0
        }
    } else if b0 == 224 {
        if n - i > 2 && 160 <= s[i + 1] && s[i + 1] <= 191 && 128 <= s[i + 2] && s[i + 2] <= 191 {
            3
        } else {
            0
        }
    } else if b0 == 237 {
        if n - i > 2 && 128 <= s[i + 1] && s[i + 1] <= 159 && 128 <= s[i + 2] && s[i + 2] <= 191 {
            3
        } else {
            0
        }
    } else if 225 <= b0 && b0 <= 239 {
        if n - i > 2 && 128 <= s[i + 1] && s[i + 1] <= 191 && 128 <= s[i + 2] && s[i + 2] <= 191 {
            3
        } else {
            0
        }
    } else if b0 == 240 {
        if n - i > 3 && 144 <= s[i + 1] && s[i + 1] <= 191 && 128 <= s[i + 2] && s[i + 2] <= 191
            && 128 <= s[i + 3] && s[i + 3] <= 191 {
            4
        } else {
            0
        }
    } else if b0 == 244 {
        if n - i > 3 && 128 <= s[i + 1] && s[i + 1] <= 143 && 128 <= s[i + 2] && s[i + 2] <= 191
            && 128 <= s[i + 3] && s[i + 3] <= 191 {
            4
        } else {
            0
        }
    } else if 241 <= b0 && b0 <= 243 {
        if n - i > 3 && 128 <= s[i + 1] && s[i + 1] <= 191 && 128 <= s[i + 2] && s[i + 2] <= 191
            && 128 <= s[i + 3] && s[i + 3] <= 191 {
            4
        } else {
            0
        }
    } else {
        0
    }
}

/// Whether the bytes are a well-formed UTF-8 encoding.
pub fn utf8_check(s: &Vec<u8>) -> (r: bool)
    ensures
        r == is_utf8(s@),
{
    let mut i: usize = 0;
    while i < s.len()
        invariant
            i <= s@.len(),
            is_utf8(s@) == is_utf8_from(s@, i as int),
        decreases s@.len() - i,
    {
        let k = utf8_step_at(s, i);
        if k == 0 {
            return false;
        }
        i = i + k;
    }
    true
}

/// A step is determined by its own bytes: the same bytes at another
/// position, or in another string, take the same step.
pub proof fn lemma_utf8_step_shift(s1: Seq<u8>, i1: int, s2: Seq<u8>, i2: int, k: int)
    requires
        utf8_step(s1, i1) == k,
        k > 0,
        0 <= i2,
        i2 + k <= s2.len(),
        forall|t: int| 0 <= t < k ==> #[trigger] s2[i2 + t] == s1[i1 + t],
    ensures
        utf8_step(s2, i2) == k,
{
    assert(s2[i2 + 0] == s1[i1 + 0]);
    assert(s2[i2] == s1[i1]);
    if k >= 2 {
        assert(s2[i2 + 1] == s1[i1 + 1]);
    }
    if k >= 3 {
        assert(s2[i2 + 2] == s1[i1 + 2]);
    }
    if k >= 4 {
        assert(s2[i2 + 3] == s1[i1 + 3]);
    }
}

/// A step inside the left part of a concatenation is a step of the whole.
proof fn lemma_utf8_step_concat_left(a: Seq<u8>, b: Seq<u8>, i: int)
    requires
        0 <= i < a.len(),
        utf8_step(a, i) > 0,
    ensures
        utf8_step(a + b, i) == utf8_step(a, i),
{
    let k = utf8_step(a, i);
    assert(i + k <= a.len());
    assert forall|t: int| 0 <= t < k implies #[trigger] (a + b)[i + t] == a[i + t] by {}
    lemma_utf8_step_shift(a, i, a + b, i, k);
}

/// A step inside the right part of a concatenation is a step of the whole.
proof fn lemma_utf8_step_concat_right(a: Seq<u8>, b: Seq<u8>, j: int)
    requires
        0 <= j < b.len(),
        utf8_step(b, j) > 0,
    ensures
        utf8_step(a + b, a.len() + j) == utf8_step(b, j),
{
    let k = utf8_step(b, j);
    assert(j + k <= b.len());
    assert forall|t: int| 0 <= t < k implies #[trigger] (a + b)[a.len() + j + t] == b[j + t] by {}
    lemma_utf8_step_shift(b, j, a + b, a.len() + j, k);
}

proof fn lemma_utf8_concat_suffix(a: Seq<u8>, b: Seq<u8>, j: int)
    requires
        0 <= j <= b.len(),
        is_utf8_from(b, j),
    ensures
        is_utf8_from(a + b, a.len() + j),
    decreases b.len() - j,
{
    if j < b.len() {
        let k = utf8_step(b, j);
        lemma_utf8_step_concat_right(a, b, j);
        lemma_utf8_concat_suffix(a, b, j + k);
    }
}

proof fn lemma_utf8_concat_from(a: Seq<u8>, b: Seq<u8>, i: int)
    requires
        0 <= i <= a.len(),
        is_utf8_from(a, i),
        is_utf8(b),
    ensures
        is_utf8_from(a + b, i),
    decreases a.len() - i,
{
    if i < a.len() {
        let k = utf8_step(a, i);
        lemma_utf8_step_concat_left(a, b, i);
        lemma_utf8_concat_from(a, b, i + k);
    } else {
        lemma_utf8_concat_suffix(a, b, 0);
    }
}

/// Well-formed UTF-8 is closed under concatenation.
pub proof fn lemma_utf8_concat(a: Seq<u8>, b: Seq<u8>)
    requires
        is_utf8(a),
        is_utf8(b),
    ensures
        is_utf8(a + b),
{
    lemma_utf8_concat_from(a, b, 0);
}

/// A string of ASCII bytes is well-formed UTF-8.
pub proof fn lemma_ascii_utf8_from(s: Seq<u8>, i: int)
    requires
        0 <= i,
        forall|t: int| 0 <= t < s.len() ==> #[trigger] s[t] < 128,
    ensures
        is_utf8_from(s, i),
    decreases s.len() - i,
{
    if i < s.len() {
        lemma_ascii_utf8_from(s, i + 1);
    }
}

} // verus!
