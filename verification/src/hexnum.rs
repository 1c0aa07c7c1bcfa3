//! Lowercase hexadecimal and decimal ASCII codecs used by the object model:
//! digests travel as 40-character hex strings, and the object header carries
//! the payload length as decimal digits.

use vstd::prelude::*;

verus! {

/// The ASCII byte for the hex digit `n` (`n < 16`), lowercase.
pub open spec fn hex_digit(n: u8) -> u8
    recommends
        n < 16,
{
    if n < 10 {
        (48 + n) as u8
    } else {
        (87 + n) as u8
    }
}

/// Whether `b` is an ASCII lowercase hex digit.
pub open spec fn is_hex_lower(b: u8) -> bool {
    (48 <= b && b <= 57) || (97 <= b && b <= 102)
}

/// The value of the ASCII hex digit `b`.
pub open spec fn hex_val(b: u8) -> u8
    recommends
        is_hex_lower(b),
{
    if b < 58 {
        (b - 48) as u8
    } else {
        (b - 87) as u8
    }
}

/// The lowercase hex expansion of a byte string, two digits per byte,
/// high nibble first.
pub open spec fn hex_of(bs: Seq<u8>) -> Seq<u8>
    decreases bs.len(),
{
    if bs.len() == 0 {
        Seq::empty()
    } else {
        seq![hex_digit(bs[0] / 16), hex_digit(bs[0] % 16)] + hex_of(bs.drop_first())
    }
}

/// The bytes denoted by an even-length hex digit string, pair by pair.
pub open spec fn raw_of_hex(s: Seq<u8>) -> Seq<u8>
    decreases s.len(),
{
    if s.len() < 2 {
        Seq::empty()
    } else {
        seq![(hex_val(s[0]) * 16 + hex_val(s[1])) as u8] + raw_of_hex(s.skip(2))
    }
}

/// Whether every byte of `s` is a lowercase hex digit.
pub open spec fn all_hex_lower(s: Seq<u8>) -> bool {
    forall|i: int| 0 <= i < s.len() ==> is_hex_lower(#[trigger] s[i])
}

pub proof fn lemma_hex_of_len(bs: Seq<u8>)
    ensures
        hex_of(bs).len() == 2 * bs.len(),
        all_hex_lower(hex_of(bs)),
    decreases bs.len(),
{
    if bs.len() > 0 {
        lemma_hex_of_len(bs.drop_first());
    }
}

pub proof fn lemma_raw_of_hex_len(s: Seq<u8>)
    ensures
        raw_of_hex(s).len() == s.len() / 2,
    decreases s.len(),
{
    if s.len() >= 2 {
        lemma_raw_of_hex_len(s.skip(2));
    }
}

/// Reading an even-length lowercase hex string as bytes and expanding it
/// again yields the original digit string.
pub proof fn lemma_hex_of_raw(s: Seq<u8>)
    requires
        s.len() % 2 == 0,
        all_hex_lower(s),
    ensures
        hex_of(raw_of_hex(s)) == s,
    decreases s.len(),
{
    if s.len() == 0 {
        assert(hex_of(raw_of_hex(s)) =~= s);
    } else {
        let rest = s.skip(2);
        assert(rest.len() % 2 == 0);
        assert(all_hex_lower(rest)) by {
            assert(forall|i: int| 0 <= i < rest.len() ==> rest[i] == s[i + 2]);
        }
        lemma_hex_of_raw(rest);
        let b = (hex_val(s[0]) * 16 + hex_val(s[1])) as u8;
        assert(b / 16 == hex_val(s[0]) && b % 16 == hex_val(s[1])) by {
            assert(is_hex_lower(s[0]) && is_hex_lower(s[1]));
        }
        assert(hex_digit(hex_val(s[0])) == s[0]);
        assert(hex_digit(hex_val(s[1])) == s[1]);
        let r = raw_of_hex(s);
        assert(r.drop_first() =~= raw_of_hex(rest));
        assert(hex_of(r) =~= s);
    }
}

proof fn lemma_hex_of_push(bs: Seq<u8>, b: u8)
    ensures
        hex_of(bs.push(b)) == hex_of(bs) + seq![hex_digit(b / 16), hex_digit(b % 16)],
    decreases bs.len(),
{
    if bs.len() == 0 {
        assert(bs.push(b).drop_first() =~= Seq::<u8>::empty());
        assert(hex_of(Seq::<u8>::empty()) =~= Seq::<u8>::empty());
        assert(bs.push(b)[0] == b);
        assert(hex_of(bs.push(b)) =~= hex_of(bs) + seq![hex_digit(b / 16), hex_digit(b % 16)]);
    } else {
        assert(bs.push(b).drop_first() =~= bs.drop_first().push(b));
        lemma_hex_of_push(bs.drop_first(), b);
        assert(bs.push(b)[0] == bs[0]);
        assert(hex_of(bs.push(b)) == seq![hex_digit(bs[0] / 16), hex_digit(bs[0] % 16)] + hex_of(
            bs.drop_first().push(b),
        ));
        assert(hex_of(bs.push(b)) =~= hex_of(bs) + seq![hex_digit(b / 16), hex_digit(b % 16)]);
    }
}

/// Expand a byte string to its lowercase hex form.
pub fn hex_encode(bs: &Vec<u8>) -> (r: Vec<u8>)
    ensures
        r@ == hex_of(bs@),
{
    let mut r: Vec<u8> = Vec::new();
    let mut i: usize = 0;
    while i < bs.len()
        invariant
            i <= bs.len(),
            r@ == hex_of(bs@.take(i as int)),
        decreases bs.len() - i,
    {
        let b = bs[i];
        let hi = b / 16;
        let lo = b % 16;
        r.push(if hi < 10 { 48 + hi } else { 87 + hi });
        r.push(if lo < 10 { 48 + lo } else { 87 + lo });
        proof {
            assert(bs@.take(i + 1) =~= bs@.take(i as int).push(b));
            lemma_hex_of_push(bs@.take(i as int), b);
        }
        i = i + 1;
    }
    proof {
        assert(bs@.take(bs@.len() as int) =~= bs@);
    }
    r
}

proof fn lemma_raw_of_hex_push2(s: Seq<u8>, a: u8, b: u8)
    requires
        s.len() % 2 == 0,
    ensures
        raw_of_hex(s + seq![a, b]) == raw_of_hex(s).push((hex_val(a) * 16 + hex_val(b)) as u8),
    decreases s.len(),
{
    if s.len() == 0 {
        assert(s + seq![a, b] =~= seq![a, b]);
        assert((seq![a, b]).skip(2) =~= Seq::<u8>::empty());
        assert(raw_of_hex(Seq::<u8>::empty()) =~= Seq::<u8>::empty());
        assert((s + seq![a, b])[0] == a && (s + seq![a, b])[1] == b);
        assert(raw_of_hex(s + seq![a, b]) =~= raw_of_hex(s).push(
            (hex_val(a) * 16 + hex_val(b)) as u8,
        ));
    } else {
        let t = s + seq![a, b];
        assert(t.skip(2) =~= s.skip(2) + seq![a, b]);
        lemma_raw_of_hex_push2(s.skip(2), a, b);
        assert(t[0] == s[0] && t[1] == s[1]);
        assert(raw_of_hex(t) == seq![(hex_val(t[0]) * 16 + hex_val(t[1])) as u8] + raw_of_hex(
            t.skip(2),
        ));
        assert(raw_of_hex(t) =~= raw_of_hex(s).push((hex_val(a) * 16 + hex_val(b)) as u8));
    }
}

/// Read an even-length lowercase hex string back into bytes.
pub fn hex_decode(s: &Vec<u8>) -> (r: Vec<u8>)
    requires
        s@.len() % 2 == 0,
        all_hex_lower(s@),
    ensures
        r@ == raw_of_hex(s@),
{
    let mut r: Vec<u8> = Vec::new();
    let mut i: usize = 0;
    while i + 1 < s.len()
        invariant
            i <= s.len(),
            i % 2 == 0,
            s@.len() % 2 == 0,
            all_hex_lower(s@),
            r@ == raw_of_hex(s@.take(i as int)),
        decreases s.len() - i,
    {
        let a = s[i];
        let b = s[i + 1];
        assert(is_hex_lower(a) && is_hex_lower(b));
        let va = if a < 58 { a - 48 } else { a - 87 };
        let vb = if b < 58 { b - 48 } else { b - 87 };
        r.push(va * 16 + vb);
        proof {
            assert(s@.take(i + 2) =~= s@.take(i as int) + seq![a, b]);
            lemma_raw_of_hex_push2(s@.take(i as int), a, b);
        }
        i = i + 2;
    }
    proof {
        assert(i == s@.len());
        assert(s@.take(i as int) =~= s@);
    }
    r
}

/// The decimal ASCII representation of `n`, no leading zeros.
pub open spec fn dec_rep(n: nat) -> Seq<u8>
    decreases n,
{
    if n < 10 {
        seq![(48 + n) as u8]
    } else {
        dec_rep(n / 10) + seq![(48 + n % 10) as u8]
    }
}

/// Whether `b` is an ASCII decimal digit.
pub open spec fn is_digit(b: u8) -> bool {
    48 <= b && b <= 57
}

/// Whether every byte of `s` is an ASCII decimal digit.
pub open spec fn all_digits(s: Seq<u8>) -> bool {
    forall|i: int| 0 <= i < s.len() ==> is_digit(#[trigger] s[i])
}

/// The number denoted by a decimal digit string.
pub open spec fn dec_val(s: Seq<u8>) -> nat
    decreases s.len(),
{
    if s.len() == 0 {
        0
    } else {
        dec_val(s.drop_last()) * 10 + (if s.last() >= 48 {
            (s.last() - 48) as nat
        } else {
            0
        })
    }
}

pub proof fn lemma_dec_rep_digits(n: nat)
    ensures
        dec_rep(n).len() >= 1,
        all_digits(dec_rep(n)),
    decreases n,
{
    if n >= 10 {
        lemma_dec_rep_digits(n / 10);
    }
}

/// The decimal representation reads back as the number it came from.
pub proof fn lemma_dec_val_of_rep(n: nat)
    ensures
        dec_val(dec_rep(n)) == n,
    decreases n,
{
    if n < 10 {
        let s = dec_rep(n);
        assert(s.drop_last() =~= Seq::<u8>::empty());
        assert(s.last() == (48 + n) as u8);
        assert(dec_val(s) == dec_val(s.drop_last()) * 10 + (s.last() - 48) as nat);
    } else {
        lemma_dec_val_of_rep(n / 10);
        let s = dec_rep(n);
        assert(s.drop_last() =~= dec_rep(n / 10));
        assert(s.last() == (48 + n % 10) as u8);
        assert(dec_val(s) == (n / 10) * 10 + n % 10);
        vstd::arithmetic::div_mod::lemma_fundamental_div_mod(n as int, 10);
    }
}

/// Encode `n` as decimal ASCII digits.
pub fn dec_encode(n: usize) -> (r: Vec<u8>)
    ensures
        r@ == dec_rep(n as nat),
    decreases n,
{
    if n < 10 {
        let mut r: Vec<u8> = Vec::new();
        r.push(48 + n as u8);
        proof {
            assert(r@ =~= dec_rep(n as nat));
        }
        r
    } else {
        let mut r = dec_encode(n / 10);
        r.push(48 + (n % 10) as u8);
        proof {
            assert(r@ =~= dec_rep(n as nat));
        }
        r
    }
}

proof fn lemma_dec_val_monotone(s: Seq<u8>, i: int)
    requires
        0 <= i <= s.len(),
    ensures
        dec_val(s) >= dec_val(s.take(i)),
    decreases s.len() - i,
{
    if i < s.len() {
        lemma_dec_val_monotone(s, i + 1);
        let t = s.take(i + 1);
        assert(t.drop_last() =~= s.take(i));
        assert(dec_val(t) == dec_val(s.take(i)) * 10 + (if t.last() >= 48 {
            (t.last() - 48) as nat
        } else {
            0
        }));
        assert(dec_val(t) >= dec_val(s.take(i))) by (nonlinear_arith)
            requires
                dec_val(t) == dec_val(s.take(i)) * 10 + (if t.last() >= 48 {
                    (t.last() - 48) as nat
                } else {
                    0
                }),
        ;
    } else {
        assert(s.take(i) =~= s);
    }
}

/// Parse a decimal digit string in `s[from..to]`.  Returns `None` when the
/// range is empty, holds a non-digit, or denotes a number above `usize::MAX`.
pub fn dec_parse(s: &Vec<u8>, from: usize, to: usize) -> (r: Option<usize>)
    requires
        from <= to <= s@.len(),
    ensures
        ({
            let d = s@.subrange(from as int, to as int);
            match r {
                Some(n) => to > from && all_digits(d) && n as nat == dec_val(d),
                None => !(to > from && all_digits(d) && dec_val(d) <= usize::MAX),
            }
        }),
{
    let ghost d = s@.subrange(from as int, to as int);
    if from == to {
        return None;
    }
    let mut acc: usize = 0;
    let mut i: usize = from;
    while i < to
        invariant
            from <= i <= to <= s@.len(),
            d == s@.subrange(from as int, to as int),
            all_digits(d.take(i - from)),
            acc as nat == dec_val(d.take(i - from)),
        decreases to - i,
    {
        let b = s[i];
        if b < 48 || b > 57 {
            proof {
                assert(d[i - from] == b);
                assert(!is_digit(d[i - from]));
            }
            return None;
        }
        let v = (b - 48) as usize;
        if acc > (usize::MAX - v) / 10 {
            proof {
                let t = d.take(i - from + 1);
                assert(t.drop_last() =~= d.take(i - from));
                assert(t.last() == b);
                assert(dec_val(t) == acc * 10 + v);
                assert(acc * 10 + v > usize::MAX) by (nonlinear_arith)
                    requires
                        acc > (usize::MAX - v) / 10,
                        v < 10,
                ;
                lemma_dec_val_monotone(d, i - from + 1);
            }
            return None;
        }
        proof {
            assert(acc * 10 + v <= usize::MAX) by (nonlinear_arith)
                requires
                    acc <= (usize::MAX - v) / 10,
                    v < 10,
            ;
            let t = d.take(i - from + 1);
            assert(t.drop_last() =~= d.take(i - from));
            assert(t.last() == b);
        }
        acc = acc * 10 + v;
        i = i + 1;
    }
    proof {
        assert(d.take(to - from) =~= d);
    }
    Some(acc)
}

} // verus!
