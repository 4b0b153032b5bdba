//! Small text utilities shared by the digest and JSON modules: decimal
//! rendering of integers and the lexicographic order on character sequences.
use vstd::prelude::*;

verus! {

/// Relies on std's `String::push`: appends one character to the string.
pub assume_specification[ String::push ](s: &mut String, ch: char)
    ensures
        final (s)@ == old(s)@.push(ch),
;

/// The decimal digit character for `n` (0 through 9).
pub open spec fn dec_digit(n: nat) -> char
    recommends
        n < 10,
{
    ((48 + n) as u8) as char
}

/// The decimal rendering of `n`, most significant digit first.
pub open spec fn dec_str(n: nat) -> Seq<char>
    decreases n,
{
    if n < 10 {
        seq![dec_digit(n)]
    } else {
        dec_str(n / 10).push(dec_digit(n % 10))
    }
}

/// Render `n` in decimal.
pub fn u64_to_string(n: u64) -> (r: String)
    ensures
        r@ == dec_str(n as nat),
{
    let mut digits: Vec<char> = Vec::new();
    let mut m: u64 = n;
    loop
        invariant_except_break
            dec_str(n as nat) == dec_str(m as nat) + digits@.reverse(),
        ensures
            dec_str(n as nat) == digits@.reverse(),
        decreases m,
    {
        let ghost m0 = m as nat;
        let d: u8 = (m % 10) as u8;
        let c: char = (48 + d) as char;
        let ghost old_digits = digits@;
        digits.push(c);
        m = m / 10;
        proof {
            assert(digits@.reverse() =~= seq![c] + old_digits.reverse());
            if m > 0 {
                assert(m0 >= 10);
                assert(dec_str(m0) == dec_str(m0 / 10).push(dec_digit(m0 % 10)));
                assert(dec_str(m as nat).push(c) + old_digits.reverse() =~= dec_str(m as nat) + (
                seq![c] + old_digits.reverse()));
            } else {
                assert(m0 < 10);
                assert(dec_str(m0) == seq![dec_digit(m0)]);
                assert(dec_str(m0) + old_digits.reverse() =~= seq![c] + old_digits.reverse());
            }
        }
        if m == 0 {
            break;
        }
    }
    let mut r = String::new();
    let mut i: usize = digits.len();
    while i > 0
        invariant
            i <= digits@.len(),
            r@ == digits@.subrange(i as int, digits@.len() as int).reverse(),
        decreases i,
    {
        let ghost old_r = r@;
        i = i - 1;
        r.push(digits[i]);
        proof {
            assert(digits@.subrange(i as int, digits@.len() as int).reverse() =~= old_r.push(
                digits@[i as int],
            ));
        }
    }
    proof {
        assert(digits@.subrange(0, digits@.len() as int) =~= digits@);
    }
    r
}

/// The numeric value of a run of decimal digit characters, most significant
/// first: the inverse of [`dec_str`] on its outputs.
pub open spec fn dec_val(t: Seq<char>) -> nat
    decreases t.len(),
{
    if t.len() == 0 {
        0
    } else {
        dec_val(t.drop_last()) * 10 + (if '0' <= t.last() && t.last() <= '9' {
            ((t.last() as u32) - 48) as nat
        } else {
            0
        })
    }
}

/// Round trip: the decimal rendering of a number decodes back to it.
pub proof fn lemma_dec_roundtrip(n: nat)
    ensures
        dec_val(dec_str(n)) == n,
    decreases n,
{
    lemma_dec_digit_val(n % 10);
    if n < 10 {
        lemma_dec_digit_val(n);
        assert(dec_str(n) == seq![dec_digit(n)]);
        assert(dec_str(n).drop_last() =~= Seq::<char>::empty());
        assert(dec_val(Seq::<char>::empty()) == 0);
        assert(dec_str(n).last() == dec_digit(n));
        assert(dec_val(dec_str(n)) == 0 * 10 + n);
    } else {
        lemma_dec_roundtrip(n / 10);
        assert(dec_str(n).drop_last() =~= dec_str(n / 10));
        assert(dec_str(n).last() == dec_digit(n % 10));
    }
}

/// Decimal digits decode back to their values.
proof fn lemma_dec_digit_val(n: nat)
    requires
        n < 10,
    ensures
        '0' <= dec_digit(n) && dec_digit(n) <= '9',
        ((dec_digit(n) as u32) - 48) as nat == n,
{
    assert((((48 + n) as u8) as char) as u32 == 48 + n);
    assert('0' <= (((48 + n) as u8) as char) && (((48 + n) as u8) as char) <= '9');
}

/// Lexicographic "less than or equal" on character sequences, by code point.
pub open spec fn chars_le(a: Seq<char>, b: Seq<char>) -> bool
    decreases a.len(),
{
    if a.len() == 0 {
        true
    } else if b.len() == 0 {
        false
    } else if a[0] != b[0] {
        a[0] < b[0]
    } else {
        chars_le(a.drop_first(), b.drop_first())
    }
}

/// Strict form of [`chars_le`].
pub open spec fn chars_lt(a: Seq<char>, b: Seq<char>) -> bool {
    chars_le(a, b) && a != b
}

pub proof fn lemma_chars_le_total(a: Seq<char>, b: Seq<char>)
    ensures
        chars_le(a, b) || chars_le(b, a),
        (chars_le(a, b) && chars_le(b, a)) ==> a == b,
        chars_le(a, a),
    decreases a.len(),
{
    if a.len() == 0 || b.len() == 0 {
        if chars_le(a, b) && chars_le(b, a) {
            assert(a =~= b);
        }
    } else if a[0] == b[0] {
        lemma_chars_le_total(a.drop_first(), b.drop_first());
        if chars_le(a, b) && chars_le(b, a) {
            assert(a.drop_first() == b.drop_first());
            assert(a.len() == b.len());
            assert forall|j: int| 0 <= j < a.len() implies a[j] == b[j] by {
                if j > 0 {
                    assert(a[j] == a.drop_first()[j - 1]);
                    assert(b[j] == b.drop_first()[j - 1]);
                }
            }
            assert(a =~= b);
        }
    }
    if a.len() > 0 {
        lemma_chars_le_total(a.drop_first(), a.drop_first());
    }
}

pub proof fn lemma_chars_le_trans(a: Seq<char>, b: Seq<char>, c: Seq<char>)
    requires
        chars_le(a, b),
        chars_le(b, c),
    ensures
        chars_le(a, c),
    decreases a.len(),
{
    if a.len() == 0 || b.len() == 0 || c.len() == 0 {
    } else if a[0] == b[0] && b[0] == c[0] {
        lemma_chars_le_trans(a.drop_first(), b.drop_first(), c.drop_first());
    }
}

/// Compare two strings in the order of [`chars_le`].
pub fn str_le(a: &str, b: &str) -> (r: bool)
    ensures
        r == chars_le(a@, b@),
{
    let alen = a.unicode_len();
    let blen = b.unicode_len();
    let mut i: usize = 0;
    proof {
        assert(a@.skip(0) =~= a@);
        assert(b@.skip(0) =~= b@);
    }
    loop
        invariant
            alen == a@.len(),
            blen == b@.len(),
            i <= alen,
            i <= blen,
            chars_le(a@, b@) == chars_le(a@.skip(i as int), b@.skip(i as int)),
        decreases alen - i,
    {
        proof {
            lemma_chars_le_skip(a@, b@, i as int);
        }
        if i >= alen {
            return true;
        }
        if i >= blen {
            return false;
        }
        let ca = a.get_char(i);
        let cb = b.get_char(i);
        if ca != cb {
            return ca < cb;
        }
        i = i + 1;
    }
}

/// One unfolding step: if the first `i` characters agree, the order is
/// decided by the tails.
proof fn lemma_chars_le_skip(a: Seq<char>, b: Seq<char>, i: int)
    requires
        0 <= i <= a.len(),
        i <= b.len(),
        chars_le(a, b) == chars_le(a.skip(i), b.skip(i)),
    ensures
        i < a.len() && i < b.len() && a[i] == b[i] ==> chars_le(a, b) == chars_le(
            a.skip(i + 1),
            b.skip(i + 1),
        ),
        i < a.len() && i < b.len() && a[i] != b[i] ==> chars_le(a, b) == (a[i] < b[i]),
        i == a.len() ==> chars_le(a, b),
        (i == b.len() && i < a.len()) ==> !chars_le(a, b),
{
    if i < a.len() && i < b.len() {
        assert(a.skip(i).len() > 0);
        assert(a.skip(i)[0] == a[i]);
        assert(b.skip(i)[0] == b[i]);
        assert(a.skip(i).drop_first() =~= a.skip(i + 1));
        assert(b.skip(i).drop_first() =~= b.skip(i + 1));
    } else if i == a.len() {
        assert(a.skip(i).len() == 0);
    } else {
        assert(b.skip(i).len() == 0);
        assert(a.skip(i).len() > 0);
    }
}

/// Check two strings for equality of their character sequences.
pub fn str_eq(a: &str, b: &str) -> (r: bool)
    ensures
        r == (a@ == b@),
{
    let alen = a.unicode_len();
    let blen = b.unicode_len();
    if alen != blen {
        return false;
    }
    let mut i: usize = 0;
    while i < alen
        invariant
            alen == a@.len(),
            alen == b@.len(),
            i <= alen,
            forall|j: int| 0 <= j < i ==> a@[j] == b@[j],
        decreases alen - i,
    {
        if a.get_char(i) != b.get_char(i) {
            return false;
        }
        i = i + 1;
    }
    proof {
        assert(a@ =~= b@);
    }
    true
}

} // verus!
