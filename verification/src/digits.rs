use vstd::prelude::*;

verus! {

/// True when `c` is an ASCII decimal digit.
pub open spec fn is_digit_char(c: char) -> bool {
    '0' <= c && c <= '9'
}

/// The numeric value of a digit character.
pub open spec fn digit_val(c: char) -> nat {
    ((c as u32) - 48) as nat
}

/// Every character of `s` is a decimal digit.
pub open spec fn all_digits(s: Seq<char>) -> bool {
    forall|i: int| 0 <= i < s.len() ==> is_digit_char(s[i])
}

/// The number denoted by a digit string, most significant digit first.
pub open spec fn digits_val(s: Seq<char>) -> nat
    decreases s.len(),
{
    if s.len() == 0 {
        0
    } else {
        digits_val(s.drop_last()) * 10 + digit_val(s.last())
    }
}

/// Ten to the power `n`.
pub open spec fn pow10(n: nat) -> nat
    decreases n,
{
    if n == 0 {
        1
    } else {
        10 * pow10((n - 1) as nat)
    }
}

/// The digit character for a value below ten.
pub open spec fn digit_char(d: nat) -> char {
    if d == 0 {
        '0'
    } else if d == 1 {
        '1'
    } else if d == 2 {
        '2'
    } else if d == 3 {
        '3'
    } else if d == 4 {
        '4'
    } else if d == 5 {
        '5'
    } else if d == 6 {
        '6'
    } else if d == 7 {
        '7'
    } else if d == 8 {
        '8'
    } else {
        '9'
    }
}

/// The decimal rendering of `n`: digits only, no leading zero except for zero itself.
pub open spec fn render_nat(n: nat) -> Seq<char>
    decreases n,
{
    if n < 10 {
        seq![digit_char(n)]
    } else {
        render_nat(n / 10).push(digit_char(n % 10))
    }
}

pub proof fn lemma_digit_char_val(d: nat)
    requires
        d < 10,
    ensures
        is_digit_char(digit_char(d)),
        digit_val(digit_char(d)) == d,
{
}

pub proof fn lemma_digit_val_bound(c: char)
    requires
        is_digit_char(c),
    ensures
        digit_val(c) <= 9,
{
}

pub proof fn lemma_pow10_pos(n: nat)
    ensures
        pow10(n) >= 1,
    decreases n,
{
    if n > 0 {
        lemma_pow10_pos((n - 1) as nat);
    }
}

pub proof fn lemma_pow10_mono(i: nat, j: nat)
    requires
        i <= j,
    ensures
        pow10(i) <= pow10(j),
    decreases j,
{
    if i < j {
        lemma_pow10_mono(i, (j - 1) as nat);
        lemma_pow10_pos((j - 1) as nat);
    }
}

/// Concatenation shifts the left part by the length of the right part.
pub proof fn lemma_digits_val_append(a: Seq<char>, b: Seq<char>)
    ensures
        digits_val(a + b) == digits_val(a) * pow10(b.len()) + digits_val(b),
    decreases b.len(),
{
    if b.len() == 0 {
        assert(a + b =~= a);
        assert(digits_val(b) == 0);
        assert(pow10(0) == 1);
        assert(digits_val(a) * 1 == digits_val(a));
    } else {
        let b0 = b.drop_last();
        lemma_digits_val_append(a, b0);
        assert((a + b).drop_last() =~= a + b0);
        assert((a + b).last() == b.last());
        let x = digits_val(a);
        let p = pow10(b0.len());
        assert(pow10(b.len()) == 10 * p);
        assert(digits_val(a + b) == digits_val((a + b).drop_last()) * 10 + digit_val((a + b).last()));
        assert(digits_val((a + b).drop_last()) == digits_val(a + b0));
        assert(digits_val(a + b) == (x * p + digits_val(b0)) * 10 + digit_val(b.last()));
        assert(digits_val(b) == digits_val(b0) * 10 + digit_val(b.last()));
        assert(x * (10 * p) == (x * p) * 10) by (nonlinear_arith);
        assert((x * p + digits_val(b0)) * 10 == (x * p) * 10 + digits_val(b0) * 10);
    }
}

pub proof fn lemma_zeros_val(s: Seq<char>)
    requires
        forall|i: int| 0 <= i < s.len() ==> s[i] == '0',
    ensures
        digits_val(s) == 0,
    decreases s.len(),
{
    if s.len() > 0 {
        lemma_zeros_val(s.drop_last());
    }
}

/// Leading zeros do not change the denoted value.
pub proof fn lemma_digits_val_skip_zeros(s: Seq<char>, k: int)
    requires
        0 <= k <= s.len(),
        forall|i: int| 0 <= i < k ==> s[i] == '0',
    ensures
        digits_val(s.skip(k)) == digits_val(s),
{
    assert(s =~= s.take(k) + s.skip(k));
    lemma_digits_val_append(s.take(k), s.skip(k));
    lemma_zeros_val(s.take(k));
}

/// A digit string of length `n` denotes less than ten to the `n`.
pub proof fn lemma_digits_val_upper(s: Seq<char>)
    requires
        all_digits(s),
    ensures
        digits_val(s) < pow10(s.len()),
    decreases s.len(),
{
    if s.len() > 0 {
        let s0 = s.drop_last();
        assert(all_digits(s0));
        lemma_digits_val_upper(s0);
        lemma_digit_val_bound(s.last());
        assert(pow10(s.len()) == 10 * pow10(s0.len()));
    }
}

/// Without a leading zero, a digit string of length `n` denotes at least ten to the `n - 1`.
pub proof fn lemma_digits_val_lower(s: Seq<char>)
    requires
        all_digits(s),
        s.len() > 0,
        s[0] != '0',
    ensures
        digits_val(s) >= pow10((s.len() - 1) as nat),
    decreases s.len(),
{
    if s.len() == 1 {
        assert(digits_val(s) == digits_val(s.drop_last()) * 10 + digit_val(s.last()));
        assert(s.last() == s[0]);
        assert(digit_val(s[0]) >= 1);
    } else {
        let s0 = s.drop_last();
        assert(all_digits(s0));
        assert(s0[0] == s[0]);
        lemma_digits_val_lower(s0);
        assert(pow10((s.len() - 1) as nat) == 10 * pow10((s0.len() - 1) as nat));
    }
}

/// A shorter digit string (zeros stripped from the longer one) denotes a smaller number.
pub proof fn lemma_digits_val_len_lt(a: Seq<char>, b: Seq<char>)
    requires
        all_digits(a),
        all_digits(b),
        a.len() < b.len(),
        b[0] != '0',
    ensures
        digits_val(a) < digits_val(b),
{
    lemma_digits_val_upper(a);
    lemma_pow10_mono(a.len(), (b.len() - 1) as nat);
    lemma_digits_val_lower(b);
}

/// Equal-length digit strings compare by their first differing digit.
pub proof fn lemma_digits_val_first_diff(a: Seq<char>, b: Seq<char>, i: int)
    requires
        all_digits(a),
        all_digits(b),
        a.len() == b.len(),
        0 <= i < a.len(),
        forall|j: int| 0 <= j < i ==> a[j] == b[j],
        digit_val(a[i]) < digit_val(b[i]),
    ensures
        digits_val(a) < digits_val(b),
{
    let len = a.len() as int;
    let k = (len - i - 1) as nat;
    assert(a =~= a.take(i + 1) + a.skip(i + 1));
    assert(b =~= b.take(i + 1) + b.skip(i + 1));
    lemma_digits_val_append(a.take(i + 1), a.skip(i + 1));
    lemma_digits_val_append(b.take(i + 1), b.skip(i + 1));
    assert(a.take(i + 1).drop_last() =~= a.take(i));
    assert(b.take(i + 1).drop_last() =~= b.take(i));
    assert(a.take(i) =~= b.take(i));
    assert(a.take(i + 1).last() == a[i]);
    assert(b.take(i + 1).last() == b[i]);
    let vat = digits_val(a.take(i + 1));
    let vbt = digits_val(b.take(i + 1));
    assert(vat == digits_val(a.take(i)) * 10 + digit_val(a[i]));
    assert(vbt == digits_val(b.take(i)) * 10 + digit_val(b[i]));
    assert(vat + 1 <= vbt);
    assert(all_digits(a.skip(i + 1)));
    assert(all_digits(b.skip(i + 1)));
    lemma_digits_val_upper(a.skip(i + 1));
    assert(a.skip(i + 1).len() == k);
    assert(b.skip(i + 1).len() == k);
    let p = pow10(k);
    lemma_pow10_pos(k);
    assert((vat + 1) * p <= vbt * p) by (nonlinear_arith)
        requires
            vat + 1 <= vbt,
            p >= 0,
    ;
    assert((vat + 1) * p == vat * p + p) by (nonlinear_arith);
    assert(digits_val(a) == vat * p + digits_val(a.skip(i + 1)));
    assert(digits_val(b) == vbt * p + digits_val(b.skip(i + 1)));
    assert(digits_val(a) < vat * p + p);
}

/// Extending a digit string to the right can only enlarge its value.
pub proof fn lemma_digits_val_prefix_le(a: Seq<char>, b: Seq<char>)
    ensures
        digits_val(a) <= digits_val(a + b),
{
    lemma_digits_val_append(a, b);
    let p = pow10(b.len());
    lemma_pow10_pos(b.len());
    let x = digits_val(a);
    assert(x * p >= x * 1) by (nonlinear_arith)
        requires
            p >= 1,
            x >= 0,
    ;
}

/// The decimal rendering denotes the number it was made from, consists of
/// digits, and has no leading zero unless the number is zero.
pub proof fn lemma_render_nat(n: nat)
    ensures
        all_digits(render_nat(n)),
        render_nat(n).len() >= 1,
        digits_val(render_nat(n)) == n,
        n >= 1 ==> render_nat(n)[0] != '0',
        n == 0 ==> render_nat(n) =~= seq!['0'],
    decreases n,
{
    if n < 10 {
        lemma_digit_char_val(n);
        let s = seq![digit_char(n)];
        assert(s.drop_last() =~= Seq::<char>::empty());
        assert(digits_val(s.drop_last()) == 0);
        assert(s.last() == digit_char(n));
        assert(digits_val(s) == digits_val(s.drop_last()) * 10 + digit_val(s.last()));
        assert(digits_val(s) == n);
    } else {
        lemma_render_nat(n / 10);
        lemma_digit_char_val(n % 10);
        let r0 = render_nat(n / 10);
        let s = r0.push(digit_char(n % 10));
        assert(s.drop_last() =~= r0);
        assert(s.last() == digit_char(n % 10));
        assert(digits_val(s) == (n / 10) * 10 + n % 10);
        assert((n / 10) * 10 + n % 10 == n) by (nonlinear_arith);
        assert(s[0] == r0[0]);
        assert(forall|i: int| 0 <= i < s.len() ==> is_digit_char(#[trigger] s[i]));
    }
}

} // verus!
