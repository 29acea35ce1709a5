use vstd::prelude::*;
use crate::digits::{
    is_digit_char, digit_val, all_digits, digits_val, lemma_digits_val_skip_zeros,
    lemma_digits_val_len_lt, lemma_digits_val_first_diff, lemma_digits_val_lower,
};
use vstd::string::StrSliceExecFns;

verus! {

/// Index of the first `.` in `s`, or a negative value when there is none.
pub open spec fn find_dot(s: Seq<char>) -> int
    decreases s.len(),
{
    if s.len() == 0 {
        -1
    } else if s[0] == '.' {
        0
    } else if find_dot(s.drop_first()) < 0 {
        -1
    } else {
        find_dot(s.drop_first()) + 1
    }
}

pub proof fn lemma_find_dot(s: Seq<char>)
    ensures
        find_dot(s) >= 0 ==> find_dot(s) < s.len() && s[find_dot(s)] == '.' && (forall|i: int|
            0 <= i < find_dot(s) ==> s[i] != '.'),
        find_dot(s) < 0 ==> forall|i: int| 0 <= i < s.len() ==> s[i] != '.',
    decreases s.len(),
{
    if s.len() > 0 && s[0] != '.' {
        let t = s.drop_first();
        lemma_find_dot(t);
        assert(forall|i: int| 0 <= i < t.len() ==> #[trigger] t[i] == s[i + 1]);
        if find_dot(t) < 0 {
            assert forall|i: int| 0 <= i < s.len() implies s[i] != '.' by {
                if i > 0 {
                    assert(t[i - 1] == s[i]);
                }
            }
        } else {
            let r = find_dot(t) + 1;
            assert(s[r] == t[r - 1]);
            assert forall|i: int| 0 <= i < r implies s[i] != '.' by {
                if i > 0 {
                    assert(t[i - 1] == s[i]);
                }
            }
        }
    }
}

pub proof fn lemma_find_dot_at(s: Seq<char>, k: int)
    requires
        0 <= k < s.len(),
        s[k] == '.',
        forall|i: int| 0 <= i < k ==> s[i] != '.',
    ensures
        find_dot(s) == k,
{
    lemma_find_dot(s);
}

/// The three dot-separated components of a version string.
pub open spec fn version_parts(s: Seq<char>) -> (Seq<char>, Seq<char>, Seq<char>) {
    let i = find_dot(s);
    let t = s.skip(i + 1);
    let j = find_dot(t);
    (s.take(i), t.take(j), t.skip(j + 1))
}

/// A version string has exactly three non-empty, all-digit components
/// separated by dots.
pub open spec fn valid_version(s: Seq<char>) -> bool {
    let i = find_dot(s);
    let t = s.skip(i + 1);
    let j = find_dot(t);
    i >= 1 && j >= 1 && t.len() - j - 1 >= 1 && all_digits(s.take(i)) && all_digits(t.take(j))
        && all_digits(t.skip(j + 1))
}

/// Three-way comparison of natural numbers.
pub open spec fn cmp_nat(x: nat, y: nat) -> int {
    if x > y {
        1
    } else if x < y {
        -1
    } else {
        0
    }
}

/// Lexicographic comparison of two versions by the numeric values of their
/// components: major first, then minor, then patch.
pub open spec fn spec_compare_versions(a: Seq<char>, b: Seq<char>) -> int {
    let ap = version_parts(a);
    let bp = version_parts(b);
    if digits_val(ap.0) != digits_val(bp.0) {
        cmp_nat(digits_val(ap.0), digits_val(bp.0))
    } else if digits_val(ap.1) != digits_val(bp.1) {
        cmp_nat(digits_val(ap.1), digits_val(bp.1))
    } else {
        cmp_nat(digits_val(ap.2), digits_val(bp.2))
    }
}

/// Comparing in the other order flips the sign.
pub proof fn lemma_compare_antisymmetric(a: Seq<char>, b: Seq<char>)
    ensures
        spec_compare_versions(a, b) == -spec_compare_versions(b, a),
{
}

/// The comparison order is transitive, both strictly and with equality.
pub proof fn lemma_compare_transitive(a: Seq<char>, b: Seq<char>, c: Seq<char>)
    ensures
        spec_compare_versions(a, b) >= 0 && spec_compare_versions(b, c) >= 0
            ==> spec_compare_versions(a, c) >= 0,
        spec_compare_versions(a, b) == 0 && spec_compare_versions(b, c) == 0
            ==> spec_compare_versions(a, c) == 0,
        spec_compare_versions(a, b) == 1 && spec_compare_versions(b, c) == 1
            ==> spec_compare_versions(a, c) == 1,
{
}

/// Find the first `.` at or after `from`; the result is characterized the same
/// way as `find_dot` on the tail of the view.
fn find_dot_in(s: &str, from: usize, len: usize) -> (r: Option<usize>)
    requires
        from as int <= s@.len(),
        len as int == s@.len(),
    ensures
        match r {
            Some(k) => from <= k && (k as int) < s@.len() && s@[k as int] == '.' && (forall|i: int|
                from <= i < k ==> s@[i] != '.'),
            None => forall|i: int| from <= i < s@.len() ==> s@[i] != '.',
        },
{
    let mut k = from;
    while k < len
        invariant
            from <= k,
            k as int <= s@.len(),
            len as int == s@.len(),
            forall|i: int| from <= i < k ==> s@[i] != '.',
        decreases len - k,
    {
        if s.get_char(k) == '.' {
            return Some(k);
        }
        k = k + 1;
    }
    None
}

/// Whether every character in `[from, to)` is a decimal digit.
fn all_digits_in(s: &str, from: usize, to: usize) -> (r: bool)
    requires
        from <= to,
        to as int <= s@.len(),
    ensures
        r == all_digits(s@.subrange(from as int, to as int)),
{
    let ghost sub = s@.subrange(from as int, to as int);
    let mut k = from;
    while k < to
        invariant
            from <= k <= to,
            to as int <= s@.len(),
            sub == s@.subrange(from as int, to as int),
            forall|i: int| from <= i < k ==> is_digit_char(#[trigger] s@[i]),
        decreases to - k,
    {
        let c = s.get_char(k);
        if !('0' <= c && c <= '9') {
            assert(sub[k - from] == s@[k as int]);
            assert(!all_digits(sub));
            return false;
        }
        k = k + 1;
    }
    assert(forall|i: int| 0 <= i < sub.len() ==> #[trigger] sub[i] == s@[i + from]);
    true
}

/// Whether `s` is a well-formed three-component version string.
pub fn is_valid_version(s: &str) -> (r: bool)
    ensures
        r == valid_version(s@),
{
    let len = s.unicode_len();
    let d1 = find_dot_in(s, 0, len);
    let i = match d1 {
        None => {
            proof {
                lemma_find_dot(s@);
            }
            return false;
        },
        Some(i) => i,
    };
    proof {
        lemma_find_dot_at(s@, i as int);
    }
    if i == 0 {
        return false;
    }
    let ghost t = s@.skip(i + 1);
    let d2 = find_dot_in(s, i + 1, len);
    let k2 = match d2 {
        None => {
            proof {
                lemma_find_dot(t);
                assert(forall|x: int| 0 <= x < t.len() ==> t[x] == s@[x + i + 1]);
            }
            return false;
        },
        Some(k2) => k2,
    };
    proof {
        assert(forall|x: int| 0 <= x < t.len() ==> t[x] == s@[x + i + 1]);
        lemma_find_dot_at(t, k2 - i - 1);
    }
    if k2 == i + 1 {
        return false;
    }
    if k2 + 1 >= len {
        return false;
    }
    let c1 = all_digits_in(s, 0, i);
    let c2 = all_digits_in(s, i + 1, k2);
    let c3 = all_digits_in(s, k2 + 1, len);
    proof {
        assert(s@.take(i as int) =~= s@.subrange(0, i as int));
        assert(t.take(k2 - i - 1) =~= s@.subrange(i + 1, k2 as int));
        assert(t.skip(k2 - i - 1 + 1) =~= s@.subrange(k2 + 1, len as int));
    }
    c1 && c2 && c3
}

/// The first index in `[lo, hi)` whose character is not `'0'`, or `hi`.
fn skip_zeros(s: &str, lo: usize, hi: usize) -> (r: usize)
    requires
        lo <= hi,
        hi as int <= s@.len(),
    ensures
        lo <= r <= hi,
        forall|x: int| lo <= x < r ==> s@[x] == '0',
        r < hi ==> s@[r as int] != '0',
{
    let mut i = lo;
    while i < hi
        invariant
            lo <= i <= hi,
            hi as int <= s@.len(),
            forall|x: int| lo <= x < i ==> s@[x] == '0',
        decreases hi - i,
    {
        if s.get_char(i) != '0' {
            return i;
        }
        i = i + 1;
    }
    i
}

/// Three-way comparison of the digit strings `a[al..ah)` and `b[bl..bh)` by
/// numeric value.
fn cmp_component(a: &str, al: usize, ah: usize, b: &str, bl: usize, bh: usize) -> (r: i8)
    requires
        al <= ah,
        ah as int <= a@.len(),
        bl <= bh,
        bh as int <= b@.len(),
        all_digits(a@.subrange(al as int, ah as int)),
        all_digits(b@.subrange(bl as int, bh as int)),
    ensures
        r as int == cmp_nat(
            digits_val(a@.subrange(al as int, ah as int)),
            digits_val(b@.subrange(bl as int, bh as int)),
        ),
{
    broadcast use vstd::utf8::char_u32_cast;

    let ghost asub = a@.subrange(al as int, ah as int);
    let ghost bsub = b@.subrange(bl as int, bh as int);
    let i = skip_zeros(a, al, ah);
    let j = skip_zeros(b, bl, bh);
    let ghost astr = a@.subrange(i as int, ah as int);
    let ghost bstr = b@.subrange(j as int, bh as int);
    proof {
        assert(forall|x: int| 0 <= x < asub.len() ==> #[trigger] asub[x] == a@[x + al]);
        assert(forall|x: int| 0 <= x < bsub.len() ==> #[trigger] bsub[x] == b@[x + bl]);
        assert(asub.skip(i - al) =~= astr);
        assert(bsub.skip(j - bl) =~= bstr);
        lemma_digits_val_skip_zeros(asub, i - al);
        lemma_digits_val_skip_zeros(bsub, j - bl);
        assert(all_digits(astr));
        assert(all_digits(bstr));
    }
    let la = ah - i;
    let lb = bh - j;
    if la < lb {
        proof {
            assert(bstr[0] == b@[j as int]);
            assert(bstr[0] != '0');
            lemma_digits_val_len_lt(astr, bstr);
        }
        return -1;
    }
    if lb < la {
        proof {
            assert(astr[0] != '0');
            lemma_digits_val_len_lt(bstr, astr);
        }
        return 1;
    }
    let mut k: usize = 0;
    while k < la
        invariant
            0 <= k <= la,
            la == ah - i,
            la == bh - j,
            al <= i <= ah,
            bl <= j <= bh,
            ah as int <= a@.len(),
            bh as int <= b@.len(),
            astr == a@.subrange(i as int, ah as int),
            bstr == b@.subrange(j as int, bh as int),
            asub == a@.subrange(al as int, ah as int),
            bsub == b@.subrange(bl as int, bh as int),
            digits_val(asub) == digits_val(astr),
            digits_val(bsub) == digits_val(bstr),
            all_digits(astr),
            all_digits(bstr),
            forall|x: int| 0 <= x < k ==> astr[x] == bstr[x],
        decreases la - k,
    {
        let ca = a.get_char(i + k);
        let cb = b.get_char(j + k);
        proof {
            assert(astr[k as int] == a@[i + k]);
            assert(bstr[k as int] == b@[j + k]);
            assert(is_digit_char(astr[k as int]));
            assert(is_digit_char(bstr[k as int]));
            assert(48 <= ca as u32 <= 57);
            assert(48 <= cb as u32 <= 57);
            assert((ca as u32) < (cb as u32) ==> digit_val(ca) < digit_val(cb));
            assert((cb as u32) < (ca as u32) ==> digit_val(cb) < digit_val(ca));
        }
        if ca as u32 != cb as u32 {
            if (ca as u32) < (cb as u32) {
                proof {
                    lemma_digits_val_first_diff(astr, bstr, k as int);
                }
                return -1;
            } else {
                proof {
                    lemma_digits_val_first_diff(bstr, astr, k as int);
                }
                return 1;
            }
        }
        proof {
            assert(ca == cb);
        }
        k = k + 1;
    }
    proof {
        assert(astr =~= bstr);
    }
    0
}

/// Compare two version strings of the form `MAJOR.MINOR.PATCH` numerically,
/// component by component: `1` when `a` is greater, `-1` when `b` is greater,
/// `0` when they are equal.
pub fn compare_versions(a: String, b: String) -> (r: i8)
    requires
        valid_version(a@),
        valid_version(b@),
    ensures
        r as int == spec_compare_versions(a@, b@),
{
    let (ai, aj, alen) = locate_dots(a.as_str());
    let (bi, bj, blen) = locate_dots(b.as_str());
    let astr = a.as_str();
    let bstr = b.as_str();
    proof {
        let i = find_dot(a@);
        let t = a@.skip(i + 1);
        let j = find_dot(t);
        assert(a@.take(i) =~= a@.subrange(0, ai as int));
        assert(t.take(j) =~= a@.subrange(ai + 1, aj as int));
        assert(t.skip(j + 1) =~= a@.subrange(aj + 1, alen as int));
        let i2 = find_dot(b@);
        let t2 = b@.skip(i2 + 1);
        let j2 = find_dot(t2);
        assert(b@.take(i2) =~= b@.subrange(0, bi as int));
        assert(t2.take(j2) =~= b@.subrange(bi + 1, bj as int));
        assert(t2.skip(j2 + 1) =~= b@.subrange(bj + 1, blen as int));
    }
    let major = cmp_component(astr, 0, ai, bstr, 0, bi);
    if major != 0 {
        return major;
    }
    let minor = cmp_component(astr, ai + 1, aj, bstr, bi + 1, bj);
    if minor != 0 {
        return minor;
    }
    cmp_component(astr, aj + 1, alen, bstr, bj + 1, blen)
}

/// The positions of the two dots of a valid version string, and its length.
fn locate_dots(s: &str) -> (r: (usize, usize, usize))
    requires
        valid_version(s@),
    ensures
        ({
            let i = find_dot(s@);
            let j = find_dot(s@.skip(i + 1));
            r.0 as int == i && r.1 as int == i + 1 + j && r.2 as int == s@.len() && r.0 < r.1
                && r.1 < r.2 && all_digits(s@.subrange(0, r.0 as int)) && all_digits(
                s@.subrange(r.0 + 1, r.1 as int),
            ) && all_digits(s@.subrange(r.1 + 1, r.2 as int))
        }),
{
    proof {
        lemma_find_dot(s@);
        lemma_find_dot(s@.skip(find_dot(s@) + 1));
    }
    let len = s.unicode_len();
    let ghost gi = find_dot(s@);
    let ghost t = s@.skip(gi + 1);
    let ghost gj = find_dot(t);
    let d1 = find_dot_in(s, 0, len);
    let i = match d1 {
        None => {
            proof {
                assert(s@[gi] == '.');
            }
            unreached()
        },
        Some(i) => i,
    };
    proof {
        lemma_find_dot_at(s@, i as int);
    }
    let d2 = find_dot_in(s, i + 1, len);
    let k2 = match d2 {
        None => {
            proof {
                assert(forall|x: int| 0 <= x < t.len() ==> t[x] == s@[x + gi + 1]);
                assert(s@[gj + gi + 1] == '.');
            }
            unreached()
        },
        Some(k2) => k2,
    };
    proof {
        assert(forall|x: int| 0 <= x < t.len() ==> t[x] == s@[x + gi + 1]);
        lemma_find_dot_at(t, k2 - i - 1);
        assert(s@.take(gi) =~= s@.subrange(0, gi));
        assert(t.take(gj) =~= s@.subrange(gi + 1, k2 as int));
        assert(t.skip(gj + 1) =~= s@.subrange(k2 + 1, len as int));
    }
    (i, k2, len)
}

} // verus!
