//! Canonical decimal numerals.
//!
//! A number token is scanned as a maximal run of digits and dots.  The run is
//! well formed when it holds at least one digit, at most one dot, and does not
//! end in a dot; its canonical text drops leading zeros of the integer part
//! and trailing zeros of the fraction, and drops the dot when the fraction
//! becomes empty.  The formatter emits the canonical text verbatim, so the
//! canonical form is also the fixed point that round-trip formatting relies
//! on.

use vstd::prelude::*;

use crate::error::JsonError;
use crate::text::is_digit_char;

verus! {

/// The number of `.` characters in `s`.
pub open spec fn dot_count(s: Seq<char>) -> nat
    decreases s.len(),
{
    if s.len() == 0 {
        0
    } else if s[0] == '.' {
        1 + dot_count(s.drop_first())
    } else {
        dot_count(s.drop_first())
    }
}

/// Every character of `s` is a digit or a dot.
pub open spec fn all_digit_dot(s: Seq<char>) -> bool {
    forall|i: int| 0 <= i < s.len() ==> is_digit_char(s[i]) || s[i] == '.'
}

/// A well-formed numeral: nonempty, digits with at most one dot, and not
/// ending in a dot.
pub open spec fn numeral_ok(s: Seq<char>) -> bool {
    &&& s.len() > 0
    &&& all_digit_dot(s)
    &&& dot_count(s) <= 1
    &&& s[s.len() - 1] != '.'
}

/// The length of the longest prefix of `s` without a dot, so also the index
/// of the first dot when there is one.
pub open spec fn dot_pos(s: Seq<char>) -> nat
    decreases s.len(),
{
    if s.len() > 0 && s[0] != '.' {
        1 + dot_pos(s.drop_first())
    } else {
        0
    }
}

/// The digits before the first dot.
pub open spec fn int_digits(s: Seq<char>) -> Seq<char> {
    s.take(dot_pos(s) as int)
}

/// The digits after the first dot, empty when there is no dot.
pub open spec fn frac_digits(s: Seq<char>) -> Seq<char> {
    if dot_pos(s) < s.len() {
        s.skip(dot_pos(s) as int + 1)
    } else {
        Seq::empty()
    }
}

/// The length of the longest prefix of `s` made of `0` characters.
pub open spec fn zeros_front(s: Seq<char>) -> nat
    decreases s.len(),
{
    if s.len() > 0 && s[0] == '0' {
        1 + zeros_front(s.drop_first())
    } else {
        0
    }
}

/// The length of the longest suffix of `s` made of `0` characters.
pub open spec fn zeros_back(s: Seq<char>) -> nat
    decreases s.len(),
{
    if s.len() > 0 && s[s.len() - 1] == '0' {
        1 + zeros_back(s.drop_last())
    } else {
        0
    }
}

/// The canonical integer part: leading zeros stripped, a lone `0` when
/// nothing is left.
pub open spec fn canon_int(s: Seq<char>) -> Seq<char> {
    if zeros_front(s) == s.len() {
        seq!['0']
    } else {
        s.skip(zeros_front(s) as int)
    }
}

/// The canonical fraction part: trailing zeros stripped.
pub open spec fn canon_frac(s: Seq<char>) -> Seq<char> {
    s.take(s.len() - zeros_back(s))
}

/// The canonical text of a well-formed numeral.
pub open spec fn canon_number(s: Seq<char>) -> Seq<char> {
    if canon_frac(frac_digits(s)).len() == 0 {
        canon_int(int_digits(s))
    } else {
        canon_int(int_digits(s)) + seq!['.'] + canon_frac(frac_digits(s))
    }
}

/// `dot_pos` is the index of the first dot: everything before it is dot-free,
/// and when it lies inside `s` it holds a dot.
pub proof fn lemma_dot_pos(s: Seq<char>)
    ensures
        dot_pos(s) <= s.len(),
        forall|i: int| 0 <= i < dot_pos(s) ==> s[i] != '.',
        dot_pos(s) < s.len() ==> s[dot_pos(s) as int] == '.',
    decreases s.len(),
{
    if s.len() > 0 && s[0] != '.' {
        lemma_dot_pos(s.drop_first());
        assert forall|i: int| 0 <= i < dot_pos(s) implies s[i] != '.' by {
            if i > 0 {
                assert(s.drop_first()[i - 1] != '.');
            }
        }
    }
}

/// `dot_pos` is pinned by the first-dot characterisation.
pub proof fn lemma_dot_pos_is(s: Seq<char>, k: nat)
    requires
        k <= s.len(),
        forall|i: int| 0 <= i < k ==> s[i] != '.',
        k < s.len() ==> s[k as int] == '.',
    ensures
        dot_pos(s) == k,
    decreases s.len(),
{
    if s.len() > 0 && s[0] != '.' {
        assert(k > 0);
        lemma_dot_pos_is(s.drop_first(), (k - 1) as nat);
    }
}

/// `zeros_front` is the longest all-zero prefix.
pub proof fn lemma_zeros_front(s: Seq<char>)
    ensures
        zeros_front(s) <= s.len(),
        forall|i: int| 0 <= i < zeros_front(s) ==> s[i] == '0',
        zeros_front(s) < s.len() ==> s[zeros_front(s) as int] != '0',
    decreases s.len(),
{
    if s.len() > 0 && s[0] == '0' {
        lemma_zeros_front(s.drop_first());
        assert forall|i: int| 0 <= i < zeros_front(s) implies s[i] == '0' by {
            if i > 0 {
                assert(s.drop_first()[i - 1] == '0');
            }
        }
    }
}

/// `zeros_front` is pinned by the all-zero-prefix characterisation.
pub proof fn lemma_zeros_front_is(s: Seq<char>, k: nat)
    requires
        k <= s.len(),
        forall|i: int| 0 <= i < k ==> s[i] == '0',
        k < s.len() ==> s[k as int] != '0',
    ensures
        zeros_front(s) == k,
    decreases s.len(),
{
    if s.len() > 0 && s[0] == '0' {
        assert(k > 0);
        lemma_zeros_front_is(s.drop_first(), (k - 1) as nat);
    }
}

/// `zeros_back` is the longest all-zero suffix.
pub proof fn lemma_zeros_back(s: Seq<char>)
    ensures
        zeros_back(s) <= s.len(),
        forall|i: int| s.len() - zeros_back(s) <= i < s.len() ==> s[i] == '0',
        zeros_back(s) < s.len() ==> s[s.len() - zeros_back(s) - 1] != '0',
    decreases s.len(),
{
    if s.len() > 0 && s[s.len() - 1] == '0' {
        lemma_zeros_back(s.drop_last());
        assert forall|i: int| s.len() - zeros_back(s) <= i < s.len() implies s[i] == '0' by {
            if i < s.len() - 1 {
                assert(s.drop_last()[i] == '0');
            }
        }
    }
}

/// `zeros_back` is pinned by the all-zero-suffix characterisation.
pub proof fn lemma_zeros_back_is(s: Seq<char>, k: nat)
    requires
        k <= s.len(),
        forall|i: int| s.len() - k <= i < s.len() ==> s[i] == '0',
        k < s.len() ==> s[s.len() - k - 1] != '0',
    ensures
        zeros_back(s) == k,
    decreases s.len(),
{
    if s.len() > 0 && s[s.len() - 1] == '0' {
        assert(k > 0);
        assert forall|i: int| s.drop_last().len() - (k - 1) <= i < s.drop_last().len() implies s
            .drop_last()[i] == '0' by {
            assert(s[i] == '0');
        }
        lemma_zeros_back_is(s.drop_last(), (k - 1) as nat);
    }
}

/// A dot somewhere in `s` makes `dot_count` positive.
pub proof fn lemma_dot_count_pos(s: Seq<char>, i: int)
    requires
        0 <= i < s.len(),
        s[i] == '.',
    ensures
        dot_count(s) >= 1,
    decreases s.len(),
{
    if s[0] != '.' {
        lemma_dot_count_pos(s.drop_first(), i - 1);
    }
}

/// A dot-free sequence has `dot_count` zero.
pub proof fn lemma_dot_count_none(s: Seq<char>)
    requires
        forall|i: int| 0 <= i < s.len() ==> s[i] != '.',
    ensures
        dot_count(s) == 0,
    decreases s.len(),
{
    if s.len() > 0 {
        assert forall|i: int| 0 <= i < s.drop_first().len() implies s.drop_first()[i] != '.' by {
            assert(s[i + 1] != '.');
        }
        lemma_dot_count_none(s.drop_first());
    }
}

/// With a first dot and nothing after it, `dot_count` is exactly one.
pub proof fn lemma_dot_count_single(s: Seq<char>)
    requires
        dot_pos(s) < s.len(),
        forall|i: int| dot_pos(s) < i < s.len() ==> s[i] != '.',
    ensures
        dot_count(s) == 1,
    decreases s.len(),
{
    if s[0] != '.' {
        assert forall|i: int| dot_pos(s.drop_first()) < i < s.drop_first().len() implies s
            .drop_first()[i] != '.' by {
            assert(s[i + 1] != '.');
        }
        lemma_dot_count_single(s.drop_first());
    } else {
        assert forall|i: int| 0 <= i < s.drop_first().len() implies s.drop_first()[i] != '.' by {
            assert(s[i + 1] != '.');
        }
        lemma_dot_count_none(s.drop_first());
    }
}

/// A dot after the first dot makes `dot_count` at least two.
pub proof fn lemma_dot_count_two(s: Seq<char>, j: int)
    requires
        dot_pos(s) < j < s.len(),
        s[j] == '.',
    ensures
        dot_count(s) >= 2,
    decreases s.len(),
{
    if s[0] != '.' {
        lemma_dot_count_two(s.drop_first(), j - 1);
    } else {
        lemma_dot_count_pos(s.drop_first(), j - 1);
    }
}

/// A numeral already in canonical form: well formed, starting with a digit,
/// and its own canonical text.
pub open spec fn canonical_numeral(s: Seq<char>) -> bool {
    numeral_ok(s) && is_digit_char(s[0]) && canon_number(s) == s
}

/// The canonical text of a well-formed numeral is itself canonical, so
/// canonicalisation is idempotent.
pub proof fn lemma_canon_number_canonical(s: Seq<char>)
    requires
        numeral_ok(s),
    ensures
        canonical_numeral(canon_number(s)),
{
    lemma_dot_pos(s);
    lemma_zeros_front(int_digits(s));
    lemma_zeros_back(frac_digits(s));
    let ints = int_digits(s);
    let fracs = frac_digits(s);
    let ci = canon_int(ints);
    let cf = canon_frac(fracs);
    let c = canon_number(s);
    assert forall|i: int| 0 <= i < ints.len() implies is_digit_char(ints[i]) by {
        assert(s[i] != '.');
    }
    assert forall|i: int| 0 <= i < fracs.len() implies is_digit_char(fracs[i]) by {
        let j = i + dot_pos(s) + 1;
        if s[j] == '.' {
            lemma_dot_count_two(s, j);
        }
    }
    // the canonical integer part is nonempty, all digits, with no leading
    // zero unless it is the single digit zero
    if zeros_front(ints) == ints.len() {
        assert(ci =~= seq!['0']);
    } else {
        assert(ci[0] == ints[zeros_front(ints) as int]);
    }
    assert(ci.len() > 0);
    assert(is_digit_char(ci[0]));
    assert forall|i: int| 0 <= i < ci.len() implies is_digit_char(ci[i]) by {
        if zeros_front(ints) < ints.len() {
            assert(ci[i] == ints[i + zeros_front(ints)]);
        }
    }
    if cf.len() == 0 {
        assert(c == ci);
        assert forall|i: int| 0 <= i < c.len() implies c[i] != '.' by {
            assert(is_digit_char(c[i]));
        }
        lemma_dot_count_none(c);
        assert(numeral_ok(c));
        lemma_dot_pos_is(c, c.len() as nat);
        assert(int_digits(c) =~= c);
        assert(frac_digits(c) =~= Seq::<char>::empty());
        lemma_zeros_back_is(frac_digits(c), 0);
        assert(canon_frac(frac_digits(c)).len() == 0);
        if zeros_front(c) == c.len() {
            // only the single digit zero strips to nothing
            lemma_zeros_front(c);
            assert(c[0] == '0');
            assert(c =~= seq!['0']);
            assert(canon_int(c) =~= c);
        } else {
            if zeros_front(ints) == ints.len() {
                assert(seq!['0'].drop_first() =~= Seq::<char>::empty());
                assert(zeros_front(Seq::<char>::empty()) == 0);
                assert(zeros_front(c) == 1);
                assert(false);
            }
            assert(c[0] == ints[zeros_front(ints) as int]);
            assert(c[0] != '0');
            lemma_zeros_front_is(c, 0);
            assert(canon_int(c) =~= c);
        }
        assert(canon_number(c) == c);
    } else {
        assert(cf[cf.len() - 1] == fracs[fracs.len() - zeros_back(fracs) - 1]);
        assert(cf[cf.len() - 1] != '0');
        assert forall|i: int| 0 <= i < cf.len() implies is_digit_char(cf[i]) by {
            assert(cf[i] == fracs[i]);
        }
        assert(c == ci + seq!['.'] + cf);
        assert(c.len() == ci.len() + 1 + cf.len());
        assert(is_digit_char(c[0]));
        assert forall|i: int|
            0 <= i < c.len() implies is_digit_char(c[i]) || c[i] == '.' by {
            if i < ci.len() {
                assert(c[i] == ci[i]);
            } else if i == ci.len() {
                assert(c[i] == '.');
            } else {
                assert(c[i] == cf[i - ci.len() - 1]);
            }
        }
        assert forall|i: int| 0 <= i < ci.len() implies c[i] != '.' by {
            assert(c[i] == ci[i] && is_digit_char(ci[i]));
        }
        lemma_dot_pos_is(c, ci.len() as nat);
        assert forall|i: int| dot_pos(c) < i < c.len() implies c[i] != '.' by {
            assert(c[i] == cf[i - ci.len() - 1] && is_digit_char(cf[i - ci.len() - 1]));
        }
        lemma_dot_count_single(c);
        assert(c[c.len() - 1] == cf[cf.len() - 1]);
        assert(numeral_ok(c));
        assert(int_digits(c) =~= ci);
        assert(frac_digits(c) =~= cf);
        lemma_zeros_back_is(cf, 0);
        assert(canon_frac(cf) =~= cf);
        if zeros_front(ci) == ci.len() {
            lemma_zeros_front(ci);
            assert(ci[0] == '0');
            assert(ci =~= seq!['0']);
            assert(canon_int(ci) =~= ci);
        } else {
            if zeros_front(ints) == ints.len() {
                assert(seq!['0'].drop_first() =~= Seq::<char>::empty());
                assert(zeros_front(Seq::<char>::empty()) == 0);
                assert(zeros_front(ci) == 1);
                assert(false);
            }
            assert(ci[0] == ints[zeros_front(ints) as int]);
            assert(ci[0] != '0');
            lemma_zeros_front_is(ci, 0);
            assert(canon_int(ci) =~= ci);
        }
        assert(canon_number(c) =~= c);
    }
}

/// Turns a maximal run of digits and dots into its canonical text, or
/// reports that the run is not a well-formed numeral.
pub fn canonical_digits(run: &Vec<char>) -> (r: Result<Vec<char>, JsonError>)
    requires
        all_digit_dot(run@),
    ensures
        match r {
            Ok(v) => numeral_ok(run@) && v@ == canon_number(run@),
            Err(e) => !numeral_ok(run@) && e == JsonError::MalformedNumber,
        },
{
    let n = run.len();
    if n == 0 {
        return Err(JsonError::MalformedNumber);
    }
    // find the first dot
    let mut dp: usize = 0;
    while dp < n && run[dp] != '.'
        invariant
            0 <= dp <= n,
            n == run@.len(),
            forall|i: int| 0 <= i < dp ==> run@[i] != '.',
        decreases n - dp,
    {
        dp += 1;
    }
    proof {
        lemma_dot_pos_is(run@, dp as nat);
    }
    // reject a second dot
    if dp < n {
        let mut j = dp + 1;
        while j < n
            invariant
                dp + 1 <= j <= n,
                n == run@.len(),
                dp == dot_pos(run@) < n,
                forall|i: int| dp < i < j ==> run@[i] != '.',
            decreases n - j,
        {
            if run[j] == '.' {
                proof {
                    lemma_dot_count_two(run@, j as int);
                }
                return Err(JsonError::MalformedNumber);
            }
            j += 1;
        }
    }
    // reject a trailing dot
    if run[n - 1] == '.' {
        return Err(JsonError::MalformedNumber);
    }
    proof {
        if dp < n {
            lemma_dot_count_single(run@);
        } else {
            lemma_dot_count_none(run@);
        }
        assert(numeral_ok(run@));
    }
    let mut out: Vec<char> = Vec::new();
    // integer part with leading zeros stripped
    let mut z: usize = 0;
    while z < dp && run[z] == '0'
        invariant
            0 <= z <= dp <= n,
            n == run@.len(),
            forall|i: int| 0 <= i < z ==> run@[i] == '0',
        decreases dp - z,
    {
        z += 1;
    }
    proof {
        assert forall|i: int| 0 <= i < z implies int_digits(run@)[i] == '0' by {
            assert(run@[i] == '0');
        }
        lemma_zeros_front_is(int_digits(run@), z as nat);
    }
    if z == dp {
        out.push('0');
    } else {
        let mut k = z;
        proof {
            assert(out@ =~= run@.subrange(z as int, z as int));
        }
        while k < dp
            invariant
                z <= k <= dp <= n,
                n == run@.len(),
                out@ == run@.subrange(z as int, k as int),
            decreases dp - k,
        {
            let c = run[k];
            out.push(c);
            proof {
                assert(out@ =~= run@.subrange(z as int, k as int + 1));
            }
            k += 1;
        }
    }
    proof {
        assert(out@ =~= canon_int(int_digits(run@)));
    }
    // fraction part with trailing zeros stripped
    if dp < n {
        let mut m = n;
        while m > dp + 1 && run[m - 1] == '0'
            invariant
                dp + 1 <= m <= n,
                n == run@.len(),
                forall|i: int| m <= i < n ==> run@[i] == '0',
            decreases m,
        {
            m -= 1;
        }
        proof {
            let frac = frac_digits(run@);
            assert forall|i: int| frac.len() - (n - m) <= i < frac.len() implies frac[i] == '0' by {
                assert(run@[i + dp + 1] == '0');
            }
            lemma_zeros_back_is(frac, (n - m) as nat);
        }
        if m > dp + 1 {
            out.push('.');
            let ghost head = canon_int(int_digits(run@)) + seq!['.'];
            let mut k = dp + 1;
            proof {
                assert(out@ =~= head + run@.subrange(k as int, k as int));
            }
            while k < m
                invariant
                    dp + 1 <= k <= m <= n,
                    n == run@.len(),
                    out@ == head + run@.subrange(dp as int + 1, k as int),
                decreases m - k,
            {
                let c = run[k];
                out.push(c);
                proof {
                    assert(out@ =~= head + run@.subrange(dp as int + 1, k as int + 1));
                }
                k += 1;
            }
            proof {
                assert(run@.subrange(dp as int + 1, m as int) =~= canon_frac(frac_digits(run@)));
                assert(out@ =~= canon_number(run@));
            }
        } else {
            proof {
                assert(canon_frac(frac_digits(run@)).len() == 0);
            }
        }
    }
    proof {
        assert(out@ =~= canon_number(run@));
    }
    Ok(out)
}

} // verus!
