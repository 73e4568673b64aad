//! Character-level text handling: whitespace-separated words and decimal
//! number literals.
use crate::num::{lemma_pow10_add, lemma_pow10_pos, pow10, q_fits, q_norm, Dec, Q, MAX_EXP, MAX_MANT};
use vstd::prelude::*;
use vstd::string::*;

verus! {

/// The characters of `s`, in order.
pub fn chars_of(s: &str) -> (r: Vec<char>)
    ensures
        r@ == s@,
{
    let n = s.unicode_len();
    let mut r: Vec<char> = Vec::new();
    let mut i: usize = 0;
    while i < n
        invariant
            n == s@.len(),
            i <= n,
            r@ == s@.take(i as int),
        decreases n - i,
    {
        r.push(s.get_char(i));
        i = i + 1;
        assert(r@ =~= s@.take(i as int));
    }
    assert(r@ =~= s@);
    r
}

/// Whether two character sequences are equal.
pub fn chars_eq(a: &Vec<char>, b: &Vec<char>) -> (r: bool)
    ensures
        r == (a@ == b@),
{
    if a.len() != b.len() {
        return false;
    }
    let mut i: usize = 0;
    while i < a.len()
        invariant
            a@.len() == b@.len(),
            i <= a@.len(),
            forall|k: int| 0 <= k < i ==> a@[k] == b@[k],
        decreases a.len() - i,
    {
        if a[i] != b[i] {
            return false;
        }
        i = i + 1;
    }
    assert(a@ =~= b@);
    true
}

/// Whether `c` separates words.
pub open spec fn is_ws(c: char) -> bool {
    c == ' ' || c == '\t' || c == '\n' || c == '\r' || c == '\x0c'
}

fn is_ws_exec(c: char) -> (r: bool)
    ensures
        r == is_ws(c),
{
    c == ' ' || c == '\t' || c == '\n' || c == '\r' || c == '\x0c'
}

/// The maximal runs of non-whitespace characters of `s`, in order.
pub open spec fn words(s: Seq<char>) -> Seq<Seq<char>>
    decreases s.len(),
{
    if s.len() == 0 {
        seq![]
    } else {
        let w = words(s.drop_last());
        let c = s.last();
        if is_ws(c) {
            w
        } else if s.len() >= 2 && !is_ws(s[s.len() - 2]) {
            w.update(w.len() - 1, w.last().push(c))
        } else {
            w.push(seq![c])
        }
    }
}

/// Whether `t` is one word: not empty, without whitespace.
pub open spec fn is_word(t: Seq<char>) -> bool {
    t.len() > 0 && forall|i: int| 0 <= i < t.len() ==> !is_ws(#[trigger] t[i])
}

proof fn lemma_words_nonempty_last(s: Seq<char>)
    requires
        s.len() > 0,
        !is_ws(s.last()),
    ensures
        words(s).len() > 0,
    decreases s.len(),
{
    if s.len() >= 2 && !is_ws(s[s.len() - 2]) {
        lemma_words_nonempty_last(s.drop_last());
    }
}

/// Appending whitespace adds no word.
pub proof fn lemma_words_ws(p: Seq<char>, c: char)
    requires
        is_ws(c),
    ensures
        words(p.push(c)) == words(p),
{
    assert(p.push(c).drop_last() =~= p);
}

/// A word appended after whitespace (or at the start) is one more word.
pub proof fn lemma_words_append_word(p: Seq<char>, t: Seq<char>)
    requires
        p.len() == 0 || is_ws(p.last()),
        is_word(t),
    ensures
        words(p + t) == words(p).push(t),
    decreases t.len(),
{
    if t.len() == 1 {
        assert((p + t).drop_last() =~= p);
        assert((p + t).last() == t[0]);
        assert(t =~= seq![t[0]]);
    } else {
        let t0 = t.drop_last();
        assert(is_word(t0)) by {
            assert forall|i: int| 0 <= i < t0.len() implies !is_ws(#[trigger] t0[i]) by {
                assert(t0[i] == t[i]);
            }
        }
        lemma_words_append_word(p, t0);
        assert((p + t).drop_last() =~= p + t0);
        assert((p + t)[(p + t).len() - 2] == t[t.len() - 2]);
        assert(!is_ws(t[t.len() - 1]));
        assert(!is_ws(t[t.len() - 2]));
        assert(t0.push(t.last()) =~= t);
    }
}

/// Splits `s` at whitespace.
pub fn split_words(s: &Vec<char>) -> (r: Vec<Vec<char>>)
    ensures
        r@.len() == words(s@).len(),
        forall|k: int| 0 <= k < r@.len() ==> (#[trigger] r@[k])@ == words(s@)[k],
{
    let mut r: Vec<Vec<char>> = Vec::new();
    let mut i: usize = 0;
    while i < s.len()
        invariant
            i <= s@.len(),
            r@.len() == words(s@.take(i as int)).len(),
            forall|k: int| 0 <= k < r@.len() ==> (#[trigger] r@[k])@ == words(s@.take(i as int))[k],
        decreases s.len() - i,
    {
        let c = s[i];
        let ghost pre = s@.take(i as int);
        let ghost cur = s@.take(i as int + 1);
        assert(cur.drop_last() =~= pre);
        assert(cur.last() == c);
        if is_ws_exec(c) {
        } else if i >= 1 && !is_ws_exec(s[i - 1]) {
            assert(cur[cur.len() - 2] == s@[i - 1]);
            proof {
                assert(pre.last() == s@[i - 1]);
                lemma_words_nonempty_last(pre);
            }
            let mut last = r.pop().unwrap();
            last.push(c);
            r.push(last);
        } else {
            if i >= 1 {
                assert(cur[cur.len() - 2] == s@[i - 1]);
            }
            r.push(vec![c]);
        }
        i = i + 1;
        proof {
            let w = words(s@.take(i as int));
            assert forall|k: int| 0 <= k < r@.len() implies (#[trigger] r@[k])@ == w[k] by {}
        }
    }
    assert(s@.take(s@.len() as int) =~= s@);
    r
}

pub open spec fn is_digit(c: char) -> bool {
    '0' <= c <= '9'
}

pub open spec fn digit_val(c: char) -> int {
    c as int - '0' as int
}

/// The integer that a run of decimal digits spells.
pub open spec fn digits_val(s: Seq<char>) -> int
    decreases s.len(),
{
    if s.len() == 0 {
        0
    } else {
        digits_val(s.drop_last()) * 10 + digit_val(s.last())
    }
}

pub open spec fn all_digits(s: Seq<char>) -> bool {
    forall|i: int| 0 <= i < s.len() ==> is_digit(#[trigger] s[i])
}

/// `k` is the length of the run of digits that `b` starts with.
pub open spec fn lead_digits(b: Seq<char>, k: int) -> bool {
    0 <= k <= b.len() && all_digits(b.take(k)) && (k == b.len() || !is_digit(b[k]))
}

pub open spec fn sign_len(t: Seq<char>) -> int {
    if t.len() > 0 && (t[0] == '-' || t[0] == '+') {
        1
    } else {
        0
    }
}

pub open spec fn sign_of(t: Seq<char>) -> int {
    if t.len() > 0 && t[0] == '-' {
        -1
    } else {
        1
    }
}

/// The value of a literal whose sign takes `sign_len(t)` characters and
/// whose digits before any dot take `k`.
pub open spec fn dec_text_at(t: Seq<char>, k: int) -> Option<Q> {
    let b = t.skip(sign_len(t));
    let rest = b.skip(k);
    if rest.len() == 0 {
        if k > 0 {
            Some(Q { m: sign_of(t) * digits_val(b.take(k)), e: 0 })
        } else {
            None
        }
    } else if rest[0] == '.' && all_digits(rest.skip(1)) && k + rest.len() > 1 {
        Some(
            Q {
                m: sign_of(t) * digits_val(b.take(k) + rest.skip(1)),
                e: (rest.len() - 1) as nat,
            },
        )
    } else {
        None
    }
}

/// The exact value of a decimal literal: an optional sign, digits, and an
/// optional `.` followed by digits, with at least one digit in all. Any
/// other text is no literal.
pub open spec fn dec_text(t: Seq<char>) -> Option<Q> {
    dec_text_at(t, choose|k: int| lead_digits(t.skip(sign_len(t)), k))
}

/// The largest exponent magnitude a literal may carry.
pub const MAX_EXP_LIT: i64 = 999999;

/// The index of the first `e` or `E` from `i` on, or the length of `t`.
pub open spec fn first_exp(t: Seq<char>, i: int) -> int
    decreases t.len() - i,
{
    if i < 0 || i >= t.len() {
        t.len() as int
    } else if t[i] == 'e' || t[i] == 'E' {
        i
    } else {
        first_exp(t, i + 1)
    }
}

/// The integer an optional sign and at least one digit spell.
pub open spec fn int_text(s: Seq<char>) -> Option<int> {
    let b = s.skip(sign_len(s));
    if b.len() > 0 && all_digits(b) {
        Some(sign_of(s) * digits_val(b))
    } else {
        None
    }
}

/// A float literal split in two: the decimal literal before its first `e`
/// or `E`, and the exponent after it (zero where there is none).
pub open spec fn dec_parts(t: Seq<char>) -> Option<(Q, int)> {
    let j = first_exp(t, 0);
    match dec_text(t.take(j)) {
        None => None,
        Some(q) => if j == t.len() {
            Some((q, 0))
        } else {
            match int_text(t.skip(j + 1)) {
                Some(x) => Some((q, x)),
                None => None,
            }
        },
    }
}

/// `q * 10^x`, exactly.
pub open spec fn scale10(q: Q, x: int) -> Q {
    if x <= q.e {
        Q { m: q.m, e: (q.e - x) as nat }
    } else {
        Q { m: q.m * pow10((x - q.e) as nat), e: 0 }
    }
}

/// The number a float literal spells, in normal form, where a `Dec` can
/// hold it. The digits of the literal, read as one integer, must stay within
/// `MAX_MANT`, and its exponent within `MAX_EXP_LIT`.
pub open spec fn dec_of(t: Seq<char>) -> Option<Q> {
    match dec_parts(t) {
        Some((q, x)) => if -MAX_MANT <= q.m <= MAX_MANT && -MAX_EXP_LIT <= x <= MAX_EXP_LIT
            && q_fits(q_norm(scale10(q, x))) {
            Some(q_norm(scale10(q, x)))
        } else {
            None
        },
        None => None,
    }
}

proof fn lemma_lead_unique(b: Seq<char>, k1: int, k2: int)
    requires
        lead_digits(b, k1),
        lead_digits(b, k2),
    ensures
        k1 == k2,
{
    if k1 < k2 {
        assert(b.take(k2)[k1] == b[k1]);
    } else if k2 < k1 {
        assert(b.take(k1)[k2] == b[k2]);
    }
}

proof fn lemma_digits_val_nonneg(s: Seq<char>)
    requires
        all_digits(s),
    ensures
        digits_val(s) >= 0,
    decreases s.len(),
{
    if s.len() > 0 {
        assert(all_digits(s.drop_last())) by {
            assert forall|i: int| 0 <= i < s.drop_last().len() implies is_digit(
                #[trigger] s.drop_last()[i],
            ) by {
                assert(s.drop_last()[i] == s[i]);
            }
        }
        lemma_digits_val_nonneg(s.drop_last());
        assert(is_digit(s[s.len() - 1]));
    }
}

/// Appending digits never makes the value smaller.
proof fn lemma_digits_val_grows(s: Seq<char>, t: Seq<char>)
    requires
        all_digits(s),
        all_digits(t),
    ensures
        digits_val(s + t) >= digits_val(s),
    decreases t.len(),
{
    if t.len() > 0 {
        let t0 = t.drop_last();
        assert(all_digits(t0)) by {
            assert forall|i: int| 0 <= i < t0.len() implies is_digit(#[trigger] t0[i]) by {
                assert(t0[i] == t[i]);
            }
        }
        lemma_digits_val_grows(s, t0);
        assert((s + t).drop_last() =~= s + t0);
        assert((s + t).last() == t[t.len() - 1]);
        assert(all_digits(s + t0)) by {
            assert forall|i: int| 0 <= i < (s + t0).len() implies is_digit(#[trigger] (s + t0)[i]) by {
                if i < s.len() {
                    assert((s + t0)[i] == s[i]);
                } else {
                    assert((s + t0)[i] == t0[i - s.len()]);
                }
            }
        }
        lemma_digits_val_nonneg(s + t0);
        assert(is_digit(t[t.len() - 1]));
    }
}

/// The length of the run of digits in `t` from `from` on.
fn lead_run(t: &Vec<char>, from: usize) -> (k: usize)
    requires
        from <= t@.len(),
    ensures
        lead_digits(t@.skip(from as int), k as int),
{
    let ghost b = t@.skip(from as int);
    let mut i: usize = from;
    while i < t.len() && is_digit_exec(t[i])
        invariant
            from <= i <= t@.len(),
            b == t@.skip(from as int),
            all_digits(b.take(i - from)),
        decreases t.len() - i,
    {
        assert(all_digits(b.take(i - from + 1))) by {
            assert forall|j: int| 0 <= j < i - from + 1 implies is_digit(
                #[trigger] b.take(i - from + 1)[j],
            ) by {
                if j < i - from {
                    assert(b.take(i - from + 1)[j] == b.take(i - from)[j]);
                }
            }
        }
        i = i + 1;
    }
    i - from
}

fn is_digit_exec(c: char) -> (r: bool)
    ensures
        r == is_digit(c),
{
    '0' <= c && c <= '9'
}

/// Whether `t[from..to]` is all digits.
fn digits_between(t: &Vec<char>, from: usize, to: usize) -> (r: bool)
    requires
        from <= to <= t@.len(),
    ensures
        r == all_digits(t@.subrange(from as int, to as int)),
{
    let mut i: usize = from;
    while i < to
        invariant
            from <= i <= to <= t@.len(),
            forall|j: int| from <= j < i ==> is_digit(#[trigger] t@[j]),
        decreases to - i,
    {
        if !is_digit_exec(t[i]) {
            assert(t@.subrange(from as int, to as int)[i - from] == t@[i as int]);
            return false;
        }
        i = i + 1;
    }
    assert forall|j: int| 0 <= j < to - from implies is_digit(
        #[trigger] t@.subrange(from as int, to as int)[j],
    ) by {
        assert(t@.subrange(from as int, to as int)[j] == t@[from + j]);
    }
    true
}

/// Appends the digits `t[from..to]` to the value `acc` of the digits `pre`,
/// or `None` once the value passes `MAX_MANT`.
fn append_digits(t: &Vec<char>, from: usize, to: usize, acc: u64, Ghost(pre): Ghost<Seq<char>>) -> (r:
    Option<u64>)
    requires
        from <= to <= t@.len(),
        all_digits(t@.subrange(from as int, to as int)),
        all_digits(pre),
        acc as int == digits_val(pre),
        acc <= MAX_MANT,
    ensures
        r matches Some(v) ==> v as int == digits_val(pre + t@.subrange(from as int, to as int))
            && v <= MAX_MANT,
        r is None ==> digits_val(pre + t@.subrange(from as int, to as int)) > MAX_MANT,
{
    let ghost all = pre + t@.subrange(from as int, to as int);
    assert(all_digits(all)) by {
        assert forall|j: int| 0 <= j < all.len() implies is_digit(#[trigger] all[j]) by {
            if j < pre.len() {
                assert(all[j] == pre[j]);
            } else {
                assert(all[j] == t@.subrange(from as int, to as int)[j - pre.len()]);
            }
        }
    }
    let mut v: u64 = acc;
    let mut i: usize = from;
    assert(all.take(pre.len() as int) =~= pre);
    while i < to
        invariant
            from <= i <= to <= t@.len(),
            all == pre + t@.subrange(from as int, to as int),
            all_digits(all),
            v as int == digits_val(all.take(pre.len() + i - from)),
            v <= MAX_MANT,
        decreases to - i,
    {
        let ghost n = pre.len() + i - from;
        assert(all[n] == t@[i as int]);
        assert(is_digit(all[n]));
        assert(all.take(n + 1).drop_last() =~= all.take(n));
        let d = (t[i] as u32 - '0' as u32) as u64;
        if v > (9223372036854775807 - d) / 10 {
            proof {
                assert(all =~= all.take(n + 1) + all.skip(n + 1));
                assert(all_digits(all.take(n + 1))) by {
                    assert forall|j: int| 0 <= j < n + 1 implies is_digit(#[trigger] all.take(n + 1)[j]) by {
                        assert(all.take(n + 1)[j] == all[j]);
                    }
                }
                assert(all_digits(all.skip(n + 1))) by {
                    assert forall|j: int| 0 <= j < all.skip(n + 1).len() implies is_digit(
                        #[trigger] all.skip(n + 1)[j],
                    ) by {
                        assert(all.skip(n + 1)[j] == all[j + n + 1]);
                    }
                }
                lemma_digits_val_grows(all.take(n + 1), all.skip(n + 1));
            }
            return None;
        }
        v = v * 10 + d;
        i = i + 1;
    }
    assert(all.take(pre.len() + to - from) =~= all);
    Some(v)
}

/// Reads a decimal literal without exponent (see `dec_text`) as its
/// mantissa and digit count, or `None` where `t` is no such literal or its
/// mantissa passes `MAX_MANT`.
fn parse_plain(t: &Vec<char>) -> (r: Option<(i64, usize)>)
    ensures
        r is Some <==> (dec_text(t@) matches Some(q) && -MAX_MANT <= q.m <= MAX_MANT),
        r matches Some((m, f)) ==> dec_text(t@) == Some(Q { m: m as int, e: f as nat }),
{
    let n = t.len();
    let s: usize = if n > 0 && (t[0] == '-' || t[0] == '+') {
        1
    } else {
        0
    };
    let neg = n > 0 && t[0] == '-';
    let ghost b = t@.skip(s as int);
    assert(s as int == sign_len(t@));
    let k = lead_run(t, s);
    proof {
        let kc = choose|kc: int| lead_digits(b, kc);
        lemma_lead_unique(b, k as int, kc);
        assert(dec_text(t@) == dec_text_at(t@, k as int));
    }
    let ghost ip = b.take(k as int);
    let ghost rest = b.skip(k as int);
    assert(ip =~= t@.subrange(s as int, (s + k) as int));
    assert(ip =~= seq![] + ip);
    if s + k == n {
        assert(rest.len() == 0);
        if k == 0 {
            return None;
        }
        let v = append_digits(t, s, n, 0, Ghost(Seq::empty()));
        match v {
            None => {
                return None;
            },
            Some(v) => {
                let m: i64 = if neg {
                    -(v as i64)
                } else {
                    v as i64
                };
                return Some((m, 0));
            },
        }
    }
    assert(rest[0] == t@[(s + k) as int]);
    if t[s + k] != '.' {
        return None;
    }
    let ghost fr = rest.skip(1);
    assert(fr =~= t@.subrange((s + k + 1) as int, n as int));
    if !digits_between(t, s + k + 1, n) {
        return None;
    }
    if k + (n - s - k - 1) == 0 {
        return None;
    }
    let v1 = append_digits(t, s, s + k, 0, Ghost(Seq::empty()));
    let v1 = match v1 {
        None => {
            proof {
                lemma_digits_val_grows(ip, fr);
            }
            return None;
        },
        Some(v1) => v1,
    };
    let v2 = append_digits(t, s + k + 1, n, v1, Ghost(ip));
    match v2 {
        None => {
            return None;
        },
        Some(v2) => {
            let m: i64 = if neg {
                -(v2 as i64)
            } else {
                v2 as i64
            };
            Some((m, n - s - k - 1))
        },
    }
}

/// The index of the first `e` or `E` in `t`, or its length.
fn find_exp(t: &Vec<char>) -> (r: usize)
    ensures
        r as int == first_exp(t@, 0),
        r <= t@.len(),
{
    let mut i: usize = 0;
    while i < t.len()
        invariant
            i <= t@.len(),
            first_exp(t@, 0) == first_exp(t@, i as int),
        decreases t.len() - i,
    {
        if t[i] == 'e' || t[i] == 'E' {
            return i;
        }
        i = i + 1;
    }
    i
}

fn copy_range(t: &Vec<char>, from: usize, to: usize) -> (r: Vec<char>)
    requires
        from <= to <= t@.len(),
    ensures
        r@ == t@.subrange(from as int, to as int),
{
    let mut r: Vec<char> = Vec::new();
    let mut i: usize = from;
    while i < to
        invariant
            from <= i <= to <= t@.len(),
            r@ == t@.subrange(from as int, i as int),
        decreases to - i,
    {
        r.push(t[i]);
        i = i + 1;
        assert(r@ =~= t@.subrange(from as int, i as int));
    }
    r
}

/// Reads a signed integer whose magnitude is at most `MAX_EXP_LIT`.
fn parse_exponent(t: &Vec<char>) -> (r: Option<i64>)
    ensures
        r is Some <==> (int_text(t@) matches Some(x) && -MAX_EXP_LIT <= x <= MAX_EXP_LIT),
        r matches Some(x) ==> int_text(t@) == Some(x as int),
{
    let n = t.len();
    let s: usize = if n > 0 && (t[0] == '-' || t[0] == '+') {
        1
    } else {
        0
    };
    let neg = n > 0 && t[0] == '-';
    assert(s as int == sign_len(t@));
    assert(t@.skip(s as int) =~= t@.subrange(s as int, n as int));
    if s == n || !digits_between(t, s, n) {
        return None;
    }
    assert(Seq::<char>::empty() + t@.subrange(s as int, n as int) =~= t@.subrange(s as int, n as int));
    match append_digits(t, s, n, 0, Ghost(Seq::empty())) {
        None => None,
        Some(v) => {
            if v > MAX_EXP_LIT as u64 {
                None
            } else if neg {
                Some(-(v as i64))
            } else {
                Some(v as i64)
            }
        },
    }
}

/// `10^n` for a small `n`.
fn pow10_small(n: u32) -> (r: i128)
    requires
        n <= 18,
    ensures
        r == pow10(n as nat),
        1 <= r <= 1000000000000000000,
{
    let mut r: i128 = 1;
    let mut i: u32 = 0;
    while i < n
        invariant
            i <= n <= 18,
            r == pow10(i as nat),
        decreases n - i,
    {
        proof {
            assert(pow10((i + 1) as nat) == 10 * pow10(i as nat));
            crate::num::lemma_pow10_le_pub((i + 1) as nat, 18);
            lemma_pow10_pos(i as nat);
            lemma_pow10_18_text();
        }
        r = r * 10;
        i = i + 1;
    }
    proof {
        lemma_pow10_18_text();
        lemma_pow10_pos(n as nat);
        crate::num::lemma_pow10_le_pub(n as nat, 18);
    }
    r
}

proof fn lemma_pow10_18_text()
    ensures
        pow10(18) == 1000000000000000000,
        pow10(19) == 10000000000000000000,
{
    reveal_with_fuel(pow10, 20);
}

/// Reads a float literal: a decimal literal with an optional exponent
/// `e`/`E` and a signed integer (see `dec_of`), in normal form, or `None`
/// where `t` is no such literal or a `Dec` cannot hold its value.
pub fn parse_dec(t: &Vec<char>) -> (r: Option<Dec>)
    ensures
        r is Some <==> dec_of(t@) is Some,
        r matches Some(d) ==> dec_of(t@) == Some(d@),
{
    let n = t.len();
    let j = find_exp(t);
    let head = copy_range(t, 0, j);
    assert(head@ =~= t@.take(j as int));
    let (m, f) = match parse_plain(&head) {
        None => {
            return None;
        },
        Some(p) => p,
    };
    let x: i64 = if j == n {
        0
    } else {
        let tail = copy_range(t, j + 1, n);
        assert(tail@ =~= t@.skip(j + 1));
        match parse_exponent(&tail) {
            None => {
                return None;
            },
            Some(x) => x,
        }
    };
    let ghost q = Q { m: m as int, e: f as nat };
    assert(dec_parts(t@) == Some((q, x as int)));
    if (x as i128) <= (f as i128) {
        let e: u128 = if x >= 0 {
            (f - x as usize) as u128
        } else {
            f as u128 + (-x) as u128
        };
        assert(scale10(q, x as int) == (Q { m: m as int, e: e as nat }));
        Dec::new(m as i128, e)
    } else {
        let d = (x as usize - f) as u64;
        if m == 0 {
            assert(0 * pow10((x - f) as nat) == 0);
            assert(scale10(q, x as int) == (Q { m: 0, e: 0 }));
            assert(q_norm(Q { m: 0, e: 0 }) == (Q { m: 0, e: 0 }));
            return Dec::new(0, 0);
        }
        if d > 18 {
            proof {
                let p = pow10(d as nat);
                lemma_pow10_18_text();
                crate::num::lemma_pow10_le_pub(19, d as nat);
                assert(m as int * p > MAX_MANT || m as int * p < -MAX_MANT) by (nonlinear_arith)
                    requires
                        p >= 10000000000000000000,
                        m != 0,
                ;
                assert(q_norm(scale10(q, x as int)) == scale10(q, x as int));
            }
            return None;
        }
        let p = pow10_small(d as u32);
        assert(-9223372036854775807000000000000000000 <= (m as i128) * p <= 9223372036854775807000000000000000000)
            by (nonlinear_arith)
            requires
                -9223372036854775807 <= m <= 9223372036854775807,
                1 <= p <= 1000000000000000000,
        ;
        Dec::new((m as i128) * p, 0)
    }
}

/// A decimal literal without exponent is one word: signs, digits and dots
/// are no whitespace.
proof fn lemma_plain_is_word(t: Seq<char>)
    requires
        dec_text(t) is Some,
    ensures
        is_word(t),
{
    let s = sign_len(t);
    let b = t.skip(s);
    assert(all_digits(b.take(0)));
    lemma_lead_exists(b, 0);
    let k = choose|k: int| lead_digits(b, k);
    let rest = b.skip(k);
    assert forall|i: int| 0 <= i < t.len() implies !is_ws(#[trigger] t[i]) by {
        if i < s {
            assert(t[0] == '-' || t[0] == '+');
        } else if i < s + k {
            assert(b.take(k)[i - s] == t[i]);
            assert(is_digit(b.take(k)[i - s]));
        } else if i == s + k {
            assert(rest[0] == t[i]);
        } else {
            assert(rest.skip(1)[i - s - k - 1] == t[i]);
            assert(is_digit(rest.skip(1)[i - s - k - 1]));
        }
    }
}

proof fn lemma_lead_exists(b: Seq<char>, j: int)
    requires
        0 <= j <= b.len(),
        all_digits(b.take(j)),
    ensures
        exists|k: int| lead_digits(b, k),
    decreases b.len() - j,
{
    if j == b.len() || !is_digit(b[j]) {
        assert(lead_digits(b, j));
    } else {
        assert(all_digits(b.take(j + 1))) by {
            assert forall|i: int| 0 <= i < j + 1 implies is_digit(#[trigger] b.take(j + 1)[i]) by {
                if i < j {
                    assert(b.take(j + 1)[i] == b.take(j)[i]);
                }
            }
        }
        lemma_lead_exists(b, j + 1);
    }
}

proof fn lemma_first_exp(t: Seq<char>, i: int)
    requires
        0 <= i <= t.len(),
    ensures
        i <= first_exp(t, i) <= t.len(),
        first_exp(t, i) < t.len() ==> t[first_exp(t, i)] == 'e' || t[first_exp(t, i)] == 'E',
        forall|k: int| i <= k < first_exp(t, i) ==> t[k] != 'e' && t[k] != 'E',
    decreases t.len() - i,
{
    if i < t.len() && t[i] != 'e' && t[i] != 'E' {
        lemma_first_exp(t, i + 1);
    }
}

/// A float literal is one word: signs, digits, dots and exponent marks are
/// no whitespace.
pub proof fn lemma_literal_is_word(t: Seq<char>)
    requires
        dec_of(t) is Some,
    ensures
        is_word(t),
{
    let j = first_exp(t, 0);
    lemma_first_exp(t, 0);
    let head = t.take(j);
    lemma_plain_is_word(head);
    assert forall|i: int| 0 <= i < t.len() implies !is_ws(#[trigger] t[i]) by {
        if i < j {
            assert(head[i] == t[i]);
        } else if i > j {
            let tail = t.skip(j + 1);
            let sl = sign_len(tail);
            assert(tail[i - j - 1] == t[i]);
            if i - j - 1 >= sl {
                assert(tail.skip(sl)[i - j - 1 - sl] == t[i]);
                assert(is_digit(tail.skip(sl)[i - j - 1 - sl]));
            }
        }
    }
}

} // verus!
