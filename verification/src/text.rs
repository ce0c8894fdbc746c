//! Character-level text helpers: decimal rendering of integers and
//! whitespace trimming, both specified over `Seq<char>`.
use vstd::prelude::*;
use vstd::string::StrSliceExecFns;
use vstd::string::StringExecFns;

verus! {

/// The character for one decimal digit.
pub open spec fn digit_char(d: int) -> char {
    if d == 0 {
        '0'
    } else if d == 1 {
        '1'
    } else if d == 2 {
        '2'
    } else if d == 3 {
        '3'
    } else if d == 4 {
        '4'
    } else if d == 5 {
        '5'
    } else if d == 6 {
        '6'
    } else if d == 7 {
        '7'
    } else if d == 8 {
        '8'
    } else {
        '9'
    }
}

/// The decimal rendering of a non-negative integer: no sign, no padding,
/// a single `'0'` for zero.
pub open spec fn dec_digits(n: nat) -> Seq<char>
    decreases n,
{
    if n < 10 {
        seq![digit_char(n as int)]
    } else {
        dec_digits(n / 10).push(digit_char((n % 10) as int))
    }
}

/// The decimal rendering of a possibly negative integer.
pub open spec fn dec_int(n: int) -> Seq<char> {
    if n >= 0 {
        dec_digits(n as nat)
    } else {
        seq!['-'] + dec_digits((-n) as nat)
    }
}

fn digit_str(d: u64) -> (r: &'static str)
    requires
        d < 10,
    ensures
        r@ == seq![digit_char(d as int)],
{
    let r: &'static str = if d == 0 {
        "0"
    } else if d == 1 {
        "1"
    } else if d == 2 {
        "2"
    } else if d == 3 {
        "3"
    } else if d == 4 {
        "4"
    } else if d == 5 {
        "5"
    } else if d == 6 {
        "6"
    } else if d == 7 {
        "7"
    } else if d == 8 {
        "8"
    } else {
        "9"
    };
    proof {
        reveal_strlit("0");
        reveal_strlit("1");
        reveal_strlit("2");
        reveal_strlit("3");
        reveal_strlit("4");
        reveal_strlit("5");
        reveal_strlit("6");
        reveal_strlit("7");
        reveal_strlit("8");
        reveal_strlit("9");
        assert(r@ =~= seq![digit_char(d as int)]);
    }
    r
}

/// Renders `n` in decimal.
pub fn render_u64(n: u64) -> (s: String)
    ensures
        s@ == dec_digits(n as nat),
    decreases n,
{
    if n < 10 {
        digit_str(n).to_owned()
    } else {
        let mut s = render_u64(n / 10);
        s.append(digit_str(n % 10));
        proof {
            assert(s@ =~= dec_digits(n as nat));
        }
        s
    }
}

/// Renders `n` in decimal, with a leading minus sign when negative.
pub fn render_i32(n: i32) -> (s: String)
    ensures
        s@ == dec_int(n as int),
{
    if n >= 0 {
        render_u64(n as u64)
    } else {
        let magnitude: u64 = (-(n as i64)) as u64;
        let mut s = "-".to_owned();
        let rest = render_u64(magnitude);
        s.append(rest.as_str());
        proof {
            reveal_strlit("-");
            assert(s@ =~= dec_int(n as int));
        }
        s
    }
}

/// The numeric value of a decimal digit character; 10 for anything else.
pub open spec fn digit_val(c: char) -> int {
    if c == '0' {
        0
    } else if c == '1' {
        1
    } else if c == '2' {
        2
    } else if c == '3' {
        3
    } else if c == '4' {
        4
    } else if c == '5' {
        5
    } else if c == '6' {
        6
    } else if c == '7' {
        7
    } else if c == '8' {
        8
    } else if c == '9' {
        9
    } else {
        10
    }
}

pub open spec fn is_digit(c: char) -> bool {
    digit_val(c) < 10
}

/// Reads digits from position `i` on, folding them onto `acc`, and stops
/// at the first non-digit or at the end; yields the value and the stop
/// position.
pub open spec fn scan_num(s: Seq<char>, i: int, acc: nat) -> (nat, int)
    decreases s.len() - i,
    when 0 <= i <= s.len()
{
    if i == s.len() {
        (acc, i)
    } else if is_digit(s[i]) {
        scan_num(s, i + 1, (acc * 10 + digit_val(s[i])) as nat)
    } else {
        (acc, i)
    }
}

/// Parses a decimal number at position `i`: at least one digit, greedily.
pub open spec fn parse_num(s: Seq<char>, i: int) -> Option<(nat, int)> {
    if 0 <= i < s.len() && is_digit(s[i]) {
        Some(scan_num(s, i, 0))
    } else {
        None
    }
}

pub open spec fn pow10(n: nat) -> nat
    decreases n,
{
    if n == 0 {
        1nat
    } else {
        10 * pow10((n - 1) as nat)
    }
}

/// The value of a sequence of digit characters, most significant first.
pub open spec fn digits_val(d: Seq<char>) -> nat
    decreases d.len(),
{
    if d.len() == 0 {
        0nat
    } else {
        digits_val(d.drop_last()) * 10 + digit_val(d.last()) as nat
    }
}

/// A decimal rendering consists of digits and reads back as its value.
proof fn lemma_dec_digits_value(n: nat)
    ensures
        dec_digits(n).len() >= 1,
        forall|k: int| 0 <= k < dec_digits(n).len() ==> is_digit(#[trigger] dec_digits(n)[k]),
        digits_val(dec_digits(n)) == n,
    decreases n,
{
    if n < 10 {
        assert(dec_digits(n) =~= seq![digit_char(n as int)]);
        assert(seq![digit_char(n as int)].drop_last() =~= Seq::<char>::empty());
        assert(digits_val(Seq::<char>::empty()) == 0);
        assert(digits_val(dec_digits(n)) == digit_val(digit_char(n as int)) as nat);
    } else {
        lemma_dec_digits_value(n / 10);
        let d = dec_digits(n / 10);
        let c = digit_char((n % 10) as int);
        assert(dec_digits(n) == d.push(c));
        assert(d.push(c).drop_last() =~= d);
        assert(d.push(c).last() == c);
        assert(digits_val(dec_digits(n)) == (n / 10) * 10 + (n % 10));
        assert(forall|k: int|
            0 <= k < d.len() ==> #[trigger] dec_digits(n)[k] == d[k] && is_digit(dec_digits(n)[k]));
        assert(is_digit(dec_digits(n)[d.len() as int]));
    }
}

proof fn lemma_digits_val_front(d: Seq<char>)
    requires
        d.len() > 0,
    ensures
        digits_val(d) == digit_val(d[0]) * pow10((d.len() - 1) as nat) + digits_val(d.drop_first()),
    decreases d.len(),
{
    if d.len() == 1 {
        assert(d.drop_last() =~= Seq::<char>::empty());
        assert(d.drop_first() =~= Seq::<char>::empty());
        assert(pow10(0) == 1);
        assert(digits_val(Seq::<char>::empty()) == 0);
        assert(d.last() == d[0]);
        assert(digits_val(d) == digit_val(d[0]) * 1 + 0);
    } else {
        let dl = d.drop_last();
        lemma_digits_val_front(dl);
        let l = d.len() - 1;
        // digits_val(d) == digits_val(dl) * 10 + digit_val(d.last())
        // digits_val(dl) == digit_val(d[0]) * pow10(l - 1) + digits_val(dl.drop_first())
        assert(d.drop_first().drop_last() =~= dl.drop_first());
        assert(d.drop_first().last() == d.last());
        assert(digits_val(d.drop_first()) == digits_val(dl.drop_first()) * 10 + digit_val(
            d.last(),
        ) as nat);
        assert(pow10(l as nat) == 10 * pow10((l - 1) as nat));
        assert((digit_val(d[0]) * pow10((l - 1) as nat) + digits_val(dl.drop_first())) * 10
            == digit_val(d[0]) * pow10((l - 1) as nat) * 10 + digits_val(dl.drop_first()) * 10) by (nonlinear_arith);
        assert(digit_val(d[0]) * pow10((l - 1) as nat) * 10 == digit_val(d[0]) * (10 * pow10(
            (l - 1) as nat,
        ))) by (nonlinear_arith);
    }
}

/// Scanning a run of digits bounded by a non-digit (or the end) yields the
/// run's value folded onto `acc`, stopping right after the run.
proof fn lemma_scan_digit_run(s: Seq<char>, i: int, j: int, acc: nat)
    requires
        0 <= i <= j <= s.len(),
        forall|k: int| i <= k < j ==> is_digit(#[trigger] s[k]),
        j == s.len() || !is_digit(s[j]),
    ensures
        scan_num(s, i, acc) == ((acc * pow10((j - i) as nat) + digits_val(
            s.subrange(i, j),
        )) as nat, j),
    decreases j - i,
{
    if i == j {
        assert(s.subrange(i, j) =~= Seq::<char>::empty());
        assert(pow10(0) == 1);
        assert(digits_val(Seq::<char>::empty()) == 0);
        assert(acc * pow10((j - i) as nat) == acc) by (nonlinear_arith)
            requires
                pow10((j - i) as nat) == 1,
        ;
        assert(scan_num(s, i, acc) == (acc, i));
    } else {
        let d0 = digit_val(s[i]);
        let acc2 = (acc * 10 + d0) as nat;
        lemma_scan_digit_run(s, i + 1, j, acc2);
        let run = s.subrange(i, j);
        lemma_digits_val_front(run);
        assert(run[0] == s[i]);
        assert(run.drop_first() =~= s.subrange(i + 1, j));
        let p = pow10((j - i - 1) as nat);
        assert(pow10((j - i) as nat) == 10 * p);
        // acc2 * p == acc * (10 * p) + d0 * p
        assert((acc * 10 + d0) * p == acc * 10 * p + d0 * p) by (nonlinear_arith);
        assert(acc * 10 * p == acc * (10 * p)) by (nonlinear_arith);
        assert(digits_val(run) == d0 * p + digits_val(s.subrange(i + 1, j)));
        assert(acc2 * p + digits_val(s.subrange(i + 1, j)) == acc * pow10((j - i) as nat)
            + digits_val(run));
        assert(scan_num(s, i, acc) == scan_num(s, i + 1, acc2));
        assert(scan_num(s, i + 1, acc2).0 == (acc2 * p + digits_val(s.subrange(i + 1, j))) as nat);
    }
}

/// Scanning never shrinks the accumulator and never moves backwards.
proof fn lemma_scan_num_min(s: Seq<char>, i: int, acc: nat)
    requires
        0 <= i <= s.len(),
    ensures
        scan_num(s, i, acc).0 >= acc,
        i <= scan_num(s, i, acc).1 <= s.len(),
    decreases s.len() - i,
{
    if i < s.len() && is_digit(s[i]) {
        let acc2 = (acc * 10 + digit_val(s[i])) as nat;
        lemma_scan_num_min(s, i + 1, acc2);
        assert(acc2 >= acc);
    }
}

/// Parsing a printed number, bounded on the right by a non-digit (or the
/// end), gives back exactly that number and stops right after it.
pub proof fn lemma_parse_num_of_digits(s: Seq<char>, i: int, n: nat)
    requires
        0 <= i,
        i + dec_digits(n).len() <= s.len(),
        s.subrange(i, i + dec_digits(n).len()) == dec_digits(n),
        i + dec_digits(n).len() == s.len() || !is_digit(s[i + dec_digits(n).len()]),
    ensures
        parse_num(s, i) == Some((n, i + dec_digits(n).len())),
{
    let l = dec_digits(n).len() as int;
    lemma_dec_digits_value(n);
    assert forall|k: int| i <= k < i + l implies is_digit(#[trigger] s[k]) by {
        assert(s.subrange(i, i + l)[k - i] == s[k]);
        assert(is_digit(dec_digits(n)[k - i]));
    }
    lemma_scan_digit_run(s, i, i + l, 0);
    assert(s.subrange(i, i + l) == dec_digits(n));
    assert(0 * pow10(l as nat) == 0) by (nonlinear_arith);
}

/// `parse_num`, restricted to values that fit in a `u64`.
pub open spec fn parse_num_u64(s: Seq<char>, i: int) -> Option<(u64, int)> {
    match parse_num(s, i) {
        Some((v, j)) => if v <= u64::MAX {
            Some((v as u64, j))
        } else {
            None
        },
        None => None,
    }
}

fn digit_val_u64(c: char) -> (r: u64)
    ensures
        r == digit_val(c),
{
    match c {
        '0' => 0,
        '1' => 1,
        '2' => 2,
        '3' => 3,
        '4' => 4,
        '5' => 5,
        '6' => 6,
        '7' => 7,
        '8' => 8,
        '9' => 9,
        _ => 10,
    }
}

/// Parses a decimal number at position `i`: at least one digit, greedily,
/// rejecting values beyond `u64`.
pub fn parse_u64(s: &str, i: usize) -> (r: Option<(u64, usize)>)
    requires
        i <= s@.len(),
    ensures
        match r {
            Some((v, j)) => parse_num_u64(s@, i as int) == Some((v, j as int)) && i < j <= s@.len(),
            None => parse_num_u64(s@, i as int) is None,
        },
{
    let n = s.unicode_len();
    if i >= n {
        return None;
    }
    let d0 = digit_val_u64(s.get_char(i));
    if d0 >= 10 {
        return None;
    }
    let mut acc: u64 = d0;
    let mut cur: usize = i + 1;
    while cur < n && digit_val_u64(s.get_char(cur)) < 10
        invariant
            i < cur <= n,
            n == s@.len(),
            is_digit(s@[i as int]),
            scan_num(s@, i as int, 0) == scan_num(s@, cur as int, acc as nat),
        decreases n - cur,
    {
        let d = digit_val_u64(s.get_char(cur));
        proof {
            vstd::arithmetic::div_mod::lemma_fundamental_div_mod(
                (u64::MAX - d) as int,
                10,
            );
        }
        if acc > (u64::MAX - d) / 10 {
            proof {
                lemma_scan_num_min(s@, cur as int + 1, (acc * 10 + digit_val(s@[cur as int])) as nat);
                assert(scan_num(s@, i as int, 0).0 > u64::MAX);
            }
            return None;
        }
        acc = acc * 10 + d;
        cur = cur + 1;
    }
    proof {
        assert(scan_num(s@, cur as int, acc as nat) == (acc as nat, cur as int));
    }
    Some((acc, cur))
}

/// The whitespace characters that trimming removes.
pub open spec fn is_space(c: char) -> bool {
    c == ' ' || c == '\t' || c == '\n' || c == '\r'
}

pub open spec fn trim_front(s: Seq<char>) -> Seq<char>
    decreases s.len(),
{
    if s.len() > 0 && is_space(s[0]) {
        trim_front(s.drop_first())
    } else {
        s
    }
}

pub open spec fn trim_back(s: Seq<char>) -> Seq<char>
    decreases s.len(),
{
    if s.len() > 0 && is_space(s.last()) {
        trim_back(s.drop_last())
    } else {
        s
    }
}

/// `s` with leading and trailing whitespace removed.
pub open spec fn trimmed(s: Seq<char>) -> Seq<char> {
    trim_back(trim_front(s))
}

/// Neither end of `s` is whitespace.
pub open spec fn is_trimmed(s: Seq<char>) -> bool {
    s.len() > 0 ==> !is_space(s[0]) && !is_space(s[s.len() - 1])
}

proof fn lemma_trim_front_props(s: Seq<char>)
    ensures
        trim_front(s).len() > 0 ==> !is_space(trim_front(s)[0]),
        exists|k: int|
            0 <= k <= s.len() && trim_front(s) == s.subrange(k, s.len() as int) && (forall|j: int|
                0 <= j < k ==> is_space(s[j])),
    decreases s.len(),
{
    if s.len() > 0 && is_space(s[0]) {
        lemma_trim_front_props(s.drop_first());
        let k0 = choose|k: int|
            0 <= k <= s.drop_first().len() && trim_front(s.drop_first()) == s.drop_first().subrange(
                k,
                s.drop_first().len() as int,
            ) && (forall|j: int| 0 <= j < k ==> is_space(s.drop_first()[j]));
        assert(s.drop_first().subrange(k0, s.drop_first().len() as int) =~= s.subrange(
            k0 + 1,
            s.len() as int,
        ));
        assert forall|j: int| 0 <= j < k0 + 1 implies is_space(s[j]) by {
            if j > 0 {
                assert(s[j] == s.drop_first()[j - 1]);
            }
        }
        assert(0 <= k0 + 1 <= s.len() && trim_front(s) == s.subrange(k0 + 1, s.len() as int) && (
        forall|j: int| 0 <= j < k0 + 1 ==> is_space(s[j])));
    } else {
        assert(s.subrange(0, s.len() as int) =~= s);
        assert(0 <= 0 <= s.len() && trim_front(s) == s.subrange(0, s.len() as int) && (forall|
            j: int,
        |
            0 <= j < 0 ==> is_space(s[j])));
    }
}

proof fn lemma_trim_back_props(s: Seq<char>)
    ensures
        trim_back(s).len() > 0 ==> !is_space(trim_back(s).last()),
        exists|k: int|
            0 <= k <= s.len() && trim_back(s) == s.subrange(0, k) && (forall|j: int|
                k <= j < s.len() ==> is_space(s[j])),
    decreases s.len(),
{
    if s.len() > 0 && is_space(s.last()) {
        lemma_trim_back_props(s.drop_last());
        let k0 = choose|k: int|
            0 <= k <= s.drop_last().len() && trim_back(s.drop_last()) == s.drop_last().subrange(
                0,
                k,
            ) && (forall|j: int| k <= j < s.drop_last().len() ==> is_space(s.drop_last()[j]));
        assert(s.drop_last().subrange(0, k0) =~= s.subrange(0, k0));
        assert forall|j: int| k0 <= j < s.len() implies is_space(s[j]) by {
            if j < s.len() - 1 {
                assert(s[j] == s.drop_last()[j]);
            }
        }
        assert(0 <= k0 <= s.len() && trim_back(s) == s.subrange(0, k0) && (forall|j: int|
            k0 <= j < s.len() ==> is_space(s[j])));
    } else {
        assert(s.subrange(0, s.len() as int) =~= s);
        assert(0 <= s.len() <= s.len() && trim_back(s) == s.subrange(0, s.len() as int) && (forall|
            j: int,
        |
            s.len() <= j < s.len() ==> is_space(s[j])));
    }
}

/// A trimmed sequence has no whitespace at either end, so trimming is
/// idempotent.
pub proof fn lemma_trimmed_is_trimmed(s: Seq<char>)
    ensures
        is_trimmed(trimmed(s)),
        trimmed(trimmed(s)) == trimmed(s),
{
    lemma_trim_front_props(s);
    let t = trim_front(s);
    lemma_trim_back_props(t);
    let k = choose|k: int|
        0 <= k <= t.len() && trim_back(t) == t.subrange(0, k) && (forall|j: int|
            k <= j < t.len() ==> is_space(t[j]));
    if trimmed(s).len() > 0 {
        assert(trimmed(s)[0] == t[0]);
    }
    lemma_is_trimmed_fixed(trimmed(s));
}

/// Trimming a sequence with clean ends returns it unchanged.
pub proof fn lemma_is_trimmed_fixed(s: Seq<char>)
    requires
        is_trimmed(s),
    ensures
        trimmed(s) == s,
{
    assert(trim_front(s) == s);
    assert(trim_back(s) == s);
}

pub fn is_space_exec(c: char) -> (r: bool)
    ensures
        r == is_space(c),
{
    c == ' ' || c == '\t' || c == '\n' || c == '\r'
}

/// Removes leading and trailing whitespace from `s`.
pub fn trim_chars(s: &str) -> (r: String)
    ensures
        r@ == trimmed(s@),
{
    let n = s.unicode_len();
    proof {
        assert(s@.subrange(0, n as int) =~= s@);
    }
    let mut a: usize = 0;
    while a < n && is_space_exec(s.get_char(a))
        invariant
            0 <= a <= n == s@.len(),
            trim_front(s@) == trim_front(s@.subrange(a as int, n as int)),
        decreases n - a,
    {
        proof {
            let sub = s@.subrange(a as int, n as int);
            assert(sub.drop_first() =~= s@.subrange(a as int + 1, n as int));
        }
        a = a + 1;
    }
    proof {
        let sub = s@.subrange(a as int, n as int);
        if a < n {
            assert(!is_space(sub[0]));
        }
        assert(trim_front(sub) == sub);
    }
    // Now trim_front(s@) == s@.subrange(a, n).
    let mut b: usize = n;
    while b > a && is_space_exec(s.get_char(b - 1))
        invariant
            0 <= a <= b <= n == s@.len(),
            trim_front(s@) == s@.subrange(a as int, n as int),
            trim_back(s@.subrange(a as int, n as int)) == trim_back(
                s@.subrange(a as int, b as int),
            ),
        decreases b,
    {
        proof {
            let sub = s@.subrange(a as int, b as int);
            assert(sub.last() == s@[b - 1]);
            assert(sub.drop_last() =~= s@.subrange(a as int, b as int - 1));
        }
        b = b - 1;
    }
    proof {
        let sub = s@.subrange(a as int, b as int);
        if b > a {
            assert(sub.last() == s@[b - 1]);
            assert(!is_space(sub.last()));
        }
        assert(trim_back(sub) == sub);
    }
    let piece = s.substring_char(a, b);
    piece.to_owned()
}

} // verus!
