//! Text helpers: trimming, decimal numerals and numbered names.

use vstd::prelude::*;
use vstd::string::StringExecFns;

verus! {

/// The code points with the Unicode property `White_Space`.
pub open spec fn is_white_space(c: char) -> bool {
    let n = c as u32;
    ||| 0x09 <= n <= 0x0D
    ||| n == 0x20
    ||| n == 0x85
    ||| n == 0xA0
    ||| n == 0x1680
    ||| 0x2000 <= n <= 0x200A
    ||| n == 0x2028
    ||| n == 0x2029
    ||| n == 0x202F
    ||| n == 0x205F
    ||| n == 0x3000
}

/// `s` without its leading white space.
pub open spec fn trim_start(s: Seq<char>) -> Seq<char>
    decreases s.len(),
{
    if s.len() > 0 && is_white_space(s[0]) {
        trim_start(s.drop_first())
    } else {
        s
    }
}

/// `s` without its trailing white space.
pub open spec fn trim_end(s: Seq<char>) -> Seq<char>
    decreases s.len(),
{
    if s.len() > 0 && is_white_space(s.last()) {
        trim_end(s.drop_last())
    } else {
        s
    }
}

/// `s` without leading and trailing white space.
pub open spec fn trimmed(s: Seq<char>) -> Seq<char> {
    trim_end(trim_start(s))
}

/// Calls `str::trim`. The claim is what std documents: the slice returned is
/// the text without its leading and trailing white space, where white space is
/// the Unicode property `White_Space`.
#[verifier::external_body]
pub(crate) fn trim(s: &str) -> (r: &str)
    ensures
        r@ == trimmed(s@),
{
    s.trim()
}

/// The upper-case letter of an ASCII lower-case letter, any other character
/// as it is.
pub open spec fn ascii_upper(c: char) -> char {
    if 0x61 <= c as u32 <= 0x7A {
        ((c as u32) - 0x20) as char
    } else {
        c
    }
}

/// The text with every ASCII lower-case letter in upper case.
pub open spec fn ascii_uppercase(s: Seq<char>) -> Seq<char> {
    Seq::new(s.len(), |i: int| ascii_upper(s[i]))
}

/// Calls `str::to_ascii_uppercase`. The claim is what std documents: the
/// letters `a` to `z` become `A` to `Z`, every other character stays.
#[verifier::external_body]
pub(crate) fn to_ascii_uppercase(s: &str) -> (r: String)
    ensures
        r@ == ascii_uppercase(s@),
{
    s.to_ascii_uppercase()
}

/// The numeral of one decimal digit.
pub open spec fn digit_char(d: nat) -> char {
    if d == 0 {
        '0'
    } else if d == 1 {
        '1'
    } else if d == 2 {
        '2'
    } else if d == 3 {
        '3'
    } else if d == 4 {
        '4'
    } else if d == 5 {
        '5'
    } else if d == 6 {
        '6'
    } else if d == 7 {
        '7'
    } else if d == 8 {
        '8'
    } else {
        '9'
    }
}

/// `n` written in decimal, most significant digit first, no leading zero.
pub open spec fn decimal(n: nat) -> Seq<char>
    decreases n,
{
    if n < 10 {
        seq![digit_char(n)]
    } else {
        decimal(n / 10).push(digit_char(n % 10))
    }
}

fn digit_str(d: usize) -> (s: &'static str)
    requires
        d < 10,
    ensures
        s@ == seq![digit_char(d as nat)],
{
    proof {
        reveal_strlit("0");
        reveal_strlit("1");
        reveal_strlit("2");
        reveal_strlit("3");
        reveal_strlit("4");
        reveal_strlit("5");
        reveal_strlit("6");
        reveal_strlit("7");
        reveal_strlit("8");
        reveal_strlit("9");
    }
    let s = if d == 0 {
        "0"
    } else if d == 1 {
        "1"
    } else if d == 2 {
        "2"
    } else if d == 3 {
        "3"
    } else if d == 4 {
        "4"
    } else if d == 5 {
        "5"
    } else if d == 6 {
        "6"
    } else if d == 7 {
        "7"
    } else if d == 8 {
        "8"
    } else {
        "9"
    };
    assert(s@ =~= seq![digit_char(d as nat)]);
    s
}

/// Writes `n` in decimal.
pub fn decimal_string(n: usize) -> (s: String)
    ensures
        s@ == decimal(n as nat),
    decreases n,
{
    if n < 10 {
        String::from_str(digit_str(n))
    } else {
        let head = decimal_string(n / 10);
        let s = head.concat(digit_str(n % 10));
        assert(s@ =~= decimal((n / 10) as nat).push(digit_char((n % 10) as nat)));
        s
    }
}

/// A decimal numeral has at least one digit.
pub proof fn lemma_decimal_nonempty(n: nat)
    ensures
        decimal(n).len() >= 1,
        n >= 10 ==> decimal(n).len() >= 2,
    decreases n,
{
    if n >= 10 {
        lemma_decimal_nonempty(n / 10);
    }
}

/// Different numbers have different numerals.
pub proof fn lemma_decimal_injective(a: nat, b: nat)
    requires
        decimal(a) == decimal(b),
    ensures
        a == b,
    decreases a,
{
    lemma_decimal_nonempty(a);
    lemma_decimal_nonempty(b);
    if a < 10 && b < 10 {
        assert(decimal(a)[0] == digit_char(a));
        assert(decimal(b)[0] == digit_char(b));
    } else if a >= 10 && b >= 10 {
        let da = decimal(a / 10);
        let db = decimal(b / 10);
        let la = digit_char(a % 10);
        let lb = digit_char(b % 10);
        assert(decimal(a) == da.push(la));
        assert(decimal(b) == db.push(lb));
        assert(da.push(la).drop_last() =~= da);
        assert(db.push(lb).drop_last() =~= db);
        assert(da.push(la).last() == la);
        assert(db.push(lb).last() == lb);
        assert(da == db);
        assert(la == lb);
        lemma_decimal_injective(a / 10, b / 10);
        assert(a / 10 == b / 10);
        assert(a % 10 == b % 10);
    } else {
        assert(decimal(a).len() != decimal(b).len());
    }
}

/// The `k`-th name tried for a player who asks for `base`: `base` itself, then
/// `base(1)`, `base(2)` and so on.
pub open spec fn numbered_name(base: Seq<char>, k: nat) -> Seq<char> {
    if k == 0 {
        base
    } else {
        base + seq!['('] + decimal(k) + seq![')']
    }
}

/// Builds the `k`-th name tried for `base`.
pub fn make_numbered_name(base: &str, k: usize) -> (name: String)
    ensures
        name@ == numbered_name(base@, k as nat),
{
    if k == 0 {
        String::from_str(base)
    } else {
        proof {
            reveal_strlit("(");
            reveal_strlit(")");
        }
        let number = decimal_string(k);
        let name = String::from_str(base).concat("(").concat(number.as_str()).concat(")");
        assert("("@ =~= seq!['(']);
        assert(")"@ =~= seq![')']);
        name
    }
}

/// The names tried for one base are pairwise different.
pub proof fn lemma_numbered_names_differ(base: Seq<char>, j: nat, k: nat)
    requires
        j != k,
    ensures
        numbered_name(base, j) != numbered_name(base, k),
{
    lemma_decimal_nonempty(j);
    lemma_decimal_nonempty(k);
    if j != 0 && k != 0 {
        let a = numbered_name(base, j);
        let b = numbered_name(base, k);
        if a == b {
            let lo = base.len() as int + 1;
            assert(a.subrange(lo, a.len() - 1) =~= decimal(j));
            assert(b.subrange(lo, b.len() - 1) =~= decimal(k));
            lemma_decimal_injective(j, k);
        }
    } else if j == 0 {
        assert(numbered_name(base, k).len() > base.len());
    } else {
        assert(numbered_name(base, j).len() > base.len());
    }
}

/// The least `k`, counted from `from`, whose numbered name is not in `taken`.
/// The search gives up after `taken.len()` names; it never needs to, see
/// [`lemma_free_name_number`].
pub open spec fn free_name_number(taken: Seq<Seq<char>>, base: Seq<char>, from: nat) -> nat
    decreases taken.len() + 1 - from,
{
    if from <= taken.len() && taken.contains(numbered_name(base, from)) {
        free_name_number(taken, base, from + 1)
    } else {
        from
    }
}

/// The name a player gets who asks for `base` where `taken` are in use.
pub open spec fn free_name(taken: Seq<Seq<char>>, base: Seq<char>) -> Seq<char> {
    numbered_name(base, free_name_number(taken, base, 0))
}

proof fn lemma_taken_run_is_short(taken: Seq<Seq<char>>, base: Seq<char>, m: nat)
    requires
        forall|k: nat| k < m ==> taken.contains(#[trigger] numbered_name(base, k)),
    ensures
        m <= taken.len(),
    decreases m,
{
    if m > 0 {
        let top = numbered_name(base, (m - 1) as nat);
        assert(taken.contains(top));
        let i = choose|i: int| 0 <= i < taken.len() && taken[i] == top;
        let rest = taken.remove(i);
        assert forall|k: nat| k < m - 1 implies rest.contains(#[trigger] numbered_name(base, k)) by {
            let name = numbered_name(base, k);
            assert(taken.contains(name));
            let j = choose|j: int| 0 <= j < taken.len() && taken[j] == name;
            lemma_numbered_names_differ(base, k, (m - 1) as nat);
            if j < i {
                assert(rest[j] == name);
            } else {
                assert(rest[j - 1] == name);
            }
        }
        lemma_taken_run_is_short(rest, base, (m - 1) as nat);
    }
}

proof fn lemma_free_name_number_run(taken: Seq<Seq<char>>, base: Seq<char>, from: nat)
    requires
        from <= taken.len() + 1,
        forall|k: nat| k < from ==> taken.contains(#[trigger] numbered_name(base, k)),
    ensures
        from <= free_name_number(taken, base, from) <= taken.len(),
        !taken.contains(numbered_name(base, free_name_number(taken, base, from))),
        forall|k: nat|
            k < free_name_number(taken, base, from) ==> taken.contains(
                #[trigger] numbered_name(base, k),
            ),
    decreases taken.len() + 1 - from,
{
    lemma_taken_run_is_short(taken, base, from);
    if taken.contains(numbered_name(base, from)) {
        assert forall|k: nat| k < from + 1 implies taken.contains(
            #[trigger] numbered_name(base, k),
        ) by {}
        lemma_taken_run_is_short(taken, base, from + 1);
        lemma_free_name_number_run(taken, base, from + 1);
    }
}

/// The search for a free name ends within `taken.len()` steps, on the first
/// numbered name that is not in use.
pub proof fn lemma_free_name_number(taken: Seq<Seq<char>>, base: Seq<char>)
    ensures
        free_name_number(taken, base, 0) <= taken.len(),
        !taken.contains(free_name(taken, base)),
        forall|k: nat|
            k < free_name_number(taken, base, 0) ==> taken.contains(
                #[trigger] numbered_name(base, k),
            ),
{
    lemma_free_name_number_run(taken, base, 0);
}

} // verus!
