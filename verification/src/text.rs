//! Decimal numbers and dotted hosts as text.
//!
//! Only the shortest spelling of a number is a number here: no sign but a
//! leading `-` on a negative one, no leading zeros, no blanks.

use vstd::prelude::*;
use vstd::string::*;

verus! {

/// The character that spells the digit `d`.
pub open spec fn digit_char(d: nat) -> char {
    if d == 0 {
        '0'
    } else if d == 1 {
        '1'
    } else if d == 2 {
        '2'
    } else if d == 3 {
        '3'
    } else if d == 4 {
        '4'
    } else if d == 5 {
        '5'
    } else if d == 6 {
        '6'
    } else if d == 7 {
        '7'
    } else if d == 8 {
        '8'
    } else {
        '9'
    }
}

/// The digit that `c` spells, if it spells one.
pub open spec fn digit_of(c: char) -> Option<nat> {
    if c == '0' {
        Some(0)
    } else if c == '1' {
        Some(1)
    } else if c == '2' {
        Some(2)
    } else if c == '3' {
        Some(3)
    } else if c == '4' {
        Some(4)
    } else if c == '5' {
        Some(5)
    } else if c == '6' {
        Some(6)
    } else if c == '7' {
        Some(7)
    } else if c == '8' {
        Some(8)
    } else if c == '9' {
        Some(9)
    } else {
        None
    }
}

/// Whether every character of `s` is a digit.
pub open spec fn all_digits(s: Seq<char>) -> bool {
    forall|i: int| 0 <= i < s.len() ==> (#[trigger] digit_of(s[i])) is Some
}

/// The number that the digits of `s` spell, read from the left.
pub open spec fn decimal_value(s: Seq<char>) -> nat
    decreases s.len(),
{
    if s.len() == 0 {
        0
    } else {
        10 * decimal_value(s.drop_last()) + match digit_of(s.last()) {
            Some(d) => d,
            None => 0,
        }
    }
}

/// Whether `s` is the shortest spelling of a natural number.
pub open spec fn is_decimal(s: Seq<char>) -> bool {
    &&& s.len() > 0
    &&& all_digits(s)
    &&& s.len() > 1 ==> s[0] != '0'
}

/// The natural number that `s` spells.
pub open spec fn decimal_of(s: Seq<char>) -> Option<nat> {
    if is_decimal(s) {
        Some(decimal_value(s))
    } else {
        None
    }
}

/// The natural number that the digits `s` spell, zeros in front allowed, if
/// it is no larger than `limit`.
pub open spec fn digits_up_to(s: Seq<char>, limit: nat) -> Option<nat> {
    if s.len() > 0 && all_digits(s) && decimal_value(s) <= limit {
        Some(decimal_value(s))
    } else {
        None
    }
}

/// The integer that `s` spells as typed: digits, zeros in front allowed,
/// behind at most one sign of either kind.
pub open spec fn typed_int_of(s: Seq<char>) -> Option<int> {
    let signed = s.len() > 0 && (s[0] == '-' || s[0] == '+');
    let digits = if signed {
        s.drop_first()
    } else {
        s
    };
    if digits.len() > 0 && all_digits(digits) {
        if s[0] == '-' {
            Some(-(decimal_value(digits) as int))
        } else {
            Some(decimal_value(digits) as int)
        }
    } else {
        None
    }
}

/// The 64-bit integer that `s` spells as typed.
pub open spec fn typed_i64_of(s: Seq<char>) -> Option<i64> {
    match typed_int_of(s) {
        Some(k) => if i64::MIN <= k <= i64::MAX {
            Some(k as i64)
        } else {
            None
        },
        None => None,
    }
}

/// The natural number that `s` spells, if it is no larger than `limit`.
pub open spec fn decimal_up_to(s: Seq<char>, limit: nat) -> Option<nat> {
    match decimal_of(s) {
        Some(n) => if n <= limit {
            Some(n)
        } else {
            None
        },
        None => None,
    }
}

/// The shortest spelling of `n`.
pub open spec fn digits_of(n: nat) -> Seq<char>
    decreases n,
{
    if n < 10 {
        seq![digit_char(n)]
    } else {
        digits_of(n / 10).push(digit_char(n % 10))
    }
}

/// The shortest spelling of the integer `k`.
pub open spec fn int_text(k: int) -> Seq<char> {
    if k < 0 {
        seq!['-'] + digits_of((-k) as nat)
    } else {
        digits_of(k as nat)
    }
}

/// The integer that `s` spells.
pub open spec fn int_of(s: Seq<char>) -> Option<int> {
    if s.len() > 0 && s[0] == '-' {
        match decimal_of(s.drop_first()) {
            Some(n) => if n > 0 {
                Some(-(n as int))
            } else {
                None
            },
            None => None,
        }
    } else {
        match decimal_of(s) {
            Some(n) => Some(n as int),
            None => None,
        }
    }
}

/// The 64-bit integer that `s` spells.
pub open spec fn i64_of(s: Seq<char>) -> Option<i64> {
    match int_of(s) {
        Some(k) => if i64::MIN <= k <= i64::MAX {
            Some(k as i64)
        } else {
            None
        },
        None => None,
    }
}

/// Index of the first `mark` in `s`, or the length of `s` if it has none.
pub open spec fn first_of(s: Seq<char>, mark: char) -> int
    decreases s.len(),
{
    if s.len() == 0 {
        0
    } else if s[0] == mark {
        0
    } else {
        1 + first_of(s.drop_first(), mark)
    }
}

/// Index of the first dot of `s`, or the length of `s` if it has none.
pub open spec fn first_dot(s: Seq<char>) -> int {
    first_of(s, '.')
}

/// What stands before the first dot of `s`.
pub open spec fn before_dot(s: Seq<char>) -> Seq<char> {
    s.take(first_dot(s))
}

/// What stands behind the first dot of `s`; `None` if `s` has no dot.
pub open spec fn after_dot(s: Seq<char>) -> Option<Seq<char>> {
    if first_dot(s) < s.len() {
        Some(s.skip(first_dot(s) + 1))
    } else {
        None
    }
}

/// The four numbers of a dotted host as one 32-bit number, the first number
/// in the highest byte.
pub open spec fn pack_host(a: nat, b: nat, c: nat, d: nat) -> u32 {
    (a * 16777216 + b * 65536 + c * 256 + d) as u32
}

/// The `k`-th number of the dotted spelling of `host`, counted from the left.
pub open spec fn host_part(host: u32, k: int) -> nat {
    if k == 0 {
        (host / 16777216) as nat
    } else if k == 1 {
        (host / 65536 % 256) as nat
    } else if k == 2 {
        (host / 256 % 256) as nat
    } else {
        (host % 256) as nat
    }
}

/// The dotted spelling of a host: four numbers, each `0 ..= 255`.
pub open spec fn host_text(host: u32) -> Seq<char> {
    digits_of(host_part(host, 0)) + seq!['.'] + digits_of(host_part(host, 1)) + seq!['.']
        + digits_of(host_part(host, 2)) + seq!['.'] + digits_of(host_part(host, 3))
}

/// The host that `s` spells: `s` must split at its dots into exactly four
/// numbers, each spelled the shortest way and none above 255.
pub open spec fn host_of(s: Seq<char>) -> Option<u32> {
    match after_dot(s) {
        Some(s1) => match after_dot(s1) {
            Some(s2) => match after_dot(s2) {
                Some(s3) => match (
                    decimal_up_to(before_dot(s), 255),
                    decimal_up_to(before_dot(s1), 255),
                    decimal_up_to(before_dot(s2), 255),
                    decimal_up_to(s3, 255),
                ) {
                    (Some(a), Some(b), Some(c), Some(d)) => Some(pack_host(a, b, c, d)),
                    _ => None,
                },
                None => None,
            },
            None => None,
        },
        None => None,
    }
}

// ---------------------------------------------------------------------
// Facts about spellings
// ---------------------------------------------------------------------

proof fn lemma_digit_round_trip(d: nat)
    requires
        d < 10,
    ensures
        digit_of(digit_char(d)) == Some(d),
        digit_char(d) != '.',
        digit_char(d) != '-',
{
}

/// A number's spelling is a spelling, and spells that number.
pub proof fn lemma_digits_spell(n: nat)
    ensures
        is_decimal(digits_of(n)),
        decimal_value(digits_of(n)) == n,
        decimal_of(digits_of(n)) == Some(n),
        digits_of(n)[0] != '-',
        forall|i: int| 0 <= i < digits_of(n).len() ==> digits_of(n)[i] != '.',
    decreases n,
{
    let s = digits_of(n);
    if n < 10 {
        lemma_digit_round_trip(n);
        assert(s.drop_last() =~= Seq::<char>::empty());
        assert(decimal_value(s.drop_last()) == 0);
    } else {
        let head = digits_of(n / 10);
        lemma_digits_spell(n / 10);
        lemma_digit_round_trip(n % 10);
        assert(s.drop_last() =~= head);
        assert(s.last() == digit_char(n % 10));
        assert(s[0] == head[0]);
        if head[0] == '0' {
            assert(head.len() == 1);
            assert(head.drop_last() =~= Seq::<char>::empty());
            assert(decimal_value(head.drop_last()) == 0);
            assert(decimal_value(head) == 0);
        }
        assert forall|i: int| 0 <= i < s.len() implies (#[trigger] digit_of(s[i])) is Some by {
            if i < head.len() {
                assert(s[i] == head[i]);
            }
        }
        assert forall|i: int| 0 <= i < s.len() implies s[i] != '.' by {
            if i < head.len() {
                assert(s[i] == head[i]);
            }
        }
    }
}

/// Two spellings of one number are the same text.
pub proof fn lemma_spelling_is_unique(s: Seq<char>)
    requires
        is_decimal(s),
    ensures
        digits_of(decimal_value(s)) == s,
    decreases s.len(),
{
    let d = digit_of(s.last())->0;
    assert(digit_of(s.last()) is Some);
    assert(digit_char(d) == s.last());
    if s.len() == 1 {
        assert(s.drop_last() =~= Seq::<char>::empty());
        assert(decimal_value(s.drop_last()) == 0);
        assert(digits_of(d) =~= s);
    } else {
        let head = s.drop_last();
        assert(head[0] == s[0]);
        assert forall|i: int| 0 <= i < head.len() implies (#[trigger] digit_of(head[i])) is Some by {
            assert(head[i] == s[i]);
        }
        lemma_spelling_is_unique(head);
        lemma_leading_digit(head);
        let v = decimal_value(head);
        assert(v > 0);
        assert(decimal_value(s) == 10 * v + d);
        assert((10 * v + d) / 10 == v);
        assert((10 * v + d) % 10 == d);
        assert(digits_of(decimal_value(s)) =~= head.push(digit_char(d)));
        assert(head.push(s.last()) =~= s);
    }
}

/// A spelling that does not begin with `0` spells a positive number.
proof fn lemma_leading_digit(s: Seq<char>)
    requires
        s.len() > 0,
        all_digits(s),
        s[0] != '0',
    ensures
        decimal_value(s) > 0,
    decreases s.len(),
{
    if s.len() == 1 {
        assert(digit_of(s[0]) is Some);
        assert(s.last() == s[0]);
    } else {
        let head = s.drop_last();
        assert(head[0] == s[0]);
        assert forall|i: int| 0 <= i < head.len() implies (#[trigger] digit_of(head[i])) is Some by {
            assert(head[i] == s[i]);
        }
        lemma_leading_digit(head);
    }
}

/// Reading one more digit never makes the number smaller.
proof fn lemma_value_grows(s: Seq<char>, k: int)
    requires
        0 <= k <= s.len(),
    ensures
        decimal_value(s.take(k)) <= decimal_value(s),
    decreases s.len() - k,
{
    if k == s.len() {
        assert(s.take(k) =~= s);
    } else {
        lemma_value_grows(s, k + 1);
        assert(s.take(k + 1).drop_last() =~= s.take(k));
    }
}

/// An integer's spelling spells that integer.
pub proof fn lemma_int_text_spells(k: int)
    ensures
        int_of(int_text(k)) == Some(k),
{
    if k < 0 {
        let n = (-k) as nat;
        lemma_digits_spell(n);
        assert(int_text(k).drop_first() =~= digits_of(n));
    } else {
        lemma_digits_spell(k as nat);
    }
}

/// Only an integer's own spelling spells it.
pub proof fn lemma_int_spelling_is_unique(s: Seq<char>)
    requires
        int_of(s) is Some,
    ensures
        int_text(int_of(s)->0) == s,
{
    if s.len() > 0 && s[0] == '-' {
        let tail = s.drop_first();
        lemma_spelling_is_unique(tail);
        assert(seq!['-'] + tail =~= s);
    } else {
        lemma_spelling_is_unique(s);
    }
}

/// The first mark of a text is where a scan from the left first meets one.
pub proof fn lemma_first_of(s: Seq<char>, mark: char, at: int)
    requires
        0 <= at <= s.len(),
        forall|i: int| 0 <= i < at ==> s[i] != mark,
        at < s.len() ==> s[at] == mark,
    ensures
        first_of(s, mark) == at,
    decreases s.len(),
{
    if s.len() > 0 && at > 0 {
        let rest = s.drop_first();
        assert(s[0] != mark);
        assert forall|i: int| 0 <= i < at - 1 implies rest[i] != mark by {
            assert(rest[i] == s[i + 1]);
        }
        lemma_first_of(rest, mark, at - 1);
    }
}

proof fn lemma_split_at_dot(head: Seq<char>, tail: Seq<char>)
    requires
        forall|i: int| 0 <= i < head.len() ==> head[i] != '.',
    ensures
        before_dot(head + seq!['.'] + tail) == head,
        after_dot(head + seq!['.'] + tail) == Some(tail),
{
    let s = head + seq!['.'] + tail;
    assert forall|i: int| 0 <= i < head.len() implies s[i] != '.' by {
        assert(s[i] == head[i]);
    }
    assert(s[head.len() as int] == '.');
    lemma_first_of(s, '.', head.len() as int);
    assert(s.take(head.len() as int) =~= head);
    assert(s.skip(head.len() as int + 1) =~= tail);
}

proof fn lemma_host_parts(host: u32)
    ensures
        host_part(host, 0) <= 255,
        host_part(host, 1) <= 255,
        host_part(host, 2) <= 255,
        host_part(host, 3) <= 255,
        pack_host(host_part(host, 0), host_part(host, 1), host_part(host, 2), host_part(host, 3))
            == host,
{
}

/// A host's dotted spelling spells that host.
pub proof fn lemma_host_text_spells(host: u32)
    ensures
        host_of(host_text(host)) == Some(host),
{
    let a = digits_of(host_part(host, 0));
    let b = digits_of(host_part(host, 1));
    let c = digits_of(host_part(host, 2));
    let d = digits_of(host_part(host, 3));
    lemma_digits_spell(host_part(host, 0));
    lemma_digits_spell(host_part(host, 1));
    lemma_digits_spell(host_part(host, 2));
    lemma_digits_spell(host_part(host, 3));
    lemma_host_parts(host);
    let s3 = d;
    let s2 = c + seq!['.'] + s3;
    let s1 = b + seq!['.'] + s2;
    let s = a + seq!['.'] + s1;
    assert(host_text(host) =~= s);
    lemma_split_at_dot(a, s1);
    lemma_split_at_dot(b, s2);
    lemma_split_at_dot(c, s3);
}

/// A text is what stands before its first dot, the dot, and what stands
/// behind it.
proof fn lemma_join_at_dot(s: Seq<char>)
    requires
        after_dot(s) is Some,
    ensures
        s == before_dot(s) + seq!['.'] + after_dot(s)->0,
        0 <= first_of(s, '.') < s.len(),
{
    lemma_first_of_bounds(s, '.');
    assert(s =~= before_dot(s) + seq!['.'] + after_dot(s)->0);
}

proof fn lemma_first_of_bounds(s: Seq<char>, mark: char)
    ensures
        0 <= first_of(s, mark) <= s.len(),
        first_of(s, mark) < s.len() ==> s[first_of(s, mark)] == mark,
    decreases s.len(),
{
    if s.len() > 0 && s[0] != mark {
        lemma_first_of_bounds(s.drop_first(), mark);
    }
}

/// Only a host's own dotted spelling spells it.
pub proof fn lemma_host_spelling_is_unique(s: Seq<char>)
    requires
        host_of(s) is Some,
    ensures
        host_text(host_of(s)->0) == s,
{
    let s1 = after_dot(s)->0;
    let s2 = after_dot(s1)->0;
    let s3 = after_dot(s2)->0;
    let a = decimal_up_to(before_dot(s), 255)->0;
    let b = decimal_up_to(before_dot(s1), 255)->0;
    let c = decimal_up_to(before_dot(s2), 255)->0;
    let d = decimal_up_to(s3, 255)->0;
    let host = pack_host(a, b, c, d);
    assert(host_of(s) == Some(host));
    lemma_packed_parts(a, b, c, d);
    assert(digits_of(a) == before_dot(s)) by {
        lemma_spelling_is_unique(before_dot(s));
    }
    assert(digits_of(b) == before_dot(s1)) by {
        lemma_spelling_is_unique(before_dot(s1));
    }
    assert(digits_of(c) == before_dot(s2)) by {
        lemma_spelling_is_unique(before_dot(s2));
    }
    assert(digits_of(d) == s3) by {
        lemma_spelling_is_unique(s3);
    }
    lemma_join_at_dot(s);
    lemma_join_at_dot(s1);
    lemma_join_at_dot(s2);
    lemma_joined(before_dot(s), before_dot(s1), before_dot(s2), s3);
}

/// The parts of a packed host are the numbers it was packed from.
proof fn lemma_packed_parts(a: nat, b: nat, c: nat, d: nat)
    requires
        a <= 255,
        b <= 255,
        c <= 255,
        d <= 255,
    ensures
        host_part(pack_host(a, b, c, d), 0) == a,
        host_part(pack_host(a, b, c, d), 1) == b,
        host_part(pack_host(a, b, c, d), 2) == c,
        host_part(pack_host(a, b, c, d), 3) == d,
{
    let host: nat = a * 16777216 + b * 65536 + c * 256 + d;
    assert(pack_host(a, b, c, d) == host);
    assert(host / 16777216 == a);
    assert(host / 65536 == a * 256 + b);
    assert(host / 256 == a * 65536 + b * 256 + c);
    assert((a * 256 + b) % 256 == b);
    assert((a * 65536 + b * 256 + c) % 256 == c);
    assert(host % 256 == d);
}

/// Joining four parts with dots can be done from either end.
proof fn lemma_joined(a: Seq<char>, b: Seq<char>, c: Seq<char>, d: Seq<char>)
    ensures
        a + seq!['.'] + b + seq!['.'] + c + seq!['.'] + d == a + seq!['.'] + (b + seq!['.'] + (c
            + seq!['.'] + d)),
{
    assert(a + seq!['.'] + b + seq!['.'] + c + seq!['.'] + d =~= a + seq!['.'] + (b + seq!['.'] + (c
        + seq!['.'] + d)));
}

// ---------------------------------------------------------------------
// Reading and writing
// ---------------------------------------------------------------------

/// The characters of `s`, one by one.
pub fn chars_of(s: &str) -> (chars: Vec<char>)
    ensures
        chars@ == s@,
{
    let n: usize = s.unicode_len();
    let mut chars: Vec<char> = Vec::new();
    let mut i: usize = 0;
    while i < n
        invariant
            n == s@.len(),
            i <= n,
            chars@ == s@.take(i as int),
        decreases n - i,
    {
        chars.push(s.get_char(i));
        i = i + 1;
        assert(chars@ =~= s@.take(i as int));
    }
    assert(s@.take(n as int) =~= s@);
    chars
}

/// Whether two texts are the same.
pub fn same_text(a: &str, b: &str) -> (same: bool)
    ensures
        same == (a@ == b@),
{
    let n: usize = a.unicode_len();
    if n != b.unicode_len() {
        return false;
    }
    let mut i: usize = 0;
    while i < n
        invariant
            n == a@.len(),
            n == b@.len(),
            i <= n,
            a@.take(i as int) == b@.take(i as int),
        decreases n - i,
    {
        if a.get_char(i) != b.get_char(i) {
            return false;
        }
        i = i + 1;
        assert(a@.take(i as int) =~= a@.take(i - 1).push(a@[i - 1]));
        assert(b@.take(i as int) =~= b@.take(i - 1).push(b@[i - 1]));
    }
    assert(a@.take(n as int) =~= a@);
    assert(b@.take(n as int) =~= b@);
    true
}

fn digit_value(c: char) -> (d: Option<u64>)
    ensures
        match d {
            Some(v) => digit_of(c) == Some(v as nat),
            None => digit_of(c) is None,
        },
{
    if c == '0' {
        Some(0)
    } else if c == '1' {
        Some(1)
    } else if c == '2' {
        Some(2)
    } else if c == '3' {
        Some(3)
    } else if c == '4' {
        Some(4)
    } else if c == '5' {
        Some(5)
    } else if c == '6' {
        Some(6)
    } else if c == '7' {
        Some(7)
    } else if c == '8' {
        Some(8)
    } else if c == '9' {
        Some(9)
    } else {
        None
    }
}

fn digit_text(d: u64) -> (t: &'static str)
    requires
        d < 10,
    ensures
        t@ == seq![digit_char(d as nat)],
{
    proof {
        reveal_strlit("0");
        reveal_strlit("1");
        reveal_strlit("2");
        reveal_strlit("3");
        reveal_strlit("4");
        reveal_strlit("5");
        reveal_strlit("6");
        reveal_strlit("7");
        reveal_strlit("8");
        reveal_strlit("9");
    }
    let t: &'static str = if d == 0 {
        "0"
    } else if d == 1 {
        "1"
    } else if d == 2 {
        "2"
    } else if d == 3 {
        "3"
    } else if d == 4 {
        "4"
    } else if d == 5 {
        "5"
    } else if d == 6 {
        "6"
    } else if d == 7 {
        "7"
    } else if d == 8 {
        "8"
    } else {
        "9"
    };
    assert(t@ =~= seq![digit_char(d as nat)]);
    t
}

/// Appends the shortest spelling of `n` to `out`.
pub fn push_decimal(out: &mut String, n: u64)
    ensures
        final(out)@ == old(out)@ + digits_of(n as nat),
    decreases n,
{
    if n < 10 {
        out.append(digit_text(n));
    } else {
        push_decimal(out, n / 10);
        out.append(digit_text(n % 10));
        assert(final(out)@ =~= old(out)@ + digits_of(n as nat));
    }
}

/// Appends the shortest spelling of `k` to `out`.
pub fn push_int(out: &mut String, k: i64)
    ensures
        final(out)@ == old(out)@ + int_text(k as int),
{
    if k < 0 {
        proof {
            reveal_strlit("-");
        }
        out.append("-");
        let magnitude: u64 = if k == i64::MIN {
            9223372036854775808
        } else {
            (-k) as u64
        };
        push_decimal(out, magnitude);
        assert(final(out)@ =~= old(out)@ + int_text(k as int));
    } else {
        push_decimal(out, k as u64);
    }
}

/// The shortest spelling of `k`.
pub fn int_to_text(k: i64) -> (t: String)
    ensures
        t@ == int_text(k as int),
{
    let mut t: String = String::new();
    push_int(&mut t, k);
    assert(t@ =~= int_text(k as int));
    t
}

/// Reads the digits `chars[from .. to]` as a natural number no larger than
/// `limit`; zeros may lead.
pub fn read_digits(chars: &Vec<char>, from: usize, to: usize, limit: u64) -> (r: Option<u64>)
    requires
        from <= to <= chars@.len(),
    ensures
        match r {
            Some(n) => digits_up_to(chars@.subrange(from as int, to as int), limit as nat) == Some(
                n as nat,
            ),
            None => digits_up_to(chars@.subrange(from as int, to as int), limit as nat) is None,
        },
{
    let ghost s = chars@.subrange(from as int, to as int);
    if from == to {
        return None;
    }
    let mut value: u64 = 0;
    let mut i: usize = from;
    while i < to
        invariant
            from <= i <= to <= chars@.len(),
            s == chars@.subrange(from as int, to as int),
            all_digits(s.take(i - from)),
            value == decimal_value(s.take(i - from)),
            value <= limit,
        decreases to - i,
    {
        let ghost seen = s.take(i - from);
        let ghost more = s.take(i - from + 1);
        assert(more.drop_last() =~= seen);
        assert(more.last() == chars@[i as int]);
        match digit_value(chars[i]) {
            None => {
                assert(digit_of(s[i - from]) is None);
                return None;
            },
            Some(d) => {
                if d > limit || value > (limit - d) / 10 {
                    proof {
                        assert(decimal_value(more) == 10 * value + d);
                        assert(decimal_value(more) > limit);
                        lemma_value_grows(s, i - from + 1);
                    }
                    return None;
                }
                value = value * 10 + d;
                assert forall|k: int| 0 <= k < more.len() implies (#[trigger] digit_of(more[k]))
                    is Some by {
                    if k < seen.len() {
                        assert(more[k] == seen[k]);
                    }
                }
            },
        }
        i = i + 1;
    }
    assert(s.take(to - from) =~= s);
    Some(value)
}

/// Reads `chars[from .. to]` as a natural number no larger than `limit`,
/// spelled the shortest way.
pub fn read_decimal(chars: &Vec<char>, from: usize, to: usize, limit: u64) -> (r: Option<u64>)
    requires
        from <= to <= chars@.len(),
    ensures
        match r {
            Some(n) => decimal_up_to(chars@.subrange(from as int, to as int), limit as nat)
                == Some(n as nat),
            None => decimal_up_to(chars@.subrange(from as int, to as int), limit as nat) is None,
        },
{
    let ghost s = chars@.subrange(from as int, to as int);
    if to - from > 1 && chars[from] == '0' {
        assert(s[0] == '0');
        return None;
    }
    read_digits(chars, from, to, limit)
}

/// Reads a whole text as a 64-bit integer the way it may be typed: with a
/// sign of either kind, or with zeros in front.
pub fn read_typed_int(text: &str) -> (r: Option<i64>)
    ensures
        r == typed_i64_of(text@),
{
    let chars = chars_of(text);
    let n: usize = chars.len();
    let ghost s = text@;
    if n > 0 && chars[0] == '-' {
        assert(chars@.subrange(1, n as int) =~= s.drop_first());
        match read_digits(&chars, 1, n, 9223372036854775808) {
            Some(m) => {
                if m == 9223372036854775808 {
                    Some(i64::MIN)
                } else {
                    Some(-(m as i64))
                }
            },
            None => None,
        }
    } else if n > 0 && chars[0] == '+' {
        assert(chars@.subrange(1, n as int) =~= s.drop_first());
        match read_digits(&chars, 1, n, 9223372036854775807) {
            Some(m) => Some(m as i64),
            None => None,
        }
    } else {
        assert(chars@.subrange(0, n as int) =~= s);
        match read_digits(&chars, 0, n, 9223372036854775807) {
            Some(m) => Some(m as i64),
            None => None,
        }
    }
}

/// Reads a whole text as a 64-bit integer.
pub fn read_int(text: &str) -> (r: Option<i64>)
    ensures
        r == i64_of(text@),
{
    let chars = chars_of(text);
    let n: usize = chars.len();
    let ghost s = text@;
    if n > 0 && chars[0] == '-' {
        assert(chars@.subrange(1, n as int) =~= s.drop_first());
        match read_decimal(&chars, 1, n, 9223372036854775808) {
            Some(m) => {
                if m == 0 {
                    None
                } else if m == 9223372036854775808 {
                    Some(i64::MIN)
                } else {
                    Some(-(m as i64))
                }
            },
            None => {
                None
            },
        }
    } else {
        assert(chars@.subrange(0, n as int) =~= s);
        match read_decimal(&chars, 0, n, 9223372036854775807) {
            Some(m) => Some(m as i64),
            None => None,
        }
    }
}

/// Index of the first `mark` in `chars[from ..]`, or the length of `chars`.
pub fn find_mark(chars: &Vec<char>, from: usize, mark: char) -> (at: usize)
    requires
        from <= chars@.len(),
    ensures
        from <= at <= chars@.len(),
        at - from == first_of(chars@.skip(from as int), mark),
{
    let mut at: usize = from;
    while at < chars.len() && chars[at] != mark
        invariant
            from <= at <= chars@.len(),
            forall|i: int| from <= i < at ==> chars@[i] != mark,
        decreases chars@.len() - at,
    {
        at = at + 1;
    }
    proof {
        let rest = chars@.skip(from as int);
        assert forall|i: int| 0 <= i < at - from implies rest[i] != mark by {
            assert(rest[i] == chars@[from + i]);
        }
        lemma_first_of(rest, mark, at - from);
    }
    at
}

/// Appends the dotted spelling of `host` to `out`.
pub fn push_host(out: &mut String, host: u32)
    ensures
        final(out)@ == old(out)@ + host_text(host),
{
    proof {
        reveal_strlit(".");
    }
    let h: u64 = host as u64;
    push_decimal(out, h / 16777216);
    out.append(".");
    push_decimal(out, h / 65536 % 256);
    out.append(".");
    push_decimal(out, h / 256 % 256);
    out.append(".");
    push_decimal(out, h % 256);
    assert(final(out)@ =~= old(out)@ + host_text(host));
}

/// The dotted spelling of `host`.
pub fn host_to_text(host: u32) -> (t: String)
    ensures
        t@ == host_text(host),
{
    let mut t: String = String::new();
    push_host(&mut t, host);
    assert(t@ =~= host_text(host));
    t
}

/// Where the dots of a four-part text stand, and what its parts are.
proof fn lemma_host_parts_at(s: Seq<char>, d0: int, d1: int, d2: int)
    requires
        0 <= d0 < d1 < d2 < s.len(),
        d0 == first_dot(s),
        d1 - (d0 + 1) == first_dot(s.skip(d0 + 1)),
        d2 - (d1 + 1) == first_dot(s.skip(d1 + 1)),
    ensures
        host_of(s) == match (
            decimal_up_to(s.subrange(0, d0), 255),
            decimal_up_to(s.subrange(d0 + 1, d1), 255),
            decimal_up_to(s.subrange(d1 + 1, d2), 255),
            decimal_up_to(s.subrange(d2 + 1, s.len() as int), 255),
        ) {
            (Some(a), Some(b), Some(c), Some(d)) => Some(pack_host(a, b, c, d)),
            _ => None,
        },
{
    let s1 = s.skip(d0 + 1);
    let s2 = s.skip(d1 + 1);
    let s3 = s.skip(d2 + 1);
    assert(after_dot(s) == Some(s1));
    assert(after_dot(s1) == Some(s2)) by {
        assert(s1.skip(first_dot(s1) + 1) =~= s2);
    }
    assert(after_dot(s2) == Some(s3)) by {
        assert(s2.skip(first_dot(s2) + 1) =~= s3);
    }
    assert(before_dot(s) =~= s.subrange(0, d0));
    assert(before_dot(s1) =~= s.subrange(d0 + 1, d1));
    assert(before_dot(s2) =~= s.subrange(d1 + 1, d2));
    assert(s3 =~= s.subrange(d2 + 1, s.len() as int));
}

/// Reads a dotted host.
pub fn read_host(text: &str) -> (r: Option<u32>)
    ensures
        r == host_of(text@),
{
    let chars = chars_of(text);
    let n: usize = chars.len();
    let ghost s = text@;
    let d0: usize = find_mark(&chars, 0, '.');
    assert(chars@.skip(0) =~= s);
    if d0 >= n {
        return None;
    }
    let d1: usize = find_mark(&chars, d0 + 1, '.');
    if d1 >= n {
        assert(after_dot(s.skip(d0 + 1)) is None);
        return None;
    }
    let d2: usize = find_mark(&chars, d1 + 1, '.');
    if d2 >= n {
        proof {
            let s1 = s.skip(d0 + 1);
            assert(s1.skip(first_dot(s1) + 1) =~= s.skip(d1 + 1));
        }
        return None;
    }
    proof {
        lemma_host_parts_at(s, d0 as int, d1 as int, d2 as int);
    }
    let a = read_decimal(&chars, 0, d0, 255);
    let b = read_decimal(&chars, d0 + 1, d1, 255);
    let c = read_decimal(&chars, d1 + 1, d2, 255);
    let d = read_decimal(&chars, d2 + 1, n, 255);
    match (a, b, c, d) {
        (Some(a), Some(b), Some(c), Some(d)) => {
            let packed: u64 = a * 16777216 + b * 65536 + c * 256 + d;
            Some(packed as u32)
        },
        _ => None,
    }
}

} // verus!
