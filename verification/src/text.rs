//! Decimal numbers and small helpers on character sequences, as file names use them.
use vstd::prelude::*;

verus! {

/// Whether `c` is one of the ten ASCII digits.
pub open spec fn is_digit(c: char) -> bool {
    '0' <= c && c <= '9'
}

/// The digit that stands for `d`, for `d` below ten.
pub open spec fn digit_char(d: nat) -> char {
    if d == 0 {
        '0'
    } else if d == 1 {
        '1'
    } else if d == 2 {
        '2'
    } else if d == 3 {
        '3'
    } else if d == 4 {
        '4'
    } else if d == 5 {
        '5'
    } else if d == 6 {
        '6'
    } else if d == 7 {
        '7'
    } else if d == 8 {
        '8'
    } else {
        '9'
    }
}

/// The number that the digit `c` stands for.
pub open spec fn digit_value(c: char) -> nat {
    (c as u32 - '0' as u32) as nat
}

/// The shortest decimal numeral of `n`.
pub open spec fn decimal(n: nat) -> Seq<char>
    decreases n,
{
    if n < 10 {
        seq![digit_char(n)]
    } else {
        decimal(n / 10).push(digit_char(n % 10))
    }
}

/// The number that a sequence of digits denotes, the empty sequence denoting zero.
pub open spec fn decimal_value(s: Seq<char>) -> nat
    decreases s.len(),
{
    if s.len() == 0 {
        0
    } else {
        decimal_value(s.drop_last()) * 10 + digit_value(s.last())
    }
}

pub open spec fn all_digits(s: Seq<char>) -> bool {
    forall|i: int| 0 <= i < s.len() ==> is_digit(#[trigger] s[i])
}

/// What is left of a numeral once an optional leading plus sign is taken off.
pub open spec fn unsigned_part(s: Seq<char>) -> Seq<char> {
    if s.len() > 0 && s[0] == '+' {
        s.skip(1)
    } else {
        s
    }
}

/// Reads a field as an unsigned 64-bit decimal number: an optional plus sign, then
/// at least one digit and digits only, the whole no larger than `u64::MAX`.
pub open spec fn parse_u64(s: Seq<char>) -> Option<u64> {
    let body = unsigned_part(s);
    if body.len() > 0 && all_digits(body) && decimal_value(body) <= u64::MAX {
        Some(decimal_value(body) as u64)
    } else {
        None
    }
}

pub proof fn lemma_digit_roundtrip(d: nat)
    requires
        d < 10,
    ensures
        is_digit(digit_char(d)),
        digit_value(digit_char(d)) == d,
{
}

/// A numeral written by `decimal` is made of digits, is not empty, and denotes
/// the number it was written for.
pub proof fn lemma_decimal_value(n: nat)
    ensures
        decimal(n).len() >= 1,
        all_digits(decimal(n)),
        decimal_value(decimal(n)) == n,
    decreases n,
{
    if n < 10 {
        lemma_digit_roundtrip(n);
        let s = decimal(n);
        assert(s.drop_last() =~= Seq::<char>::empty());
        assert(decimal_value(s.drop_last()) == 0);
    } else {
        lemma_decimal_value(n / 10);
        lemma_digit_roundtrip(n % 10);
        let p = decimal(n / 10);
        let s = decimal(n);
        assert(s.drop_last() =~= p);
        assert(s.last() == digit_char(n % 10));
        assert forall|i: int| 0 <= i < s.len() implies is_digit(#[trigger] s[i]) by {
            if i < p.len() {
                assert(s[i] == p[i]);
            }
        }
    }
}

/// Reading back what `decimal` wrote gives the number again.
pub proof fn lemma_parse_decimal(n: u64)
    ensures
        parse_u64(decimal(n as nat)) == Some(n),
{
    lemma_decimal_value(n as nat);
    let s = decimal(n as nat);
    assert(is_digit(s[0]));
}

/// Each further digit can only make the number larger.
pub proof fn lemma_decimal_value_prefix(s: Seq<char>, k: int)
    requires
        0 <= k <= s.len(),
    ensures
        decimal_value(s.take(k)) <= decimal_value(s),
    decreases s.len() - k,
{
    if k == s.len() {
        assert(s.take(k) =~= s);
    } else {
        lemma_decimal_value_prefix(s.drop_last(), k);
        assert(s.drop_last().take(k) =~= s.take(k));
    }
}

fn digit_of(c: char) -> (r: Option<u8>)
    ensures
        is_digit(c) ==> r == Some(digit_value(c) as u8),
        !is_digit(c) ==> r is None,
{
    if c >= '0' && c <= '9' {
        let v: u32 = c as u32 - '0' as u32;
        Some(v as u8)
    } else {
        None
    }
}

/// The characters of `s`, one by one.
pub fn to_chars(s: &str) -> (v: Vec<char>)
    ensures
        v@ == s@,
{
    let mut v: Vec<char> = Vec::new();
    for c in it: s.chars()
        invariant
            it.seq() == s@,
            v@ == it.seq().take(it.index() as int),
    {
        v.push(c);
    }
    v
}

/// Reads the characters of `s` from `start` up to `end` as a number, as `parse_u64` says.
pub fn parse_u64_chars(s: &Vec<char>, start: usize, end: usize) -> (r: Option<u64>)
    requires
        start <= end <= s.len(),
    ensures
        r == parse_u64(s@.subrange(start as int, end as int)),
{
    let ghost field = s@.subrange(start as int, end as int);
    let mut i: usize = start;
    if i < end && s[i] == '+' {
        i += 1;
    }
    let ghost body = unsigned_part(field);
    assert(body =~= s@.subrange(i as int, end as int));
    if i == end {
        return None;
    }
    let first: usize = i;
    let mut acc: u64 = 0;
    while i < end
        invariant
            start <= first <= i <= end <= s.len(),
            first < end,
            body == s@.subrange(first as int, end as int),
            body == unsigned_part(s@.subrange(start as int, end as int)),
            all_digits(body.take(i - first)),
            acc == decimal_value(body.take(i - first)),
        decreases end - i,
    {
        let ghost before = body.take(i - first);
        let ghost after = body.take(i - first + 1);
        assert(after.drop_last() =~= before);
        assert(after.last() == s@[i as int]);
        match digit_of(s[i]) {
            None => {
                assert(!is_digit(body[i - first]));
                return None;
            },
            Some(d) => {
                if acc > (u64::MAX - d as u64) / 10 {
                    proof {
                        lemma_decimal_value_prefix(body, i - first + 1);
                        assert(decimal_value(after) == acc * 10 + d);
                    }
                    return None;
                }
                acc = acc * 10 + d as u64;
                assert forall|j: int| 0 <= j < after.len() implies is_digit(#[trigger] after[j]) by {
                    if j < before.len() {
                        assert(after[j] == before[j]);
                    }
                }
            },
        }
        i += 1;
    }
    assert(body.take(i - first) =~= body);
    Some(acc)
}

fn digit_str(d: u64) -> (r: &'static str)
    requires
        d < 10,
    ensures
        r@ == seq![digit_char(d as nat)],
{
    proof {
        reveal_strlit("0");
        reveal_strlit("1");
        reveal_strlit("2");
        reveal_strlit("3");
        reveal_strlit("4");
        reveal_strlit("5");
        reveal_strlit("6");
        reveal_strlit("7");
        reveal_strlit("8");
        reveal_strlit("9");
    }
    let r = if d == 0 {
        "0"
    } else if d == 1 {
        "1"
    } else if d == 2 {
        "2"
    } else if d == 3 {
        "3"
    } else if d == 4 {
        "4"
    } else if d == 5 {
        "5"
    } else if d == 6 {
        "6"
    } else if d == 7 {
        "7"
    } else if d == 8 {
        "8"
    } else {
        "9"
    };
    assert(r@ =~= seq![digit_char(d as nat)]);
    r
}

/// Appends the decimal numeral of `n` to `out`.
pub fn push_decimal(out: &mut String, n: u64)
    ensures
        final(out)@ == old(out)@ + decimal(n as nat),
    decreases n,
{
    if n >= 10 {
        push_decimal(out, n / 10);
    }
    out.append(digit_str(n % 10));
    assert(final(out)@ =~= old(out)@ + decimal(n as nat));
}


/// The place of the first `c` in `s` at or after `from`, or the length of `s`
/// where there is none.
pub open spec fn find_from(s: Seq<char>, c: char, from: int) -> int
    decreases s.len() - from,
{
    if from >= s.len() {
        s.len() as int
    } else if s[from] == c {
        from
    } else {
        find_from(s, c, from + 1)
    }
}

/// `find_from` stops at the first `c` and nowhere before it.
pub proof fn lemma_find_from(s: Seq<char>, c: char, from: int)
    requires
        0 <= from <= s.len(),
    ensures
        from <= find_from(s, c, from) <= s.len(),
        forall|i: int| from <= i < find_from(s, c, from) ==> s[i] != c,
        find_from(s, c, from) < s.len() ==> s[find_from(s, c, from)] == c,
    decreases s.len() - from,
{
    if from < s.len() && s[from] != c {
        lemma_find_from(s, c, from + 1);
    }
}

/// Where no `c` stands from `from` up to `k`, and `k` is the end or holds a `c`,
/// `find_from` gives `k`.
pub proof fn lemma_find_from_is(s: Seq<char>, c: char, from: int, k: int)
    requires
        0 <= from <= k <= s.len(),
        forall|i: int| from <= i < k ==> s[i] != c,
        k < s.len() ==> s[k] == c,
    ensures
        find_from(s, c, from) == k,
    decreases k - from,
{
    if from < k {
        lemma_find_from_is(s, c, from + 1, k);
    }
}

/// The numbers among the fields that underscores part in `s` from `from` on:
/// each field that reads as a number, in order; the others are passed over.
pub open spec fn numeric_fields(s: Seq<char>, from: int) -> Seq<u64>
    decreases s.len() - from,
{
    if from > s.len() || from < 0 {
        Seq::empty()
    } else {
        let end = find_from(s, '_', from);
        let head = match parse_u64(s.subrange(from, end)) {
            Some(n) => seq![n],
            None => Seq::empty(),
        };
        if end >= s.len() {
            head
        } else {
            proof {
                lemma_find_from(s, '_', from);
            }
            head + numeric_fields(s, end + 1)
        }
    }
}

/// The numeric fields of `s` that follow its first field.
pub open spec fn numbers_after_prefix(s: Seq<char>) -> Seq<u64> {
    let u = find_from(s, '_', 0);
    if u >= s.len() {
        Seq::empty()
    } else {
        numeric_fields(s, u + 1)
    }
}

/// A file name up to its first dot.
pub open spec fn file_stem(name: Seq<char>) -> Seq<char> {
    name.take(find_from(name, '.', 0))
}

/// The place of the first `c` among the first `end` characters of `s`, from `from` on.
pub fn find_char(s: &Vec<char>, c: char, from: usize, end: usize) -> (r: usize)
    requires
        from <= end <= s.len(),
    ensures
        r == find_from(s@.take(end as int), c, from as int),
        from <= r <= end,
{
    let ghost t = s@.take(end as int);
    let mut i: usize = from;
    while i < end && s[i] != c
        invariant
            from <= i <= end <= s.len(),
            t == s@.take(end as int),
            find_from(t, c, from as int) == find_from(t, c, i as int),
        decreases end - i,
    {
        i += 1;
    }
    i
}

/// The numeric fields among the first `end` characters of `s`, from `from` on.
pub fn numeric_fields_of(s: &Vec<char>, from: usize, end: usize) -> (v: Vec<u64>)
    requires
        from <= end <= s.len(),
    ensures
        v@ == numeric_fields(s@.take(end as int), from as int),
{
    let ghost t = s@.take(end as int);
    let mut v: Vec<u64> = Vec::new();
    let mut pos: usize = from;
    loop
        invariant_except_break
            numeric_fields(t, from as int) == v@ + numeric_fields(t, pos as int),
        invariant
            from <= pos <= end <= s.len(),
            t == s@.take(end as int),
        ensures
            v@ == numeric_fields(t, from as int),
        decreases end - pos,
    {
        let e: usize = find_char(s, '_', pos, end);
        assert(t.subrange(pos as int, e as int) =~= s@.subrange(pos as int, e as int));
        let ghost before = v@;
        match parse_u64_chars(s, pos, e) {
            Some(n) => {
                v.push(n);
                assert(v@ =~= before + seq![n]);
            },
            None => {},
        }
        if e >= end {
            assert(v@ =~= before + numeric_fields(t, pos as int));
            break;
        }
        assert(numeric_fields(t, pos as int) =~= (v@ + numeric_fields(t, e + 1)).skip(before.len() as int));
        assert(before + (v@.skip(before.len() as int) + numeric_fields(t, e + 1)) =~= v@ + numeric_fields(t, e + 1));
        pos = e + 1;
    }
    v
}

/// The numeric fields that follow the first field, among the first `end` characters of `s`.
pub fn numbers_after_prefix_of(s: &Vec<char>, end: usize) -> (v: Vec<u64>)
    requires
        end <= s.len(),
    ensures
        v@ == numbers_after_prefix(s@.take(end as int)),
{
    let u: usize = find_char(s, '_', 0, end);
    if u >= end {
        Vec::new()
    } else {
        numeric_fields_of(s, u + 1, end)
    }
}


/// Neither a digit is an underscore, a dot or a plus sign, nor does a numeral hold one.
pub proof fn lemma_decimal_chars(n: nat)
    ensures
        forall|i: int|
            0 <= i < decimal(n).len() ==> {
                let c = #[trigger] decimal(n)[i];
                c != '_' && c != '.' && c != '+'
            },
{
    lemma_decimal_value(n);
    assert forall|i: int| 0 <= i < decimal(n).len() implies {
        let c = #[trigger] decimal(n)[i];
        c != '_' && c != '.' && c != '+'
    } by {
        assert(is_digit(decimal(n)[i]));
    }
}

/// One field that reads as a number, and ends at an underscore or at the end,
/// gives the first of the numeric fields.
pub proof fn lemma_numeric_field(s: Seq<char>, from: int, end: int, n: u64)
    requires
        0 <= from <= end <= s.len(),
        forall|i: int| from <= i < end ==> s[i] != '_',
        end < s.len() ==> s[end] == '_',
        parse_u64(s.subrange(from, end)) == Some(n),
    ensures
        numeric_fields(s, from).len() >= 1,
        numeric_fields(s, from)[0] == n,
        end < s.len() ==> numeric_fields(s, from) == seq![n] + numeric_fields(s, end + 1),
{
    lemma_find_from_is(s, '_', from, end);
}


/// How many digits the numerals below ten thousand have.
pub proof fn lemma_decimal_len(n: nat)
    ensures
        n < 10 ==> decimal(n).len() == 1,
        10 <= n < 100 ==> decimal(n).len() == 2,
        100 <= n < 1000 ==> decimal(n).len() == 3,
        1000 <= n ==> decimal(n).len() >= 4,
    decreases n,
{
    if n >= 10 {
        lemma_decimal_len(n / 10);
    }
}


/// Whether two strings hold the same characters.
pub fn str_eq(a: &str, b: &str) -> (r: bool)
    ensures
        r == (a@ == b@),
{
    let x = a.as_bytes();
    let y = b.as_bytes();
    proof {
        vstd::utf8::encode_utf8_decode_utf8(a@);
        vstd::utf8::encode_utf8_decode_utf8(b@);
    }
    if x.len() != y.len() {
        return false;
    }
    let n: usize = x.len();
    let mut i: usize = 0;
    while i < n
        invariant
            n == x@.len(),
            n == y@.len(),
            i <= n,
            forall|j: int| 0 <= j < i ==> x@[j] == y@[j],
            a@ == b@ ==> x@ == y@,
        decreases n - i,
    {
        if x[i] != y[i] {
            return false;
        }
        i += 1;
    }
    assert(x@ =~= y@);
    true
}

/// Whether the characters of `s` begin with those of `prefix`.
pub fn starts_with(s: &Vec<char>, prefix: &str) -> (r: bool)
    ensures
        r == prefix@.is_prefix_of(s@),
{
    let p = to_chars(prefix);
    if p.len() > s.len() {
        return false;
    }
    let n: usize = p.len();
    let mut i: usize = 0;
    while i < n
        invariant
            n == p@.len(),
            n <= s@.len(),
            p@ == prefix@,
            i <= n,
            forall|j: int| 0 <= j < i ==> s@[j] == p@[j],
        decreases n - i,
    {
        if s[i] != p[i] {
            assert(s@.subrange(0, n as int)[i as int] != p@[i as int]);
            return false;
        }
        i += 1;
    }
    assert(s@.subrange(0, n as int) =~= p@);
    true
}

/// Whether the characters of `s` end with those of `suffix`.
pub fn ends_with(s: &Vec<char>, suffix: &str) -> (r: bool)
    ensures
        r == suffix@.is_suffix_of(s@),
{
    let p = to_chars(suffix);
    if p.len() > s.len() {
        return false;
    }
    let n: usize = p.len();
    let off: usize = s.len() - n;
    let mut i: usize = 0;
    while i < n
        invariant
            n == p@.len(),
            n <= s@.len(),
            s@.len() == s.len(),
            off == s@.len() - n,
            p@ == suffix@,
            i <= n,
            forall|j: int| 0 <= j < i ==> s@[off + j] == p@[j],
        decreases n - i,
    {
        if s[off + i] != p[i] {
            assert(s@.subrange(off as int, s@.len() as int)[i as int] != p@[i as int]);
            return false;
        }
        i += 1;
    }
    assert(s@.subrange(off as int, s@.len() as int) =~= p@);
    true
}

} // verus!
