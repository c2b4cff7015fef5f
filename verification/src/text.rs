//! Text building and text inspection, with every result stated over sequences
//! of characters.
use vstd::prelude::*;
use vstd::string::*;

verus! {

/// The decimal digit `d` as a character.
pub open spec fn digit(d: nat) -> char {
    (48 + d) as char
}

/// Decimal notation of `n`, without leading zeros.
pub open spec fn dec(n: nat) -> Seq<char>
    decreases n,
{
    if n < 10 {
        seq![digit(n)]
    } else {
        dec(n / 10).push(digit(n % 10))
    }
}

/// `n` in decimal notation, padded with zeros on the left to `width` digits.
pub open spec fn dec_padded(n: nat, width: nat) -> Seq<char> {
    if dec(n).len() >= width {
        dec(n)
    } else {
        Seq::new((width - dec(n).len()) as nat, |i: int| '0') + dec(n)
    }
}

/// `parts` one after the other with `sep` between neighbours.
pub open spec fn joined(parts: Seq<Seq<char>>, sep: Seq<char>) -> Seq<char>
    decreases parts.len(),
{
    if parts.len() == 0 {
        seq![]
    } else if parts.len() == 1 {
        parts[0]
    } else {
        joined(parts.drop_last(), sep) + sep + parts.last()
    }
}

/// The numbers of `items` in decimal notation, separated by a comma and a
/// space, between `open` and `close`.
pub open spec fn list_text(open: Seq<char>, items: Seq<u32>, close: Seq<char>) -> Seq<char> {
    open + joined(items.map_values(|n: u32| dec(n as nat)), ", "@) + close
}

/// `needle` occurs somewhere in `hay`.
pub open spec fn occurs(hay: Seq<char>, needle: Seq<char>) -> bool {
    exists|i: int| #[trigger] occurs_at(hay, needle, i)
}

/// `needle` occurs in `hay` at position `i`.
pub open spec fn occurs_at(hay: Seq<char>, needle: Seq<char>, i: int) -> bool {
    0 <= i && i + needle.len() <= hay.len() && hay.subrange(i, i + needle.len()) == needle
}

/// The characters of `s`.
pub fn chars_of(s: &str) -> (r: Vec<char>)
    ensures
        r@ == s@,
{
    let mut r: Vec<char> = Vec::new();
    for c in it: s.chars()
        invariant
            it.seq() == s@,
            r@ == s@.take(it.index() as int),
    {
        proof {
            assert(s@.take(it.index() as int + 1) =~= s@.take(it.index() as int).push(
                s@[it.index() as int],
            ));
        }
        r.push(c);
    }
    proof {
        assert(s@.take(s@.len() as int) =~= s@);
    }
    r
}

/// Whether two texts are the same.
pub fn same(a: &str, b: &str) -> (r: bool)
    ensures
        r == (a@ == b@),
{
    a.to_owned() == b.to_owned()
}

fn digit_text(d: u64) -> (r: &'static str)
    requires
        d < 10,
    ensures
        r@ == seq![digit(d as nat)],
{
    proof {
        reveal_strlit("0");
        reveal_strlit("1");
        reveal_strlit("2");
        reveal_strlit("3");
        reveal_strlit("4");
        reveal_strlit("5");
        reveal_strlit("6");
        reveal_strlit("7");
        reveal_strlit("8");
        reveal_strlit("9");
    }
    let r: &'static str = match d {
        0 => "0",
        1 => "1",
        2 => "2",
        3 => "3",
        4 => "4",
        5 => "5",
        6 => "6",
        7 => "7",
        8 => "8",
        _ => "9",
    };
    assert(r@ =~= seq![digit(d as nat)]);
    r
}

/// Appends `n` in decimal notation.
pub fn push_dec(s: &mut String, n: u64)
    ensures
        final(s)@ == old(s)@ + dec(n as nat),
    decreases n,
{
    if n >= 10 {
        push_dec(s, n / 10);
    }
    let ghost mid = s@;
    s.append(digit_text(n % 10));
    proof {
        assert(mid + seq![digit((n % 10) as nat)] =~= old(s)@ + dec(n as nat));
    }
}

/// A hexadecimal digit.
pub open spec fn hex_digit(d: nat) -> char {
    if d < 10 {
        (('0' as nat) + d) as char
    } else {
        (('a' as nat) + d - 10) as char
    }
}

/// The last `width` hexadecimal digits of `n`.
pub open spec fn hex_padded(n: nat, width: nat) -> Seq<char>
    decreases width,
{
    if width == 0 {
        Seq::empty()
    } else {
        hex_padded(n / 16, (width - 1) as nat).push(hex_digit(n % 16))
    }
}

fn hex_digit_text(d: u128) -> (r: &'static str)
    requires
        d < 16,
    ensures
        r@ == seq![hex_digit(d as nat)],
{
    proof {
        reveal_strlit("a");
        reveal_strlit("b");
        reveal_strlit("c");
        reveal_strlit("d");
        reveal_strlit("e");
        reveal_strlit("f");
    }
    if d < 10 {
        proof {
            assert(digit(d as nat) == hex_digit(d as nat));
        }
        return digit_text(d as u64);
    }
    let r = match d {
        10 => "a",
        11 => "b",
        12 => "c",
        13 => "d",
        14 => "e",
        _ => "f",
    };
    assert(r@ =~= seq![hex_digit(d as nat)]);
    r
}

fn push_hex(s: &mut String, n: u128, width: u32)
    ensures
        final(s)@ == old(s)@ + hex_padded(n as nat, width as nat),
    decreases width,
{
    if width > 0 {
        push_hex(s, n / 16, width - 1);
        let ghost mid = s@;
        s.append(hex_digit_text(n % 16));
        assert(mid + seq![hex_digit((n % 16) as nat)] =~= old(s)@ + hex_padded(
            n as nat,
            width as nat,
        ));
    } else {
        assert(s@ =~= old(s)@ + hex_padded(n as nat, 0));
    }
}

/// Appends the thirty-two hexadecimal digits of `n`.
pub fn push_hex32(s: &mut String, n: u128)
    ensures
        final(s)@ == old(s)@ + hex_padded(n as nat, 32),
{
    push_hex(s, n, 32);
}

/// Appends `n` in decimal notation, padded with zeros to four digits.
pub fn push_dec4(s: &mut String, n: u64)
    ensures
        final(s)@ == old(s)@ + dec_padded(n as nat, 4),
{
    proof {
        reveal_strlit("0");
        reveal_strlit("00");
        reveal_strlit("000");
        reveal_with_fuel(dec, 5);
        lemma_dec_len(n as nat);
        if n >= 1000 {
            assert(dec(n as nat).len() >= 4) by {
                lemma_dec_len(n as nat / 10);
                lemma_dec_len(n as nat / 100);
                lemma_dec_len(n as nat / 1000);
            }
        }
    }
    if n < 10 {
        s.append("000");
        assert(s@ =~= old(s)@ + Seq::new(3, |i: int| '0'));
    } else if n < 100 {
        s.append("00");
        assert(s@ =~= old(s)@ + Seq::new(2, |i: int| '0'));
    } else if n < 1000 {
        s.append("0");
        assert(s@ =~= old(s)@ + Seq::new(1, |i: int| '0'));
    }
    let ghost mid = s@;
    push_dec(s, n);
    assert(mid + dec(n as nat) =~= old(s)@ + dec_padded(n as nat, 4));
}

/// Appends the numbers of `items`, separated by a comma and a space, between
/// `open` and `close`.
pub fn push_list(s: &mut String, open: &str, items: &Vec<u32>, close: &str)
    ensures
        final(s)@ == old(s)@ + list_text(open@, items@, close@),
{
    let ghost texts = items@.map_values(|n: u32| dec(n as nat));
    let ghost start = s@ + open@;
    s.append(open);
    let mut i: usize = 0;
    while i < items.len()
        invariant
            i <= items.len(),
            texts == items@.map_values(|n: u32| dec(n as nat)),
            s@ == start + joined(texts.take(i as int), ", "@),
        decreases items.len() - i,
    {
        let ghost before = s@;
        if i > 0 {
            s.append(", ");
        }
        push_dec(s, items[i] as u64);
        i = i + 1;
        proof {
            let t = texts.take(i as int);
            assert(t.drop_last() =~= texts.take(i - 1));
            assert(t.last() == dec(items@[i - 1] as nat));
            if i == 1 {
                assert(s@ =~= start + joined(t, ", "@));
            } else {
                assert(s@ =~= start + (joined(t.drop_last(), ", "@) + ", "@ + t.last()));
            }
        }
    }
    assert(texts.take(i as int) =~= texts);
    s.append(close);
    assert(s@ =~= old(s)@ + list_text(open@, items@, close@));
}

/// Decimal notation is never empty.
pub proof fn lemma_dec_len(n: nat)
    ensures
        dec(n).len() >= 1,
{
}

/// Whether `s` starts with `prefix`.
pub fn starts_with(s: &str, prefix: &str) -> (r: bool)
    ensures
        r == prefix@.is_prefix_of(s@),
{
    let c: Vec<char> = chars_of(s);
    let p: Vec<char> = chars_of(prefix);
    if p.len() > c.len() {
        return false;
    }
    let mut i: usize = 0;
    while i < p.len()
        invariant
            i <= p.len() <= c.len(),
            c@ == s@,
            p@ == prefix@,
            forall|j: int| 0 <= j < i ==> c@[j] == p@[j],
        decreases p.len() - i,
    {
        if c[i] != p[i] {
            assert(s@.subrange(0, prefix@.len() as int)[i as int] != prefix@[i as int]);
            return false;
        }
        i = i + 1;
    }
    assert(s@.subrange(0, prefix@.len() as int) =~= prefix@);
    true
}

/// Whether `needle` occurs in `hay`.
pub fn contains(hay: &str, needle: &str) -> (r: bool)
    ensures
        r == occurs(hay@, needle@),
{
    chars_contain(&chars_of(hay), needle)
}

/// `c` is white space.
pub open spec fn is_blank(c: char) -> bool {
    let n = c as int;
    ||| 9 <= n <= 13
    ||| n == 32
    ||| n == 0x85
    ||| n == 0xa0
    ||| n == 0x1680
    ||| 0x2000 <= n <= 0x200a
    ||| n == 0x2028
    ||| n == 0x2029
    ||| n == 0x202f
    ||| n == 0x205f
    ||| n == 0x3000
}

/// `s` without the white space in front.
pub open spec fn trimmed_start(s: Seq<char>) -> Seq<char>
    decreases s.len(),
{
    if s.len() > 0 && is_blank(s[0]) {
        trimmed_start(s.skip(1))
    } else {
        s
    }
}

/// `s` without the white space behind.
pub open spec fn trimmed_end(s: Seq<char>) -> Seq<char>
    decreases s.len(),
{
    if s.len() > 0 && is_blank(s.last()) {
        trimmed_end(s.drop_last())
    } else {
        s
    }
}

/// `s` without the white space around it.
pub open spec fn trimmed(s: Seq<char>) -> Seq<char> {
    trimmed_end(trimmed_start(s))
}

/// The pieces of `s` between occurrences of `sep`; one more piece than there
/// are occurrences.
pub open spec fn pieces(s: Seq<char>, sep: char) -> Seq<Seq<char>>
    decreases s.len(),
{
    if s.len() == 0 {
        seq![seq![]]
    } else {
        let p = pieces(s.drop_last(), sep);
        if s.last() == sep {
            p.push(seq![])
        } else {
            p.drop_last().push(p.last().push(s.last()))
        }
    }
}

/// `sep` is at `i` in `s` and not before.
pub open spec fn first_at(s: Seq<char>, sep: char, i: int) -> bool {
    &&& 0 <= i < s.len()
    &&& s[i] == sep
    &&& forall|j: int| 0 <= j < i ==> s[j] != sep
}

/// `s` cut at the first `sep`.
pub open spec fn cut(s: Seq<char>, sep: char) -> Option<(Seq<char>, Seq<char>)> {
    if s.contains(sep) {
        let i = choose|i: int| first_at(s, sep, i);
        Some((s.take(i), s.skip(i + 1)))
    } else {
        None
    }
}

/// `c` is a decimal digit.
pub open spec fn is_digit(c: char) -> bool {
    48 <= c as int <= 57
}

/// All of `s` are decimal digits.
pub open spec fn all_digits(s: Seq<char>) -> bool {
    forall|i: int| 0 <= i < s.len() ==> is_digit(#[trigger] s[i])
}

/// The number that a string of digits denotes.
pub open spec fn value_of(s: Seq<char>) -> nat
    decreases s.len(),
{
    if s.len() == 0 {
        0
    } else {
        value_of(s.drop_last()) * 10 + (s.last() as int - 48) as nat
    }
}

/// The unsigned number written in `s`, with or without a plus sign, if it is
/// one and no greater than `max`.
pub open spec fn number(s: Seq<char>, max: nat) -> Option<nat> {
    let d = if s.len() > 0 && s[0] == '+' {
        s.skip(1)
    } else {
        s
    };
    if d.len() > 0 && all_digits(d) && value_of(d) <= max {
        Some(value_of(d))
    } else {
        None
    }
}

/// The ASCII letter `c` in lower case; any other character as it is.
pub open spec fn lower(c: char) -> char {
    if 65 <= c as int <= 90 {
        (c as int + 32) as char
    } else {
        c
    }
}

/// `s` with its ASCII letters in lower case.
pub open spec fn lowered(s: Seq<char>) -> Seq<char> {
    s.map_values(|c: char| lower(c))
}

/// `a` is before `b`, character by character.
pub open spec fn less(a: Seq<char>, b: Seq<char>) -> bool
    decreases b.len(),
{
    if b.len() == 0 {
        false
    } else if a.len() == 0 {
        true
    } else if a[0] != b[0] {
        (a[0] as int) < (b[0] as int)
    } else {
        less(a.skip(1), b.skip(1))
    }
}

/// The order is irreflexive.
pub proof fn lemma_less_irreflexive(a: Seq<char>)
    ensures
        !less(a, a),
    decreases a.len(),
{
    if a.len() > 0 {
        lemma_less_irreflexive(a.skip(1));
    }
}

/// The order is transitive.
pub proof fn lemma_less_transitive(a: Seq<char>, b: Seq<char>, c: Seq<char>)
    requires
        less(a, b),
        less(b, c),
    ensures
        less(a, c),
    decreases c.len(),
{
    if a.len() > 0 && a[0] == b[0] && b[0] == c[0] {
        lemma_less_transitive(a.skip(1), b.skip(1), c.skip(1));
    }
}

/// Of two different texts one is before the other.
pub proof fn lemma_less_total(a: Seq<char>, b: Seq<char>)
    ensures
        a == b || less(a, b) || less(b, a),
    decreases a.len(),
{
    if a.len() == 0 {
        if b.len() == 0 {
            assert(a =~= b);
        }
    } else if b.len() > 0 && a[0] == b[0] {
        lemma_less_total(a.skip(1), b.skip(1));
        if a.skip(1) == b.skip(1) {
            assert(a =~= seq![a[0]] + a.skip(1));
            assert(b =~= seq![b[0]] + b.skip(1));
        }
    }
}

fn code_of(c: char) -> (r: u32)
    ensures
        r as int == c as int,
{
    c as u32
}

fn blank(c: char) -> (r: bool)
    ensures
        r == is_blank(c),
{
    let n: u32 = c as u32;
    (9 <= n && n <= 13) || n == 32 || n == 0x85 || n == 0xa0 || n == 0x1680 || (0x2000 <= n && n
        <= 0x200a) || n == 0x2028 || n == 0x2029 || n == 0x202f || n == 0x205f || n == 0x3000
}

proof fn lemma_trim_start(s: Seq<char>, i: int)
    requires
        0 <= i <= s.len(),
        forall|j: int| 0 <= j < i ==> is_blank(#[trigger] s[j]),
        i < s.len() ==> !is_blank(s[i]),
    ensures
        trimmed_start(s) == s.skip(i),
    decreases s.len(),
{
    if i > 0 {
        assert(is_blank(s[0]));
        let t = s.skip(1);
        assert forall|j: int| 0 <= j < i - 1 implies is_blank(#[trigger] t[j]) by {
            assert(is_blank(s[j + 1]));
        }
        lemma_trim_start(t, i - 1);
        assert(t.skip(i - 1) =~= s.skip(i));
    } else {
        assert(s.skip(0) =~= s);
    }
}

proof fn lemma_trim_end(s: Seq<char>, i: int)
    requires
        0 <= i <= s.len(),
        forall|j: int| i <= j < s.len() ==> is_blank(#[trigger] s[j]),
        i > 0 ==> !is_blank(s[i - 1]),
    ensures
        trimmed_end(s) == s.take(i),
    decreases s.len(),
{
    if i < s.len() {
        assert(is_blank(s[s.len() - 1]));
        let t = s.drop_last();
        assert forall|j: int| i <= j < t.len() implies is_blank(#[trigger] t[j]) by {
            assert(is_blank(s[j]));
        }
        lemma_trim_end(t, i);
        assert(t.take(i) =~= s.take(i));
    } else {
        assert(s.take(i) =~= s);
    }
}

/// A trimmed text has nothing left to trim.
pub proof fn lemma_trimmed_ends(s: Seq<char>)
    ensures
        trimmed(trimmed(s)) == trimmed(s),
{
    lemma_start_not_blank(s);
    let a = trimmed_start(s);
    lemma_end_not_blank(a);
    let b = trimmed_end(a);
    if b.len() > 0 {
        assert(b[0] == a[0]);
    }
}

proof fn lemma_start_not_blank(s: Seq<char>)
    ensures
        trimmed_start(s).len() > 0 ==> !is_blank(trimmed_start(s)[0]),
    decreases s.len(),
{
    if s.len() > 0 && is_blank(s[0]) {
        lemma_start_not_blank(s.skip(1));
    }
}

proof fn lemma_end_not_blank(s: Seq<char>)
    ensures
        trimmed_end(s).len() > 0 ==> !is_blank(trimmed_end(s).last()) && trimmed_end(s)[0] == s[0],
    decreases s.len(),
{
    if s.len() > 0 && is_blank(s.last()) {
        lemma_end_not_blank(s.drop_last());
    }
}

/// `s` without the white space around it.
pub fn trim(s: &str) -> (r: String)
    ensures
        r@ == trimmed(s@),
{
    let c: Vec<char> = chars_of(s);
    let mut i: usize = 0;
    while i < c.len() && blank(c[i])
        invariant
            i <= c.len(),
            c@ == s@,
            forall|j: int| 0 <= j < i ==> is_blank(#[trigger] s@[j]),
        decreases c.len() - i,
    {
        i = i + 1;
    }
    proof {
        lemma_trim_start(s@, i as int);
    }
    let mut k: usize = c.len();
    while k > i && blank(c[k - 1])
        invariant
            i <= k <= c.len(),
            c@ == s@,
            forall|j: int| k <= j < c.len() ==> is_blank(#[trigger] s@[j]),
        decreases k,
    {
        k = k - 1;
    }
    proof {
        let t = s@.skip(i as int);
        assert forall|j: int| k - i <= j < t.len() implies is_blank(#[trigger] t[j]) by {
            assert(is_blank(s@[j + i]));
        }
        if k > i {
            assert(t[k - i - 1] == s@[k - 1]);
        }
        lemma_trim_end(t, k - i);
        assert(t.take(k - i) =~= s@.subrange(i as int, k as int));
    }
    s.substring_char(i, k).to_owned()
}

/// The pieces of `s` between occurrences of `sep`.
pub fn split(s: &str, sep: char) -> (r: Vec<String>)
    ensures
        r@.len() == pieces(s@, sep).len(),
        forall|i: int| 0 <= i < r@.len() ==> (#[trigger] r@[i])@ == pieces(s@, sep)[i],
{
    let c: Vec<char> = chars_of(s);
    let mut r: Vec<String> = Vec::new();
    let mut from: usize = 0;
    let mut i: usize = 0;
    assert(s@.take(0) =~= seq![]);
    while i < c.len()
        invariant
            from <= i <= c.len(),
            c@ == s@,
            pieces(s@.take(i as int), sep).len() == r@.len() + 1,
            pieces(s@.take(i as int), sep).last() == s@.subrange(from as int, i as int),
            forall|j: int|
                0 <= j < r@.len() ==> (#[trigger] r@[j])@ == pieces(s@.take(i as int), sep)[j],
        decreases c.len() - i,
    {
        proof {
            let longer = s@.take(i + 1);
            assert(longer.drop_last() =~= s@.take(i as int));
            assert(longer.last() == s@[i as int]);
            assert(s@.subrange(from as int, i as int).push(s@[i as int]) =~= s@.subrange(
                from as int,
                i + 1,
            ));
            assert(s@.subrange(i + 1, i + 1) =~= seq![]);
        }
        if c[i] == sep {
            r.push(s.substring_char(from, i).to_owned());
            from = i + 1;
        }
        i = i + 1;
    }
    assert(s@.take(i as int) =~= s@);
    r.push(s.substring_char(from, i).to_owned());
    r
}

/// `s` cut at the first `sep`.
pub fn split_once(s: &str, sep: char) -> (r: Option<(String, String)>)
    ensures
        match r {
            Some((a, b)) => cut(s@, sep) == Some((a@, b@)),
            None => cut(s@, sep) is None,
        },
{
    let c: Vec<char> = chars_of(s);
    let mut i: usize = 0;
    while i < c.len()
        invariant
            i <= c.len(),
            c@ == s@,
            forall|j: int| 0 <= j < i ==> s@[j] != sep,
        decreases c.len() - i,
    {
        if c[i] == sep {
            proof {
                assert(s@.contains(sep));
                assert(first_at(s@, sep, i as int));
                let k = choose|k: int| first_at(s@, sep, k);
                assert(first_at(s@, sep, k));
                if k < i {
                    assert(s@[k] != sep);
                }
                if i < k {
                    assert(s@[i as int] != sep);
                }
                assert(s@.subrange(0, i as int) =~= s@.take(i as int));
                assert(s@.subrange(i + 1, c.len() as int) =~= s@.skip(i + 1));
            }
            return Some(
                (s.substring_char(0, i).to_owned(), s.substring_char(i + 1, c.len()).to_owned()),
            );
        }
        i = i + 1;
    }
    assert(!s@.contains(sep));
    None
}

proof fn lemma_value_prefix(s: Seq<char>, i: int)
    requires
        0 <= i <= s.len(),
    ensures
        value_of(s.take(i)) <= value_of(s),
    decreases s.len(),
{
    if i < s.len() {
        lemma_value_prefix(s.drop_last(), i);
        assert(s.drop_last().take(i) =~= s.take(i));
    } else {
        assert(s.take(i) =~= s);
    }
}

/// The unsigned number written in `s`, if it is one and no greater than `max`.
pub fn parse_number(s: &str, max: u64) -> (r: Option<u64>)
    ensures
        match r {
            Some(n) => number(s@, max as nat) == Some(n as nat),
            None => number(s@, max as nat) is None,
        },
{
    let c: Vec<char> = chars_of(s);
    let from: usize = if c.len() > 0 && c[0] == '+' {
        1
    } else {
        0
    };
    let ghost d = s@.skip(from as int);
    proof {
        assert(s@.skip(0) =~= s@);
    }
    if from == c.len() {
        return None;
    }
    let mut n: u64 = 0;
    let mut i: usize = from;
    assert(d.take(0) =~= seq![]);
    while i < c.len()
        invariant
            from <= i <= c.len(),
            c@ == s@,
            d == s@.skip(from as int),
            from < c.len(),
            number(s@, max as nat) == (if d.len() > 0 && all_digits(d) && value_of(d) <= max {
                Some(value_of(d))
            } else {
                None
            }),
            n == value_of(d.take(i - from)),
            n <= max,
            forall|j: int| 0 <= j < i - from ==> is_digit(#[trigger] d[j]),
        decreases c.len() - i,
    {
        let code: u32 = code_of(c[i]);
        assert(d[i - from] == s@[i as int]);
        if code < 48 || code > 57 {
            assert(!is_digit(d[i - from]));
            return None;
        }
        let digit: u64 = (code - 48) as u64;
        proof {
            let longer = d.take(i + 1 - from);
            assert(longer.drop_last() =~= d.take(i - from));
            assert(longer.last() == d[i - from]);
            assert(value_of(longer) == n * 10 + digit);
            lemma_value_prefix(d, i + 1 - from);
        }
        if n > (max - digit_or(max, digit)) / 10 || digit > max {
            assert(n * 10 + digit > max);
            return None;
        }
        n = n * 10 + digit;
        i = i + 1;
    }
    assert(d.take(i - from) =~= d);
    Some(n)
}

/// The smaller of the two.
fn digit_or(max: u64, digit: u64) -> (r: u64)
    ensures
        r <= max,
        r == (if digit <= max {
            digit
        } else {
            max
        }),
{
    if digit <= max {
        digit
    } else {
        max
    }
}

/// Decimal notation is read back as the number.
pub proof fn lemma_number_of_dec(n: nat, max: nat)
    requires
        n <= max,
    ensures
        number(dec(n), max) == Some(n),
{
    lemma_value_of_dec(n);
    let s = dec(n);
    assert(is_digit(s[0]));
}

/// Decimal notation denotes the number.
pub proof fn lemma_value_of_dec(n: nat)
    ensures
        all_digits(dec(n)),
        value_of(dec(n)) == n,
        dec(n).len() > 0,
    decreases n,
{
    if n < 10 {
        let s = dec(n);
        assert(s.drop_last() =~= seq![]);
        assert(value_of(s.drop_last()) == 0);
    } else {
        lemma_value_of_dec(n / 10);
        let p = dec(n / 10);
        let s = dec(n);
        assert(s.drop_last() =~= p);
        assert forall|i: int| 0 <= i < s.len() implies is_digit(#[trigger] s[i]) by {
            if i < p.len() {
                assert(is_digit(p[i]));
            }
        }
    }
}

/// `s` with its ASCII letters in lower case.
pub fn ascii_lowercase(s: &str) -> (r: Vec<char>)
    ensures
        r@ == lowered(s@),
{
    let c: Vec<char> = chars_of(s);
    let mut r: Vec<char> = Vec::new();
    let mut i: usize = 0;
    while i < c.len()
        invariant
            i <= c.len(),
            c@ == s@,
            r@.len() == i,
            forall|j: int| 0 <= j < i ==> r@[j] == lower(#[trigger] s@[j]),
        decreases c.len() - i,
    {
        r.push(lower_char(c[i]));
        i = i + 1;
    }
    assert(r@ =~= lowered(s@));
    r
}

fn lower_char(c: char) -> (r: char)
    ensures
        r == lower(c),
{
    let n: u32 = c as u32;
    if 65 <= n && n <= 90 {
        (c as u8 + 32) as char
    } else {
        c
    }
}

/// Whether `a` is before `b`.
pub fn is_less(a: &str, b: &str) -> (r: bool)
    ensures
        r == less(a@, b@),
{
    let x: Vec<char> = chars_of(a);
    let y: Vec<char> = chars_of(b);
    let mut i: usize = 0;
    assert(a@.skip(0) =~= a@);
    assert(b@.skip(0) =~= b@);
    while i < x.len() && i < y.len()
        invariant
            i <= x.len(),
            i <= y.len(),
            x@ == a@,
            y@ == b@,
            less(a@, b@) == less(a@.skip(i as int), b@.skip(i as int)),
        decreases x.len() - i,
    {
        proof {
            assert(a@.skip(i as int).skip(1) =~= a@.skip(i + 1));
            assert(b@.skip(i as int).skip(1) =~= b@.skip(i + 1));
        }
        if x[i] != y[i] {
            return code_of(x[i]) < code_of(y[i]);
        }
        i = i + 1;
    }
    i < y.len()
}

/// Whether `needle` occurs in the characters `h`.
pub fn chars_contain(h: &Vec<char>, needle: &str) -> (r: bool)
    ensures
        r == occurs(h@, needle@),
{
    let n: Vec<char> = chars_of(needle);
    if n.len() > h.len() {
        return false;
    }
    let last: usize = h.len() - n.len();
    let mut i: usize = 0;
    while i <= last
        invariant
            n@ == needle@,
            last + n.len() == h.len(),
            i <= last + 1,
            forall|k: int| 0 <= k < i ==> !#[trigger] occurs_at(h@, needle@, k),
        decreases last + 1 - i,
    {
        let mut j: usize = 0;
        while j < n.len() && h[i + j] == n[j]
            invariant
                n@ == needle@,
                last + n.len() == h.len(),
                i <= last,
                j <= n.len(),
                forall|k: int| 0 <= k < j ==> h@[i + k] == n@[k],
            decreases n.len() - j,
        {
            j = j + 1;
        }
        if j == n.len() {
            assert(h@.subrange(i as int, i + needle@.len()) =~= needle@);
            assert(occurs_at(h@, needle@, i as int));
            return true;
        }
        proof {
            if occurs_at(h@, needle@, i as int) {
                assert(h@.subrange(i as int, i + needle@.len())[j as int] == h@[i + j]);
            }
        }
        if i == last {
            return false;
        }
        i = i + 1;
    }
    false
}

/// A phrase occurs in a text exactly where the text is something, the phrase, and
/// something.
pub proof fn phrases_occur_between_others(before: Seq<char>, needle: Seq<char>, behind: Seq<char>)
    ensures
        occurs(before + needle + behind, needle),
{
    let hay = before + needle + behind;
    let at = before.len() as int;
    assert(hay.subrange(at, at + needle.len()) =~= needle);
    assert(occurs_at(hay, needle, at));
}

/// A phrase that occurs in a text is there from some character on.
pub proof fn occurring_phrases_are_there(hay: Seq<char>, needle: Seq<char>) -> (i: int)
    requires
        occurs(hay, needle),
    ensures
        0 <= i,
        i + needle.len() <= hay.len(),
        forall|k: int| 0 <= k < needle.len() ==> hay[i + k] == #[trigger] needle[k],
{
    let i = choose|i: int| #[trigger] occurs_at(hay, needle, i);
    assert forall|k: int| 0 <= k < needle.len() implies hay[i + k] == #[trigger] needle[k] by {
        assert(hay.subrange(i, i + needle.len())[k] == needle[k]);
    }
    i
}

proof fn lemma_trimmed_start(s: Seq<char>) -> (i: int)
    ensures
        0 <= i <= s.len(),
        trimmed_start(s) == s.skip(i),
        forall|k: int| 0 <= k < i ==> is_blank(#[trigger] s[k]),
        i < s.len() ==> !is_blank(s[i]),
    decreases s.len(),
{
    if s.len() > 0 && is_blank(s[0]) {
        let i = lemma_trimmed_start(s.skip(1));
        assert(s.skip(1).skip(i) =~= s.skip(i + 1));
        assert forall|k: int| 0 <= k < i + 1 implies is_blank(#[trigger] s[k]) by {
            if k > 0 {
                assert(s.skip(1)[k - 1] == s[k]);
            }
        }
        i + 1
    } else {
        assert(s.skip(0) =~= s);
        0
    }
}

proof fn lemma_trimmed_end(s: Seq<char>) -> (i: int)
    ensures
        0 <= i <= s.len(),
        trimmed_end(s) == s.take(i),
        forall|k: int| i <= k < s.len() ==> is_blank(#[trigger] s[k]),
        i > 0 ==> !is_blank(s[i - 1]),
    decreases s.len(),
{
    if s.len() > 0 && is_blank(s.last()) {
        let i = lemma_trimmed_end(s.drop_last());
        assert(s.drop_last().take(i) =~= s.take(i));
        assert forall|k: int| i <= k < s.len() implies is_blank(#[trigger] s[k]) by {
            if k < s.len() - 1 {
                assert(s.drop_last()[k] == s[k]);
            }
        }
        i
    } else {
        assert(s.take(s.len() as int) =~= s);
        s.len() as int
    }
}

/// Trimming takes away the blanks at both ends, and nothing else.
pub proof fn trimming_takes_blanks_away(s: Seq<char>) -> (kept: (int, int))
    ensures
        0 <= kept.0 <= kept.1 <= s.len(),
        trimmed(s) == s.subrange(kept.0, kept.1),
        forall|k: int| 0 <= k < kept.0 ==> is_blank(#[trigger] s[k]),
        forall|k: int| kept.1 <= k < s.len() ==> is_blank(#[trigger] s[k]),
        kept.0 < kept.1 ==> !is_blank(s[kept.0]) && !is_blank(s[kept.1 - 1]),
{
    let i = lemma_trimmed_start(s);
    let rest = s.skip(i);
    let n = lemma_trimmed_end(rest);
    assert(rest.take(n) =~= s.subrange(i, i + n));
    assert forall|k: int| i + n <= k < s.len() implies is_blank(#[trigger] s[k]) by {
        assert(rest[k - i] == s[k]);
    }
    if n > 0 {
        assert(rest[n - 1] == s[i + n - 1]);
        assert(rest[0] == s[i]);
    }
    (i, i + n)
}

/// Spaces and line ends are blank, and no printing character of ASCII is.
pub proof fn spaces_are_blank(c: char)
    ensures
        is_blank(' ') && is_blank('\n') && is_blank('\t') && is_blank('\r'),
        '!' <= c <= '~' ==> !is_blank(c),
{
}

/// The pieces of a text joined by the separator are the text, and none of them has
/// the separator in it.
pub proof fn pieces_make_up_the_text(s: Seq<char>, sep: char)
    ensures
        pieces(s, sep).len() > 0,
        joined(pieces(s, sep), seq![sep]) == s,
        forall|i: int|
            0 <= i < pieces(s, sep).len() ==> !(#[trigger] pieces(s, sep)[i]).contains(sep),
    decreases s.len(),
{
    let all = pieces(s, sep);
    if s.len() > 0 {
        let front = s.drop_last();
        let p = pieces(front, sep);
        pieces_make_up_the_text(front, sep);
        assert(front.push(s.last()) =~= s);
        if s.last() == sep {
            assert(all.drop_last() =~= p);
            assert(joined(all, seq![sep]) == joined(p, seq![sep]) + seq![sep] + Seq::<char>::empty());
            assert(joined(all, seq![sep]) =~= s);
            assert forall|i: int| 0 <= i < all.len() implies !(#[trigger] all[i]).contains(sep) by {
                if i < p.len() {
                    assert(all[i] == p[i]);
                }
            }
        } else {
            let last = p.last().push(s.last());
            assert(all.drop_last() =~= p.drop_last());
            assert(all.last() == last);
            if p.len() == 1 {
                assert(all[0] == last);
                assert(joined(p, seq![sep]) == p[0]);
                assert(joined(all, seq![sep]) =~= s);
            } else {
                assert(joined(all, seq![sep]) == joined(p.drop_last(), seq![sep]) + seq![sep]
                    + last);
                assert(joined(p, seq![sep]) == joined(p.drop_last(), seq![sep]) + seq![sep]
                    + p.last());
                assert(joined(all, seq![sep]) =~= s);
            }
            assert forall|i: int| 0 <= i < all.len() implies !(#[trigger] all[i]).contains(sep) by {
                if i < p.len() - 1 {
                    assert(all[i] == p[i]);
                } else {
                    assert(!p[p.len() - 1].contains(sep));
                    assert(p.last() == p[p.len() - 1]);
                    if last.contains(sep) {
                        let k = choose|k: int| 0 <= k < last.len() && last[k] == sep;
                        assert(k < p.last().len());
                        assert(p.last()[k] == sep);
                    }
                }
            }
        }
    } else {
        assert(all[0].len() == 0);
        assert(joined(all, seq![sep]) =~= s);
    }
}

proof fn lemma_first_at(s: Seq<char>, sep: char, n: int) -> (i: int)
    requires
        0 <= n < s.len(),
        s[n] == sep,
    ensures
        first_at(s, sep, i),
    decreases n,
{
    if forall|j: int| 0 <= j < n ==> s[j] != sep {
        n
    } else {
        let j = choose|j: int| 0 <= j < n && s[j] == sep;
        lemma_first_at(s, sep, j)
    }
}

/// A text is cut where the separator first is: before it there is none, and with it
/// the two parts are the text.
pub proof fn texts_are_cut_at_the_first_separator(s: Seq<char>, sep: char)
    ensures
        cut(s, sep) is Some <==> s.contains(sep),
        cut(s, sep) matches Some((a, b)) ==> s == a.push(sep) + b && !a.contains(sep),
{
    if s.contains(sep) {
        let n = choose|n: int| 0 <= n < s.len() && s[n] == sep;
        let first = lemma_first_at(s, sep, n);
        let i = choose|i: int| first_at(s, sep, i);
        assert(first_at(s, sep, i));
        assert(s =~= s.take(i).push(sep) + s.skip(i + 1));
    }
}

/// Parts are joined in order, with the separator between them.
pub proof fn parts_are_joined_in_order(parts: Seq<Seq<char>>, part: Seq<char>, sep: Seq<char>)
    ensures
        joined(Seq::empty(), sep).len() == 0,
        joined(seq![part], sep) == part,
        parts.len() > 0 ==> joined(parts.push(part), sep) == joined(parts, sep) + sep + part,
{
    assert(parts.push(part).drop_last() == parts);
}

/// Numbers are read in decimal: of nothing but digits, with a plus sign before them
/// or none, and no greater than allowed.
pub proof fn numbers_are_read_in_decimal(s: Seq<char>, c: char, max: nat)
    ensures
        value_of(Seq::empty()) == 0,
        '0' <= c <= '9' ==> value_of(s.push(c)) == 10 * value_of(s) + (c as int - '0' as int),
        all_digits(s) <==> forall|i: int| 0 <= i < s.len() ==> '0' <= (#[trigger] s[i]) <= '9',
        s.len() > 0 && all_digits(s) && value_of(s) <= max ==> number(s, max) == Some(value_of(s))
            && number(seq!['+'] + s, max) == Some(value_of(s)),
        s.len() > 0 && all_digits(s) && value_of(s) > max ==> number(s, max) is None,
        number(Seq::empty(), max) is None,
        s.len() > 0 && s[0] != '+' && !all_digits(s) ==> number(s, max) is None,
{
    assert(s.push(c).drop_last() == s);
    assert((seq!['+'] + s).skip(1) =~= s);
    if s.len() > 0 && all_digits(s) {
        assert(is_digit(s[0]));
    }
}

/// Numbers are written in decimal, without leading zeros, and those that are padded
/// have as many zeros before them as they need.
pub proof fn numbers_are_written_in_decimal(n: nat, width: nat)
    ensures
        n > 0 ==> dec(n)[0] != '0',
        n < 10 ==> dec(n).len() == 1,
        dec(10 * n + 1) == dec(10 * n).drop_last().push('1'),
        dec_padded(n, width).len() >= width,
        dec_padded(n, width).len() == if dec(n).len() >= width {
            dec(n).len()
        } else {
            width
        },
        forall|i: int|
            0 <= i < dec_padded(n, width).len() - dec(n).len() ==> (#[trigger] dec_padded(
                n,
                width,
            )[i]) == '0',
        dec_padded(n, width).skip(dec_padded(n, width).len() - dec(n).len()) == dec(n),
    decreases n,
{
    if n >= 10 {
        numbers_are_written_in_decimal(n / 10, 0);
        assert(dec(n)[0] == dec(n / 10)[0]) by {
            lemma_dec_len(n / 10);
        }
    }
    if n > 0 {
        assert(dec(10 * n + 1) == dec(n).push(digit(1)));
        assert(dec(10 * n) == dec(n).push(digit(0)));
        assert(dec(10 * n).drop_last() =~= dec(n));
    } else {
        assert(dec(0).drop_last() =~= Seq::<char>::empty());
        assert(dec(1) =~= seq!['1']);
    }
}

/// Hexadecimal digits follow one another from the most significant on, in lower
/// case.
pub proof fn hexadecimal_is_written_in_lower_case(n: nat, d: nat, width: nat)
    requires
        d < 16,
    ensures
        hex_padded(n, 0).len() == 0,
        hex_padded(16 * n + d, width + 1) == hex_padded(n, width).push(hex_digit(d)),
        d < 10 ==> hex_digit(d) as int == '0' as int + d,
        d >= 10 ==> hex_digit(d) as int == 'a' as int + (d - 10),
{
    assert((16 * n + d) / 16 == n);
    assert((16 * n + d) % 16 == d);
}

/// Lowering changes capital letters of ASCII to small ones, and nothing else.
pub proof fn lowering_changes_capitals(s: Seq<char>, i: int)
    requires
        0 <= i < s.len(),
    ensures
        lowered(s).len() == s.len(),
        'A' <= s[i] <= 'Z' ==> lowered(s)[i] as int == s[i] as int + 32,
        !('A' <= s[i] <= 'Z') ==> lowered(s)[i] == s[i],
{
}

/// Texts are ordered by the first character in which they differ, and a text comes
/// before what it begins.
pub proof fn texts_are_ordered_by_their_characters(a: Seq<char>, b: Seq<char>, n: int)
    requires
        0 <= n <= a.len(),
        n <= b.len(),
        forall|i: int| 0 <= i < n ==> a[i] == b[i],
    ensures
        n < a.len() && n < b.len() && a[n] < b[n] ==> less(a, b),
        n < a.len() && n < b.len() && a[n] > b[n] ==> !less(a, b),
        n == a.len() && n < b.len() ==> less(a, b),
        n == b.len() ==> !less(a, b),
    decreases n,
{
    if n > 0 {
        assert forall|i: int| 0 <= i < n - 1 implies a.skip(1)[i] == b.skip(1)[i] by {
            assert(a[i + 1] == b[i + 1]);
        }
        texts_are_ordered_by_their_characters(a.skip(1), b.skip(1), n - 1);
    }
}

} // verus!
